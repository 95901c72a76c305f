//! Putting records together from lines, one line at a time.

use vstd::prelude::*;
use vstd::string::*;
use crate::config::Config;
use crate::floor::mean_equals;
use crate::quality::total_score;
use crate::read::{fastq, survives, Read};
use crate::trimmer::{trimmed_quality, trimmed_sequence};

verus! {

/// The part that the next line plays in its record. A single read goes
/// through the first four stages, a pair through all eight.
#[derive(Clone, Copy, Debug, PartialEq, Eq, Structural)]
pub enum Stage {
    Identifier1,
    Sequence1,
    Separator1,
    Quality1,
    Identifier2,
    Sequence2,
    Separator2,
    Quality2,
}

impl Stage {
    /// The number of lines of the record that came before this stage.
    pub open spec fn position(self) -> nat {
        match self {
            Stage::Identifier1 => 0,
            Stage::Sequence1 => 1,
            Stage::Separator1 => 2,
            Stage::Quality1 => 3,
            Stage::Identifier2 => 4,
            Stage::Sequence2 => 5,
            Stage::Separator2 => 6,
            Stage::Quality2 => 7,
        }
    }
}

/// What is written for one complete record, if anything.
///
/// Of the lines of a record, the first and the fifth are names, the second
/// and the sixth are bases, the fourth and the eighth are qualities; the
/// third and the seventh are not looked at. Each read is trimmed. A single
/// read is written if it survives. A pair is written, the first read before
/// the second, if both survive; else neither is.
pub open spec fn record_output(record: Seq<Seq<char>>, config: Config) -> Option<Seq<char>>
    recommends
        record.len() == config.lines_per_record(),
{
    let sequence_1 = trimmed_sequence(record[1], record[3], config.min_trim_quality);
    let quality_1 = trimmed_quality(record[3], config.min_trim_quality);
    if !config.paired_end {
        if survives(sequence_1, quality_1, config) {
            Some(fastq(record[0], sequence_1, quality_1))
        } else {
            None
        }
    } else {
        let sequence_2 = trimmed_sequence(record[5], record[7], config.min_trim_quality);
        let quality_2 = trimmed_quality(record[7], config.min_trim_quality);
        if survives(sequence_1, quality_1, config) && survives(sequence_2, quality_2, config) {
            Some(fastq(record[0], sequence_1, quality_1) + fastq(record[4], sequence_2, quality_2))
        } else {
            None
        }
    }
}

/// The thresholds include their bounds: a single read that after trimming
/// has exactly `min_length` bases, and a mean quality of exactly
/// `min_avg_quality`, is written.
pub proof fn lemma_bounds_are_included(record: Seq<Seq<char>>, config: Config)
    requires
        !config.paired_end,
        record.len() == 4,
        trimmed_sequence(record[1], record[3], config.min_trim_quality).len() == config.min_length,
        mean_equals(
            total_score(trimmed_quality(record[3], config.min_trim_quality)),
            trimmed_quality(record[3], config.min_trim_quality).len(),
            config.min_avg_quality,
        ),
    ensures
        record_output(record, config) == Some(
            fastq(
                record[0],
                trimmed_sequence(record[1], record[3], config.min_trim_quality),
                trimmed_quality(record[3], config.min_trim_quality),
            ),
        ),
{
}

/// The reads of a pair are written together or not at all.
pub proof fn lemma_pair_is_atomic(record: Seq<Seq<char>>, config: Config)
    requires
        config.paired_end,
        record.len() == 8,
    ensures
        ({
            let floor = config.min_trim_quality;
            let sequence_1 = trimmed_sequence(record[1], record[3], floor);
            let quality_1 = trimmed_quality(record[3], floor);
            let sequence_2 = trimmed_sequence(record[5], record[7], floor);
            let quality_2 = trimmed_quality(record[7], floor);
            let both = survives(sequence_1, quality_1, config) && survives(
                sequence_2,
                quality_2,
                config,
            );
            &&& both ==> record_output(record, config) == Some(
                fastq(record[0], sequence_1, quality_1) + fastq(record[4], sequence_2, quality_2),
            )
            &&& !both ==> record_output(record, config) is None
        }),
{
}

/// A pair whose second read is too short after trimming is not written,
/// though its first read meets every threshold.
pub proof fn lemma_short_mate_drops_pair(record: Seq<Seq<char>>, config: Config)
    requires
        config.paired_end,
        record.len() == 8,
        survives(
            trimmed_sequence(record[1], record[3], config.min_trim_quality),
            trimmed_quality(record[3], config.min_trim_quality),
            config,
        ),
        trimmed_sequence(record[5], record[7], config.min_trim_quality).len() < config.min_length,
    ensures
        record_output(record, config) is None,
{
}

/// The state between two lines: the settings, and the lines of the record
/// that is under way.
pub struct AssemblerView {
    pub config: Config,
    pub pending: Seq<Seq<char>>,
}

impl AssemblerView {
    /// The state before the first line.
    pub open spec fn start(config: Config) -> AssemblerView {
        AssemblerView { config, pending: Seq::empty() }
    }

    /// Whether the next line is the last one of its record.
    pub open spec fn completes(self) -> bool {
        self.pending.len() + 1 == self.config.lines_per_record()
    }

    /// The state after one more line. The line joins the lines that are
    /// pending, and after the last line of a record none is pending.
    pub open spec fn advance(self, line: Seq<char>) -> AssemblerView {
        AssemblerView {
            config: self.config,
            pending: if self.completes() {
                Seq::empty()
            } else {
                self.pending.push(line)
            },
        }
    }

    /// What is written when one more line arrives: nothing, unless the line
    /// completes a record.
    pub open spec fn emitted(self, line: Seq<char>) -> Option<Seq<char>> {
        if self.completes() {
            record_output(self.pending.push(line), self.config)
        } else {
            None
        }
    }
}

/// The characters of a text that may be absent.
pub open spec fn text_of(text: Option<String>) -> Option<Seq<char>> {
    match text {
        Some(t) => Some(t@),
        None => None,
    }
}

/// Takes the lines of the input one by one and keeps what it needs of the
/// record that is under way: the name and the bases of the read that is
/// being read, and the first read of a pair, trimmed, while the second is
/// being read. Between two records it holds nothing.
pub struct Assembler {
    config: Config,
    stage: Stage,
    identifier: String,
    sequence: String,
    first: Read,
    pending: Ghost<Seq<Seq<char>>>,
}

impl View for Assembler {
    type V = AssemblerView;

    closed spec fn view(&self) -> AssemblerView {
        AssemblerView { config: self.config, pending: self.pending@ }
    }
}

impl Assembler {
    #[verifier::type_invariant]
    spec fn well_formed(self) -> bool {
        let lines = self.pending@;
        let floor = self.config.min_trim_quality;
        &&& lines.len() == self.stage.position()
        &&& lines.len() < self.config.lines_per_record()
        &&& match self.stage {
            Stage::Identifier1 => {
                &&& self.identifier@.len() == 0
                &&& self.sequence@.len() == 0
                &&& self.first.identifier@.len() == 0
                &&& self.first.sequence@.len() == 0
                &&& self.first.quality@.len() == 0
            },
            Stage::Sequence1 => self.identifier@ == lines[0],
            Stage::Separator1 | Stage::Quality1 => {
                &&& self.identifier@ == lines[0]
                &&& self.sequence@ == lines[1]
            },
            _ => {
                &&& self.first.identifier@ == lines[0]
                &&& self.first.sequence@ == trimmed_sequence(lines[1], lines[3], floor)
                &&& self.first.quality@ == trimmed_quality(lines[3], floor)
            },
        }
        &&& match self.stage {
            Stage::Sequence2 => self.identifier@ == lines[4],
            Stage::Separator2 | Stage::Quality2 => {
                &&& self.identifier@ == lines[4]
                &&& self.sequence@ == lines[5]
            },
            _ => true,
        }
    }

    /// An assembler at the start of a record.
    pub fn new(config: Config) -> (assembler: Assembler)
        ensures
            assembler@ == AssemblerView::start(config),
    {
        Assembler {
            config,
            stage: Stage::Identifier1,
            identifier: String::new(),
            sequence: String::new(),
            first: Read {
                identifier: String::new(),
                sequence: String::new(),
                quality: String::new(),
            },
            pending: Ghost(Seq::empty()),
        }
    }

    /// The settings that the assembler was made with.
    pub fn config(&self) -> (config: Config)
        ensures
            config == self@.config,
    {
        self.config
    }

    /// The part that the next line will play.
    pub fn stage(&self) -> (stage: Stage)
        ensures
            stage.position() == self@.pending.len(),
            stage.position() < self@.config.lines_per_record(),
    {
        proof {
            use_type_invariant(self);
        }
        self.stage
    }

    /// Takes the next line of the input.
    ///
    /// The line is stored or passed over by the part it plays in its record.
    /// A quality line has its read trimmed. The last line of a record has
    /// the record tested, and the text to write is handed back if the
    /// record is kept.
    pub fn step(self, line: String) -> (next: (Assembler, Option<String>))
        ensures
            next.0@ == self@.advance(line@),
            text_of(next.1) == self@.emitted(line@),
            next.0@.pending.len() < self@.config.lines_per_record(),
    {
        proof {
            use_type_invariant(&self);
        }
        let ghost lines = self.pending@.push(line@);
        let Assembler { config, stage, identifier, sequence, first, pending: _ } = self;
        match stage {
            Stage::Identifier1 => (
                Assembler {
                    config,
                    stage: Stage::Sequence1,
                    identifier: line,
                    sequence,
                    first,
                    pending: Ghost(lines),
                },
                None,
            ),
            Stage::Sequence1 => (
                Assembler {
                    config,
                    stage: Stage::Separator1,
                    identifier,
                    sequence: line,
                    first,
                    pending: Ghost(lines),
                },
                None,
            ),
            Stage::Separator1 => (
                Assembler {
                    config,
                    stage: Stage::Quality1,
                    identifier,
                    sequence,
                    first,
                    pending: Ghost(lines),
                },
                None,
            ),
            Stage::Quality1 => {
                let read = Read { identifier, sequence, quality: line }.trimmed(
                    config.min_trim_quality,
                );
                if config.paired_end {
                    (
                        Assembler {
                            config,
                            stage: Stage::Identifier2,
                            identifier: String::new(),
                            sequence: String::new(),
                            first: read,
                            pending: Ghost(lines),
                        },
                        None,
                    )
                } else {
                    let text = if read.passes(&config) {
                        Some(read.to_fastq())
                    } else {
                        None
                    };
                    (Assembler::new(config), text)
                }
            },
            Stage::Identifier2 => (
                Assembler {
                    config,
                    stage: Stage::Sequence2,
                    identifier: line,
                    sequence,
                    first,
                    pending: Ghost(lines),
                },
                None,
            ),
            Stage::Sequence2 => (
                Assembler {
                    config,
                    stage: Stage::Separator2,
                    identifier,
                    sequence: line,
                    first,
                    pending: Ghost(lines),
                },
                None,
            ),
            Stage::Separator2 => (
                Assembler {
                    config,
                    stage: Stage::Quality2,
                    identifier,
                    sequence,
                    first,
                    pending: Ghost(lines),
                },
                None,
            ),
            Stage::Quality2 => {
                let second = Read { identifier, sequence, quality: line }.trimmed(
                    config.min_trim_quality,
                );
                let text = if first.passes(&config) && second.passes(&config) {
                    let mut text = first.to_fastq();
                    text.append(second.to_fastq().as_str());
                    Some(text)
                } else {
                    None
                };
                (Assembler::new(config), text)
            },
        }
    }
}

} // verus!
