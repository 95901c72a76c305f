//! One read, the test it has to pass, and its text form.

use vstd::prelude::*;
use vstd::string::*;
use crate::config::Config;
use crate::floor::mean_reaches;
use crate::quality::{avg_quality, total_score};
use crate::trimmer::{lemma_trim_keeps_alignment, trim, trimmed_quality, trimmed_sequence};

verus! {

/// A sequencing read: a name, the bases, and one quality character for each
/// base.
#[derive(Debug, PartialEq, Eq)]
pub struct Read {
    pub identifier: String,
    pub sequence: String,
    pub quality: String,
}

/// Whether a trimmed read is kept: it has at least `min_length` bases, and
/// the mean of its quality scores is at least `min_avg_quality`. A read
/// without quality characters has no mean and is not kept.
pub open spec fn survives(sequence: Seq<char>, quality: Seq<char>, config: Config) -> bool {
    &&& sequence.len() >= config.min_length
    &&& mean_reaches(total_score(quality), quality.len(), config.min_avg_quality)
}

/// The four lines of a read in FASTQ form: the name, the bases, a line that
/// holds a plus sign, the qualities. Each line ends with a line feed.
pub open spec fn fastq(
    identifier: Seq<char>,
    sequence: Seq<char>,
    quality: Seq<char>,
) -> Seq<char> {
    identifier + seq!['\n'] + sequence + seq!['\n', '+', '\n'] + quality + seq!['\n']
}

impl Clone for Read {
    fn clone(&self) -> (copy: Read)
        ensures
            copy == *self,
    {
        Read {
            identifier: self.identifier.clone(),
            sequence: self.sequence.clone(),
            quality: self.quality.clone(),
        }
    }
}

impl Read {
    /// Whether there is one quality character for each base.
    pub open spec fn co_indexed(&self) -> bool {
        self.sequence@.len() == self.quality@.len()
    }

    /// Cuts the low-quality ends off the read. The name stays, and a read
    /// with one quality character for each base stays such a read.
    pub fn trimmed(self, min_quality: u8) -> (read: Read)
        ensures
            read.identifier@ == self.identifier@,
            read.sequence@ == trimmed_sequence(self.sequence@, self.quality@, min_quality),
            read.quality@ == trimmed_quality(self.quality@, min_quality),
            self.co_indexed() ==> read.co_indexed(),
    {
        proof {
            lemma_trim_keeps_alignment(self.sequence@, self.quality@, min_quality);
        }
        let (sequence, quality) = trim(&self.sequence, &self.quality, min_quality);
        Read { identifier: self.identifier, sequence, quality }
    }

    /// Decides whether the read, taken as trimmed, is kept.
    pub fn passes(&self, config: &Config) -> (kept: bool)
        ensures
            kept == survives(self.sequence@, self.quality@, *config),
    {
        if self.sequence.as_str().unicode_len() < config.min_length {
            return false;
        }
        match avg_quality(&self.quality) {
            Some(mean) => config.min_avg_quality.admits(&mean),
            None => false,
        }
    }

    /// Writes the read out in FASTQ form.
    pub fn to_fastq(&self) -> (text: String)
        ensures
            text@ == fastq(self.identifier@, self.sequence@, self.quality@),
    {
        proof {
            reveal_strlit("\n");
            reveal_strlit("\n+\n");
        }
        let mut text = self.identifier.clone();
        text.append("\n");
        text.append(self.sequence.as_str());
        text.append("\n+\n");
        text.append(self.quality.as_str());
        text.append("\n");
        assert(text@ =~= fastq(self.identifier@, self.sequence@, self.quality@));
        text
    }
}

} // verus!
