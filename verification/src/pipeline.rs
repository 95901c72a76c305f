//! A whole input, taken line by line.

use vstd::prelude::*;
use vstd::string::*;
use crate::assembler::{record_output, Assembler, AssemblerView};
use crate::config::Config;

verus! {

/// The text of each line.
pub open spec fn line_texts(lines: Seq<String>) -> Seq<Seq<char>> {
    Seq::new(lines.len(), |i: int| lines[i]@)
}

/// What is written for what may be a record: its text, or nothing.
pub open spec fn written(output: Option<Seq<char>>) -> Seq<char> {
    match output {
        Some(text) => text,
        None => Seq::empty(),
    }
}

/// What is written for a whole input. The lines are taken as records of
/// four lines, or of eight for pairs, in their order. What each record gives
/// is written in that order. Lines at the end that do not fill a record are
/// dropped.
pub open spec fn stream_output(lines: Seq<Seq<char>>, config: Config) -> Seq<char>
    decreases lines.len(),
{
    let size = config.lines_per_record() as int;
    if lines.len() < size {
        Seq::empty()
    } else {
        written(record_output(lines.take(size), config)) + stream_output(lines.skip(size), config)
    }
}

/// The state that the lines of an input lead to, when they are taken one by
/// one from the start.
pub open spec fn state_after(lines: Seq<Seq<char>>, config: Config) -> AssemblerView
    decreases lines.len(),
{
    if lines.len() == 0 {
        AssemblerView::start(config)
    } else {
        state_after(lines.drop_last(), config).advance(lines.last())
    }
}

/// All that is written while the lines of an input are taken one by one
/// from the start.
pub open spec fn written_after(lines: Seq<Seq<char>>, config: Config) -> Seq<char>
    decreases lines.len(),
{
    if lines.len() == 0 {
        Seq::empty()
    } else {
        written_after(lines.drop_last(), config) + written(
            state_after(lines.drop_last(), config).emitted(lines.last()),
        )
    }
}

/// Facts on counting lines in records of four or of eight.
proof fn lemma_counting_in_records(count: nat, config: Config)
    ensures
        ({
            let size = config.lines_per_record();
            &&& count % size < size
            &&& (count - count % size) % (size as int) == 0
            &&& count % size + 1 == size ==> (count + 1) % size == 0
            &&& count % size + 1 != size ==> (count + 1) % size == count % size + 1
            &&& count % size == 0 && count > 0 ==> count >= size && (count - size) % (size as int)
                == 0
        }),
{
    if config.paired_end {
        assert(config.lines_per_record() == 8);
    } else {
        assert(config.lines_per_record() == 4);
    }
}

/// After a whole number of records, what is written for the rest of the
/// input follows what was written for them.
pub proof fn lemma_stream_output_splits(
    records: Seq<Seq<char>>,
    rest: Seq<Seq<char>>,
    config: Config,
)
    requires
        records.len() % config.lines_per_record() == 0,
    ensures
        stream_output(records + rest, config) == stream_output(records, config) + stream_output(
            rest,
            config,
        ),
    decreases records.len(),
{
    let size = config.lines_per_record() as int;
    lemma_counting_in_records(records.len(), config);
    if records.len() == 0 {
        assert(records + rest =~= rest);
    } else {
        let all = records + rest;
        assert(all.take(size) =~= records.take(size));
        assert(all.skip(size) =~= records.skip(size) + rest);
        lemma_stream_output_splits(records.skip(size), rest, config);
    }
}

/// Lines after the last complete record, fewer than a record has, change
/// nothing of what is written.
pub proof fn lemma_partial_record_is_dropped(
    records: Seq<Seq<char>>,
    rest: Seq<Seq<char>>,
    config: Config,
)
    requires
        records.len() % config.lines_per_record() == 0,
        rest.len() < config.lines_per_record(),
    ensures
        stream_output(records + rest, config) == stream_output(records, config),
{
    lemma_stream_output_splits(records, rest, config);
}

/// For lines that make up exactly one record, what is written is what the
/// record gives.
proof fn lemma_stream_output_of_one_record(record: Seq<Seq<char>>, config: Config)
    requires
        record.len() == config.lines_per_record(),
    ensures
        stream_output(record, config) == written(record_output(record, config)),
{
    let size = config.lines_per_record() as int;
    assert(record.take(size) =~= record);
    assert(stream_output(record.skip(size), config) =~= Seq::<char>::empty());
}

/// Taking the lines one by one writes what `stream_output` says, and leaves
/// pending the lines after the last complete record.
pub proof fn lemma_steps_write_stream_output(lines: Seq<Seq<char>>, config: Config)
    ensures
        written_after(lines, config) == stream_output(lines, config),
        state_after(lines, config).config == config,
        state_after(lines, config).pending == lines.skip(
            lines.len() - lines.len() % config.lines_per_record(),
        ),
    decreases lines.len(),
{
    if lines.len() == 0 {
        assert(lines.skip(0) =~= lines);
    } else {
        let init = lines.drop_last();
        let last = lines.last();
        lemma_steps_write_stream_output(init, config);
        lemma_counting_in_records(init.len(), config);
        let before = state_after(init, config);
        let done = init.len() - init.len() % config.lines_per_record();
        // the records that are complete before the last line, and the lines
        // of the record that the last line belongs to
        let records = init.take(done);
        let record = before.pending.push(last);
        assert(init =~= records + before.pending);
        assert(lines =~= records + record);
        lemma_partial_record_is_dropped(records, before.pending, config);
        assert(written_after(init, config) == stream_output(records, config));
        if before.completes() {
            assert(state_after(lines, config).pending =~= lines.skip(lines.len() as int));
            lemma_stream_output_splits(records, record, config);
            lemma_stream_output_of_one_record(record, config);
        } else {
            assert(state_after(lines, config).pending =~= lines.skip(done));
            lemma_partial_record_is_dropped(records, record, config);
        }
    }
}

/// Cleans a whole input that is held in memory: trims every read and hands
/// back the text of the records that are kept.
pub fn clean_lines(lines: &Vec<String>, config: &Config) -> (output: String)
    ensures
        output@ == stream_output(line_texts(lines@), *config),
{
    let ghost texts = line_texts(lines@);
    let mut output = String::new();
    let mut assembler = Assembler::new(*config);
    let mut i: usize = 0;
    while i < lines.len()
        invariant
            i <= lines.len(),
            texts == line_texts(lines@),
            assembler@ == state_after(texts.take(i as int), *config),
            output@ == written_after(texts.take(i as int), *config),
        decreases lines.len() - i,
    {
        proof {
            assert(texts.take(i + 1).drop_last() =~= texts.take(i as int));
        }
        let (next, text) = assembler.step(lines[i].clone());
        assembler = next;
        if let Some(t) = text {
            output.append(t.as_str());
        }
        i = i + 1;
    }
    proof {
        assert(texts.take(lines.len() as int) =~= texts);
        lemma_steps_write_stream_output(texts, *config);
    }
    output
}

} // verus!
