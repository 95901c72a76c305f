//! Cutting the low-quality ends off a read.

use vstd::prelude::*;
use vstd::string::*;
use vstd::math::min;
use crate::quality::{score, PHRED_OFFSET};

verus! {

/// Whether a quality character encodes a score under `min_quality`.
pub open spec fn below_floor(c: char, min_quality: u8) -> bool {
    (c as int) < min_quality as int + PHRED_OFFSET as int
}

/// How many characters at the start of `quality`, taken without a gap, are
/// below the floor.
pub open spec fn leading_low(quality: Seq<char>, min_quality: u8) -> nat
    decreases quality.len(),
{
    if quality.len() > 0 && below_floor(quality.first(), min_quality) {
        1 + leading_low(quality.drop_first(), min_quality)
    } else {
        0
    }
}

/// How many characters at the end of `quality`, taken without a gap, are
/// below the floor.
pub open spec fn trailing_low(quality: Seq<char>, min_quality: u8) -> nat
    decreases quality.len(),
{
    if quality.len() > 0 && below_floor(quality.last(), min_quality) {
        1 + trailing_low(quality.drop_last(), min_quality)
    } else {
        0
    }
}

/// The position of the first base that is kept.
pub open spec fn trim_start(quality: Seq<char>, min_quality: u8) -> int {
    leading_low(quality, min_quality) as int
}

/// The position just after the last base that is kept.
pub open spec fn trim_end(quality: Seq<char>, min_quality: u8) -> int {
    quality.len() - trailing_low(quality, min_quality)
}

/// The characters of `text` at the positions from `start` up to, not
/// including, `end`. An empty or inverted window holds nothing. Where `text`
/// is shorter than the window, the window ends with `text`.
pub open spec fn window(text: Seq<char>, start: int, end: int) -> Seq<char> {
    if start >= end {
        Seq::empty()
    } else {
        text.subrange(min(start, text.len() as int), min(end, text.len() as int))
    }
}

/// The quality string of a read after trimming.
pub open spec fn trimmed_quality(quality: Seq<char>, min_quality: u8) -> Seq<char> {
    window(quality, trim_start(quality, min_quality), trim_end(quality, min_quality))
}

/// The bases of a read after trimming. The positions are those found in the
/// quality string, since the two are indexed alike.
pub open spec fn trimmed_sequence(
    sequence: Seq<char>,
    quality: Seq<char>,
    min_quality: u8,
) -> Seq<char> {
    window(sequence, trim_start(quality, min_quality), trim_end(quality, min_quality))
}

/// `trim_start` is the first position whose character is not below the
/// floor, or the length where there is none.
pub proof fn lemma_trim_start(quality: Seq<char>, min_quality: u8)
    ensures
        0 <= trim_start(quality, min_quality) <= quality.len(),
        forall|j: int|
            0 <= j < trim_start(quality, min_quality) ==> below_floor(
                #[trigger] quality[j],
                min_quality,
            ),
        trim_start(quality, min_quality) < quality.len() ==> !below_floor(
            quality[trim_start(quality, min_quality)],
            min_quality,
        ),
    decreases quality.len(),
{
    if quality.len() > 0 && below_floor(quality.first(), min_quality) {
        let rest = quality.drop_first();
        lemma_trim_start(rest, min_quality);
        assert forall|j: int| 0 <= j < trim_start(quality, min_quality) implies below_floor(
            #[trigger] quality[j],
            min_quality,
        ) by {
            if j > 0 {
                assert(quality[j] == rest[j - 1]);
            }
        }
        let start = trim_start(quality, min_quality);
        if start < quality.len() {
            assert(quality[start] == rest[start - 1]);
        }
    }
}

/// `trim_end` is the position after the last character that is not below
/// the floor, or zero where there is none.
pub proof fn lemma_trim_end(quality: Seq<char>, min_quality: u8)
    ensures
        0 <= trim_end(quality, min_quality) <= quality.len(),
        forall|j: int|
            trim_end(quality, min_quality) <= j < quality.len() ==> below_floor(
                #[trigger] quality[j],
                min_quality,
            ),
        trim_end(quality, min_quality) > 0 ==> !below_floor(
            quality[trim_end(quality, min_quality) - 1],
            min_quality,
        ),
    decreases quality.len(),
{
    if quality.len() > 0 && below_floor(quality.last(), min_quality) {
        let rest = quality.drop_last();
        lemma_trim_end(rest, min_quality);
        assert forall|j: int|
            trim_end(quality, min_quality) <= j < quality.len() implies below_floor(
            #[trigger] quality[j],
            min_quality,
        ) by {
            if j < rest.len() {
                assert(quality[j] == rest[j]);
            }
        }
        let end = trim_end(quality, min_quality);
        if end > 0 {
            assert(quality[end - 1] == rest[end - 1]);
        }
    }
}

/// A position with only low characters before it, and none or a kept one at
/// it, is `trim_start`.
pub proof fn lemma_trim_start_unique(quality: Seq<char>, min_quality: u8, first: int)
    requires
        0 <= first <= quality.len(),
        forall|j: int| 0 <= j < first ==> below_floor(#[trigger] quality[j], min_quality),
        first < quality.len() ==> !below_floor(quality[first], min_quality),
    ensures
        trim_start(quality, min_quality) == first,
{
    lemma_trim_start(quality, min_quality);
    let start = trim_start(quality, min_quality);
    if start < first {
        assert(below_floor(quality[start], min_quality));
    } else if first < start {
        assert(below_floor(quality[first], min_quality));
    }
}

/// A position with only low characters from it on, and none or a kept one
/// just before it, is `trim_end`.
pub proof fn lemma_trim_end_unique(quality: Seq<char>, min_quality: u8, end: int)
    requires
        0 <= end <= quality.len(),
        forall|j: int| end <= j < quality.len() ==> below_floor(#[trigger] quality[j], min_quality),
        end > 0 ==> !below_floor(quality[end - 1], min_quality),
    ensures
        trim_end(quality, min_quality) == end,
{
    lemma_trim_end(quality, min_quality);
    let last = trim_end(quality, min_quality);
    if last < end {
        assert(below_floor(quality[end - 1], min_quality));
    } else if end < last {
        assert(below_floor(quality[last - 1], min_quality));
    }
}

/// A read whose every quality score reaches the floor is trimmed to itself.
/// Bases beyond the last quality character, of which a read has none, are
/// cut off.
pub proof fn lemma_clean_read_unchanged(sequence: Seq<char>, quality: Seq<char>, min_quality: u8)
    requires
        forall|j: int| 0 <= j < quality.len() ==> score(#[trigger] quality[j]) >= min_quality,
    ensures
        trimmed_quality(quality, min_quality) == quality,
        sequence.len() <= quality.len() ==> trimmed_sequence(sequence, quality, min_quality)
            == sequence,
        sequence.len() > quality.len() ==> trimmed_sequence(sequence, quality, min_quality)
            == sequence.take(quality.len() as int),
{
    lemma_trim_start_unique(quality, min_quality, 0);
    lemma_trim_end_unique(quality, min_quality, quality.len() as int);
    assert(trimmed_quality(quality, min_quality) =~= quality);
    if sequence.len() <= quality.len() {
        assert(trimmed_sequence(sequence, quality, min_quality) =~= sequence);
    }
}

/// With a floor of zero nothing is cut off a read whose quality characters
/// all lie at or above the offset.
pub proof fn lemma_zero_floor_trims_nothing(sequence: Seq<char>, quality: Seq<char>)
    requires
        sequence.len() == quality.len(),
        forall|j: int| 0 <= j < quality.len() ==> #[trigger] quality[j] as int >= PHRED_OFFSET,
    ensures
        trimmed_quality(quality, 0) == quality,
        trimmed_sequence(sequence, quality, 0) == sequence,
{
    lemma_clean_read_unchanged(sequence, quality, 0);
}

/// A read whose every quality score is under the floor is trimmed to
/// nothing, whatever its bases are.
pub proof fn lemma_low_read_collapses(sequence: Seq<char>, quality: Seq<char>, min_quality: u8)
    requires
        forall|j: int| 0 <= j < quality.len() ==> score(#[trigger] quality[j]) < min_quality,
    ensures
        trimmed_sequence(sequence, quality, min_quality) == Seq::<char>::empty(),
        trimmed_quality(quality, min_quality) == Seq::<char>::empty(),
{
    lemma_trim_start_unique(quality, min_quality, quality.len() as int);
    lemma_trim_end_unique(quality, min_quality, 0);
}

/// Trimming never lengthens a read, and bases and qualities that were
/// indexed alike before it are indexed alike after it.
pub proof fn lemma_trim_keeps_alignment(sequence: Seq<char>, quality: Seq<char>, min_quality: u8)
    ensures
        trimmed_quality(quality, min_quality).len() <= quality.len(),
        trimmed_sequence(sequence, quality, min_quality).len() <= sequence.len(),
        sequence.len() == quality.len() ==> trimmed_sequence(sequence, quality, min_quality).len()
            == trimmed_quality(quality, min_quality).len(),
{
    lemma_trim_start(quality, min_quality);
    lemma_trim_end(quality, min_quality);
}

/// What is left of a read after trimming begins and ends with a base whose
/// quality reaches the floor, so trimming it again changes nothing.
pub proof fn lemma_trim_idempotent(sequence: Seq<char>, quality: Seq<char>, min_quality: u8)
    ensures
        ({
            let s = trimmed_sequence(sequence, quality, min_quality);
            let q = trimmed_quality(quality, min_quality);
            &&& trimmed_sequence(s, q, min_quality) == s
            &&& trimmed_quality(q, min_quality) == q
        }),
{
    lemma_trim_start(quality, min_quality);
    lemma_trim_end(quality, min_quality);
    let start = trim_start(quality, min_quality);
    let end = trim_end(quality, min_quality);
    let s = trimmed_sequence(sequence, quality, min_quality);
    let q = trimmed_quality(quality, min_quality);
    if start < end {
        assert(q[0] == quality[start]);
        assert(q[q.len() - 1] == quality[end - 1]);
        lemma_trim_start_unique(q, min_quality, 0);
        lemma_trim_end_unique(q, min_quality, q.len() as int);
        assert(trimmed_quality(q, min_quality) =~= q);
        assert(trimmed_sequence(s, q, min_quality) =~= s);
    }
}

/// Whether a quality character encodes a score under `min_quality`.
pub fn is_below_floor(c: char, min_quality: u8) -> (low: bool)
    ensures
        low == below_floor(c, min_quality),
{
    let code: u32 = c as u32;
    code < min_quality as u32 + PHRED_OFFSET
}

/// Trims the ends of a read that have low quality.
///
/// Bases are dropped from the start up to the first one whose quality
/// reaches `min_qual`, and from the end back to the last such one. Both
/// strings are cut at the same positions, which are counted in characters.
/// A read without such a base comes back empty. A sequence that is shorter
/// than its quality string is cut as far as it reaches.
pub fn trim(seq: &String, qual: &String, min_qual: u8) -> (trimmed: (String, String))
    ensures
        trimmed.0@ == trimmed_sequence(seq@, qual@, min_qual),
        trimmed.1@ == trimmed_quality(qual@, min_qual),
{
    let quality: &str = qual.as_str();
    let length: usize = quality.unicode_len();
    let mut trim5: usize = length;
    let mut trim3: usize = 0;
    let mut position: usize = 0;
    for c in it: quality.chars()
        invariant
            it.seq() == qual@,
            length == qual@.len(),
            position == it.index(),
            trim3 <= position,
            trim3 == 0 ==> trim5 == length,
            trim3 > 0 ==> trim5 < trim3 && !below_floor(qual@[trim5 as int], min_qual)
                && !below_floor(qual@[trim3 - 1], min_qual),
            forall|j: int|
                0 <= j < position && j < trim5 ==> below_floor(#[trigger] qual@[j], min_qual),
            forall|j: int| trim3 <= j < position ==> below_floor(#[trigger] qual@[j], min_qual),
    {
        assert(c == qual@[position as int]);
        if !is_below_floor(c, min_qual) {
            if trim3 == 0 {
                trim5 = position;
            }
            trim3 = position + 1;
        }
        position = position + 1;
    }
    proof {
        lemma_trim_start_unique(qual@, min_qual, trim5 as int);
        lemma_trim_end_unique(qual@, min_qual, trim3 as int);
    }
    if trim5 >= trim3 {
        (String::new(), String::new())
    } else {
        let sequence: &str = seq.as_str();
        let bases: usize = sequence.unicode_len();
        let from: usize = if trim5 < bases { trim5 } else { bases };
        let to: usize = if trim3 < bases { trim3 } else { bases };
        let new_seq = String::from_str(sequence.substring_char(from, to));
        let new_qual = String::from_str(quality.substring_char(trim5, trim3));
        (new_seq, new_qual)
    }
}

} // verus!
