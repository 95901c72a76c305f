//! Phred+33 quality scores and their mean.

use vstd::prelude::*;
use vstd::string::*;

verus! {

/// The code point that stands for a quality score of zero.
pub const PHRED_OFFSET: u32 = 33;

/// The largest quality score that a character can encode.
pub const MAX_SCORE: i32 = 0x10FFFF - 33;

/// The quality score that a character of a quality string encodes.
pub open spec fn score(c: char) -> int {
    c as int - PHRED_OFFSET as int
}

/// The sum of the quality scores of all characters of a quality string.
pub open spec fn total_score(quality: Seq<char>) -> int
    decreases quality.len(),
{
    if quality.len() == 0 {
        0
    } else {
        total_score(quality.drop_last()) + score(quality.last())
    }
}

/// A mean as a fraction: `total / count`.
pub struct Mean {
    pub total: int,
    pub count: nat,
}

/// The mean quality score of a quality string that is not empty, held
/// exactly: the sum of the scores and their number.
pub struct MeanQuality {
    total: i128,
    count: usize,
}

impl View for MeanQuality {
    type V = Mean;

    closed spec fn view(&self) -> Mean {
        Mean { total: self.total as int, count: self.count as nat }
    }
}

impl MeanQuality {
    #[verifier::type_invariant]
    spec fn well_formed(self) -> bool {
        &&& self.count >= 1
        &&& -(PHRED_OFFSET as int) * self.count <= self.total <= MAX_SCORE as int * self.count
    }

    /// The sum of the scores.
    pub fn total(&self) -> (total: i128)
        ensures
            total == self@.total,
            -(PHRED_OFFSET as int) * self@.count <= total <= MAX_SCORE as int * self@.count,
    {
        proof {
            use_type_invariant(self);
        }
        self.total
    }

    /// The number of scores, which is at least one.
    pub fn count(&self) -> (count: usize)
        ensures
            count == self@.count,
            count >= 1,
    {
        proof {
            use_type_invariant(self);
        }
        self.count
    }
}

/// A score is no less than that of code point zero and no more than that of
/// the largest code point.
pub proof fn lemma_score_bounds(c: char)
    ensures
        -(PHRED_OFFSET as int) <= score(c) <= MAX_SCORE,
{
}

/// A sum of scores is bounded by the number of scores times the bounds of
/// one score.
pub proof fn lemma_total_score_bounds(quality: Seq<char>)
    ensures
        -(PHRED_OFFSET as int) * quality.len() <= total_score(quality) <= MAX_SCORE as int
            * quality.len(),
    decreases quality.len(),
{
    if quality.len() > 0 {
        lemma_total_score_bounds(quality.drop_last());
        lemma_score_bounds(quality.last());
    }
}

/// Computes the quality score of one character.
pub fn char_score(c: char) -> (s: i32)
    ensures
        s == score(c),
        -(PHRED_OFFSET as int) <= s <= MAX_SCORE,
{
    let code: u32 = c as u32;
    code as i32 - PHRED_OFFSET as i32
}

/// Determines the mean quality score of a quality string.
///
/// An empty string has no mean.
pub fn avg_quality(qual: &String) -> (mean: Option<MeanQuality>)
    ensures
        match mean {
            Some(m) => qual@.len() > 0 && m@.total == total_score(qual@) && m@.count
                == qual@.len(),
            None => qual@.len() == 0,
        },
{
    let quality: &str = qual.as_str();
    let length: usize = quality.unicode_len();
    if length == 0 {
        return None;
    }
    let mut total: i128 = 0;
    for c in it: quality.chars()
        invariant
            it.seq() == qual@,
            length == qual@.len(),
            total == total_score(qual@.take(it.index())),
    {
        proof {
            let i = it.index();
            assert(c == qual@[i]);
            assert(qual@.take(i + 1).drop_last() == qual@.take(i));
            assert(qual@.take(i + 1).last() == qual@[i]);
            lemma_total_score_bounds(qual@.take(i));
        }
        total = total + char_score(c) as i128;
    }
    proof {
        assert(qual@.take(qual@.len() as int) == qual@);
        lemma_total_score_bounds(qual@);
    }
    Some(MeanQuality { total, count: length })
}

} // verus!
