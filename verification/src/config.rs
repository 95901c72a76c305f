//! The settings of one run.

use vstd::prelude::*;
use crate::floor::QualityFloor;

verus! {

/// What a read has to meet to be kept, and how reads arrive. The settings
/// are fixed before the first line is read.
#[derive(Clone, Copy, Debug, PartialEq, Eq, Structural)]
pub struct Config {
    /// The least number of bases that a read may have after trimming.
    pub min_length: usize,
    /// The least mean quality that a read may have after trimming.
    pub min_avg_quality: QualityFloor,
    /// The quality under which the bases at both ends of a read are cut off.
    pub min_trim_quality: u8,
    /// Whether the reads come in pairs, one after the other.
    pub paired_end: bool,
}

impl Config {
    /// The number of lines that make up one record: four for a read, eight
    /// for a pair.
    pub open spec fn lines_per_record(self) -> nat {
        if self.paired_end {
            8
        } else {
            4
        }
    }

    /// The number of lines that make up one record.
    pub fn lines_per_read(&self) -> (lines: usize)
        ensures
            lines == self.lines_per_record(),
    {
        if self.paired_end {
            8
        } else {
            4
        }
    }
}

impl Default for Config {
    /// No trimming, no filter by length, a floor of zero on the mean
    /// quality, single reads.
    fn default() -> (config: Config)
        ensures
            config.min_length == 0,
            config.min_avg_quality == (QualityFloor::Dyadic {
                negative: false,
                mantissa: 0,
                exponent: 0,
            }),
            config.min_trim_quality == 0,
            !config.paired_end,
    {
        Config {
            min_length: 0,
            min_avg_quality: QualityFloor::zero(),
            min_trim_quality: 0,
            paired_end: false,
        }
    }
}

} // verus!
