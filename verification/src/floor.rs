//! The least mean quality that a read may have.

use vstd::prelude::*;
use vstd::arithmetic::div_mod::{lemma_fundamental_div_mod, lemma_mod_bound};
use vstd::arithmetic::power2::{
    lemma2_to64,
    lemma_pow2_adds,
    lemma_pow2_pos,
    lemma_pow2_strictly_increases,
    lemma_pow2_unfold,
    pow2,
};
use crate::quality::{MeanQuality, MAX_SCORE, PHRED_OFFSET};

verus! {

/// A bound from below on the mean quality of a read.
///
/// A bound that is a number is held exactly, as a whole number times a power
/// of two. Every value of a binary floating-point format has this form.
#[derive(Clone, Copy, Debug, PartialEq, Eq, Structural)]
pub enum QualityFloor {
    /// Lies under every mean: negative infinity.
    Unbounded,
    /// The number `mantissa * 2^exponent`, or its negation where `negative`
    /// is set.
    Dyadic { negative: bool, mantissa: u32, exponent: i32 },
    /// No mean reaches it: positive infinity, or not a number.
    Unreachable,
}

/// The mantissa of a dyadic number with its sign.
pub open spec fn signed_mantissa(negative: bool, mantissa: u32) -> int {
    if negative {
        -(mantissa as int)
    } else {
        mantissa as int
    }
}

/// Whether the mean `total / count` exists and is at least `floor`. Both
/// sides are multiplied by `count`, and by the power of two where the
/// exponent is negative, so that only whole numbers are compared. Without a
/// score there is no mean, and so no floor is reached.
pub open spec fn mean_reaches(total: int, count: nat, floor: QualityFloor) -> bool {
    count > 0 && match floor {
        QualityFloor::Unbounded => true,
        QualityFloor::Dyadic { negative, mantissa, exponent } => {
            if exponent >= 0 {
                total >= signed_mantissa(negative, mantissa) * pow2(exponent as nat) * count
            } else {
                total * pow2((-exponent) as nat) >= signed_mantissa(negative, mantissa) * count
            }
        },
        QualityFloor::Unreachable => false,
    }
}

/// Whether the mean `total / count` exists and is exactly `floor`.
pub open spec fn mean_equals(total: int, count: nat, floor: QualityFloor) -> bool {
    count > 0 && match floor {
        QualityFloor::Unbounded => false,
        QualityFloor::Dyadic { negative, mantissa, exponent } => {
            if exponent >= 0 {
                total == signed_mantissa(negative, mantissa) * pow2(exponent as nat) * count
            } else {
                total * pow2((-exponent) as nat) == signed_mantissa(negative, mantissa) * count
            }
        },
        QualityFloor::Unreachable => false,
    }
}

/// The value that a bit pattern stands for in the IEEE 754 binary32 format:
/// one sign bit, eight bits of biased exponent, twenty-three bits of
/// fraction.
pub open spec fn binary32_value(bits: u32) -> QualityFloor {
    let negative = bits >= 0x8000_0000;
    let biased = (bits as int / 0x80_0000) % 0x100;
    let fraction = bits as int % 0x80_0000;
    if biased == 0xff {
        if fraction == 0 && negative {
            QualityFloor::Unbounded
        } else {
            QualityFloor::Unreachable
        }
    } else if biased == 0 {
        QualityFloor::Dyadic { negative, mantissa: fraction as u32, exponent: -149i32 }
    } else {
        QualityFloor::Dyadic {
            negative,
            mantissa: (fraction + 0x80_0000) as u32,
            exponent: (biased - 150) as i32,
        }
    }
}

/// A mean reaches the floor at zero when it has a score and the sum of its
/// scores is not negative.
pub proof fn lemma_floor_at_zero(total: int, count: nat)
    ensures
        mean_reaches(
            total,
            count,
            QualityFloor::Dyadic { negative: false, mantissa: 0, exponent: 0 },
        ) <==> count > 0 && total >= 0,
{
    lemma2_to64();
}

/// A mean that equals the floor reaches it.
pub proof fn lemma_equal_mean_reaches(total: int, count: nat, floor: QualityFloor)
    requires
        mean_equals(total, count, floor),
    ensures
        mean_reaches(total, count, floor),
{
}

/// For whole numbers that are not negative, `a * d >= b` exactly when `a`
/// is at least `b / d` rounded up.
proof fn lemma_scaled_at_least(a: int, b: int, d: int)
    requires
        0 <= a,
        0 <= b,
        0 < d,
    ensures
        a * d >= b <==> a >= (b + d - 1) / d,
{
    let q = (b + d - 1) / d;
    let r = (b + d - 1) % d;
    lemma_fundamental_div_mod(b + d - 1, d);
    lemma_mod_bound(b + d - 1, d);
    assert(b + d - 1 == d * q + r && 0 <= r < d);
    if a >= q {
        assert(a * d >= q * d) by (nonlinear_arith)
            requires
                a >= q,
                d > 0,
        ;
        assert(q * d == d * q) by (nonlinear_arith);
    } else {
        assert(a * d <= (q - 1) * d) by (nonlinear_arith)
            requires
                a <= q - 1,
                d > 0,
        ;
        assert((q - 1) * d == d * q - d) by (nonlinear_arith);
    }
}

/// For whole numbers that are not negative, `a * d <= b` exactly when `a`
/// is at most `b / d` rounded down.
proof fn lemma_scaled_at_most(a: int, b: int, d: int)
    requires
        0 <= a,
        0 <= b,
        0 < d,
    ensures
        a * d <= b <==> a <= b / d,
{
    let q = b / d;
    let r = b % d;
    lemma_fundamental_div_mod(b, d);
    lemma_mod_bound(b, d);
    assert(b == d * q + r && 0 <= r < d);
    if a <= q {
        assert(a * d <= q * d) by (nonlinear_arith)
            requires
                a <= q,
                d > 0,
        ;
        assert(q * d == d * q) by (nonlinear_arith);
    } else {
        assert(a * d >= (q + 1) * d) by (nonlinear_arith)
            requires
                a >= q + 1,
                d > 0,
        ;
        assert((q + 1) * d == d * q + d) by (nonlinear_arith);
    }
}

/// The value of two to the ninety-sixth power.
proof fn lemma_pow2_96()
    ensures
        pow2(96) == 0x1_0000_0000_0000_0000_0000_0000,
{
    lemma2_to64();
    lemma_pow2_adds(64, 32);
}

/// Computes a power of two.
fn power_of_two(k: u32) -> (p: u128)
    requires
        k < 96,
    ensures
        p == pow2(k as nat),
        0 < p < 0x1_0000_0000_0000_0000_0000_0000,
{
    let mut p: u128 = 1;
    let mut i: u32 = 0;
    proof {
        lemma2_to64();
    }
    while i < k
        invariant
            i <= k,
            k < 96,
            p == pow2(i as nat),
        decreases k - i,
    {
        proof {
            lemma_pow2_96();
            lemma_pow2_strictly_increases(i as nat, 95);
            lemma_pow2_unfold(96);
            lemma_pow2_unfold((i + 1) as nat);
        }
        p = p * 2;
        i = i + 1;
    }
    proof {
        lemma_pow2_96();
        lemma_pow2_strictly_increases(k as nat, 96);
        lemma_pow2_pos(k as nat);
    }
    p
}

/// Decides whether `total / count` is at least `mantissa * 2^exponent` with
/// the given sign, for an exponent that is not negative.
fn reaches_multiple(
    total: i128,
    count: usize,
    negative: bool,
    mantissa: u32,
    exponent: i32,
) -> (reached: bool)
    requires
        count >= 1,
        mantissa >= 1,
        exponent >= 0,
        -(PHRED_OFFSET as int) * count <= total <= MAX_SCORE as int * count,
    ensures
        reached == (total >= signed_mantissa(negative, mantissa) * pow2(exponent as nat) * count),
{
    let ghost m = signed_mantissa(negative, mantissa);
    let ghost p = pow2(exponent as nat);
    proof {
        lemma2_to64();
        assert(-33 * count <= total <= 0x10_FFDE * count);
        if negative {
            assert(m * p * count == -((mantissa * p) * count)) by (nonlinear_arith)
                requires
                    m == -(mantissa as int),
            ;
        }
    }
    if exponent >= 21 {
        proof {
            if exponent > 21 {
                lemma_pow2_strictly_increases(21, exponent as nat);
            }
            assert((mantissa * p) * count >= 0x20_0000 * count) by (nonlinear_arith)
                requires
                    mantissa >= 1,
                    p >= 0x20_0000,
                    count >= 1,
            ;
        }
        negative
    } else {
        let power: u128 = power_of_two(exponent as u32);
        proof {
            if exponent < 20 {
                lemma_pow2_strictly_increases(exponent as nat, 20);
            }
            assert(0 <= mantissa * power <= 0xFFFF_FFFF * 0x10_0000) by (nonlinear_arith)
                requires
                    0 <= mantissa <= 0xFFFF_FFFF,
                    0 <= power <= 0x10_0000,
            ;
            assert(0 <= (mantissa * power) * count <= (0xFFFF_FFFF * 0x10_0000)
                * 0xFFFF_FFFF_FFFF_FFFF) by (nonlinear_arith)
                requires
                    0 <= mantissa * power <= 0xFFFF_FFFF * 0x10_0000,
                    0 <= count <= 0xFFFF_FFFF_FFFF_FFFF,
            ;
        }
        let scaled: i128 = (mantissa as i128 * power as i128) * count as i128;
        if negative {
            total >= -scaled
        } else {
            total >= scaled
        }
    }
}

/// Decides whether `total / count` is at least `mantissa / 2^shift` with the
/// given sign.
fn reaches_fraction(
    total: i128,
    count: usize,
    negative: bool,
    mantissa: u32,
    shift: i64,
) -> (reached: bool)
    requires
        count >= 1,
        mantissa >= 1,
        shift >= 1,
        -(PHRED_OFFSET as int) * count <= total <= MAX_SCORE as int * count,
    ensures
        reached == (total * pow2(shift as nat) >= signed_mantissa(negative, mantissa) * count),
{
    let ghost m = signed_mantissa(negative, mantissa);
    let ghost p = pow2(shift as nat);
    proof {
        assert(-33 * count <= total <= 0x10_FFDE * count);
        assert(1 <= mantissa * count <= 0xFFFF_FFFF * 0xFFFF_FFFF_FFFF_FFFF) by (nonlinear_arith)
            requires
                1 <= mantissa <= 0xFFFF_FFFF,
                1 <= count <= 0xFFFF_FFFF_FFFF_FFFF,
        ;
        lemma_pow2_pos(shift as nat);
        lemma_pow2_96();
        if shift > 96 {
            lemma_pow2_strictly_increases(96, shift as nat);
        }
        if negative {
            assert(m * count == -(mantissa * count)) by (nonlinear_arith)
                requires
                    m == -(mantissa as int),
            ;
        }
    }
    let product: u128 = mantissa as u128 * count as u128;
    if !negative {
        if total <= 0 {
            proof {
                assert(total * p <= 0) by (nonlinear_arith)
                    requires
                        total <= 0,
                        p > 0,
                ;
            }
            false
        } else if shift >= 96 {
            proof {
                assert(total * p >= p) by (nonlinear_arith)
                    requires
                        total >= 1,
                        p > 0,
                ;
            }
            true
        } else {
            let divisor: u128 = power_of_two(shift as u32);
            proof {
                lemma_scaled_at_least(total as int, product as int, divisor as int);
            }
            total as u128 >= (product + divisor - 1) / divisor
        }
    } else {
        if total >= 0 {
            proof {
                assert(total * p >= 0) by (nonlinear_arith)
                    requires
                        total >= 0,
                        p > 0,
                ;
            }
            true
        } else if shift >= 96 {
            proof {
                assert(total * p <= -p) by (nonlinear_arith)
                    requires
                        total <= -1,
                        p > 0,
                ;
            }
            false
        } else {
            let divisor: u128 = power_of_two(shift as u32);
            let deficit: i128 = -total;
            proof {
                lemma_scaled_at_most(deficit as int, product as int, divisor as int);
                assert(total * p == -(deficit * p)) by (nonlinear_arith)
                    requires
                        deficit == -total,
                ;
            }
            deficit as u128 <= product / divisor
        }
    }
}

impl QualityFloor {
    /// Decides whether a mean is at least this floor.
    pub fn admits(&self, mean: &MeanQuality) -> (reached: bool)
        ensures
            reached == mean_reaches(mean@.total, mean@.count, *self),
    {
        let total: i128 = mean.total();
        let count: usize = mean.count();
        match *self {
            QualityFloor::Unbounded => true,
            QualityFloor::Unreachable => false,
            QualityFloor::Dyadic { negative, mantissa, exponent } => {
                if mantissa == 0 {
                    proof {
                        let m = signed_mantissa(negative, mantissa);
                        if exponent >= 0 {
                            assert(m * pow2(exponent as nat) * count == 0) by (nonlinear_arith)
                                requires
                                    m == 0,
                            ;
                        } else {
                            let p = pow2((-exponent) as nat);
                            lemma_pow2_pos((-exponent) as nat);
                            assert(m * count == 0) by (nonlinear_arith)
                                requires
                                    m == 0,
                            ;
                            assert((total >= 0) <==> (total * p >= 0)) by (nonlinear_arith)
                                requires
                                    p > 0,
                            ;
                        }
                    }
                    total >= 0
                } else if exponent >= 0 {
                    reaches_multiple(total, count, negative, mantissa, exponent)
                } else {
                    reaches_fraction(total, count, negative, mantissa, -(exponent as i64))
                }
            },
        }
    }

    /// The floor at zero, which is the one in force where none is asked for.
    pub fn zero() -> (floor: QualityFloor)
        ensures
            floor == (QualityFloor::Dyadic { negative: false, mantissa: 0, exponent: 0 }),
    {
        QualityFloor::Dyadic { negative: false, mantissa: 0, exponent: 0 }
    }

    /// Reads a floor from the bits of a single-precision floating-point
    /// number.
    pub fn from_bits(bits: u32) -> (floor: QualityFloor)
        ensures
            floor == binary32_value(bits),
    {
        let negative: bool = bits >= 0x8000_0000;
        let biased: u32 = (bits / 0x80_0000) % 0x100;
        let fraction: u32 = bits % 0x80_0000;
        if biased == 0xff {
            if fraction == 0 && negative {
                QualityFloor::Unbounded
            } else {
                QualityFloor::Unreachable
            }
        } else if biased == 0 {
            QualityFloor::Dyadic { negative, mantissa: fraction, exponent: -149 }
        } else {
            QualityFloor::Dyadic {
                negative,
                mantissa: fraction + 0x80_0000,
                exponent: biased as i32 - 150,
            }
        }
    }
}

} // verus!
