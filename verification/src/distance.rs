//! Distances as the bit patterns of single-precision numbers.
//!
//! The library orders distances and never does arithmetic on them, so it carries
//! them as they are stored: sign, exponent and fraction in 32 bits. The order of
//! the numbers can be read off the patterns.

use vstd::arithmetic::power2::{
    lemma2_to64, lemma_pow2_pos, lemma_pow2_strictly_increases, lemma_pow2_unfold, pow2,
};
use vstd::prelude::*;

verus! {

/// A distance, as the bit pattern of a single-precision number.
#[derive(Clone, Copy, Debug, PartialEq, Eq, Structural)]
pub struct Distance {
    pub bits: u32,
}

impl Distance {
    /// Whether the pattern stands for no number.
    pub open spec fn is_nan(self) -> bool {
        self.bits % 0x8000_0000 > 0x7f80_0000
    }

    /// The place of the number in the order of all numbers. Both zeros have place
    /// 0; what is no number comes after infinity.
    pub open spec fn place(self) -> int {
        if self.is_nan() {
            0x8000_0000
        } else if self.bits < 0x8000_0000 {
            self.bits as int
        } else {
            0x8000_0000 - self.bits
        }
    }

    /// Whether the number is less than the other; false where either is no number.
    pub open spec fn less(self, other: Distance) -> bool {
        !self.is_nan() && !other.is_nan() && self.place() < other.place()
    }

    /// The distance with the given bit pattern.
    pub fn from_bits(bits: u32) -> (distance: Distance)
        ensures
            distance.bits == bits,
    {
        Distance { bits }
    }

    /// The bit pattern.
    pub fn to_bits(self) -> (bits: u32)
        ensures
            bits == self.bits,
    {
        self.bits
    }

    /// Positive infinity.
    pub fn infinity() -> (distance: Distance)
        ensures
            distance.bits == 0x7f80_0000,
    {
        Distance { bits: 0x7f80_0000 }
    }

    /// The place of the number in the order of all numbers.
    pub fn rank(self) -> (rank: i64)
        ensures
            rank == self.place(),
    {
        if self.bits % 0x8000_0000 > 0x7f80_0000 {
            0x8000_0000
        } else if self.bits < 0x8000_0000 {
            self.bits as i64
        } else {
            0x8000_0000 - self.bits as i64
        }
    }

    /// Whether the number is less than the other; false where either is no number.
    pub fn less_than(self, other: Distance) -> (less: bool)
        ensures
            less == self.less(other),
    {
        other.bits % 0x8000_0000 <= 0x7f80_0000 && self.rank() < other.rank()
    }
}

/// Whether the pattern stands for a number greater than zero.
pub open spec fn positive_pattern(bits: u32) -> bool {
    0 < bits <= 0x7f80_0000
}

/// Whether the pattern stands for a number greater than zero.
pub fn is_positive(bits: u32) -> (positive: bool)
    ensures
        positive == positive_pattern(bits),
{
    0 < bits && bits <= 0x7f80_0000
}

/// The exponent field of a pattern.
pub open spec fn exponent_of(bits: u32) -> int {
    bits as int / 0x80_0000 % 256
}

/// The fraction field of a pattern.
pub open spec fn fraction_of(bits: u32) -> int {
    bits as int % 0x80_0000
}

/// Whether the fields of a pattern are those of no number: all ones in the exponent,
/// and a fraction.
pub open spec fn fields_of_no_number(bits: u32) -> bool {
    exponent_of(bits) == 255 && fraction_of(bits) != 0
}

/// The number that the fields of a pattern stand for, in units of the least number
/// greater than zero: the fraction alone where the exponent field is zero, else the
/// fraction with a leading one, doubled as often as the exponent says. Infinity stands
/// for what comes after the greatest finite number.
pub open spec fn value_of(bits: u32) -> int {
    let magnitude = if exponent_of(bits) == 0 {
        fraction_of(bits)
    } else {
        (0x80_0000 + fraction_of(bits)) * pow2((exponent_of(bits) - 1) as nat)
    };
    if bits >= 0x8000_0000 {
        -magnitude
    } else {
        magnitude
    }
}

/// Of patterns without a sign, the greater one stands for the greater number.
proof fn lemma_value_grows(a: u32, b: u32)
    requires
        a < b < 0x8000_0000,
    ensures
        0 <= value_of(a) < value_of(b),
{
    let (ea, eb) = (exponent_of(a), exponent_of(b));
    let (fa, fb) = (fraction_of(a), fraction_of(b));
    assert(ea == a as int / 0x80_0000 && eb == b as int / 0x80_0000);
    assert(a == 0x80_0000 * ea + fa && b == 0x80_0000 * eb + fb);
    lemma2_to64();
    if eb > 0 {
        let pb = pow2((eb - 1) as nat) as int;
        lemma_pow2_pos((eb - 1) as nat);
        assert(0x80_0000 * pb <= (0x80_0000 + fb) * pb) by (nonlinear_arith)
            requires
                0 <= fb,
                0 < pb,
        ;
        if ea == 0 {
            assert(0x80_0000 <= 0x80_0000 * pb);
        } else {
            let pa = pow2((ea - 1) as nat) as int;
            lemma_pow2_pos((ea - 1) as nat);
            lemma_pow2_unfold(ea as nat);
            assert(0 <= (0x80_0000 + fa) * pa < 0x80_0000 * (2 * pa)) by (nonlinear_arith)
                requires
                    0 <= fa < 0x80_0000,
                    0 < pa,
            ;
            if ea < eb {
                if ea < eb - 1 {
                    lemma_pow2_strictly_increases(ea as nat, (eb - 1) as nat);
                }
                assert(2 * pa <= pb);
            } else {
                assert((0x80_0000 + fa) * pa < (0x80_0000 + fb) * pa) by (nonlinear_arith)
                    requires
                        fa < fb,
                        0 < pa,
                ;
            }
        }
    }
}

/// The sign bit of a pattern only turns the sign of its number.
proof fn lemma_sign(bits: u32)
    requires
        bits >= 0x8000_0000,
    ensures
        exponent_of(bits) == exponent_of((bits - 0x8000_0000) as u32),
        fraction_of(bits) == fraction_of((bits - 0x8000_0000) as u32),
        value_of(bits) == -value_of((bits - 0x8000_0000) as u32),
{
}

/// Distances are ordered as the numbers that the fields of their patterns stand for.
/// A pattern of no number is neither less than another nor greater, and comes after
/// all numbers.
pub proof fn law_order_is_that_of_numbers(a: Distance, b: Distance)
    ensures
        a.is_nan() == fields_of_no_number(a.bits),
        !fields_of_no_number(a.bits) && !fields_of_no_number(b.bits) ==> {
            &&& a.less(b) == (value_of(a.bits) < value_of(b.bits))
            &&& (a.place() < b.place()) == (value_of(a.bits) < value_of(b.bits))
        },
        fields_of_no_number(a.bits) ==> !a.less(b) && !b.less(a),
        fields_of_no_number(a.bits) ==> if fields_of_no_number(b.bits) {
            b.place() == a.place()
        } else {
            b.place() < a.place()
        },
{
    let ma = (a.bits % 0x8000_0000) as u32;
    let mb = (b.bits % 0x8000_0000) as u32;
    if a.bits >= 0x8000_0000 {
        lemma_sign(a.bits);
    }
    if b.bits >= 0x8000_0000 {
        lemma_sign(b.bits);
    }
    assert(value_of(0) == 0);
    if ma < mb {
        lemma_value_grows(ma, mb);
    }
    if mb < ma {
        lemma_value_grows(mb, ma);
    }
    if 0 < ma {
        lemma_value_grows(0, ma);
    }
    if 0 < mb {
        lemma_value_grows(0, mb);
    }
    assert(exponent_of(ma) == ma as int / 0x80_0000 && exponent_of(mb) == mb as int / 0x80_0000);
    assert(fields_of_no_number(a.bits) == (ma > 0x7f80_0000));
    assert(fields_of_no_number(b.bits) == (mb > 0x7f80_0000));
}

/// The order of distances on their patterns: without a sign it is the order of the
/// patterns, with a sign the opposite order, and a pattern with a sign that is not a
/// zero comes before all without. Both zeros are at the same place.
pub proof fn law_order_on_patterns(a: Distance, b: Distance)
    ensures
        a.bits <= 0x7f80_0000 && b.bits <= 0x7f80_0000 ==> {
            &&& a.less(b) == (a.bits < b.bits)
            &&& (a.place() < b.place()) == (a.bits < b.bits)
            &&& (a.place() == b.place()) == (a.bits == b.bits)
        },
        0x8000_0000 <= a.bits <= 0xff80_0000 && 0x8000_0000 <= b.bits <= 0xff80_0000 ==> {
            &&& a.less(b) == (a.bits > b.bits)
            &&& (a.place() < b.place()) == (a.bits > b.bits)
            &&& (a.place() == b.place()) == (a.bits == b.bits)
        },
        0x8000_0000 < a.bits <= 0xff80_0000 && b.bits <= 0x7f80_0000 ==> {
            &&& a.less(b)
            &&& !b.less(a)
            &&& a.place() < b.place()
        },
        a.bits == 0x8000_0000 && b.bits == 0 ==> a.place() == b.place() && !a.less(b) && !b.less(a),
        0x7f80_0000 < a.bits < 0x8000_0000 || 0xff80_0000 < a.bits ==> !a.less(b) && !b.less(a),
{
}

/// A pattern counts as positive exactly where the number it stands for is greater
/// than zero: the sign is clear, the pattern is not zero, and it is one of a number.
pub proof fn law_positive_is_greater_than_zero(bits: u32)
    ensures
        positive_pattern(bits) == (bits / 0x8000_0000 == 0 && bits != 0 && !fields_of_no_number(
            bits,
        )),
        positive_pattern(bits) == (!fields_of_no_number(bits) && value_of(bits) > 0),
        positive_pattern(bits) == (Distance { bits: 0 }).less(Distance { bits }),
        positive_pattern(bits) == (1 <= bits <= 0x7f80_0000),
{
    law_order_is_that_of_numbers(Distance { bits: 0 }, Distance { bits });
    law_order_on_patterns(Distance { bits: 0 }, Distance { bits });
    assert(value_of(0) == 0);
    if bits < 0x8000_0000 {
        assert(exponent_of(bits) == bits as int / 0x80_0000);
    } else {
        lemma_sign(bits);
        let m = (bits - 0x8000_0000) as u32;
        if 0 < m {
            lemma_value_grows(0, m);
        }
    }
}

} // verus!
