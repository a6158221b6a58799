//! Single-precision numbers carried by their bit patterns.
//!
//! The arithmetic on measurements happens outside the library. What the library
//! does with a measurement is to carry it, compare it and pick among several, and
//! for that the thirty-two bits of its binary interchange format are enough.
use vstd::arithmetic::mul::lemma_mul_inequality;
use vstd::arithmetic::mul::lemma_mul_strict_inequality;
use vstd::arithmetic::power2::lemma_pow2_pos;
use vstd::arithmetic::power2::lemma_pow2_strictly_increases;
use vstd::arithmetic::power2::lemma_pow2_unfold;
use vstd::arithmetic::power2::pow2;
use vstd::prelude::*;

verus! {

/// The bits of positive infinity; every larger magnitude is not a number.
pub const INFINITY_BITS: u32 = 0x7f80_0000;

/// The bits of the number one.
pub const ONE_BITS: u32 = 0x3f80_0000;

/// A single-precision number, held as its bit pattern.
#[derive(Clone, Copy, Debug, PartialEq, Eq, Structural)]
pub struct Scalar {
    pub bits: u32,
}

impl Scalar {
    /// The bit pattern without its sign bit.
    pub open spec fn magnitude_bits(self) -> int {
        if self.bits >= 0x8000_0000 {
            self.bits - 0x8000_0000
        } else {
            self.bits as int
        }
    }

    /// Whether the pattern stands for no number at all.
    pub open spec fn nan(self) -> bool {
        self.magnitude_bits() > INFINITY_BITS
    }

    /// Whether the pattern stands for a number other than the two infinities.
    pub open spec fn finite(self) -> bool {
        self.magnitude_bits() < INFINITY_BITS
    }

    /// The distance from zero in units of the smallest positive number, with
    /// infinity standing beyond every finite number.
    pub open spec fn magnitude(self) -> int {
        let exponent = self.magnitude_bits() / 0x80_0000;
        let mantissa = self.magnitude_bits() % 0x80_0000;
        if exponent == 0 {
            mantissa
        } else {
            (mantissa + 0x80_0000) * pow2((exponent - 1) as nat)
        }
    }

    /// The number itself, in units of the smallest positive number.
    pub open spec fn value(self) -> int {
        if self.bits >= 0x8000_0000 {
            -self.magnitude()
        } else {
            self.magnitude()
        }
    }

    /// `self < other`, which no pattern that is not a number takes part in.
    pub open spec fn less(self, other: Scalar) -> bool {
        !self.nan() && !other.nan() && self.value() < other.value()
    }

    /// `self <= other`, which no pattern that is not a number takes part in.
    pub open spec fn at_most(self, other: Scalar) -> bool {
        !self.nan() && !other.nan() && self.value() <= other.value()
    }

    /// The bit pattern read as a signed magnitude.
    pub open spec fn rank_spec(self) -> int {
        if self.bits >= 0x8000_0000 {
            -self.magnitude_bits()
        } else {
            self.magnitude_bits()
        }
    }

    /// The number with the given bit pattern.
    pub fn from_bits(bits: u32) -> (r: Scalar)
        ensures
            r.bits == bits,
    {
        Scalar { bits }
    }

    /// Whether the pattern stands for no number.
    pub fn is_nan(self) -> (r: bool)
        ensures
            r == self.nan(),
    {
        if self.bits >= 0x8000_0000 {
            self.bits - 0x8000_0000 > INFINITY_BITS
        } else {
            self.bits > INFINITY_BITS
        }
    }

    /// Whether the pattern stands for a number that is not infinite.
    pub fn is_finite(self) -> (r: bool)
        ensures
            r == self.finite(),
    {
        if self.bits >= 0x8000_0000 {
            self.bits - 0x8000_0000 < INFINITY_BITS
        } else {
            self.bits < INFINITY_BITS
        }
    }

    /// An integer that orders numbers as their values do.
    pub fn rank(self) -> (r: i64)
        ensures
            r == self.rank_spec(),
            -0x8000_0000 < r < 0x8000_0000,
    {
        if self.bits >= 0x8000_0000 {
            -((self.bits - 0x8000_0000) as i64)
        } else {
            self.bits as i64
        }
    }

    /// `self < other`.
    pub fn lt(self, other: Scalar) -> (r: bool)
        ensures
            r == self.less(other),
    {
        proof {
            lemma_rank_orders_values(self, other);
        }
        !self.is_nan() && !other.is_nan() && self.rank() < other.rank()
    }

    /// `self <= other`.
    pub fn le(self, other: Scalar) -> (r: bool)
        ensures
            r == self.at_most(other),
    {
        proof {
            lemma_rank_orders_values(self, other);
        }
        !self.is_nan() && !other.is_nan() && self.rank() <= other.rank()
    }
}

/// A larger bit pattern is a larger magnitude.
proof fn lemma_magnitude_increases(a: Scalar, b: Scalar)
    requires
        a.magnitude_bits() < b.magnitude_bits(),
    ensures
        0 <= a.magnitude() < b.magnitude(),
{
    let ea = a.magnitude_bits() / 0x80_0000;
    let ma = a.magnitude_bits() % 0x80_0000;
    let eb = b.magnitude_bits() / 0x80_0000;
    let mb = b.magnitude_bits() % 0x80_0000;
    assert(a.magnitude_bits() == 0x80_0000 * ea + ma && b.magnitude_bits() == 0x80_0000 * eb + mb);
    assert(ea <= eb);
    if eb > 0 {
        let pb = pow2((eb - 1) as nat) as int;
        lemma_pow2_pos((eb - 1) as nat);
        lemma_mul_inequality(0x80_0000, mb + 0x80_0000, pb);
        assert(0x80_0000 * pb <= b.magnitude());
        if ea == 0 {
            lemma_mul_inequality(1, pb, 0x80_0000);
            assert(a.magnitude() < 0x80_0000);
            assert(0x80_0000 <= 0x80_0000 * pb);
        } else {
            let pa = pow2((ea - 1) as nat) as int;
            lemma_pow2_pos((ea - 1) as nat);
            if ea == eb {
                lemma_mul_strict_inequality(ma + 0x80_0000, mb + 0x80_0000, pb);
            } else {
                lemma_mul_strict_inequality(ma + 0x80_0000, 0x100_0000, pa);
                lemma_pow2_unfold(ea as nat);
                assert(pow2(ea as nat) == 2 * pa);
                if ea < eb - 1 {
                    lemma_pow2_strictly_increases(ea as nat, (eb - 1) as nat);
                }
                assert(2 * pa <= pb);
            }
            lemma_mul_inequality(0, ma + 0x80_0000, pa);
        }
    }
}

/// Comparing bit patterns as signed magnitudes compares the numbers they stand for.
pub proof fn lemma_rank_orders_values(a: Scalar, b: Scalar)
    ensures
        a.rank_spec() < b.rank_spec() <==> a.value() < b.value(),
        a.rank_spec() == b.rank_spec() <==> a.value() == b.value(),
{
    let zero = Scalar { bits: 0 };
    assert(zero.magnitude() == 0);
    if a.magnitude_bits() > 0 {
        lemma_magnitude_increases(zero, a);
    }
    if b.magnitude_bits() > 0 {
        lemma_magnitude_increases(zero, b);
    }
    if a.magnitude_bits() < b.magnitude_bits() {
        lemma_magnitude_increases(a, b);
    }
    if b.magnitude_bits() < a.magnitude_bits() {
        lemma_magnitude_increases(b, a);
    }
}

/// How numbers compare, told by their bits. What is not a number compares with nothing. Of two
/// positive numbers the one with the larger bits is larger, of two negative ones the one with
/// the smaller bits; a negative number other than zero comes before every positive one, and the
/// two zeros are equal.
pub proof fn numbers_compare_by_bits(a: Scalar, b: Scalar)
    ensures
        a.nan() <==> (0x7f80_0000 < a.bits < 0x8000_0000 || 0xff80_0000 < a.bits),
        a.finite() <==> (a.bits < 0x7f80_0000 || 0x8000_0000 <= a.bits < 0xff80_0000),
        a.nan() || b.nan() ==> !a.less(b) && !a.at_most(b),
        !a.nan() && !b.nan() ==> (a.at_most(b) <==> !b.less(a)),
        !a.nan() && !b.nan() && a.bits < 0x8000_0000 && b.bits < 0x8000_0000 ==> (a.less(b) <==> a.bits < b.bits),
        !a.nan() && !b.nan() && a.bits >= 0x8000_0000 && b.bits >= 0x8000_0000 ==> (a.less(b) <==> a.bits > b.bits),
        !a.nan() && !b.nan() && a.bits > 0x8000_0000 && b.bits < 0x8000_0000 ==> a.less(b),
        a.bits == 0x8000_0000 && !b.nan() && b.bits < 0x8000_0000 ==> (a.less(b) <==> b.bits != 0) && !b.less(a),
{
    lemma_rank_orders_values(a, b);
    lemma_rank_orders_values(b, a);
}

} // verus!
