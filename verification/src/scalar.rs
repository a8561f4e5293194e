//! Physical quantities as IEEE-754 single-precision bit patterns.
//!
//! The physics engine measures positions in single-precision numbers. This
//! module holds such a number by its 32 bits and reads it with integer
//! arithmetic alone: one sign bit, eight bits of biased exponent, twenty-three
//! bits of fraction. A finite pattern stands for the exact value
//! `±significand * 2^exponent`, and everything below is stated over that value.

use vstd::arithmetic::power2::{
    lemma2_to64, lemma_pow2_adds, lemma_pow2_pos, lemma_pow2_strictly_increases, pow2,
};
use vstd::prelude::*;

verus! {

/// Edge length of the cubic world, in world units.
pub const WORLD_SIZE: u64 = 512;

/// A single-precision number, held by its bit pattern.
#[derive(Clone, Copy, Debug, PartialEq, Eq, Structural)]
pub struct Scalar {
    pub bits: u32,
}

/// Positive zero.
pub const ZERO_BITS: u32 = 0;

/// Negative zero.
pub const NEGATIVE_ZERO_BITS: u32 = 0x8000_0000;

/// The pattern of `512`, the world's edge length.
pub const WORLD_SIZE_BITS: u32 = 0x4400_0000;

/// The pattern of positive infinity; the patterns above it, sign aside, are
/// not numbers.
pub const INFINITY_BITS: u32 = 0x7F80_0000;

impl Scalar {
    /// The sign bit is set.
    pub open spec fn negative(self) -> bool {
        self.bits >= 0x8000_0000
    }

    /// The pattern without its sign bit.
    pub open spec fn magnitude(self) -> int {
        self.bits as int % 0x8000_0000
    }

    /// The eight exponent bits.
    pub open spec fn biased_exponent(self) -> int {
        self.magnitude() / 0x80_0000
    }

    /// The twenty-three fraction bits.
    pub open spec fn fraction(self) -> int {
        self.bits as int % 0x80_0000
    }

    /// The pattern is not a number.
    pub open spec fn is_nan(self) -> bool {
        self.magnitude() > 0x7F80_0000
    }

    /// The pattern is a number other than an infinity.
    pub open spec fn is_finite(self) -> bool {
        self.magnitude() < 0x7F80_0000
    }

    /// The pattern is finite with a non-zero exponent field: its significand
    /// has its leading bit set.
    pub open spec fn is_normal(self) -> bool {
        1 <= self.biased_exponent() <= 254
    }

    /// Integer significand of a finite pattern.
    pub open spec fn significand(self) -> int {
        if self.biased_exponent() == 0 {
            self.fraction()
        } else {
            self.fraction() + 0x80_0000
        }
    }

    /// Power of two that scales the significand of a finite pattern: the value
    /// is `±significand * 2^exponent`.
    pub open spec fn exponent(self) -> int {
        if self.biased_exponent() == 0 {
            -149
        } else {
            self.biased_exponent() - 150
        }
    }

    /// An integer that orders the numbers as their values are ordered: the
    /// magnitude bits, negated where the sign bit is set. Both zeros have key
    /// `0`.
    pub open spec fn key(self) -> int {
        if self.negative() {
            -self.magnitude()
        } else {
            self.magnitude()
        }
    }

    /// `self > other` as the IEEE comparison has it: false where either side is
    /// not a number.
    pub open spec fn gt(self, other: Scalar) -> bool {
        !self.is_nan() && !other.is_nan() && self.key() > other.key()
    }

    /// `self <= other` as the IEEE comparison has it: false where either side
    /// is not a number.
    pub open spec fn le(self, other: Scalar) -> bool {
        !self.is_nan() && !other.is_nan() && self.key() <= other.key()
    }

    /// The value lies inside the world on one axis: `0 <= value < 512`.
    /// Negative zero counts as zero.
    pub open spec fn in_world(self) -> bool {
        (Scalar { bits: ZERO_BITS }).le(self) && (Scalar { bits: WORLD_SIZE_BITS }).gt(self)
    }

    /// Lattice coordinate of a value inside the world, on a grid of resolution
    /// `size`: the value divided by the edge of one voxel, `512 / size`, and
    /// rounded down. With the value written `significand * 2^exponent` this is
    /// `floor(significand * size / (512 * 2^-exponent))`; the exponent of a
    /// value below `512` is negative.
    pub open spec fn lattice(self, size: int) -> int {
        (self.significand() * size) / (512 * pow2((-self.exponent()) as nat) as int)
    }

    /// `self` is the single-precision number nearest to the fraction `n / d`,
    /// the even significand where two are equally near. Stated for a positive
    /// normal `self` with a negative exponent, `significand * 2^exponent`: the
    /// distance to `n / d` is at most half of `2^exponent`.
    pub open spec fn is_nearest_to(self, n: int, d: int) -> bool {
        let scale = pow2((-self.exponent()) as nat) as int;
        let error = self.significand() * d - n * scale;
        &&& !self.negative()
        &&& self.is_normal()
        &&& self.exponent() < 0
        &&& -d <= 2 * error <= d
        &&& (2 * error == d || 2 * error == -d) ==> self.significand() % 2 == 0
    }

    /// Wraps a bit pattern.
    pub fn from_bits(bits: u32) -> (scalar: Scalar)
        ensures
            scalar.bits == bits,
    {
        Scalar { bits }
    }

    /// The bit pattern.
    pub fn to_bits(self) -> (bits: u32)
        ensures
            bits == self.bits,
    {
        self.bits
    }

    /// Tells whether the pattern is not a number.
    pub fn is_not_a_number(self) -> (nan: bool)
        ensures
            nan == self.is_nan(),
    {
        self.bits % 0x8000_0000 > INFINITY_BITS
    }

    /// The ordering key of a number. See [`Scalar::key`].
    fn ordering_key(self) -> (key: i64)
        ensures
            key == self.key(),
    {
        let magnitude: i64 = (self.bits % 0x8000_0000) as i64;
        if self.bits >= 0x8000_0000 {
            -magnitude
        } else {
            magnitude
        }
    }

    /// Tells whether `self > threshold`.
    pub fn exceeds(self, threshold: Scalar) -> (greater: bool)
        ensures
            greater == self.gt(threshold),
    {
        !self.is_not_a_number() && !threshold.is_not_a_number() && self.ordering_key()
            > threshold.ordering_key()
    }

    /// Tells whether `0 <= self < 512`.
    pub fn is_in_world(self) -> (inside: bool)
        ensures
            inside == self.in_world(),
    {
        self.bits < WORLD_SIZE_BITS || self.bits == NEGATIVE_ZERO_BITS
    }

    /// Maps a position on one axis to its lattice coordinate on a grid of
    /// resolution `size`: `Some(floor(position / (512 / size)))` where the
    /// position lies inside the world, `None` where it does not (it is
    /// negative, `512` or more, or not a number). A coordinate that is returned
    /// is below `size`.
    pub fn to_index(self, size: usize) -> (cell: Option<usize>)
        requires
            0 < size,
        ensures
            self.in_world() ==> cell == Some(self.lattice(size as int) as usize),
            self.in_world() ==> 0 <= self.lattice(size as int) < size,
            !self.in_world() ==> cell is None,
    {
        if !self.is_in_world() {
            return None;
        }
        let magnitude: u32 = self.bits % 0x8000_0000;
        let biased: u32 = magnitude / 0x80_0000;
        let fraction: u32 = magnitude % 0x80_0000;
        let significand: u128 = if biased == 0 {
            fraction as u128
        } else {
            fraction as u128 + 0x80_0000
        };
        let shift: u32 = if biased == 0 {
            158
        } else {
            159 - biased
        };
        assert(significand * size <= 0xFF_FFFF * 0xFFFF_FFFF_FFFF_FFFF) by (nonlinear_arith)
            requires
                0 <= significand <= 0xFF_FFFF,
                0 <= size <= 0xFFFF_FFFF_FFFF_FFFF,
        ;
        let product: u128 = significand * (size as u128);
        proof {
            lemma_lattice_in_range(self, size as int);
            assert(self.significand() == significand);
            assert(-self.exponent() == shift - 9);
            lemma_pow2_adds(9, (shift - 9) as nat);
            lemma2_to64();
            assert(512 * pow2((shift - 9) as nat) == pow2(shift as nat));
        }
        let cell: u128 = if shift >= 128 {
            proof {
                lemma_pow2_strictly_increases(88, shift as nat);
                lemma_pow2_at_88();
                vstd::arithmetic::div_mod::lemma_basic_div(
                    product as int,
                    pow2(shift as nat) as int,
                );
            }
            0
        } else {
            proof {
                vstd::bits::lemma_u128_shr_is_div(product, shift as u128);
            }
            product >> shift
        };
        Some(cell as usize)
    }

    /// The single-precision number nearest to `n / d`, the even significand
    /// where two are equally near, for a positive fraction below `2^22`.
    #[verifier::rlimit(50)]
    pub fn from_ratio(n: u64, d: u64) -> (scalar: Scalar)
        requires
            0 < n,
            0 < d,
            n < 0x40_0000 * d,
        ensures
            scalar.is_nearest_to(n as int, d as int),
    {
        let divisor: u128 = d as u128;
        let floor_target: u128 = 0x80_0000 * divisor;
        let mut scaled: u128 = n as u128;
        let mut doublings: u32 = 0;
        proof {
            lemma2_to64();
        }
        while scaled * 2 < floor_target
            invariant
                divisor == d,
                floor_target == 0x80_0000 * divisor,
                0 < d,
                0 < n,
                0 < scaled < floor_target,
                scaled == n * pow2(doublings as nat),
                doublings <= 87,
                pow2(doublings as nat) <= scaled,
                doublings == 0 ==> scaled == n,
            decreases floor_target - scaled,
        {
            proof {
                lemma_pow2_adds(doublings as nat, 1);
                lemma2_to64();
                assert(n * (pow2(doublings as nat) * 2) == n * pow2(doublings as nat) * 2)
                    by (nonlinear_arith);
                if doublings >= 87 {
                    lemma_pow2_at_88();
                    lemma_pow2_adds(87, 1);
                }
            }
            scaled = scaled * 2;
            doublings = doublings + 1;
        }
        // Here floor_target / 2 <= scaled < floor_target: the quotient by the
        // divisor has twenty-three bits. One more doubling gives twenty-four.
        proof {
            lemma_pow2_adds(doublings as nat, 1);
            lemma2_to64();
            assert(n * (pow2(doublings as nat) * 2) == n * pow2(doublings as nat) * 2)
                by (nonlinear_arith);
            if doublings >= 87 {
                lemma_pow2_at_88();
                lemma_pow2_adds(87, 1);
            }
        }
        let scaled: u128 = scaled * 2;
        let doublings: u32 = doublings + 1;
        let quotient: u128 = scaled / divisor;
        let remainder: u128 = scaled % divisor;
        proof {
            vstd::arithmetic::div_mod::lemma_fundamental_div_mod(scaled as int, divisor as int);
            assert(0x80_0000 <= quotient < 0x100_0000) by (nonlinear_arith)
                requires
                    scaled == divisor * quotient + remainder,
                    0 <= remainder < divisor,
                    0x80_0000 * divisor <= scaled < 0x100_0000 * divisor,
            ;
        }
        let round_up: bool = remainder * 2 > divisor || (remainder * 2 == divisor && quotient % 2
            == 1);
        let significand: u128 = if round_up {
            quotient + 1
        } else {
            quotient
        };
        let biased: u32 = 150 - doublings;
        let bits: u32 = (biased - 1) * 0x80_0000 + (significand as u32);
        let scalar = Scalar { bits };
        proof {
            let scale = pow2(doublings as nat) as int;
            if significand < 0x100_0000 {
                assert(scalar.biased_exponent() == biased);
                assert(scalar.fraction() == significand - 0x80_0000);
                assert(scalar.significand() == significand);
                assert(scalar.exponent() == -(doublings as int));
                assert(significand * divisor - n * scale == if round_up {
                    divisor - remainder
                } else {
                    -(remainder as int)
                }) by (nonlinear_arith)
                    requires
                        n * scale == divisor * quotient + remainder,
                        significand == if round_up {
                            quotient + 1
                        } else {
                            quotient as int
                        },
                ;
            } else {
                // The quotient was all ones and rounded up into the next binade.
                assert(significand == 0x100_0000);
                assert(scalar.biased_exponent() == biased + 1);
                assert(scalar.fraction() == 0);
                assert(scalar.significand() == 0x80_0000);
                assert(scalar.exponent() == 1 - doublings);
                lemma_pow2_adds((doublings - 1) as nat, 1);
                let half_scale = pow2((doublings - 1) as nat) as int;
                assert(scale == 2 * half_scale);
                assert(2 * (0x80_0000 * divisor - n * half_scale) == divisor - remainder)
                    by (nonlinear_arith)
                    requires
                        n * scale == divisor * quotient + remainder,
                        quotient == 0xFF_FFFF,
                        scale == 2 * half_scale,
                ;
            }
        }
        scalar
    }

    /// Position, on one axis, of the centre of the voxels with lattice
    /// coordinate `i` on a grid of resolution `size`: the number nearest to
    /// `(i + 1/2) * (512 / size)`.
    pub fn center(i: usize, size: usize) -> (position: Scalar)
        requires
            i < size,
            size <= 0x7F_FFFF,
        ensures
            position.is_nearest_to((2 * i + 1) * 256, size as int),
            position.in_world(),
            position.lattice(size as int) == i,
    {
        let n: u64 = (2 * (i as u64) + 1) * 256;
        let position = Scalar::from_ratio(n, size as u64);
        proof {
            lemma_center_lattice(position, i as int, size as int);
        }
        position
    }
}

/// Some powers of two, written out.
proof fn lemma_pow2_at_88()
    ensures
        pow2(87) == 0x80_0000_0000_0000_0000_0000,
        pow2(88) == 0x100_0000_0000_0000_0000_0000,
        pow2(24) == 0x100_0000,
        pow2(23) == 0x80_0000,
{
    lemma2_to64();
    lemma_pow2_adds(64, 23);
    lemma_pow2_adds(64, 24);
}

/// A product of a significand below `2^24` with a resolution, divided by a
/// power of two of at least `2^24`, stays below the resolution.
proof fn lemma_scaled_floor(significand: int, size: int, shift: nat)
    requires
        0 <= significand < 0x100_0000,
        0 < size,
        24 <= shift,
    ensures
        0 <= (significand * size) / (pow2(shift) as int) < size,
{
    lemma_pow2_at_88();
    if shift > 24 {
        lemma_pow2_strictly_increases(24, shift);
    }
    let p = pow2(shift) as int;
    assert(0 <= (significand * size) / p < size) by (nonlinear_arith)
        requires
            0 <= significand < p,
            0 < size,
            0 < p,
    ;
}

/// The lattice coordinate of a value inside the world lies inside the grid.
pub proof fn lemma_lattice_in_range(position: Scalar, size: int)
    requires
        position.in_world(),
        0 < size,
    ensures
        0 <= position.lattice(size) < size,
{
    let shift = (9 - position.exponent()) as nat;
    assert(position.biased_exponent() <= 135);
    lemma_scaled_floor(position.significand(), size, shift);
    lemma_pow2_adds(9, (shift - 9) as nat);
    lemma2_to64();
    assert(512 * pow2((shift - 9) as nat) == pow2(shift));
}

/// A number nearest to the centre of a voxel lies in the world and maps back to
/// that voxel's lattice coordinate.
#[verifier::rlimit(50)]
pub proof fn lemma_center_lattice(position: Scalar, i: int, size: int)
    requires
        0 <= i < size,
        size <= 0x7F_FFFF,
        position.is_nearest_to((2 * i + 1) * 256, size),
    ensures
        position.in_world(),
        position.lattice(size) == i,
{
    let s = position.significand();
    let k = (-position.exponent()) as nat;
    let scale = pow2(k) as int;
    let n = (2 * i + 1) * 256;
    let error = s * size - n * scale;
    lemma_pow2_pos(k);
    assert(0x80_0000 <= s < 0x100_0000);
    // The scale is large enough that half a voxel is more than the rounding error.
    assert(size < 512 * scale) by (nonlinear_arith)
        requires
            0x80_0000 <= s,
            0 < size <= 0x7F_FFFF,
            0 < scale,
            2 * (s * size - n * scale) <= size,
            n < 512 * size,
            n > 0,
    ;
    let denominator = 512 * scale;
    assert(i * denominator <= s * size < (i + 1) * denominator) by (nonlinear_arith)
        requires
            denominator == 512 * scale,
            n == (2 * i + 1) * 256,
            -size <= 2 * (s * size - n * scale) <= size,
            size < 512 * scale,
    ;
    assert((i + 1) * denominator == i * denominator + denominator) by (nonlinear_arith);
    vstd::arithmetic::div_mod::lemma_div_multiples_vanish_fancy(
        i,
        s * size - i * denominator,
        denominator,
    );
    assert(i * denominator + (s * size - i * denominator) == s * size);
    assert(denominator * i == i * denominator) by (nonlinear_arith);
    // Below 512: the significand is below 2^(9 - exponent).
    assert(s < 512 * scale) by (nonlinear_arith)
        requires
            s * size < (i + 1) * (512 * scale),
            i + 1 <= size,
            0 < size,
            0 < scale,
    ;
    lemma_below_world(position);
}

/// A positive normal number whose significand is below `512 * 2^-exponent` is
/// below `512`.
proof fn lemma_below_world(position: Scalar)
    requires
        !position.negative(),
        position.is_normal(),
        position.exponent() < 0,
        position.significand() < 512 * pow2((-position.exponent()) as nat),
    ensures
        position.in_world(),
{
    let k = (-position.exponent()) as nat;
    let biased = position.biased_exponent();
    lemma_pow2_at_88();
    if biased >= 136 {
        // The exponent is at least -14, so 512 * 2^-exponent is at most 2^23.
        assert(k <= 14);
        if k < 14 {
            lemma_pow2_strictly_increases(k, 14);
        }
        lemma2_to64();
        assert(512 * pow2(k) <= 0x80_0000);
        assert(false);
    }
    assert(position.magnitude() == position.bits);
    assert(position.bits < 136 * 0x80_0000);
}

/// The key orders the numbers as their values are ordered. For two finite
/// numbers that are not negative, with both values brought to the common scale
/// `2^-149`: the key of one is below the key of the other exactly if its value
/// is.
pub proof fn lemma_key_orders_values(a: Scalar, b: Scalar)
    requires
        a.is_finite(),
        b.is_finite(),
        !a.negative(),
        !b.negative(),
    ensures
        a.key() < b.key() <==> a.significand() * pow2((a.exponent() + 149) as nat) < b.significand()
            * pow2((b.exponent() + 149) as nat),
        a.key() == b.key() <==> a.significand() * pow2((a.exponent() + 149) as nat)
            == b.significand() * pow2((b.exponent() + 149) as nat),
{
    lemma_scaled_value(a);
    lemma_scaled_value(b);
    if a.biased_exponent() < b.biased_exponent() {
        lemma_scaled_value_below(a, b);
    } else if b.biased_exponent() < a.biased_exponent() {
        lemma_scaled_value_below(b, a);
    } else {
        let scale = pow2((a.exponent() + 149) as nat) as int;
        lemma_pow2_pos((a.exponent() + 149) as nat);
        let sa = a.significand();
        let sb = b.significand();
        assert(sa < sb <==> sa * scale < sb * scale) by (nonlinear_arith)
            requires
                0 < scale,
        ;
        assert(sa == sb <==> sa * scale == sb * scale) by (nonlinear_arith)
            requires
                0 < scale,
        ;
    }
}

/// The value of a finite number that is not negative, at the scale `2^-149`,
/// lies in the binade that its exponent field names.
proof fn lemma_scaled_value(a: Scalar)
    requires
        a.is_finite(),
        !a.negative(),
    ensures
        a.key() == a.biased_exponent() * 0x80_0000 + a.fraction(),
        0 <= a.fraction() < 0x80_0000,
        0 <= a.biased_exponent() <= 254,
        a.biased_exponent() == 0 ==> a.significand() * pow2((a.exponent() + 149) as nat)
            < 0x80_0000,
        a.biased_exponent() >= 1 ==> 0x80_0000 * pow2((a.biased_exponent() - 1) as nat)
            <= a.significand() * pow2((a.exponent() + 149) as nat) < 0x100_0000 * pow2(
            (a.biased_exponent() - 1) as nat,
        ),
{
    lemma2_to64();
    let scale = pow2((a.exponent() + 149) as nat) as int;
    lemma_pow2_pos((a.exponent() + 149) as nat);
    let s = a.significand();
    if a.biased_exponent() >= 1 {
        assert(0x80_0000 * scale <= s * scale < 0x100_0000 * scale) by (nonlinear_arith)
            requires
                0x80_0000 <= s < 0x100_0000,
                0 < scale,
        ;
    }
}

/// A number with the smaller exponent field has the smaller value.
proof fn lemma_scaled_value_below(a: Scalar, b: Scalar)
    requires
        a.is_finite(),
        b.is_finite(),
        !a.negative(),
        !b.negative(),
        a.biased_exponent() < b.biased_exponent(),
    ensures
        a.key() < b.key(),
        a.significand() * pow2((a.exponent() + 149) as nat) < b.significand() * pow2(
            (b.exponent() + 149) as nat,
        ),
{
    lemma_scaled_value(a);
    lemma_scaled_value(b);
    lemma2_to64();
    let lower = (b.biased_exponent() - 1) as nat;
    if a.biased_exponent() >= 1 {
        let upper = (a.biased_exponent() - 1) as nat;
        lemma_pow2_adds(upper, 1);
        if upper + 1 < lower {
            lemma_pow2_strictly_increases(upper + 1, lower);
        }
        assert(0x100_0000 * pow2(upper) == 0x80_0000 * pow2(upper + 1));
        assert(0x80_0000 * pow2(upper + 1) <= 0x80_0000 * pow2(lower)) by (nonlinear_arith)
            requires
                pow2(upper + 1) <= pow2(lower),
        ;
    } else {
        lemma_pow2_pos(lower);
        assert(0x80_0000 <= 0x80_0000 * pow2(lower)) by (nonlinear_arith)
            requires
                1 <= pow2(lower),
        ;
    }
}

} // verus!
