//! Single-precision numbers: IEEE 754 binary32, rounding to nearest even.

use crate::rounding::{
    decode, encode, lemma_approximates, lemma_encode_zero, lemma_quotient_of_equal_ratios,
    lemma_quotient_unique, power_of_two, round_to_encoding,
};
use vstd::arithmetic::div_mod::lemma_fundamental_div_mod;
use vstd::arithmetic::power2::{
    lemma2_to64, lemma2_to64_rest, lemma_pow2_adds, lemma_pow2_pos, lemma_pow2_strictly_increases,
    pow2,
};
use vstd::prelude::*;

verus! {

/// A binary32 number, held as its bit pattern.
///
/// `==` compares bit patterns; the numeric comparisons are methods.
#[derive(Clone, Copy, PartialEq, Eq, Structural, Debug)]
pub struct Binary32 {
    pub bits: u32,
}

/// The significant bits of the format.
pub open spec fn precision() -> nat {
    24
}

/// The encoding of infinity: the first one that is no finite number.
pub open spec fn infinity() -> nat {
    0x7f80_0000
}

/// The exponent of the smallest subnormal, `2^-149`, in which values are counted.
pub open spec fn unit_exponent() -> nat {
    149
}

impl Binary32 {
    /// The sign bit.
    pub open spec fn negative(self) -> bool {
        self.bits >= 0x8000_0000
    }

    /// The encoding of the absolute value.
    pub open spec fn magnitude(self) -> nat {
        (self.bits % 0x8000_0000) as nat
    }

    pub open spec fn nan(self) -> bool {
        self.magnitude() > infinity()
    }

    pub open spec fn infinite(self) -> bool {
        self.magnitude() == infinity()
    }

    pub open spec fn finite(self) -> bool {
        self.magnitude() < infinity()
    }

    /// The absolute value of a finite number, counted in units of `2^-149`.
    pub open spec fn units(self) -> nat {
        decode(precision(), self.magnitude())
    }

    /// The value of a finite number, counted in units of `2^-149`.
    pub open spec fn value(self) -> int {
        if self.negative() {
            -(self.units() as int)
        } else {
            self.units() as int
        }
    }

    /// A number's place in the numeric order: both zeros are at 0, the
    /// infinities at both ends.
    pub open spec fn rank(self) -> int {
        if self.negative() {
            -(self.magnitude() as int)
        } else {
            self.magnitude() as int
        }
    }
}

/// The number with a sign and the encoding of its absolute value.
pub open spec fn with_sign(negative: bool, magnitude: nat) -> Binary32 {
    Binary32 {
        bits: (if negative {
            0x8000_0000 + magnitude
        } else {
            magnitude
        }) as u32,
    }
}

/// The result of an operation that has none.
pub open spec fn not_a_number() -> Binary32 {
    Binary32 { bits: 0x7fc0_0000 }
}

/// The number nearest to `num / den` units, a tie going to the even significand.
pub open spec fn nearest(negative: bool, num: nat, den: nat) -> Binary32 {
    let encoding = encode(precision(), num, den);
    with_sign(negative, if encoding < infinity() { encoding } else { infinity() })
}

/// `num / den` as the nearest number.
pub open spec fn ratio(num: nat, den: nat) -> Binary32 {
    nearest(false, num * pow2(unit_exponent()), den)
}

/// An integer as the nearest number.
pub open spec fn integer(number: int) -> Binary32 {
    if number < 0 {
        nearest(true, (-number) as nat * pow2(unit_exponent()), 1)
    } else {
        nearest(false, number as nat * pow2(unit_exponent()), 1)
    }
}

pub open spec fn sum_of(a: Binary32, b: Binary32) -> Binary32 {
    if a.nan() || b.nan() {
        not_a_number()
    } else if a.infinite() {
        if b.infinite() && a.negative() != b.negative() {
            not_a_number()
        } else {
            a
        }
    } else if b.infinite() {
        b
    } else {
        let total = a.value() + b.value();
        if total == 0 {
            with_sign(a.negative() && b.negative(), 0)
        } else if total < 0 {
            nearest(true, (-total) as nat, 1)
        } else {
            nearest(false, total as nat, 1)
        }
    }
}

pub open spec fn negation_of(a: Binary32) -> Binary32 {
    with_sign(!a.negative(), a.magnitude())
}

pub open spec fn difference_of(a: Binary32, b: Binary32) -> Binary32 {
    sum_of(a, negation_of(b))
}

pub open spec fn product_of(a: Binary32, b: Binary32) -> Binary32 {
    let negative = a.negative() != b.negative();
    if a.nan() || b.nan() {
        not_a_number()
    } else if a.infinite() || b.infinite() {
        if a.magnitude() == 0 || b.magnitude() == 0 {
            not_a_number()
        } else {
            with_sign(negative, infinity())
        }
    } else {
        nearest(negative, a.units() * b.units(), pow2(unit_exponent()))
    }
}

pub open spec fn quotient_of(a: Binary32, b: Binary32) -> Binary32 {
    let negative = a.negative() != b.negative();
    if a.nan() || b.nan() {
        not_a_number()
    } else if a.infinite() {
        if b.infinite() {
            not_a_number()
        } else {
            with_sign(negative, infinity())
        }
    } else if b.infinite() {
        with_sign(negative, 0)
    } else if b.magnitude() == 0 {
        if a.magnitude() == 0 {
            not_a_number()
        } else {
            with_sign(negative, infinity())
        }
    } else {
        nearest(negative, a.units() * pow2(unit_exponent()), b.units())
    }
}

pub open spec fn absolute_of(a: Binary32) -> Binary32 {
    with_sign(false, a.magnitude())
}

/// `a < b`: false where either is not a number.
pub open spec fn less(a: Binary32, b: Binary32) -> bool {
    !a.nan() && !b.nan() && a.rank() < b.rank()
}

/// `a <= b`: false where either is not a number.
pub open spec fn at_most(a: Binary32, b: Binary32) -> bool {
    !a.nan() && !b.nan() && a.rank() <= b.rank()
}

/// The numeric equality: both zeros are equal, nothing equals a NaN.
pub open spec fn same(a: Binary32, b: Binary32) -> bool {
    !a.nan() && !b.nan() && a.rank() == b.rank()
}

/// The integer part of a number, cut off at the range of `i32`; 0 for a NaN.
pub open spec fn truncated(a: Binary32) -> int {
    if a.nan() {
        0
    } else {
        let whole = if a.infinite() {
            0x8000_0000
        } else {
            a.units() / pow2(unit_exponent())
        };
        if a.negative() {
            if whole > 0x8000_0000 {
                -0x8000_0000
            } else {
                -(whole as int)
            }
        } else if whole > 0x7fff_ffff {
            0x7fff_ffff
        } else {
            whole as int
        }
    }
}

/// The significand and the exponent of a finite number: what its units are made of.
#[derive(Clone, Copy)]
struct Parts {
    mantissa: u32,
    exponent: u32,
}

impl Parts {
    spec fn units(self) -> nat {
        self.mantissa as nat * pow2(self.exponent as nat)
    }

    spec fn describes(self, number: Binary32) -> bool {
        &&& self.mantissa < 0x100_0000
        &&& self.exponent <= 253
        &&& self.exponent > 0 ==> self.mantissa >= 0x80_0000
        &&& number.units() == self.units()
        &&& (self.mantissa == 0) == (number.magnitude() == 0)
    }
}

impl Binary32 {
    /// Attaches a sign to a rounded absolute value.
    pub(crate) fn assemble(negative: bool, encoding: u64) -> (number: Binary32)
        ensures
            number == with_sign(
                negative,
                if encoding < infinity() {
                    encoding as nat
                } else {
                    infinity()
                },
            ),
    {
        let magnitude: u32 = if encoding < 0x7f80_0000 { encoding as u32 } else { 0x7f80_0000 };
        if negative {
            Binary32 { bits: 0x8000_0000 + magnitude }
        } else {
            Binary32 { bits: magnitude }
        }
    }

    /// The number with this bit pattern.
    pub fn from_bits(bits: u32) -> (number: Binary32)
        ensures
            number.bits == bits,
    {
        Binary32 { bits }
    }

    /// The bit pattern.
    pub fn to_bits(self) -> (bits: u32)
        ensures
            bits == self.bits,
    {
        self.bits
    }

    fn parts(self) -> (parts: Parts)
        requires
            self.finite(),
        ensures
            parts.describes(self),
    {
        let magnitude: u32 = self.bits % 0x8000_0000;
        let field: u32 = magnitude / 0x80_0000;
        let fraction: u32 = magnitude % 0x80_0000;
        proof {
            lemma2_to64();
        }
        if field == 0 {
            assert(magnitude * 1 == magnitude);
            Parts { mantissa: magnitude, exponent: 0 }
        } else {
            proof {
                lemma_pow2_pos((field - 1) as nat);
            }
            Parts { mantissa: fraction + 0x80_0000, exponent: field - 1 }
        }
    }

    /// The number nearest to an unsigned integer.
    pub fn from_u64(number: u64) -> (result: Binary32)
        ensures
            result == integer(number as int),
    {
        let ghost num = number as nat * pow2(149);
        proof {
            lemma2_to64();
            lemma2_to64_rest();
        }
        if number == 0 {
            proof {
                lemma_encode_zero(24, 1);
            }
            Binary32::assemble(false, 0)
        } else {
            proof {
                lemma_pow2_strictly_increases(64, 127);
                lemma_quotient_unique(number as nat, 1, number as nat, 0);
                assert((num * 1) * 1 == (number as nat * pow2(149)) * 1);
                lemma_approximates(num, 1, number as nat, 1, number as nat, false, 149, 0);
            }
            let encoding: u64 = round_to_encoding(
                24,
                number as u128,
                149,
                false,
                Ghost(num),
                Ghost(1),
            );
            Binary32::assemble(false, encoding)
        }
    }

    /// The number nearest to an integer.
    pub fn from_i32(number: i32) -> (result: Binary32)
        ensures
            result == integer(number as int),
    {
        if number < 0 {
            let absolute: u64 = (-(number as i64)) as u64;
            let positive: Binary32 = Binary32::from_u64(absolute);
            proof {
                lemma_with_sign(false, positive.magnitude());
                lemma_nearest(false, absolute as nat * pow2(unit_exponent()), 1);
            }
            positive.negate()
        } else {
            Binary32::from_u64(number as u64)
        }
    }

    /// The number nearest to `num / den`.
    pub fn from_ratio(num: u32, den: u32) -> (result: Binary32)
        requires
            den > 0,
        ensures
            result == ratio(num as nat, den as nat),
    {
        let ghost exact = num as nat * pow2(149);
        if num == 0 {
            proof {
                lemma_encode_zero(24, den as nat);
            }
            Binary32::assemble(false, 0)
        } else {
            let power: u128 = power_of_two(90);
            proof {
                lemma2_to64();
                lemma2_to64_rest();
                lemma_pow2_adds(32, 90);
                lemma_pow2_adds(32, 26);
                lemma_pow2_adds(58, 32);
                lemma_pow2_strictly_increases(122, 127);
                assert(num * power < pow2(122)) by (nonlinear_arith)
                    requires
                        num < pow2(32),
                        power == pow2(90),
                        pow2(122) == pow2(32) * pow2(90),
                        pow2(90) > 0,
                ;
                assert(pow2(127) == 0x80000000000000000000000000000000) by {
                    lemma_pow2_adds(64, 63);
                }
            }
            let scaled: u128 = num as u128 * power;
            let mantissa: u128 = scaled / den as u128;
            let rest: u128 = scaled % den as u128;
            proof {
                lemma_fundamental_div_mod(scaled as int, den as int);
                assert(mantissa >= pow2(26)) by (nonlinear_arith)
                    requires
                        scaled == den * mantissa + rest,
                        rest < den,
                        den < pow2(32),
                        scaled >= pow2(90),
                        pow2(90) == pow2(58) * pow2(32),
                        pow2(58) == pow2(32) * pow2(26),
                        pow2(32) == 0x1_0000_0000,
                        pow2(26) == 0x400_0000,
                ;
                assert(mantissa <= scaled) by (nonlinear_arith)
                    requires
                        scaled == den * mantissa + rest,
                        den >= 1,
                        rest >= 0,
                        mantissa >= 0,
                ;
                lemma_pow2_adds(90, 59);
                assert((exact * pow2(0)) * den as nat == (scaled as nat * pow2(59)) * den as nat)
                    by (nonlinear_arith)
                    requires
                        exact == num as nat * pow2(149),
                        scaled == num * pow2(90),
                        pow2(149) == pow2(90) * pow2(59),
                        pow2(0) == 1,
                ;
                lemma_approximates(
                    exact,
                    den as nat,
                    scaled as nat,
                    den as nat,
                    mantissa as nat,
                    rest != 0,
                    59,
                    0,
                );
            }
            let encoding: u64 = round_to_encoding(
                24,
                mantissa,
                59,
                rest != 0,
                Ghost(exact),
                Ghost(den as nat),
            );
            Binary32::assemble(false, encoding)
        }
    }

    /// `-self`.
    pub fn negate(self) -> (result: Binary32)
        ensures
            result == negation_of(self),
    {
        if self.bits >= 0x8000_0000 {
            Binary32 { bits: self.bits - 0x8000_0000 }
        } else {
            Binary32 { bits: self.bits + 0x8000_0000 }
        }
    }

    /// `|self|`.
    pub fn absolute(self) -> (result: Binary32)
        ensures
            result == absolute_of(self),
    {
        Binary32 { bits: self.bits % 0x8000_0000 }
    }

    /// Whether `self` is not a number.
    pub fn is_nan(self) -> (result: bool)
        ensures
            result == self.nan(),
    {
        self.bits % 0x8000_0000 > 0x7f80_0000
    }

    fn place(self) -> (place: i64)
        ensures
            place == self.rank(),
    {
        let magnitude: i64 = (self.bits % 0x8000_0000) as i64;
        if self.bits >= 0x8000_0000 {
            -magnitude
        } else {
            magnitude
        }
    }

    /// `self < other`.
    pub fn lt(self, other: Binary32) -> (result: bool)
        ensures
            result == less(self, other),
    {
        !self.is_nan() && !other.is_nan() && self.place() < other.place()
    }

    /// `self <= other`.
    pub fn le(self, other: Binary32) -> (result: bool)
        ensures
            result == at_most(self, other),
    {
        !self.is_nan() && !other.is_nan() && self.place() <= other.place()
    }

    /// `self > other`.
    pub fn gt(self, other: Binary32) -> (result: bool)
        ensures
            result == less(other, self),
    {
        other.lt(self)
    }

    /// `self >= other`.
    pub fn ge(self, other: Binary32) -> (result: bool)
        ensures
            result == at_most(other, self),
    {
        other.le(self)
    }

    /// Whether both are the same number.
    pub fn equals(self, other: Binary32) -> (result: bool)
        ensures
            result == same(self, other),
    {
        !self.is_nan() && !other.is_nan() && self.place() == other.place()
    }

    /// `self * other`.
    pub fn times(self, other: Binary32) -> (result: Binary32)
        ensures
            result == product_of(self, other),
    {
        let negative: bool = (self.bits >= 0x8000_0000) != (other.bits >= 0x8000_0000);
        let a: u32 = self.bits % 0x8000_0000;
        let b: u32 = other.bits % 0x8000_0000;
        if a > 0x7f80_0000 || b > 0x7f80_0000 {
            return Binary32 { bits: 0x7fc0_0000 };
        }
        if a == 0x7f80_0000 || b == 0x7f80_0000 {
            return if a == 0 || b == 0 {
                Binary32 { bits: 0x7fc0_0000 }
            } else {
                Binary32::assemble(negative, 0x7f80_0000)
            };
        }
        let x: Parts = self.parts();
        let y: Parts = other.parts();
        let ghost num = self.units() * other.units();
        proof {
            lemma_pow2_pos(149);
        }
        if x.mantissa == 0 || y.mantissa == 0 {
            proof {
                assert(num == 0) by (nonlinear_arith)
                    requires
                        num == (x.mantissa * pow2(x.exponent as nat)) * (y.mantissa * pow2(
                            y.exponent as nat,
                        )),
                        x.mantissa == 0 || y.mantissa == 0,
                ;
                lemma_encode_zero(24, pow2(149));
            }
            return Binary32::assemble(negative, 0);
        }
        assert(0 < x.mantissa * y.mantissa < 0x1_0000_0000_0000) by (nonlinear_arith)
            requires
                0 < x.mantissa < 0x100_0000,
                0 < y.mantissa < 0x100_0000,
        ;
        let mantissa: u64 = x.mantissa as u64 * y.mantissa as u64;
        let up: u32 = x.exponent + y.exponent;
        proof {
            lemma2_to64();
            lemma2_to64_rest();
            lemma_pow2_strictly_increases(64, 127);
            lemma_pow2_adds(x.exponent as nat, y.exponent as nat);
            lemma_quotient_unique(mantissa as nat, 1, mantissa as nat, 0);
            assert((num * pow2(149)) * 1 == (mantissa as nat * pow2(up as nat)) * pow2(149))
                by (nonlinear_arith)
                requires
                    num == (x.mantissa * pow2(x.exponent as nat)) * (y.mantissa * pow2(
                        y.exponent as nat,
                    )),
                    mantissa == x.mantissa * y.mantissa,
                    pow2(up as nat) == pow2(x.exponent as nat) * pow2(y.exponent as nat),
            ;
            lemma_approximates(
                num,
                pow2(149),
                mantissa as nat,
                1,
                mantissa as nat,
                false,
                up as nat,
                149,
            );
        }
        let encoding: u64 = round_to_encoding(
            24,
            mantissa as u128,
            up as i32 - 149,
            false,
            Ghost(num),
            Ghost(pow2(149)),
        );
        Binary32::assemble(negative, encoding)
    }

    /// `self / other`.
    pub fn over(self, other: Binary32) -> (result: Binary32)
        ensures
            result == quotient_of(self, other),
    {
        let negative: bool = (self.bits >= 0x8000_0000) != (other.bits >= 0x8000_0000);
        let a: u32 = self.bits % 0x8000_0000;
        let b: u32 = other.bits % 0x8000_0000;
        if a > 0x7f80_0000 || b > 0x7f80_0000 {
            return Binary32 { bits: 0x7fc0_0000 };
        }
        if a == 0x7f80_0000 {
            return if b == 0x7f80_0000 {
                Binary32 { bits: 0x7fc0_0000 }
            } else {
                Binary32::assemble(negative, 0x7f80_0000)
            };
        }
        if b == 0x7f80_0000 {
            return Binary32::assemble(negative, 0);
        }
        if b == 0 {
            return if a == 0 {
                Binary32 { bits: 0x7fc0_0000 }
            } else {
                Binary32::assemble(negative, 0x7f80_0000)
            };
        }
        let x: Parts = self.parts();
        let y: Parts = other.parts();
        let ghost num = self.units() * pow2(149);
        let ghost den = other.units();
        proof {
            lemma_pow2_pos(y.exponent as nat);
            assert(den > 0) by (nonlinear_arith)
                requires
                    den == y.mantissa * pow2(y.exponent as nat),
                    y.mantissa > 0,
                    pow2(y.exponent as nat) > 0,
            ;
        }
        if x.mantissa == 0 {
            proof {
                assert(num == 0) by (nonlinear_arith)
                    requires
                        num == (0 * pow2(x.exponent as nat)) * pow2(149),
                ;
                lemma_encode_zero(24, den);
            }
            return Binary32::assemble(negative, 0);
        }
        let power: u128 = power_of_two(100);
        proof {
            lemma2_to64();
            lemma2_to64_rest();
            lemma_pow2_adds(24, 100);
            lemma_pow2_adds(76, 24);
            lemma_pow2_adds(64, 63);
            lemma_pow2_strictly_increases(124, 127);
            lemma_pow2_strictly_increases(26, 76);
            assert(x.mantissa * power < pow2(124)) by (nonlinear_arith)
                requires
                    x.mantissa < pow2(24),
                    power == pow2(100),
                    pow2(124) == pow2(24) * pow2(100),
                    pow2(100) > 0,
            ;
        }
        let scaled: u128 = x.mantissa as u128 * power;
        let mantissa: u128 = scaled / y.mantissa as u128;
        let rest: u128 = scaled % y.mantissa as u128;
        let up: u32 = x.exponent + 49;
        proof {
            lemma_fundamental_div_mod(scaled as int, y.mantissa as int);
            lemma_pow2_pos(100);
            assert(scaled >= pow2(100)) by (nonlinear_arith)
                requires
                    scaled == x.mantissa * pow2(100),
                    x.mantissa >= 1,
                    pow2(100) > 0,
            ;
            assert(mantissa >= pow2(76)) by (nonlinear_arith)
                requires
                    scaled == y.mantissa * mantissa + rest,
                    rest < y.mantissa,
                    y.mantissa < pow2(24),
                    scaled >= pow2(100),
                    pow2(100) == pow2(76) * pow2(24),
            ;
            assert(mantissa <= scaled) by (nonlinear_arith)
                requires
                    scaled == y.mantissa * mantissa + rest,
                    y.mantissa >= 1,
                    rest >= 0,
                    mantissa >= 0,
            ;
            lemma_pow2_adds(100, 49);
            lemma_pow2_adds(x.exponent as nat, 49);
            assert((num * pow2(y.exponent as nat)) * y.mantissa as nat == (scaled as nat * pow2(
                up as nat,
            )) * den) by (nonlinear_arith)
                requires
                    num == (x.mantissa * pow2(x.exponent as nat)) * pow2(149),
                    den == y.mantissa * pow2(y.exponent as nat),
                    scaled == x.mantissa * pow2(100),
                    pow2(149) == pow2(100) * pow2(49),
                    pow2(up as nat) == pow2(x.exponent as nat) * pow2(49),
            ;
            lemma_approximates(
                num,
                den,
                scaled as nat,
                y.mantissa as nat,
                mantissa as nat,
                rest != 0,
                up as nat,
                y.exponent as nat,
            );
        }
        let encoding: u64 = round_to_encoding(
            24,
            mantissa,
            up as i32 - y.exponent as i32,
            rest != 0,
            Ghost(num),
            Ghost(den),
        );
        Binary32::assemble(negative, encoding)
    }

    /// `self + other`.
    pub fn plus(self, other: Binary32) -> (result: Binary32)
        ensures
            result == sum_of(self, other),
    {
        let a: u32 = self.bits % 0x8000_0000;
        let b: u32 = other.bits % 0x8000_0000;
        let a_negative: bool = self.bits >= 0x8000_0000;
        let b_negative: bool = other.bits >= 0x8000_0000;
        if a > 0x7f80_0000 || b > 0x7f80_0000 {
            return Binary32 { bits: 0x7fc0_0000 };
        }
        if a == 0x7f80_0000 {
            return if b == 0x7f80_0000 && a_negative != b_negative {
                Binary32 { bits: 0x7fc0_0000 }
            } else {
                self
            };
        }
        if b == 0x7f80_0000 {
            return other;
        }
        let x: Parts = self.parts();
        let y: Parts = other.parts();
        if x.exponent >= y.exponent {
            combine(a_negative, x, b_negative, y)
        } else {
            combine(b_negative, y, a_negative, x)
        }
    }

    /// `self - other`.
    pub fn minus(self, other: Binary32) -> (result: Binary32)
        ensures
            result == difference_of(self, other),
    {
        self.plus(other.negate())
    }

    /// The integer part, cut off at the range of `i32`.
    pub fn truncate(self) -> (result: i32)
        ensures
            result == truncated(self),
    {
        let a: u32 = self.bits % 0x8000_0000;
        let negative: bool = self.bits >= 0x8000_0000;
        if a > 0x7f80_0000 {
            return 0;
        }
        if a == 0x7f80_0000 {
            return if negative { i32::MIN } else { i32::MAX };
        }
        let x: Parts = self.parts();
        let whole: u64 = x.whole();
        if negative {
            if whole > 0x8000_0000 {
                i32::MIN
            } else {
                (-(whole as i64)) as i32
            }
        } else if whole > 0x7fff_ffff {
            i32::MAX
        } else {
            whole as i32
        }
    }
}

/// Taking a number apart undoes putting it together.
pub proof fn lemma_with_sign(negative: bool, magnitude: nat)
    requires
        magnitude < 0x8000_0000,
    ensures
        with_sign(negative, magnitude).negative() == negative,
        with_sign(negative, magnitude).magnitude() == magnitude,
{
}

/// The sign and the encoding of a rounded number.
pub proof fn lemma_nearest(negative: bool, num: nat, den: nat)
    ensures
        nearest(negative, num, den).negative() == negative,
        nearest(negative, num, den).magnitude() == if encode(precision(), num, den) < infinity() {
            encode(precision(), num, den)
        } else {
            infinity()
        },
{
}

spec fn signed(negative: bool, units: nat) -> int {
    if negative {
        -(units as int)
    } else {
        units as int
    }
}

spec fn rounded_total(total: int, negative_zero: bool) -> Binary32 {
    if total == 0 {
        with_sign(negative_zero, 0)
    } else if total < 0 {
        nearest(true, (-total) as nat, 1)
    } else {
        nearest(false, total as nat, 1)
    }
}

/// The sum of two finite numbers, the one with the larger exponent first.
fn combine(high_negative: bool, high: Parts, low_negative: bool, low: Parts) -> (result: Binary32)
    requires
        high.mantissa < 0x100_0000,
        low.mantissa < 0x100_0000,
        low.exponent <= high.exponent <= 253,
        high.exponent > 0 ==> high.mantissa >= 0x80_0000,
    ensures
        result == rounded_total(
            signed(high_negative, high.units()) + signed(low_negative, low.units()),
            high_negative && low_negative,
        ),
{
    let apart: u32 = high.exponent - low.exponent;
    if low.mantissa == 0 || apart <= 100 {
        let shift: u32 = if low.mantissa == 0 { 0 } else { apart };
        let base: u32 = if low.mantissa == 0 { high.exponent } else { low.exponent };
        combine_exactly(high_negative, high, low_negative, low, shift, base)
    } else {
        combine_far_apart(high_negative, high, low_negative, low)
    }
}

/// Adds numbers whose significands fit side by side.
fn combine_exactly(
    high_negative: bool,
    high: Parts,
    low_negative: bool,
    low: Parts,
    shift: u32,
    base: u32,
) -> (result: Binary32)
    requires
        high.mantissa < 0x100_0000,
        low.mantissa < 0x100_0000,
        high.exponent <= 253,
        shift <= 100,
        shift + base == high.exponent,
        low.mantissa == 0 || base == low.exponent,
    ensures
        result == rounded_total(
            signed(high_negative, high.units()) + signed(low_negative, low.units()),
            high_negative && low_negative,
        ),
{
    let power: u128 = power_of_two(shift);
    let ghost unit = pow2(base as nat);
    proof {
        lemma2_to64();
        lemma2_to64_rest();
        lemma_pow2_pos(base as nat);
        lemma_pow2_adds(24, 100);
        lemma_pow2_adds(64, 60);
        lemma_pow2_strictly_increases(124, 127);
        lemma_pow2_adds(125, 2);
        lemma_pow2_adds(124, 1);
        lemma_pow2_pos(shift as nat);
        if shift < 100 {
            lemma_pow2_strictly_increases(shift as nat, 100);
        }
        assert(high.mantissa * power < pow2(124)) by (nonlinear_arith)
            requires
                high.mantissa < pow2(24),
                0 < power <= pow2(100),
                pow2(124) == pow2(24) * pow2(100),
        ;
        lemma_pow2_adds(shift as nat, base as nat);
    }
    let raised: u128 = high.mantissa as u128 * power;
    let lower: u128 = low.mantissa as u128;
    assert(high.units() == raised * unit) by (nonlinear_arith)
        requires
            high.units() == high.mantissa * pow2(high.exponent as nat),
            raised == high.mantissa * power,
            power == pow2(shift as nat),
            pow2(high.exponent as nat) == pow2(shift as nat) * unit,
    ;
    assert(low.units() == lower * unit) by {
        if low.mantissa == 0 {
            assert(0 * pow2(low.exponent as nat) == 0);
            assert(0 * unit == 0);
        }
    }
    let negative: bool;
    let mantissa: u128;
    if high_negative == low_negative {
        negative = high_negative;
        mantissa = raised + lower;
    } else if raised >= lower {
        negative = high_negative;
        mantissa = raised - lower;
    } else {
        negative = low_negative;
        mantissa = lower - raised;
    }
    let ghost total = signed(high_negative, high.units()) + signed(low_negative, low.units());
    let ghost num = mantissa as nat * unit;
    assert(total == signed(negative, num)) by (nonlinear_arith)
        requires
            total == signed(high_negative, (raised * unit) as nat) + signed(
                low_negative,
                (lower * unit) as nat,
            ),
            num == mantissa * unit,
            (high_negative == low_negative && negative == high_negative && mantissa == raised
                + lower) || (high_negative != low_negative && negative == high_negative && mantissa
                == raised - lower) || (high_negative != low_negative && negative == low_negative
                && mantissa == lower - raised),
    ;
    if mantissa == 0 {
        assert(num == 0) by (nonlinear_arith)
            requires
                num == 0 * unit,
        ;
        assert(high_negative && low_negative ==> raised == 0 && lower == 0);
        return Binary32::assemble(high_negative && low_negative, 0);
    }
    proof {
        assert(num > 0) by (nonlinear_arith)
            requires
                num == mantissa * unit,
                mantissa > 0,
                unit > 0,
        ;
        lemma_quotient_unique(mantissa as nat, 1, mantissa as nat, 0);
        assert((num * 1) * 1 == (mantissa as nat * unit) * 1);
        lemma_approximates(
            num,
            1,
            mantissa as nat,
            1,
            mantissa as nat,
            false,
            base as nat,
            0,
        );
    }
    let encoding: u64 = round_to_encoding(
        24,
        mantissa,
        base as i32,
        false,
        Ghost(num),
        Ghost(1),
    );
    Binary32::assemble(negative, encoding)
}

/// Adds numbers so far apart that the smaller one only tilts the rounding.
fn combine_far_apart(
    high_negative: bool,
    high: Parts,
    low_negative: bool,
    low: Parts,
) -> (result: Binary32)
    requires
        0x80_0000 <= high.mantissa < 0x100_0000,
        0 < low.mantissa < 0x100_0000,
        low.exponent + 100 < high.exponent <= 253,
    ensures
        result == rounded_total(
            signed(high_negative, high.units()) + signed(low_negative, low.units()),
            high_negative && low_negative,
        ),
{
    let power: u128 = power_of_two(70);
    let ghost apart = (high.exponent - low.exponent) as nat;
    let ghost den = pow2((apart - 70) as nat);
    proof {
        lemma2_to64();
        lemma2_to64_rest();
        lemma_pow2_adds(24, 70);
        lemma_pow2_adds(23, 70);
        lemma_pow2_adds(93, 1);
        lemma_pow2_strictly_increases(94, 127);
        lemma_pow2_strictly_increases(26, 93);
        lemma_pow2_adds(64, 63);
        lemma_pow2_adds(64, 6);
        lemma_pow2_adds(70, (apart - 70) as nat);
        lemma_pow2_adds(apart, low.exponent as nat);
        lemma_pow2_pos(low.exponent as nat);
        lemma_pow2_strictly_increases(24, (apart - 70) as nat);
        assert(pow2(93) <= high.mantissa * power < pow2(94)) by (nonlinear_arith)
            requires
                pow2(23) <= high.mantissa < pow2(24),
                power == pow2(70),
                pow2(94) == pow2(24) * pow2(70),
                pow2(93) == pow2(23) * pow2(70),
                pow2(70) > 0,
        ;
    }
    let raised: u128 = high.mantissa as u128 * power;
    let mantissa: u128 = if high_negative == low_negative { raised } else { raised - 1 };
    let ghost scaled = (if high_negative == low_negative {
        high.mantissa * pow2(apart) + low.mantissa
    } else {
        high.mantissa * pow2(apart) - low.mantissa
    }) as nat;
    let ghost num = scaled * pow2(low.exponent as nat);
    let ghost total = signed(high_negative, high.units()) + signed(low_negative, low.units());
    proof {
        let far = high.mantissa * pow2(apart);
        assert(far == raised * den) by (nonlinear_arith)
            requires
                far == high.mantissa * pow2(apart),
                raised == high.mantissa * power,
                power == pow2(70),
                pow2(apart) == pow2(70) * den,
        ;
        assert(far >= den) by (nonlinear_arith)
            requires
                far == raised * den,
                raised >= 1,
                den >= 1,
        ;
        if high_negative == low_negative {
            lemma_quotient_unique(scaled, den, raised as nat, low.mantissa as nat);
        } else {
            assert(scaled == (raised - 1) * den + (den - low.mantissa)) by (nonlinear_arith)
                requires
                    scaled == raised * den - low.mantissa,
            ;
            lemma_quotient_unique(
                scaled,
                den,
                (raised - 1) as nat,
                (den - low.mantissa) as nat,
            );
        }
        assert(num > 0) by (nonlinear_arith)
            requires
                num == scaled * pow2(low.exponent as nat),
                scaled > 0,
                pow2(low.exponent as nat) > 0,
        ;
        assert(high.units() == far * pow2(low.exponent as nat)) by (nonlinear_arith)
            requires
                high.units() == high.mantissa * pow2(high.exponent as nat),
                pow2(high.exponent as nat) == pow2(apart) * pow2(low.exponent as nat),
                far == high.mantissa * pow2(apart),
        ;
        let unit = pow2(low.exponent as nat);
        if high_negative == low_negative {
            assert(num == high.units() + low.units()) by (nonlinear_arith)
                requires
                    num == scaled * unit,
                    scaled == far + low.mantissa,
                    high.units() == far * unit,
                    low.units() == low.mantissa * unit,
            ;
        } else {
            assert(num == high.units() - low.units()) by (nonlinear_arith)
                requires
                    num == scaled * unit,
                    scaled == far - low.mantissa,
                    high.units() == far * unit,
                    low.units() == low.mantissa * unit,
            ;
        }
        lemma_pow2_adds(high.exponent as nat, 0);
        lemma_pow2_adds((low.exponent + 70) as nat, (apart - 70) as nat);
        lemma_pow2_adds(low.exponent as nat, 70);
        assert((num * pow2(70)) * den == (scaled * pow2(high.exponent as nat)) * 1)
            by (nonlinear_arith)
            requires
                num == scaled * unit,
                pow2(high.exponent as nat) == (unit * pow2(70)) * den,
        ;
        lemma_approximates(
            num,
            1,
            scaled,
            den,
            mantissa as nat,
            true,
            high.exponent as nat,
            70,
        );
    }
    let encoding: u64 = round_to_encoding(
        24,
        mantissa,
        high.exponent as i32 - 70,
        true,
        Ghost(num),
        Ghost(1),
    );
    Binary32::assemble(high_negative, encoding)
}

impl Parts {
    /// The integer part of the value, or `2^32` where it is larger.
    fn whole(self) -> (whole: u64)
        requires
            self.mantissa < 0x100_0000,
            self.exponent <= 253,
            self.exponent > 0 ==> self.mantissa >= 0x80_0000,
        ensures
            whole < 0x1_0000_0000 ==> whole == self.units() / pow2(149),
            whole >= 0x1_0000_0000 ==> self.units() / pow2(149) >= 0x1_0000_0000,
    {
        proof {
            lemma2_to64();
            lemma2_to64_rest();
            lemma_pow2_pos(149);
        }
        if self.exponent >= 149 {
            let up: u32 = self.exponent - 149;
            proof {
                lemma_pow2_adds(up as nat, 149);
                lemma_pow2_pos(up as nat);
                assert(self.units() == (self.mantissa * pow2(up as nat)) * pow2(149))
                    by (nonlinear_arith)
                    requires
                        self.units() == self.mantissa * pow2(self.exponent as nat),
                        pow2(self.exponent as nat) == pow2(up as nat) * pow2(149),
                ;
                lemma_quotient_unique(
                    self.units(),
                    pow2(149),
                    (self.mantissa * pow2(up as nat)) as nat,
                    0,
                );
            }
            if up <= 9 {
                let power: u128 = power_of_two(up);
                proof {
                    if up < 9 {
                        lemma_pow2_strictly_increases(up as nat, 9);
                    }
                    assert(self.mantissa * power < 0x100_0000 * 512) by (nonlinear_arith)
                        requires
                            self.mantissa < 0x100_0000,
                            0 < power <= 512,
                    ;
                }
                self.mantissa as u64 * power as u64
            } else {
                proof {
                    lemma_pow2_strictly_increases(9, up as nat);
                    assert(self.mantissa * pow2(up as nat) >= 0x80_0000 * 512) by (nonlinear_arith)
                        requires
                            self.mantissa >= 0x80_0000,
                            pow2(up as nat) >= 512,
                    ;
                }
                0x1_0000_0000
            }
        } else {
            let down: u32 = 149 - self.exponent;
            proof {
                lemma_pow2_adds(self.exponent as nat, down as nat);
                lemma_pow2_pos(down as nat);
                lemma_pow2_pos(self.exponent as nat);
                let unit = pow2(self.exponent as nat);
                assert(self.units() * pow2(down as nat) == self.mantissa as nat * pow2(149))
                    by (nonlinear_arith)
                    requires
                        self.units() == self.mantissa * unit,
                        pow2(149) == unit * pow2(down as nat),
                ;
                lemma_quotient_of_equal_ratios(
                    self.units(),
                    pow2(149),
                    self.mantissa as nat,
                    pow2(down as nat),
                );
            }
            if down < 64 {
                let power: u128 = power_of_two(down);
                (self.mantissa as u128 / power) as u64
            } else {
                proof {
                    lemma_pow2_strictly_increases(24, down as nat);
                    lemma_quotient_unique(
                        self.mantissa as nat,
                        pow2(down as nat),
                        0,
                        self.mantissa as nat,
                    );
                }
                0
            }
        }
    }
}

} // verus!
