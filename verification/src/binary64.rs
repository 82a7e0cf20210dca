//! Double-precision numbers: IEEE 754 binary64, as settings are stored.

use crate::binary32::{nearest, not_a_number, with_sign, Binary32};
use crate::rounding::{
    decode, encode, lemma_approximates, lemma_encode_zero, lemma_quotient_unique, power_of_two,
    round_to_encoding,
};
use vstd::arithmetic::div_mod::lemma_fundamental_div_mod;
use vstd::arithmetic::power2::{
    lemma2_to64, lemma2_to64_rest, lemma_pow2_adds, lemma_pow2_pos, lemma_pow2_strictly_increases,
    pow2,
};
use vstd::prelude::*;

verus! {

/// A binary64 number, held as its bit pattern.
///
/// `==` compares bit patterns.
#[derive(Clone, Copy, PartialEq, Eq, Structural, Debug)]
pub struct Binary64 {
    pub bits: u64,
}

/// The significant bits of the format.
pub open spec fn precision() -> nat {
    53
}

/// The encoding of infinity: the first one that is no finite number.
pub open spec fn infinity() -> nat {
    0x7ff0_0000_0000_0000
}

/// The exponent of the smallest subnormal, `2^-1074`, in which values are counted.
pub open spec fn unit_exponent() -> nat {
    1074
}

impl Binary64 {
    /// The sign bit.
    pub open spec fn negative(self) -> bool {
        self.bits >= 0x8000_0000_0000_0000
    }

    /// The encoding of the absolute value.
    pub open spec fn magnitude(self) -> nat {
        (self.bits % 0x8000_0000_0000_0000) as nat
    }

    pub open spec fn nan(self) -> bool {
        self.magnitude() > infinity()
    }

    pub open spec fn infinite(self) -> bool {
        self.magnitude() == infinity()
    }

    /// The absolute value of a finite number, counted in units of `2^-1074`.
    pub open spec fn units(self) -> nat {
        decode(precision(), self.magnitude())
    }
}

/// `num / den` as the nearest number, a tie going to the even significand.
pub open spec fn ratio(num: nat, den: nat) -> Binary64 {
    let encoding = encode(precision(), num * pow2(unit_exponent()), den);
    Binary64 { bits: (if encoding < infinity() { encoding } else { infinity() }) as u64 }
}

/// The single-precision number nearest to a double-precision one.
pub open spec fn narrowed(number: Binary64) -> Binary32 {
    if number.nan() {
        not_a_number()
    } else if number.infinite() {
        with_sign(number.negative(), crate::binary32::infinity())
    } else {
        nearest(
            number.negative(),
            number.units(),
            pow2((unit_exponent() - crate::binary32::unit_exponent()) as nat),
        )
    }
}

impl Binary64 {
    /// The number with this bit pattern.
    pub fn from_bits(bits: u64) -> (number: Binary64)
        ensures
            number.bits == bits,
    {
        Binary64 { bits }
    }

    /// The bit pattern.
    pub fn to_bits(self) -> (bits: u64)
        ensures
            bits == self.bits,
    {
        self.bits
    }

    /// The number nearest to `num / den`.
    pub fn from_ratio(num: u32, den: u32) -> (result: Binary64)
        requires
            den > 0,
        ensures
            result == ratio(num as nat, den as nat),
    {
        let ghost exact = num as nat * pow2(1074);
        if num == 0 {
            proof {
                lemma_encode_zero(53, den as nat);
            }
            return Binary64 { bits: 0 };
        }
        let power: u128 = power_of_two(90);
        proof {
            lemma2_to64();
            lemma2_to64_rest();
            lemma_pow2_adds(32, 90);
            lemma_pow2_adds(58, 32);
            lemma_pow2_adds(64, 63);
            lemma_pow2_strictly_increases(122, 127);
            lemma_pow2_pos(90);
            assert(num * power < pow2(122)) by (nonlinear_arith)
                requires
                    num < pow2(32),
                    power == pow2(90),
                    pow2(122) == pow2(32) * pow2(90),
                    pow2(90) > 0,
            ;
            assert(num * power >= pow2(90)) by (nonlinear_arith)
                requires
                    num >= 1,
                    power == pow2(90),
                    pow2(90) > 0,
            ;
        }
        let scaled: u128 = num as u128 * power;
        let mantissa: u128 = scaled / den as u128;
        let rest: u128 = scaled % den as u128;
        proof {
            lemma_fundamental_div_mod(scaled as int, den as int);
            assert(mantissa >= pow2(58)) by (nonlinear_arith)
                requires
                    scaled == den * mantissa + rest,
                    rest < den,
                    den < pow2(32),
                    scaled >= pow2(90),
                    pow2(90) == pow2(58) * pow2(32),
            ;
            assert(mantissa <= scaled) by (nonlinear_arith)
                requires
                    scaled == den * mantissa + rest,
                    den >= 1,
                    rest >= 0,
                    mantissa >= 0,
            ;
            lemma_pow2_adds(90, 984);
            assert((exact * pow2(0)) * den as nat == (scaled as nat * pow2(984)) * den as nat)
                by (nonlinear_arith)
                requires
                    exact == num as nat * pow2(1074),
                    scaled == num * pow2(90),
                    pow2(1074) == pow2(90) * pow2(984),
                    pow2(0) == 1,
            ;
            lemma_approximates(
                exact,
                den as nat,
                scaled as nat,
                den as nat,
                mantissa as nat,
                rest != 0,
                984,
                0,
            );
        }
        let encoding: u64 = round_to_encoding(
            53,
            mantissa,
            984,
            rest != 0,
            Ghost(exact),
            Ghost(den as nat),
        );
        if encoding < 0x7ff0_0000_0000_0000 {
            Binary64 { bits: encoding }
        } else {
            Binary64 { bits: 0x7ff0_0000_0000_0000 }
        }
    }

    /// The nearest single-precision number.
    pub fn narrow(self) -> (result: Binary32)
        ensures
            result == narrowed(self),
    {
        let magnitude: u64 = self.bits % 0x8000_0000_0000_0000;
        let negative: bool = self.bits >= 0x8000_0000_0000_0000;
        if magnitude > 0x7ff0_0000_0000_0000 {
            return Binary32 { bits: 0x7fc0_0000 };
        }
        if magnitude == 0x7ff0_0000_0000_0000 {
            return Binary32::assemble(negative, 0x7f80_0000);
        }
        let field: u64 = magnitude / 0x10_0000_0000_0000;
        let fraction: u64 = magnitude % 0x10_0000_0000_0000;
        let mantissa: u64 = if field == 0 { magnitude } else { fraction + 0x10_0000_0000_0000 };
        let exponent: u64 = if field == 0 { 0 } else { field - 1 };
        let ghost num = self.units();
        proof {
            lemma2_to64();
            lemma2_to64_rest();
            lemma_pow2_pos(925);
            lemma_pow2_strictly_increases(64, 127);
            assert(magnitude * 1 == magnitude);
            assert(num == mantissa as nat * pow2(exponent as nat));
        }
        if mantissa == 0 {
            proof {
                lemma_encode_zero(24, pow2(925));
                assert(0 * pow2(exponent as nat) == 0);
            }
            return Binary32::assemble(negative, 0);
        }
        proof {
            lemma_quotient_unique(mantissa as nat, 1, mantissa as nat, 0);
            assert((num * pow2(925)) * 1 == (mantissa as nat * pow2(exponent as nat)) * pow2(925));
            lemma_approximates(
                num,
                pow2(925),
                mantissa as nat,
                1,
                mantissa as nat,
                false,
                exponent as nat,
                925,
            );
        }
        let encoding: u64 = round_to_encoding(
            24,
            mantissa as u128,
            exponent as i32 - 925,
            false,
            Ghost(num),
            Ghost(pow2(925)),
        );
        Binary32::assemble(negative, encoding)
    }
}

} // verus!
