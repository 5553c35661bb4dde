//! Fee rates in sats per virtual byte, and the fees they make.
//!
//! A fee rate is a double-precision number, and fees are computed in double
//! precision. Here the number is held as an integer times a power of two, and
//! the arithmetic is that of integers, rounded as double precision rounds.

use vstd::prelude::*;

use crate::amount::Amount;

verus! {

/// The least power of two in units of which a number takes at most 53 bits.
pub open spec fn double_unit(n: nat) -> nat
    decreases n,
{
    if n < 0x20_0000_0000_0000 {
        1
    } else {
        2 * double_unit(n / 2)
    }
}

/// The double-precision number nearest to an integer; of two that are equally
/// near, the one with an even significand.
pub open spec fn round_to_double(n: nat) -> nat {
    let unit = double_unit(n);
    let whole = n / unit;
    let rest = n % unit;
    if 2 * rest > unit || (2 * rest == unit && whole % 2 == 1) {
        (whole + 1) * unit
    } else {
        whole * unit
    }
}

/// A virtual size, in quarters of a byte: the weight of a transaction is four
/// times its virtual size in bytes.
#[derive(Clone, Copy, PartialEq, Eq, Debug, Structural)]
pub struct VBytes {
    pub quarters: u128,
}

impl VBytes {
    /// Sizes for which fees are computed; no size that a weight gives is
    /// larger.
    pub open spec fn in_range(self) -> bool {
        self.quarters <= 0x40_0000_0000_0000_0000
    }

    /// The virtual size of something of the given weight, to double precision.
    pub fn from_weight(weight: usize) -> (size: VBytes)
        ensures
            size.quarters == round_to_double(weight as nat),
            size.quarters <= 0x2_0000_0000_0000_0000,
            size.in_range(),
    {
        VBytes { quarters: nearest_double(weight as u128) }
    }

    /// This virtual size and so many quarters of a byte, to double precision.
    pub fn plus(self, quarters: u64) -> (size: VBytes)
        requires
            self.quarters <= 0x2_0000_0000_0000_0000,
        ensures
            size.quarters == round_to_double((self.quarters + quarters) as nat),
            size.in_range(),
    {
        VBytes { quarters: nearest_double(self.quarters + quarters as u128) }
    }
}

pub proof fn lemma_double_unit_is_at_most(n: nat)
    ensures
        1 <= double_unit(n),
        n >= 1 ==> double_unit(n) <= n,
    decreases n,
{
    if n >= 0x20_0000_0000_0000 {
        lemma_double_unit_is_at_most(n / 2);
    }
}

/// Rounding to double precision at most doubles a number.
pub proof fn lemma_round_to_double_bound(n: nat)
    ensures
        round_to_double(n) <= 2 * n,
        n < 0x20_0000_0000_0000 ==> round_to_double(n) == n,
{
    lemma_double_unit_is_at_most(n);
    let unit = double_unit(n);
    if n < 0x20_0000_0000_0000 {
        assert(n / 1 == n && n % 1 == 0);
        assert(round_to_double(n) == n) by (nonlinear_arith)
            requires
                round_to_double(n) == n * unit || round_to_double(n) == (n + 1) * unit && 2 * (n
                    % unit) >= unit,
                unit == 1,
                n % unit == 0,
        ;
    } else {
        vstd::arithmetic::div_mod::lemma_fundamental_div_mod(n as int, unit as int);
        let whole = n / unit;
        assert((whole + 1) * unit == whole * unit + unit) by (nonlinear_arith);
        assert(unit * whole == whole * unit) by (nonlinear_arith);
    }
}

fn nearest_double(n: u128) -> (rounded: u128)
    requires
        n < 0x4000_0000_0000_0000_0000_0000_0000_0000,
    ensures
        rounded == round_to_double(n as nat),
        rounded <= 2 * n,
{
    let mut unit: u128 = 1;
    let mut whole: u128 = n;
    while whole >= 0x20_0000_0000_0000
        invariant
            n < 0x4000_0000_0000_0000_0000_0000_0000_0000,
            unit >= 1,
            whole == n / unit,
            unit * whole <= n,
            unit * double_unit(whole as nat) == double_unit(n as nat),
        decreases whole,
    {
        proof {
            vstd::arithmetic::div_mod::lemma_div_denominator(n as int, unit as int, 2);
            assert(unit * 2 <= n) by (nonlinear_arith)
                requires
                    unit * whole <= n,
                    whole >= 2,
            ;
            let half = whole / 2;
            assert((unit * 2) * half <= n) by (nonlinear_arith)
                requires
                    unit * whole <= n,
                    2 * half <= whole,
                    unit >= 1,
            ;
            let inner = double_unit(half as nat);
            assert((unit * 2) * inner == unit * (2 * inner)) by (nonlinear_arith);
        }
        whole = whole / 2;
        unit = unit * 2;
    }
    let rest: u128 = n % unit;
    proof {
        lemma_round_to_double_bound(n as nat);
        assert(unit * 1 == unit) by (nonlinear_arith);
        assert(unit == double_unit(n as nat));
        assert(0 <= rest < unit) by {
            vstd::arithmetic::div_mod::lemma_mod_bound(n as int, unit as int);
        }
        if n >= 1 {
            lemma_double_unit_is_at_most(n as nat);
        } else {
            assert(unit == 1);
        }
        assert((whole + 1) * unit == unit * whole + unit) by (nonlinear_arith);
        assert(whole * unit == unit * whole) by (nonlinear_arith);
    }
    if 2 * rest > unit || (2 * rest == unit && whole % 2 == 1) {
        (whole + 1) * unit
    } else {
        whole * unit
    }
}

fn power_of_two(k: u32) -> (power: u128)
    requires
        k <= 127,
    ensures
        power == vstd::arithmetic::power2::pow2(k as nat),
        power >= 1,
{
    let mut power: u128 = 1;
    let mut i: u32 = 0;
    proof {
        vstd::arithmetic::power2::lemma2_to64();
    }
    while i < k
        invariant
            i <= k <= 127,
            power == vstd::arithmetic::power2::pow2(i as nat),
            power >= 1,
        decreases k - i,
    {
        proof {
            vstd::arithmetic::power2::lemma_pow2_unfold((i + 1) as nat);
            lemma_power_bound((i + 1) as nat);
        }
        power = power * 2;
        i += 1;
    }
    power
}

proof fn lemma_power_bound(k: nat)
    ensures
        k <= 127 ==> vstd::arithmetic::power2::pow2(k) <= 0x8000_0000_0000_0000_0000_0000_0000_0000,
        k >= 127 ==> vstd::arithmetic::power2::pow2(k) >= 0x8000_0000_0000_0000_0000_0000_0000_0000,
        k >= 64 ==> vstd::arithmetic::power2::pow2(k) >= 0x1_0000_0000_0000_0000,
        k <= 63 ==> vstd::arithmetic::power2::pow2(k) <= 0x8000_0000_0000_0000,
{
    vstd::arithmetic::power2::lemma2_to64();
    vstd::arithmetic::power2::lemma2_to64_rest();
    vstd::arithmetic::power2::lemma_pow2_adds(64, 63);
    if k < 127 {
        vstd::arithmetic::power2::lemma_pow2_strictly_increases(k, 127);
    } else if k > 127 {
        vstd::arithmetic::power2::lemma_pow2_strictly_increases(127, k);
    }
    if k > 64 {
        vstd::arithmetic::power2::lemma_pow2_strictly_increases(64, k);
    }
    if k < 63 {
        vstd::arithmetic::power2::lemma_pow2_strictly_increases(k, 63);
    }
}

/// A fee rate in sats per virtual byte: `mantissa` times two to the power of
/// `exponent`.
#[derive(Clone, Copy, PartialEq, Eq, Debug)]
pub struct FeeRate {
    mantissa: u64,
    exponent: i32,
}

impl FeeRate {
    pub closed spec fn mantissa(self) -> nat {
        self.mantissa as nat
    }

    pub closed spec fn exponent(self) -> int {
        self.exponent as int
    }

    /// A rate that a double-precision number can hold.
    #[verifier::type_invariant]
    pub open spec fn well_formed(self) -> bool {
        &&& self.mantissa() < 0x20_0000_0000_0000
        &&& -1074 <= self.exponent() <= 971
    }

    /// The fee rate that the bits of a double-precision number make: its sign
    /// in the highest bit, then eleven bits of exponent, then the fraction.
    /// There is none for a number with a sign, for infinity and for what is not
    /// a number.
    pub fn from_bits(bits: u64) -> (rate: Option<FeeRate>)
        ensures
            rate is Some <==> bits < 0x7ff0_0000_0000_0000,
            rate matches Some(rate) ==> {
                let fraction = bits as nat % 0x10_0000_0000_0000;
                let exponent = bits as int / 0x10_0000_0000_0000;
                &&& rate.well_formed()
                &&& exponent == 0 ==> rate.mantissa() == fraction && rate.exponent() == -1074
                &&& exponent > 0 ==> rate.mantissa() == 0x10_0000_0000_0000 + fraction
                    && rate.exponent() == exponent - 1075
            },
    {
        if bits >= 0x7ff0_0000_0000_0000 {
            return None;
        }
        let fraction: u64 = bits % 0x10_0000_0000_0000;
        let exponent: i32 = (bits / 0x10_0000_0000_0000) as i32;
        if exponent == 0 {
            Some(FeeRate { mantissa: fraction, exponent: -1074 })
        } else {
            Some(FeeRate { mantissa: 0x10_0000_0000_0000 + fraction, exponent: exponent - 1075 })
        }
    }

    /// The fee for so many quarters of a virtual byte: the rate times the size,
    /// to double precision, and then to the nearest whole sat, halves upwards,
    /// as far as an amount can hold it.
    pub open spec fn fee_at(self, quarters: nat) -> nat {
        let product = round_to_double(self.mantissa() * quarters);
        let sats = if self.exponent() >= 2 {
            product * vstd::arithmetic::power2::pow2((self.exponent() - 2) as nat)
        } else {
            let divisor = vstd::arithmetic::power2::pow2((2 - self.exponent()) as nat);
            (2 * product + divisor) / (2 * divisor)
        };
        if sats > u64::MAX {
            u64::MAX as nat
        } else {
            sats
        }
    }

    pub fn fee(&self, size: VBytes) -> (fee: Amount)
        requires
            size.in_range(),
        ensures
            fee.0 == self.fee_at(size.quarters as nat),
    {
        proof {
            use_type_invariant(self);
            let m = self.mantissa();
            let q = size.quarters as nat;
            assert(m * q <= 0x20_0000_0000_0000 * 0x40_0000_0000_0000_0000) by (nonlinear_arith)
                requires
                    m < 0x20_0000_0000_0000,
                    q <= 0x40_0000_0000_0000_0000,
            ;
            assert(m * q >= 0) by (nonlinear_arith);
        }
        let product: u128 = nearest_double(self.mantissa as u128 * size.quarters);
        if self.exponent >= 2 {
            let shift: u32 = (self.exponent - 2) as u32;
            proof {
                lemma_power_bound(shift as nat);
            }
            let ghost power = vstd::arithmetic::power2::pow2(shift as nat);
            if product == 0 {
                assert(0 * power == 0);
                return Amount(0);
            }
            if shift >= 64 || product > 0xffff_ffff_ffff_ffff {
                proof {
                    vstd::arithmetic::power2::lemma_pow2_pos(shift as nat);
                    assert(product * power > u64::MAX) by (nonlinear_arith)
                        requires
                            product >= 1,
                            power >= 1,
                            power > u64::MAX || product > u64::MAX,
                    ;
                }
                return Amount(0xffff_ffff_ffff_ffff);
            }
            let factor: u128 = power_of_two(shift);
            proof {
                assert(product * factor <= 0xffff_ffff_ffff_ffff * 0x8000_0000_0000_0000)
                    by (nonlinear_arith)
                    requires
                        product <= 0xffff_ffff_ffff_ffff,
                        factor <= 0x8000_0000_0000_0000,
                ;
            }
            let sats: u128 = product * factor;
            if sats > 0xffff_ffff_ffff_ffff {
                Amount(0xffff_ffff_ffff_ffff)
            } else {
                Amount(sats as u64)
            }
        } else {
            let shift: u32 = (2 - self.exponent) as u32;
            proof {
                lemma_power_bound(shift as nat);
            }
            let ghost power = vstd::arithmetic::power2::pow2(shift as nat);
            if shift >= 127 {
                assert((2 * product + power) / (2 * power as int) == 0) by {
                    vstd::arithmetic::div_mod::lemma_basic_div(
                        2 * product + power,
                        2 * power as int,
                    );
                }
                return Amount(0);
            }
            proof {
                vstd::arithmetic::power2::lemma_pow2_unfold(127);
                lemma_power_bound(127);
                if shift < 126 {
                    vstd::arithmetic::power2::lemma_pow2_strictly_increases(shift as nat, 126);
                }
            }
            let divisor: u128 = power_of_two(shift);
            let sats: u128 = (2 * product + divisor) / (2 * divisor);
            if sats > 0xffff_ffff_ffff_ffff {
                Amount(0xffff_ffff_ffff_ffff)
            } else {
                Amount(sats as u64)
            }
        }
    }
}

/// A number of more than 53 bits has 53 bits above its unit.
proof fn lemma_unit_is_small(n: nat)
    requires
        n >= 0x20_0000_0000_0000,
    ensures
        0x10_0000_0000_0000 * double_unit(n) <= n,
    decreases n,
{
    assert(double_unit(n) == 2 * double_unit(n / 2));
    if n / 2 >= 0x20_0000_0000_0000 {
        lemma_unit_is_small(n / 2);
    } else {
        assert(double_unit(n / 2) == 1);
    }
}

/// Rounding to double precision changes a number by no more than one part in two to
/// the power of 53, and a number of at most 53 bits not at all.
pub proof fn rounding_is_precise(n: nat)
    ensures
        n <= 0x20_0000_0000_0000 ==> round_to_double(n) == n,
        0x20_0000_0000_0000 * (round_to_double(n) - n) <= n,
        0x20_0000_0000_0000 * (n - round_to_double(n)) <= n,
{
    lemma_round_to_double_bound(n);
    if n >= 0x20_0000_0000_0000 {
        let unit = double_unit(n);
        let whole = n / unit;
        let rest = n % unit;
        lemma_unit_is_small(n);
        lemma_double_unit_is_at_most(n);
        vstd::arithmetic::div_mod::lemma_fundamental_div_mod(n as int, unit as int);
        vstd::arithmetic::div_mod::lemma_mod_bound(n as int, unit as int);
        assert((whole + 1) * unit == unit * whole + unit) by (nonlinear_arith);
        assert(whole * unit == unit * whole) by (nonlinear_arith);
        if n == 0x20_0000_0000_0000 {
            assert(double_unit(0x10_0000_0000_0000) == 1);
            assert(unit == 2);
        }
    }
}

/// The unit of a number is a power of two.
proof fn lemma_unit_is_power(n: nat) -> (k: nat)
    ensures
        double_unit(n) == vstd::arithmetic::power2::pow2(k),
        n >= 0x20_0000_0000_0000 ==> k >= 1,
    decreases n,
{
    vstd::arithmetic::power2::lemma2_to64();
    if n < 0x20_0000_0000_0000 {
        0
    } else {
        let k = lemma_unit_is_power(n / 2);
        vstd::arithmetic::power2::lemma_pow2_unfold(k + 1);
        k + 1
    }
}

/// In its unit a number has at most 53 bits.
proof fn lemma_whole_is_short(n: nat)
    ensures
        n / double_unit(n) < 0x20_0000_0000_0000,
    decreases n,
{
    lemma_double_unit_is_at_most(n);
    if n >= 0x20_0000_0000_0000 {
        let half = n / 2;
        lemma_whole_is_short(half);
        lemma_double_unit_is_at_most(half);
        vstd::arithmetic::div_mod::lemma_div_denominator(
            n as int,
            2,
            double_unit(half) as int,
        );
    } else {
        assert(n / 1 == n);
    }
}

/// The distance of two numbers.
pub open spec fn distance(a: nat, b: nat) -> int {
    if a < b {
        b - a
    } else {
        a - b
    }
}

/// Of the multiples of a unit, the nearest.
proof fn lemma_nearest_multiple(n: nat, unit: nat, rounded: nat, m: nat)
    requires
        unit >= 1,
        rounded == (if 2 * (n % unit) > unit || (2 * (n % unit) == unit && (n / unit) % 2 == 1) {
            (n / unit + 1) * unit
        } else {
            (n / unit) * unit
        }),
    ensures
        distance(rounded, n) <= distance(m * unit, n),
        m * unit != rounded && distance(m * unit, n) == distance(rounded, n) ==> rounded % (4
            * distance(rounded, n) as nat) == 0,
{
    let whole = n / unit;
    let rest = n % unit;
    vstd::arithmetic::div_mod::lemma_fundamental_div_mod(n as int, unit as int);
    vstd::arithmetic::div_mod::lemma_mod_bound(n as int, unit as int);
    assert((whole + 1) * unit == unit * whole + unit) by (nonlinear_arith);
    assert(whole * unit == unit * whole) by (nonlinear_arith);
    if m <= whole {
        assert(m * unit <= whole * unit) by (nonlinear_arith)
            requires
                m <= whole,
        ;
        if m < whole {
            assert(m * unit + unit <= whole * unit) by (nonlinear_arith)
                requires
                    m + 1 <= whole,
            ;
        }
    } else {
        assert(m * unit >= (whole + 1) * unit) by (nonlinear_arith)
            requires
                m >= whole + 1,
        ;
        if m > whole + 1 {
            assert(m * unit >= (whole + 1) * unit + unit) by (nonlinear_arith)
                requires
                    m >= whole + 2,
            ;
        }
    }
    if m * unit != rounded && distance(m * unit, n) == distance(rounded, n) {
        assert(2 * rest == unit);
        assert(distance(rounded, n) == rest);
        let even = if whole % 2 == 1 { whole + 1 } else { whole };
        assert(even % 2 == 0);
        let half = even / 2;
        assert(even == 2 * half);
        assert(rounded == even * unit);
        assert(even * unit == half * (4 * rest)) by (nonlinear_arith)
            requires
                even == 2 * half,
                unit == 2 * rest,
        ;
        vstd::arithmetic::div_mod::lemma_mod_multiples_basic(half as int, 4 * rest as int);
    }
}

/// Rounding to double precision gives a number of at most 53 bits times a power of two,
/// and no other such number is nearer. Where another is as near, the one that is given
/// is even in its last bit: it is a multiple of four times the distance.
pub proof fn rounding_is_to_the_nearest(n: nat, m: nat, k: nat)
    requires
        m <= 0x20_0000_0000_0000,
    ensures
        ({
            let other = m * vstd::arithmetic::power2::pow2(k);
            let rounded = round_to_double(n);
            &&& distance(rounded, n) <= distance(other, n)
            &&& other != rounded && distance(other, n) == distance(rounded, n) ==> rounded % (4
                * distance(rounded, n) as nat) == 0
        }),
        exists|whole: nat, power: nat|
            whole <= 0x20_0000_0000_0000 && round_to_double(n) == #[trigger] (whole
                * vstd::arithmetic::power2::pow2(power)),
{
    let unit = double_unit(n);
    let rounded = round_to_double(n);
    let power = lemma_unit_is_power(n);
    let other = m * vstd::arithmetic::power2::pow2(k);
    lemma_double_unit_is_at_most(n);
    lemma_whole_is_short(n);
    let whole = if rounded == (n / unit) * unit { n / unit } else { n / unit + 1 };
    assert(rounded == whole * vstd::arithmetic::power2::pow2(power));
    if k >= power {
        let times = vstd::arithmetic::power2::pow2((k - power) as nat);
        vstd::arithmetic::power2::lemma_pow2_adds((k - power) as nat, power);
        assert(other == (m * times) * unit) by (nonlinear_arith)
            requires
                other == m * vstd::arithmetic::power2::pow2(k),
                vstd::arithmetic::power2::pow2(k) == times * unit,
        ;
        lemma_nearest_multiple(n, unit, rounded, m * times);
    } else {
        lemma_round_to_double_bound(n);
        if n >= 0x20_0000_0000_0000 {
            let least: nat = 0x10_0000_0000_0000;
            lemma_unit_is_small(n);
            lemma_nearest_multiple(n, unit, rounded, least);
            vstd::arithmetic::power2::lemma_pow2_unfold(power);
            let half = vstd::arithmetic::power2::pow2((power - 1) as nat);
            if k < power - 1 {
                vstd::arithmetic::power2::lemma_pow2_strictly_increases(k, (power - 1) as nat);
            }
            assert(other <= least * unit) by (nonlinear_arith)
                requires
                    other == m * vstd::arithmetic::power2::pow2(k),
                    m <= 0x20_0000_0000_0000,
                    vstd::arithmetic::power2::pow2(k) <= half,
                    unit == 2 * half,
                    least == 0x10_0000_0000_0000,
            ;
        }
    }
}

/// The fee is the rate times the size, which is rounded to double precision, to the
/// nearest whole sat, halves upwards, as far as an amount can hold it.
pub proof fn fee_is_rate_times_size(rate: FeeRate, quarters: nat)
    ensures
        ({
            let product = round_to_double(rate.mantissa() * quarters);
            let fee = rate.fee_at(quarters);
            &&& fee <= u64::MAX
            &&& if rate.exponent() >= 2 {
                let sats = product * vstd::arithmetic::power2::pow2(
                    (rate.exponent() - 2) as nat,
                );
                fee == sats || fee == u64::MAX < sats
            } else {
                let unit = vstd::arithmetic::power2::pow2((2 - rate.exponent()) as nat);
                &&& (2 * fee - 1) * unit <= 2 * product
                &&& fee < u64::MAX ==> 2 * product < (2 * fee + 1) * unit
            }
        }),
{
    let product = round_to_double(rate.mantissa() * quarters);
    if rate.exponent() < 2 {
        let unit = vstd::arithmetic::power2::pow2((2 - rate.exponent()) as nat);
        vstd::arithmetic::power2::lemma_pow2_pos((2 - rate.exponent()) as nat);
        let sats = (2 * product + unit) / (2 * unit);
        let fee = rate.fee_at(quarters);
        vstd::arithmetic::div_mod::lemma_fundamental_div_mod(
            (2 * product + unit) as int,
            (2 * unit) as int,
        );
        vstd::arithmetic::div_mod::lemma_mod_bound(
            (2 * product + unit) as int,
            (2 * unit) as int,
        );
        assert((2 * unit) * sats == (2 * sats - 1) * unit + unit) by (nonlinear_arith);
        assert((2 * sats + 1) * unit == (2 * unit) * sats + unit) by (nonlinear_arith);
        assert((2 * fee - 1) * unit <= (2 * sats - 1) * unit) by (nonlinear_arith)
            requires
                fee <= sats,
                unit > 0,
        ;
    }
}

} // verus!
