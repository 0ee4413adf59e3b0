//! Single-precision numbers as text with a fixed number of decimals.
use crate::accuracy;
use crate::rounding;
use crate::rounding::round_half_even;
use crate::rounding::INFINITE;
use crate::single;
use crate::single::parts;
use crate::single::Single;
use crate::text;
use crate::text::to_decimal;
use crate::text::to_padded;
use vstd::arithmetic::div_mod::*;
use vstd::arithmetic::power::*;
use vstd::arithmetic::power2::*;
use vstd::prelude::*;
use vstd::string::StringExecFns;

verus! {

/// Ten to the power of `digits`.
pub open spec fn power_of_ten(digits: nat) -> nat
    decreases digits,
{
    if digits == 0 {
        1
    } else {
        10 * power_of_ten((digits - 1) as nat)
    }
}

/// The magnitude of a finite number, counted in the last decimal that is shown.
pub open spec fn decimals(a: Single, digits: nat) -> nat {
    rounding::half_even(
        rounding::units(a.code()) * power_of_ten(digits),
        single::unit_count(),
    )
}

/// A number with `digits` decimals, rounded to nearest.
pub open spec fn fixed(a: Single, digits: nat) -> Seq<char> {
    if a.nan() {
        "NaN"@
    } else {
        let size = if a.infinite() {
            "inf"@
        } else {
            text::decimal(decimals(a, digits) / power_of_ten(digits)) + "."@ + text::padded(
                decimals(a, digits) % power_of_ten(digits),
                digits,
            )
        };
        if a.negative() {
            "-"@ + size
        } else {
            size
        }
    }
}

/// `n` doubled `times` times.
fn doubled(n: u128, times: u32) -> (res: u128)
    requires
        n * pow2(times as nat) <= u128::MAX,
    ensures
        res == n * pow2(times as nat),
    decreases times,
{
    if times == 0 {
        proof {
            lemma2_to64();
            assert(n * 1 == n);
        }
        n
    } else {
        proof {
            lemma_pow2_unfold(times as nat);
            let p = pow2((times - 1) as nat);
            lemma_pow2_pos((times - 1) as nat);
            assert(n * (2 * p) == (2 * n) * p && 2 * n <= n * (2 * p)) by (nonlinear_arith)
                requires
                    p >= 1,
            ;
        }
        doubled(2 * n, times - 1)
    }
}

/// The whole part and the decimals of a magnitude.
fn split(code: u32, digits: u32) -> (res: (u128, u128))
    requires
        code < INFINITE,
        digits == 2 || digits == 3,
    ensures
        ({
            let k = rounding::half_even(
                rounding::units(code as nat) * power_of_ten(digits as nat),
                single::unit_count(),
            );
            let ten = power_of_ten(digits as nat);
            res.0 == k / ten && res.1 == k % ten
        }),
{
    let (m, s): (u64, i32) = parts(code);
    let ten: u128 = if digits == 2 {
        100
    } else {
        1000
    };
    let ghost ps = pow2(s as nat);
    let ghost u = rounding::units(code as nat);
    proof {
        reveal_with_fuel(power_of_ten, 4);
        assert(power_of_ten(digits as nat) == ten);
        lemma2_to64();
        lemma2_to64_rest();
        lemma_pow2_pos(s as nat);
        lemma_pow2_pos(149);
    }
    if s >= 149 {
        let up: i32 = s - 149;
        let ghost pu = pow2(up as nat);
        proof {
            lemma_pow2_adds(40, 64);
            assert(pow2(104) == 0x100_0000_0000_0000_0000_0000_0000);
            if up < 104 {
                lemma_pow2_strictly_increases(up as nat, 104);
            }
            lemma_pow2_pos(up as nat);
            assert(m * pu <= 0xff_ffff * 0x100_0000_0000_0000_0000_0000_0000) by (nonlinear_arith)
                requires
                    m <= 0xff_ffff,
                    1 <= pu <= 0x100_0000_0000_0000_0000_0000_0000,
            ;
            lemma_pow2_adds(up as nat, 149);
            let whole = m * pu;
            let k = whole * ten;
            assert(u * ten == k * pow2(149) + 0) by (nonlinear_arith)
                requires
                    u == m * ps,
                    ps == pu * pow2(149),
                    whole == m * pu,
                    k == whole * ten,
            ;
            lemma_fundamental_div_mod_converse((u * ten) as int, pow2(149) as int, k, 0);
            lemma_fundamental_div_mod_converse(k, ten as int, whole, 0);
        }
        (doubled(m as u128, up as u32), 0)
    } else {
        let down: i32 = 149 - s;
        let ghost pd = pow2(down as nat);
        proof {
            lemma_pow2_adds(down as nat, s as nat);
            lemma_pow2_pos(down as nat);
            assert(u * ten == ps * (m * ten)) by (nonlinear_arith)
                requires
                    u == m * ps,
            ;
            assert(pow2(149) == ps * pd) by (nonlinear_arith)
                requires
                    pow2(149) == pd * ps,
            ;
            rounding::lemma_half_even_scale((m * ten) as nat, pd, ps);
        }
        if down >= 40 {
            proof {
                if down > 40 {
                    lemma_pow2_strictly_increases(40, down as nat);
                }
                lemma_fundamental_div_mod_converse((m * ten) as int, pd as int, 0, (m * ten) as int);
                lemma_fundamental_div_mod_converse(0, ten as int, 0, 0);
            }
            return (0, 0);
        }
        let unit: u64 = 1u64 << (down as u64);
        proof {
            lemma_pow2_strictly_increases(down as nat, 40);
            assert(1 * pd == pd);
            vstd::bits::lemma_u64_shl_is_mul(1, down as u64);
        }
        let k: u128 = round_half_even(m as u128 * ten, unit as u128);
        (k / ten, k % ten)
    }
}

/// Renders a number with two or three decimals.
pub fn to_fixed(a: Single, digits: u32) -> (res: String)
    requires
        digits == 2 || digits == 3,
    ensures
        res@ == fixed(a, digits as nat),
{
    if a.is_nan() {
        return String::from_str("NaN");
    }
    let code: u32 = a.bits % 0x8000_0000;
    let size = if code == INFINITE {
        String::from_str("inf")
    } else {
        let (whole, rest): (u128, u128) = split(code, digits);
        let mut size = to_decimal(whole);
        size.append(".");
        let rest = to_padded(rest, digits);
        size.append(rest.as_str());
        size
    };
    if a.bits >= 0x8000_0000 {
        let mut res = String::from_str("-");
        res.append(size.as_str());
        res
    } else {
        size
    }
}

/// The decimals that are shown are the nearest: the number is off by half of the last one at
/// most.
pub proof fn shown_decimals_are_nearest(a: Single, digits: nat)
    requires
        a.finite(),
    ensures
        ({
            let shown = decimals(a, digits) * single::unit_count();
            let exact = single::abs(a.value()) * power_of_ten(digits);
            &&& 2 * shown <= 2 * exact + single::unit_count()
            &&& 2 * shown >= 2 * exact - single::unit_count()
        }),
{
    lemma_pow2_pos(149);
    rounding::lemma_units_at_least(a.code());
    accuracy::lemma_half_even_error(
        rounding::units(a.code()) * power_of_ten(digits),
        single::unit_count(),
    );
}

/// A finite number is shown as a sign where it is negative, its whole part, a point and as
/// many decimals as were asked for. Read as one number, the digits give the decimals that are
/// nearest.
pub proof fn fixed_shows_the_decimals(a: Single, digits: nat)
    requires
        a.finite(),
        digits > 0,
    ensures
        ({
            let sign = if a.negative() {
                "-"@
            } else {
                Seq::empty()
            };
            let whole = text::decimal(decimals(a, digits) / power_of_ten(digits));
            let rest = text::padded(decimals(a, digits) % power_of_ten(digits), digits);
            &&& fixed(a, digits) == sign + whole + "."@ + rest
            &&& rest.len() == digits
            &&& text::number_of(whole) * power_of_ten(digits) + text::number_of(rest) == decimals(
                a,
                digits,
            )
        }),
{
    let n = decimals(a, digits);
    let p = power_of_ten(digits);
    let whole = text::decimal(n / p);
    let rest = text::padded(n % p, digits);
    lemma_power_of_ten(digits);
    lemma_fundamental_div_mod(n as int, p as int);
    text::decimal_reads_back(n / p);
    let r = text::padded_reads_back(n % p, digits);
    assert(r == 0) by (nonlinear_arith)
        requires
            n % p == text::number_of(rest) + r * p,
            n % p < p,
            text::number_of(rest) >= 0,
            r >= 0,
    ;
    assert(0 * p == 0);
    assert((n / p) * p == p * (n / p)) by (nonlinear_arith);
    let sign = if a.negative() {
        "-"@
    } else {
        Seq::empty()
    };
    assert(fixed(a, digits) =~= sign + whole + "."@ + rest);
}

proof fn lemma_power_of_ten(digits: nat)
    ensures
        power_of_ten(digits) == pow(10, digits),
        power_of_ten(digits) > 0,
    decreases digits,
{
    reveal(pow);
    if digits > 0 {
        lemma_power_of_ten((digits - 1) as nat);
    }
}

} // verus!
