//! Single-precision arithmetic on integers.
//!
//! The routing metrics and the airtime formula are defined in IEEE 754 single
//! precision with rounding to nearest. Each operation here gives the exact
//! result rounded once, so the numbers agree bit for bit with the machine's.
use crate::rounding;
use crate::rounding::round_scaled;
use crate::rounding::INFINITE;
use vstd::arithmetic::div_mod::*;
use vstd::arithmetic::power2::*;
use vstd::prelude::*;

verus! {

/// A single-precision number, held as its IEEE 754 bit pattern. Two are `==` where
/// their patterns are the same; `below` and `not_above` go by their values.
#[derive(Debug, Clone, Copy, PartialEq, Eq, Structural)]
pub struct Single {
    pub bits: u32,
}

/// The number of units in one: two to the power of 149.
pub open spec fn unit_count() -> nat {
    pow2(149)
}

/// The number with the given sign and magnitude code.
pub open spec fn pack(negative: bool, code: nat) -> Single {
    if negative {
        Single { bits: (code + 0x8000_0000) as u32 }
    } else {
        Single { bits: code as u32 }
    }
}

/// The result of an operation that has no numeric result.
pub open spec fn not_a_number() -> Single {
    Single { bits: 0x7fc0_0000 }
}

pub open spec fn abs(x: int) -> nat {
    if x < 0 {
        (-x) as nat
    } else {
        x as nat
    }
}

/// `n / d` units with the given sign, rounded to single precision.
pub open spec fn rounded(negative: bool, n: nat, d: nat) -> Single {
    pack(negative, rounding::magnitude(n, d))
}

impl Single {
    pub open spec fn negative(self) -> bool {
        self.bits >= 0x8000_0000
    }

    /// The bit pattern without the sign.
    pub open spec fn code(self) -> nat {
        (self.bits % 0x8000_0000) as nat
    }

    pub open spec fn nan(self) -> bool {
        self.code() > INFINITE
    }

    pub open spec fn infinite(self) -> bool {
        self.code() == INFINITE
    }

    pub open spec fn finite(self) -> bool {
        self.code() < INFINITE
    }

    /// The value of a finite number in units.
    pub open spec fn value(self) -> int {
        if self.negative() {
            -(rounding::units(self.code()) as int)
        } else {
            rounding::units(self.code()) as int
        }
    }

    /// The place of a number among all numbers, infinities included.
    pub open spec fn rank(self) -> int {
        if self.negative() {
            -(self.code() as int)
        } else {
            self.code() as int
        }
    }

    /// The integer part of the magnitude of a finite number.
    pub open spec fn whole(self) -> nat {
        rounding::units(self.code()) / unit_count()
    }
}

pub open spec fn negated(a: Single) -> Single {
    pack(!a.negative(), a.code())
}

/// Whether `a < b`. No comparison with something that is not a number holds.
pub open spec fn less(a: Single, b: Single) -> bool {
    !a.nan() && !b.nan() && a.rank() < b.rank()
}

/// Whether `a <= b`.
pub open spec fn at_most(a: Single, b: Single) -> bool {
    !a.nan() && !b.nan() && a.rank() <= b.rank()
}

/// `a + b`.
pub open spec fn sum(a: Single, b: Single) -> Single {
    if a.nan() || b.nan() {
        not_a_number()
    } else if a.infinite() {
        if b.infinite() && a.negative() != b.negative() {
            not_a_number()
        } else {
            a
        }
    } else if b.infinite() {
        b
    } else if a.value() + b.value() == 0 {
        pack(a.negative() && b.negative(), 0)
    } else {
        rounded(a.value() + b.value() < 0, abs(a.value() + b.value()), 1)
    }
}

/// `a - b`.
pub open spec fn difference(a: Single, b: Single) -> Single {
    sum(a, negated(b))
}

/// `a * b`.
pub open spec fn product(a: Single, b: Single) -> Single {
    let negative = a.negative() != b.negative();
    if a.nan() || b.nan() {
        not_a_number()
    } else if a.infinite() || b.infinite() {
        if a.code() == 0 || b.code() == 0 {
            not_a_number()
        } else {
            pack(negative, INFINITE as nat)
        }
    } else {
        rounded(negative, abs(a.value()) * abs(b.value()), unit_count())
    }
}

/// `a / b`.
pub open spec fn quotient(a: Single, b: Single) -> Single {
    let negative = a.negative() != b.negative();
    if a.nan() || b.nan() || (a.infinite() && b.infinite()) || (a.code() == 0 && b.code() == 0) {
        not_a_number()
    } else if a.infinite() || b.code() == 0 {
        pack(negative, INFINITE as nat)
    } else if b.infinite() {
        pack(negative, 0)
    } else {
        rounded(negative, abs(a.value()) * unit_count(), abs(b.value()))
    }
}

/// An integer as a single.
pub open spec fn integer(n: nat) -> Single {
    rounded(false, n * unit_count(), 1)
}

/// A signed integer as a single.
pub open spec fn signed_integer(n: int) -> Single {
    rounded(n < 0, abs(n) * unit_count(), 1)
}

/// The larger of two numbers; something that is not a number gives way.
pub open spec fn larger(a: Single, b: Single) -> Single {
    if a.nan() || less(a, b) {
        b
    } else {
        a
    }
}

/// `x` moved into the interval from `low` to `high`.
pub open spec fn clamped(x: Single, low: Single, high: Single) -> Single {
    if less(x, low) {
        low
    } else if less(high, x) {
        high
    } else {
        x
    }
}

/// The smallest integer that is not below a number.
pub open spec fn ceiling(a: Single) -> Single {
    if !a.finite() || a.code() == 0 {
        a
    } else if a.negative() {
        rounded(true, a.whole() * unit_count(), 1)
    } else if rounding::units(a.code()) % unit_count() == 0 {
        rounded(false, a.whole() * unit_count(), 1)
    } else {
        rounded(false, (a.whole() + 1) * unit_count(), 1)
    }
}

/// A number without its fraction, brought into the range from `low` to `high`.
/// What is not a number counts as zero.
pub open spec fn saturated(a: Single, low: int, high: int) -> int {
    let whole = if a.nan() {
        0
    } else if a.infinite() {
        if a.negative() {
            low
        } else {
            high
        }
    } else if a.negative() {
        -(a.whole() as int)
    } else {
        a.whole() as int
    };
    if whole < low {
        low
    } else if whole > high {
        high
    } else {
        whole
    }
}

/// Among finite numbers, a smaller rank is a smaller value.
pub proof fn rank_orders_values(a: Single, b: Single)
    requires
        a.finite(),
        b.finite(),
    ensures
        a.rank() < b.rank() <==> a.value() < b.value(),
        a.rank() == b.rank() <==> a.value() == b.value(),
{
    rounding::lemma_units_at_least(a.code());
    rounding::lemma_units_at_least(b.code());
    if a.code() < b.code() {
        rounding::lemma_units_increase(a.code(), b.code());
    }
    if b.code() < a.code() {
        rounding::lemma_units_increase(b.code(), a.code());
    }
}

/// An integer of 64 bits is a finite number without a sign.
pub proof fn lemma_integer_is_finite(n: nat)
    requires
        n < 0x1_0000_0000_0000_0000,
    ensures
        integer(n).code() == rounding::nearest(n * unit_count(), 1),
        integer(n).finite(),
        !integer(n).negative(),
        rounding::nearest(n * unit_count(), 1) <= 0x5f80_0000,
{
    let top = 0x1_0000_0000_0000_0000nat;
    assert(n * unit_count() <= top * unit_count()) by (nonlinear_arith)
        requires
            n <= top,
    ;
    rounding::lemma_nearest_monotone(n * unit_count(), 1, top * unit_count(), 1);
    assert(rounding::nearest(top * unit_count(), 1) == 0x5f80_0000) by {
        lemma2_to64();
        lemma2_to64_rest();
        lemma_pow2_adds(64, 149);
        lemma_pow2_adds(23, 190);
        assert(top * unit_count() == pow2(213));
        assert(pow2(213) == 0x80_0000 * pow2(190));
        rounding::lemma_units_shift(0x80_0000, 190);
        rounding::lemma_nearest_of_units(0x5f80_0000);
    }
}

/// The significand and the exponent of a magnitude code.
pub(crate) fn parts(code: u32) -> (res: (u64, i32))
    requires
        code < INFINITE,
    ensures
        rounding::units(code as nat) == res.0 * pow2(res.1 as nat),
        0 <= res.1 <= 253,
        res.0 < 0x100_0000,
        res.1 > 0 ==> res.0 >= 0x80_0000,
        res.1 > 0 ==> code == res.1 * 0x80_0000 + res.0,
        res.1 == 0 ==> code == res.0,
{
    proof {
        lemma2_to64();
    }
    if code < 0x100_0000 {
        assert(code * 1 == code);
        (code as u64, 0)
    } else {
        let s: u32 = code / 0x80_0000 - 1;
        let m: u32 = code % 0x80_0000 + 0x80_0000;
        proof {
            rounding::lemma_units_shift(m as nat, s as nat);
            assert(code == s * 0x80_0000 + m);
        }
        (m as u64, s as i32)
    }
}

/// The integer part of a magnitude and whether there is nothing behind it.
fn whole_part(code: u32) -> (res: (u64, bool))
    requires
        code < 0x5f00_0000,
    ensures
        res.0 == rounding::units(code as nat) / unit_count(),
        res.1 == (rounding::units(code as nat) % unit_count() == 0),
        res.0 < 0x8000_0000_0000_0000,
        code < 0x4b80_0000 ==> res.0 < 0x100_0000,
{
    let (m, s): (u64, i32) = parts(code);
    let ghost ps = pow2(s as nat);
    proof {
        lemma2_to64();
        lemma2_to64_rest();
        lemma_pow2_pos(s as nat);
        lemma_pow2_pos(149);
    }
    if s >= 149 {
        let up: i32 = s - 149;
        let ghost pu = pow2(up as nat);
        proof {
            if up < 40 {
                lemma_pow2_strictly_increases(up as nat, 40);
            }
            if up < 39 {
                lemma_pow2_strictly_increases(up as nat, 39);
            }
            lemma_pow2_pos(up as nat);
            assert(m <= m * pu <= 0xff_ffff * 0x80_0000_0000) by (nonlinear_arith)
                requires
                    m <= 0xff_ffff,
                    1 <= pu <= 0x80_0000_0000,
            ;
            vstd::bits::lemma_u64_shl_is_mul(m, up as u64);
            lemma_pow2_adds(up as nat, 149);
            assert(m * ps == (m * pu) * pow2(149) + 0) by (nonlinear_arith)
                requires
                    ps == pu * pow2(149),
            ;
            lemma_fundamental_div_mod_converse(
                (m * ps) as int,
                pow2(149) as int,
                (m * pu) as int,
                0,
            );
            if code < 0x4b80_0000 {
                assert(up == 0);
                assert(m * 1 == m);
            }
        }
        (m << (up as u64), true)
    } else {
        let down: i32 = 149 - s;
        let ghost pd = pow2(down as nat);
        proof {
            lemma_pow2_adds(down as nat, s as nat);
            lemma_pow2_pos(down as nat);
            let q = (m as nat) / pd;
            let r = (m as nat) % pd;
            lemma_fundamental_div_mod(m as int, pd as int);
            assert(m * ps == q * (pd * ps) + r * ps) by (nonlinear_arith)
                requires
                    m == pd * q + r,
            ;
            assert(0 <= r * ps < pd * ps) by (nonlinear_arith)
                requires
                    0 <= r < pd,
                    ps > 0,
            ;
            lemma_fundamental_div_mod_converse(
                (m * ps) as int,
                pow2(149) as int,
                q as int,
                (r * ps) as int,
            );
            assert((r * ps == 0) == (r == 0)) by (nonlinear_arith)
                requires
                    ps > 0,
            ;
            assert(q <= m) by (nonlinear_arith)
                requires
                    m == pd * q + r,
                    pd >= 1,
                    r >= 0,
                    q >= 0,
            ;
        }
        if down >= 24 {
            proof {
                if down > 24 {
                    lemma_pow2_strictly_increases(24, down as nat);
                }
                lemma_fundamental_div_mod_converse(m as int, pd as int, 0, m as int);
            }
            return (0, m == 0);
        }
        let unit: u64 = 1u64 << (down as u64);
        proof {
            lemma_pow2_strictly_increases(down as nat, 24);
            assert(1 * pd == pd);
            vstd::bits::lemma_u64_shl_is_mul(1, down as u64);
        }
        (m / unit, m % unit == 0)
    }
}

fn packed(negative: bool, code: u32) -> (res: Single)
    requires
        code < 0x8000_0000,
    ensures
        res == pack(negative, code as nat),
        res.negative() == negative,
        res.code() == code,
{
    if negative {
        Single { bits: code + 0x8000_0000 }
    } else {
        Single { bits: code }
    }
}

/// Codes from that of two to the power of 63 on stand for large integers.
proof fn lemma_large_whole(a: Single)
    requires
        0x5f00_0000 <= a.code() < INFINITE,
    ensures
        a.whole() >= 0x1_0000_0000,
{
    let code = a.code();
    let s = (code / 0x80_0000 - 1) as nat;
    let m = code % 0x80_0000 + 0x80_0000;
    assert(code == s * 0x80_0000 + m);
    rounding::lemma_units_shift(m, s);
    let p = pow2((s - 149) as nat);
    lemma_pow2_adds((s - 149) as nat, 149);
    lemma2_to64_rest();
    lemma2_to64();
    if s - 149 > 32 {
        lemma_pow2_strictly_increases(32, (s - 149) as nat);
    }
    let k = m * p;
    assert(m * pow2(s) == k * pow2(149) + 0) by (nonlinear_arith)
        requires
            pow2(s) == p * pow2(149),
            k == m * p,
    ;
    lemma_pow2_pos(149);
    lemma_fundamental_div_mod_converse((m * pow2(s)) as int, pow2(149) as int, k as int, 0);
    assert(k >= 0x1_0000_0000) by (nonlinear_arith)
        requires
            k == m * p,
            m >= 1,
            p >= 0x1_0000_0000,
    ;
}

/// Adds a smaller magnitude to a larger one, or takes it away.
fn add_magnitudes(negative: bool, large: u32, small: u32, same_sign: bool) -> (res: Single)
    requires
        small <= large < INFINITE,
    ensures
        same_sign ==> res == rounded(
            negative,
            rounding::units(large as nat) + rounding::units(small as nat),
            1,
        ),
        !same_sign && small < large ==> res == rounded(
            negative,
            (rounding::units(large as nat) - rounding::units(small as nat)) as nat,
            1,
        ),
        !same_sign && small == large ==> res == pack(false, 0),
{
    if !same_sign && small == large {
        return packed(false, 0);
    }
    proof {
        if small < large {
            rounding::lemma_units_increase(small as nat, large as nat);
        }
    }
    let (m, s): (u64, i32) = parts(large);
    let (n, t): (u64, i32) = parts(small);
    assert(s >= t);
    let gap: i32 = s - t;
    let ghost ps = pow2(s as nat);
    let ghost pt = pow2(t as nat);
    if gap > 40 {
        proof {
            let pg = pow2((gap - 2) as nat);
            lemma_pow2_adds(t as nat, (gap - 2) as nat);
            assert(pow2(39) == 0x80_0000_0000) by {
                lemma2_to64_rest();
            }
            if gap - 2 > 39 {
                lemma_pow2_strictly_increases(39, (gap - 2) as nat);
            }
            lemma_pow2_pos(t as nat);
            assert(n * pt < pt * pg) by (nonlinear_arith)
                requires
                    n < 0x80_0000_0000 <= pg,
                    pt > 0,
            ;
            rounding::lemma_nearest_absorbs(m as nat, s as nat, (n * pt) as nat);
        }
        return packed(negative, large);
    }
    let ghost pg = pow2(gap as nat);
    proof {
        lemma2_to64_rest();
        if gap < 40 {
            lemma_pow2_strictly_increases(gap as nat, 40);
        }
        lemma_pow2_pos(gap as nat);
        assert(m <= m * pg <= 0xff_ffff * 0x100_0000_0000) by (nonlinear_arith)
            requires
                m <= 0xff_ffff,
                1 <= pg <= 0x100_0000_0000,
        ;
        vstd::bits::lemma_u64_shl_is_mul(m, gap as u64);
        lemma_pow2_adds(gap as nat, t as nat);
        assert(m * ps == (m * pg) * pt) by (nonlinear_arith)
            requires
                ps == pg * pt,
        ;
        assert((m * pg) * pt + n * pt == (m * pg + n) * pt) by (nonlinear_arith);
        assert((m * pg) * pt - n * pt == (m * pg - n) * pt) by (nonlinear_arith);
        lemma_pow2_pos(t as nat);
    }
    let shifted: u64 = m << (gap as u64);
    let total: u128 = if same_sign {
        shifted as u128 + n as u128
    } else {
        proof {
            assert(shifted >= n) by (nonlinear_arith)
                requires
                    (shifted as int) * pt > n * pt,
                    pt > 0,
            ;
        }
        shifted as u128 - n as u128
    };
    let code: u32 = round_scaled(total, 1, t);
    packed(negative, code)
}

impl Single {
    fn sign_of(&self) -> (res: bool)
        ensures
            res == self.negative(),
    {
        self.bits >= 0x8000_0000
    }

    fn code_of(&self) -> (res: u32)
        ensures
            res == self.code(),
            res < 0x8000_0000,
    {
        self.bits % 0x8000_0000
    }

    pub fn is_nan(&self) -> (res: bool)
        ensures
            res == self.nan(),
    {
        self.code_of() > INFINITE
    }

    pub fn is_finite(&self) -> (res: bool)
        ensures
            res == self.finite(),
    {
        self.code_of() < INFINITE
    }

    /// `self < other`.
    pub fn below(&self, other: Single) -> (res: bool)
        ensures
            res == less(*self, other),
    {
        let (a, b): (u32, u32) = (self.code_of(), other.code_of());
        if a > INFINITE || b > INFINITE {
            return false;
        }
        match (self.sign_of(), other.sign_of()) {
            (false, false) => a < b,
            (true, true) => a > b,
            (true, false) => a > 0 || b > 0,
            (false, true) => false,
        }
    }

    /// `self <= other`.
    pub fn not_above(&self, other: Single) -> (res: bool)
        ensures
            res == at_most(*self, other),
    {
        !self.is_nan() && !other.is_nan() && !other.below(*self)
    }

    pub fn negate(&self) -> (res: Single)
        ensures
            res == negated(*self),
    {
        packed(!self.sign_of(), self.code_of())
    }

    /// The larger of two numbers.
    pub fn max(&self, other: Single) -> (res: Single)
        ensures
            res == larger(*self, other),
    {
        if self.is_nan() || self.below(other) {
            other
        } else {
            *self
        }
    }

    /// Moves a number into an interval.
    pub fn clamp(&self, low: Single, high: Single) -> (res: Single)
        ensures
            res == clamped(*self, low, high),
    {
        if self.below(low) {
            low
        } else if high.below(*self) {
            high
        } else {
            *self
        }
    }

    /// An integer, rounded to single precision.
    pub fn from_integer(n: u64) -> (res: Single)
        ensures
            res == integer(n as nat),
    {
        let code: u32 = round_scaled(n as u128, 1, 149);
        packed(false, code)
    }

    /// A small signed integer, which single precision holds exactly.
    pub fn from_i8(n: i8) -> (res: Single)
        ensures
            res == signed_integer(n as int),
    {
        let size: u128 = if n < 0 {
            (-(n as i128)) as u128
        } else {
            n as u128
        };
        packed(n < 0, round_scaled(size, 1, 149))
    }

    /// The smallest integer that is not below a number.
    pub fn ceil(&self) -> (res: Single)
        ensures
            res == ceiling(*self),
    {
        let code: u32 = self.code_of();
        if code >= INFINITE || code == 0 {
            return *self;
        }
        if code >= 0x4b80_0000 {
            proof {
                self.whole_beyond_fractions();
            }
            return *self;
        }
        let (whole, exact): (u64, bool) = whole_part(code);
        if self.sign_of() || exact {
            packed(self.sign_of(), round_scaled(whole as u128, 1, 149))
        } else {
            packed(false, round_scaled(whole as u128 + 1, 1, 149))
        }
    }

    /// From two to the power of 24 on, every number is an integer.
    proof fn whole_beyond_fractions(self)
        requires
            0x4b80_0000 <= self.code() < INFINITE,
        ensures
            self.whole() * unit_count() == rounding::units(self.code()),
            rounding::units(self.code()) % unit_count() == 0,
            rounding::nearest(self.whole() * unit_count(), 1) == self.code(),
    {
        let code = self.code();
        let s = (code / 0x80_0000 - 1) as nat;
        let m = code % 0x80_0000 + 0x80_0000;
        assert(code == s * 0x80_0000 + m);
        rounding::lemma_units_shift(m, s);
        lemma_pow2_adds((s - 149) as nat, 149);
        let k = m * pow2((s - 149) as nat);
        assert(m * pow2(s) == k * pow2(149) + 0) by (nonlinear_arith)
            requires
                pow2(s) == pow2((s - 149) as nat) * pow2(149),
                k == m * pow2((s - 149) as nat),
        ;
        lemma_pow2_pos(149);
        lemma_fundamental_div_mod_converse((m * pow2(s)) as int, pow2(149) as int, k as int, 0);
        rounding::lemma_nearest_of_units(code);
    }

    /// The number without its fraction as an unsigned integer; what does not
    /// fit becomes the nearest bound.
    pub fn to_u32(&self) -> (res: u32)
        ensures
            res == saturated(*self, 0, u32::MAX as int),
    {
        let code: u32 = self.code_of();
        if code > INFINITE || self.sign_of() {
            return 0;
        }
        if code >= 0x5f00_0000 {
            proof {
                if code < INFINITE {
                    lemma_large_whole(*self);
                }
            }
            return u32::MAX;
        }
        let (whole, _): (u64, bool) = whole_part(code);
        if whole > u32::MAX as u64 {
            u32::MAX
        } else {
            whole as u32
        }
    }

    /// The number without its fraction as a signed byte; what does not fit
    /// becomes the nearest bound.
    pub fn to_i8(&self) -> (res: i8)
        ensures
            res == saturated(*self, -128, 127),
    {
        let code: u32 = self.code_of();
        if code > INFINITE {
            return 0;
        }
        let size: u64 = if code >= 0x5f00_0000 {
            proof {
                if code < INFINITE {
                    lemma_large_whole(*self);
                }
            }
            128
        } else {
            let (whole, _): (u64, bool) = whole_part(code);
            whole
        };
        if self.sign_of() {
            if size >= 128 {
                -128
            } else {
                -(size as i8)
            }
        } else if size >= 127 {
            127
        } else {
            size as i8
        }
    }

    /// `self + other`.
    pub fn plus(&self, other: Single) -> (res: Single)
        ensures
            res == sum(*self, other),
    {
        let (a, b): (u32, u32) = (self.code_of(), other.code_of());
        let (a_neg, b_neg) = (self.sign_of(), other.sign_of());
        if a > INFINITE || b > INFINITE {
            return Single { bits: 0x7fc0_0000 };
        }
        if a == INFINITE {
            if b == INFINITE && a_neg != b_neg {
                return Single { bits: 0x7fc0_0000 };
            }
            return *self;
        }
        if b == INFINITE {
            return other;
        }
        proof {
            rank_orders_values(*self, other);
            rank_orders_values(*self, negated(other));
        }
        if a >= b {
            add_magnitudes(a_neg, a, b, a_neg == b_neg)
        } else {
            add_magnitudes(b_neg, b, a, a_neg == b_neg)
        }
    }

    /// `self - other`.
    pub fn minus(&self, other: Single) -> (res: Single)
        ensures
            res == difference(*self, other),
    {
        self.plus(other.negate())
    }

    /// `self * other`.
    pub fn times(&self, other: Single) -> (res: Single)
        ensures
            res == product(*self, other),
    {
        let negative = self.sign_of() != other.sign_of();
        let (a, b): (u32, u32) = (self.code_of(), other.code_of());
        if a > INFINITE || b > INFINITE {
            return Single { bits: 0x7fc0_0000 };
        }
        if a == INFINITE || b == INFINITE {
            if a == 0 || b == 0 {
                return Single { bits: 0x7fc0_0000 };
            }
            return packed(negative, INFINITE);
        }
        let (m, s): (u64, i32) = parts(a);
        let (n, t): (u64, i32) = parts(b);
        assert(m * n < 0x1_0000_0000_0000) by (nonlinear_arith)
            requires
                m < 0x100_0000,
                n < 0x100_0000,
        ;
        let code: u32 = round_scaled((m * n) as u128, 1, s + t - 149);
        proof {
            let ps = pow2(s as nat);
            let pt = pow2(t as nat);
            lemma_pow2_adds(s as nat, t as nat);
            assert((m * ps) * (n * pt) == (m * n) * (ps * pt)) by (nonlinear_arith);
            rounding::lemma_scaled_powers((m * n) as nat, 1, (s + t) as nat, 149);
            assert(1 * pow2(149) == pow2(149));
        }
        packed(negative, code)
    }

    /// `self / other`.
    pub fn over(&self, other: Single) -> (res: Single)
        ensures
            res == quotient(*self, other),
    {
        let negative = self.sign_of() != other.sign_of();
        let (a, b): (u32, u32) = (self.code_of(), other.code_of());
        if a > INFINITE || b > INFINITE || (a == INFINITE && b == INFINITE) || (a == 0 && b == 0) {
            return Single { bits: 0x7fc0_0000 };
        }
        if a == INFINITE || b == 0 {
            return packed(negative, INFINITE);
        }
        if b == INFINITE {
            return packed(negative, 0);
        }
        let (m, s): (u64, i32) = parts(a);
        let (n, t): (u64, i32) = parts(b);
        proof {
            assert(n > 0);
        }
        let code: u32 = round_scaled(m as u128, n as u128, s + 149 - t);
        proof {
            let ps = pow2(s as nat);
            lemma_pow2_adds(s as nat, 149);
            assert((m * ps) * pow2(149) == m * (ps * pow2(149))) by (nonlinear_arith);
            rounding::lemma_scaled_powers(m as nat, n as nat, (s + 149) as nat, t as nat);
        }
        packed(negative, code)
    }
}

} // verus!
