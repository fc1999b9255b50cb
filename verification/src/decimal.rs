//! Exact base-10 arbitrary-precision numbers.
//!
//! A `Decimal` is a signed 96-bit mantissa together with a scale: the value
//! of `Decimal { mantissa, scale }` is `mantissa / 10^scale`. All arithmetic
//! is exact: an operation either returns the mathematically correct value or
//! reports that the result lies outside the representable range. No rounding
//! ever happens silently, and no `NaN`-like state is representable.

use crate::errors::DecimalError;
use vstd::math::abs;
use vstd::prelude::*;

verus! {

/// Largest scale (count of fractional digits) a decimal can carry.
pub const MAX_SCALE: u32 = 28;

/// Largest mantissa magnitude: 2^96 - 1.
pub const MAX_MANTISSA: i128 = 79228162514264337593543950335;

/// 10^n over the mathematical integers.
pub open spec fn pow10(n: nat) -> int
    decreases n,
{
    if n == 0 {
        1
    } else {
        10 * pow10((n - 1) as nat)
    }
}

pub proof fn lemma_pow10_pos(n: nat)
    ensures
        pow10(n) >= 1,
    decreases n,
{
    if n > 0 {
        lemma_pow10_pos((n - 1) as nat);
    }
}

pub proof fn lemma_pow10_mono(a: nat, b: nat)
    requires
        a <= b,
    ensures
        pow10(a) <= pow10(b),
    decreases b,
{
    if a < b {
        lemma_pow10_mono(a, (b - 1) as nat);
        lemma_pow10_pos((b - 1) as nat);
    }
}

pub proof fn lemma_pow10_add(a: nat, b: nat)
    ensures
        pow10(a + b) == pow10(a) * pow10(b),
    decreases a,
{
    if a > 0 {
        lemma_pow10_add((a - 1) as nat, b);
        assert(pow10(a + b) == 10 * pow10(((a - 1) + b) as nat));
        assert(10 * (pow10((a - 1) as nat) * pow10(b)) == (10 * pow10((a - 1) as nat)) * pow10(
            b,
        )) by (nonlinear_arith);
    }
}

/// An exact decimal number with value `mantissa / 10^scale`.
#[derive(Debug, Clone, Copy, PartialEq, Eq)]
pub struct Decimal {
    mantissa: i128,
    scale: u32,
}

impl Decimal {
    /// The signed mantissa, as a mathematical integer.
    pub closed spec fn m(self) -> int {
        self.mantissa as int
    }

    /// The scale: the number of fractional digits.
    pub closed spec fn s(self) -> nat {
        self.scale as nat
    }

    #[verifier::type_invariant]
    pub closed spec fn wf(self) -> bool {
        &&& self.scale <= MAX_SCALE
        &&& -MAX_MANTISSA <= self.mantissa <= MAX_MANTISSA
    }

    /// Every decimal a caller can hold satisfies the representation bounds;
    /// this no-op makes that fact available to the caller's proofs.
    pub fn bounds(&self)
        ensures
            self.s() <= MAX_SCALE,
            -MAX_MANTISSA <= self.m() <= MAX_MANTISSA,
    {
        proof {
            use_type_invariant(self);
        }
    }

    /// The mantissa of `self` rescaled to `s` fractional digits.
    pub open spec fn units(self, s: nat) -> int
        recommends
            self.s() <= s,
    {
        self.m() * pow10((s - self.s()) as nat)
    }

    /// A decimal built from raw parts, when they are within range.
    pub fn new(mantissa: i128, scale: u32) -> (r: Option<Decimal>)
        ensures
            r is Some <==> (-MAX_MANTISSA <= mantissa <= MAX_MANTISSA && scale <= MAX_SCALE),
            r is Some ==> r->0.m() == mantissa && r->0.s() == scale,
    {
        if -MAX_MANTISSA <= mantissa && mantissa <= MAX_MANTISSA && scale <= MAX_SCALE {
            Some(Decimal { mantissa, scale })
        } else {
            None
        }
    }

    /// The integer `v` as a decimal.
    pub fn from_i64(v: i64) -> (r: Decimal)
        ensures
            r.m() == v,
            r.s() == 0,
    {
        Decimal { mantissa: v as i128, scale: 0 }
    }

    pub fn zero() -> (r: Decimal)
        ensures
            r.m() == 0,
            r.s() == 0,
    {
        Decimal { mantissa: 0, scale: 0 }
    }

    pub fn one() -> (r: Decimal)
        ensures
            r.m() == 1,
            r.s() == 0,
    {
        Decimal { mantissa: 1, scale: 0 }
    }
}

/// Both numbers denote the same value: cross-multiplied mantissas agree.
pub open spec fn val_eq(a: Decimal, b: Decimal) -> bool {
    a.m() * pow10(b.s()) == b.m() * pow10(a.s())
}

/// `a` denotes a strictly smaller value than `b`.
pub open spec fn val_lt(a: Decimal, b: Decimal) -> bool {
    a.m() * pow10(b.s()) < b.m() * pow10(a.s())
}

pub open spec fn val_le(a: Decimal, b: Decimal) -> bool {
    a.m() * pow10(b.s()) <= b.m() * pow10(a.s())
}

/// Exact negation; always representable.
pub open spec fn spec_neg(a: Decimal) -> Decimal {
    Decimal::raw(-a.m(), a.s())
}

/// Exact addition at the larger of the two scales, or `None` when the sum
/// does not fit the mantissa range.
pub open spec fn spec_add(a: Decimal, b: Decimal) -> Option<Decimal> {
    let s = if a.s() >= b.s() {
        a.s()
    } else {
        b.s()
    };
    let sum = a.units(s) + b.units(s);
    if -MAX_MANTISSA <= sum <= MAX_MANTISSA {
        Some(Decimal::raw(sum, s))
    } else {
        None
    }
}

pub open spec fn spec_sub(a: Decimal, b: Decimal) -> Option<Decimal> {
    spec_add(a, spec_neg(b))
}

impl Decimal {
    /// The decimal with mantissa `m` and scale `s`, as a ghost value.
    pub closed spec fn raw(m: int, s: nat) -> Decimal {
        Decimal { mantissa: m as i128, scale: s as u32 }
    }

    /// `raw` really carries the given parts when they are in range.
    pub proof fn lemma_raw(m: int, s: nat)
        requires
            -MAX_MANTISSA <= m <= MAX_MANTISSA,
            s <= MAX_SCALE,
        ensures
            Decimal::raw(m, s).m() == m,
            Decimal::raw(m, s).s() == s,
    {
    }
}

/// 10^n as an `i128`.
pub fn pow10_i128(n: u32) -> (r: i128)
    requires
        n <= 38,
    ensures
        r == pow10(n as nat),
        r >= 1,
{
    proof {
        lemma_pow10_pos(n as nat);
        assert(pow10(38) == 100000000000000000000000000000000000000) by {
            reveal_with_fuel(pow10, 39);
        }
    }
    let mut r: i128 = 1;
    let mut i: u32 = 0;
    while i < n
        invariant
            i <= n <= 38,
            r == pow10(i as nat),
        decreases n - i,
    {
        proof {
            lemma_pow10_pos(i as nat);
            assert(pow10((i + 1) as nat) == 10 * pow10(i as nat));
            lemma_pow10_mono((i + 1) as nat, 38);
        }
        r = r * 10;
        i = i + 1;
    }
    r
}

impl Decimal {
    /// Exact negation.
    pub fn neg(self) -> (r: Decimal)
        ensures
            r == spec_neg(self),
    {
        proof {
            use_type_invariant(self);
        }
        Decimal { mantissa: -self.mantissa, scale: self.scale }
    }

    /// Exact addition: `Some` exactly when the sum fits the mantissa range.
    pub fn checked_add(self, other: Decimal) -> (r: Option<Decimal>)
        ensures
            r == spec_add(self, other),
    {
        proof {
            use_type_invariant(self);
            use_type_invariant(other);
        }
        let s: u32 = if self.scale >= other.scale {
            self.scale
        } else {
            other.scale
        };
        let xa = self.mantissa.checked_mul(pow10_i128(s - self.scale));
        let xb = other.mantissa.checked_mul(pow10_i128(s - other.scale));
        let ghost av = self.units(s as nat);
        let ghost bv = other.units(s as nat);
        match (xa, xb) {
            (Some(av_e), Some(bv_e)) => {
                match av_e.checked_add(bv_e) {
                    Some(sum) => {
                        if -MAX_MANTISSA <= sum && sum <= MAX_MANTISSA {
                            Some(Decimal { mantissa: sum, scale: s })
                        } else {
                            None
                        }
                    },
                    None => None,
                }
            },
            (None, _) => {
                proof {
                    lemma_units_overflow_sum(self, other, s as nat);
                }
                None
            },
            (_, None) => {
                proof {
                    lemma_units_overflow_sum(other, self, s as nat);
                }
                None
            },
        }
    }

    /// Exact subtraction: `Some` exactly when the difference fits.
    pub fn checked_sub(self, other: Decimal) -> (r: Option<Decimal>)
        ensures
            r == spec_sub(self, other),
    {
        self.checked_add(other.neg())
    }
}

/// Multiplying two equal scaled mantissas keeps them equal, and a positive
/// factor keeps strict order, in both directions.
proof fn lemma_mul_cmp(u: int, v: int, p: int)
    requires
        p >= 1,
    ensures
        (u < v) <==> (u * p < v * p),
        (u == v) <==> (u * p == v * p),
{
    assert((u < v) <==> (u * p < v * p)) by (nonlinear_arith)
        requires
            p >= 1,
    ;
    assert((u == v) <==> (u * p == v * p)) by (nonlinear_arith)
        requires
            p >= 1,
    ;
}

impl Decimal {
    /// Three-way value comparison: -1, 0 or 1 as `self` is less than, equal
    /// to, or greater than `other`.
    pub fn cmp_val(self, other: Decimal) -> (c: i8)
        ensures
            c == -1 || c == 0 || c == 1,
            (c == -1) <==> val_lt(self, other),
            (c == 0) <==> val_eq(self, other),
            (c == 1) <==> val_lt(other, self),
    {
        proof {
            use_type_invariant(self);
            use_type_invariant(other);
        }
        let s: u32 = if self.scale >= other.scale {
            self.scale
        } else {
            other.scale
        };
        proof {
            lemma_cmp_units(self, other, s as nat);
            lemma_cmp_units(other, self, s as nat);
            lemma_pow10_pos((s - self.s()) as nat);
            lemma_pow10_pos((s - other.s()) as nat);
        }
        let xa = self.mantissa.checked_mul(pow10_i128(s - self.scale));
        let xb = other.mantissa.checked_mul(pow10_i128(s - other.scale));
        match (xa, xb) {
            (Some(ua), Some(ub)) => {
                if ua < ub {
                    -1
                } else if ua == ub {
                    0
                } else {
                    1
                }
            },
            (None, _) => {
                // `self` was the rescaled side, so `other` was not rescaled
                // and its mantissa fits; the overflowing side dominates.
                proof {
                    assert(other.units(s as nat) == other.m() * 1);
                    if self.m() > 0 {
                        assert(self.units(s as nat) >= self.m() * 1) by (nonlinear_arith)
                            requires
                                self.m() > 0,
                                pow10((s - self.s()) as nat) >= 1,
                        ;
                    } else {
                        assert(self.m() < 0 ==> self.units(s as nat) <= self.m() * 1)
                            by (nonlinear_arith)
                            requires
                                pow10((s - self.s()) as nat) >= 1,
                        ;
                        assert(self.m() == 0 ==> self.units(s as nat) == 0) by (nonlinear_arith);
                    }
                }
                if self.mantissa > 0 {
                    1
                } else {
                    -1
                }
            },
            (_, None) => {
                proof {
                    assert(self.units(s as nat) == self.m() * 1);
                    if other.m() > 0 {
                        assert(other.units(s as nat) >= other.m() * 1) by (nonlinear_arith)
                            requires
                                other.m() > 0,
                                pow10((s - other.s()) as nat) >= 1,
                        ;
                    } else {
                        assert(other.m() < 0 ==> other.units(s as nat) <= other.m() * 1)
                            by (nonlinear_arith)
                            requires
                                pow10((s - other.s()) as nat) >= 1,
                        ;
                        assert(other.m() == 0 ==> other.units(s as nat) == 0) by (nonlinear_arith);
                    }
                }
                if other.mantissa > 0 {
                    -1
                } else {
                    1
                }
            },
        }
    }

    /// Value equality, across scales.
    pub fn eq_val(self, other: Decimal) -> (r: bool)
        ensures
            r == val_eq(self, other),
    {
        self.cmp_val(other) == 0
    }

    /// Strict value order.
    pub fn lt_val(self, other: Decimal) -> (r: bool)
        ensures
            r == val_lt(self, other),
    {
        self.cmp_val(other) == -1
    }

    /// Value order or equality.
    pub fn le_val(self, other: Decimal) -> (r: bool)
        ensures
            r == val_le(self, other),
    {
        let c = self.cmp_val(other);
        proof {
            use_type_invariant(self);
            use_type_invariant(other);
        }
        c != 1
    }
}

/// When rescaling one operand of a sum overflows `i128`, the exact sum is
/// out of the mantissa range, so failing the addition is the right answer.
proof fn lemma_units_overflow_sum(a: Decimal, b: Decimal, s: nat)
    requires
        a.s() <= s,
        b.s() <= s,
        s == a.s() || s == b.s(),
        -MAX_MANTISSA <= a.m() <= MAX_MANTISSA,
        -MAX_MANTISSA <= b.m() <= MAX_MANTISSA,
        a.units(s) > i128::MAX || a.units(s) < i128::MIN,
    ensures
        !(-MAX_MANTISSA <= a.units(s) + b.units(s) <= MAX_MANTISSA),
{
    // The overflowing side was rescaled, so the other side's exponent is 0.
    if s == a.s() {
        assert(a.units(s) == a.m() * 1);
        assert(false);
    }
    assert(b.units(s) == b.m() * 1);
}

/// Remove trailing zero digits from `m` until the scale is down at `sfloor`
/// or no trailing zero is left. The denoted value never changes.
pub open spec fn spec_strip_to(m: int, s: nat, sfloor: nat) -> (int, nat)
    decreases s,
{
    if s <= sfloor {
        (m, s)
    } else if m % 10 == 0 {
        spec_strip_to(m / 10, (s - 1) as nat, sfloor)
    } else {
        (m, s)
    }
}

/// Stripping down to the largest representable scale.
pub open spec fn spec_strip(m: int, s: nat) -> (int, nat) {
    spec_strip_to(m, s, MAX_SCALE as nat)
}

pub proof fn lemma_strip_value(m: int, s: nat, sfloor: nat)
    ensures
        spec_strip_to(m, s, sfloor).1 <= s,
        spec_strip_to(m, s, sfloor).0 * pow10(s) == m * pow10(spec_strip_to(m, s, sfloor).1),
        m == 0 <==> spec_strip_to(m, s, sfloor).0 == 0,
        m > 0 ==> spec_strip_to(m, s, sfloor).0 > 0,
        m < 0 ==> spec_strip_to(m, s, sfloor).0 < 0,
    decreases s,
{
    if s <= sfloor {
    } else if m % 10 == 0 {
        let m1 = m / 10;
        assert(m == 10 * m1) by {
            vstd::arithmetic::div_mod::lemma_fundamental_div_mod(m, 10);
        }
        lemma_strip_value(m1, (s - 1) as nat, sfloor);
        let (m2, s2) = spec_strip_to(m1, (s - 1) as nat, sfloor);
        assert(pow10(s) == 10 * pow10((s - 1) as nat));
        assert(m2 * (10 * pow10((s - 1) as nat)) == 10 * (m2 * pow10((s - 1) as nat)))
            by (nonlinear_arith);
        assert((10 * m1) * pow10(s2) == 10 * (m1 * pow10(s2))) by (nonlinear_arith);
    }
}

/// Exact multiplication: the product of the mantissas at the sum of the
/// scales, trailing zeros stripped until the scale fits. `None` when the
/// mantissa product leaves `i128`, or when the stripped product still does
/// not fit the representable range.
pub open spec fn spec_mul(a: Decimal, b: Decimal) -> Option<Decimal> {
    let p = a.m() * b.m();
    if p > i128::MAX || p < i128::MIN {
        None
    } else {
        let (m2, s2) = spec_strip(p, a.s() + b.s());
        if s2 <= MAX_SCALE && -MAX_MANTISSA <= m2 <= MAX_MANTISSA {
            Some(Decimal::raw(m2, s2))
        } else {
            None
        }
    }
}

impl Decimal {
    /// Exact multiplication: `Some` exactly when the product is representable
    /// as `spec_mul` states.
    pub fn checked_mul(self, other: Decimal) -> (r: Option<Decimal>)
        ensures
            r == spec_mul(self, other),
    {
        proof {
            use_type_invariant(self);
            use_type_invariant(other);
        }
        let p = match self.mantissa.checked_mul(other.mantissa) {
            Some(p) => p,
            None => {
                return None;
            },
        };
        if p == i128::MIN {
            // `i128::MIN` is not divisible by 10 and exceeds the mantissa
            // range, so no stripping can save it.
            proof {
                assert((i128::MIN as int) % 10 == 2);
            }
            return None;
        }
        let neg = p < 0;
        let mag0: u128 = (if p < 0 {
            -p
        } else {
            p
        }) as u128;
        assert(signed_mag(mag0 as nat, neg) == p as int);
        let (mag, s) = strip_mag(mag0, self.scale + other.scale, neg, MAX_SCALE);
        if s <= MAX_SCALE && mag <= MAX_MANTISSA as u128 {
            let m2: i128 = if neg {
                -(mag as i128)
            } else {
                mag as i128
            };
            Some(Decimal { mantissa: m2, scale: s })
        } else {
            None
        }
    }
}

/// The signed integer with magnitude `mag` and sign `neg`.
pub open spec fn signed_mag(mag: nat, neg: bool) -> int {
    if neg {
        -(mag as int)
    } else {
        mag as int
    }
}

/// Strip trailing zero digits from a sign-magnitude mantissa down to the
/// given scale floor, mirroring `spec_strip_to` on the signed value.
fn strip_mag(mag0: u128, s0: u32, neg: bool, sfloor: u32) -> (r: (u128, u32))
    requires
        mag0 <= i128::MAX as u128,
        s0 <= 56,
    ensures
        r.0 <= mag0,
        r.1 <= s0,
        signed_mag(r.0 as nat, neg) == spec_strip_to(
            signed_mag(mag0 as nat, neg),
            s0 as nat,
            sfloor as nat,
        ).0,
        r.1 as nat == spec_strip_to(signed_mag(mag0 as nat, neg), s0 as nat, sfloor as nat).1,
{
    let mut mag = mag0;
    let mut s = s0;
    while s > sfloor && mag % 10 == 0
        invariant
            s <= s0,
            mag <= mag0,
            spec_strip_to(signed_mag(mag as nat, neg), s as nat, sfloor as nat) == spec_strip_to(
                signed_mag(mag0 as nat, neg),
                s0 as nat,
                sfloor as nat,
            ),
        decreases s,
    {
        proof {
            lemma_strip_step(mag as nat, s as nat, neg, sfloor as nat);
        }
        mag = mag / 10;
        s = s - 1;
    }
    proof {
        lemma_signed_strip_done(mag as nat, s as nat, neg, sfloor as nat);
    }
    (mag, s)
}

/// One stripping step on the magnitude matches one step of `spec_strip_to`
/// on the signed value.
proof fn lemma_strip_step(mag: nat, s: nat, neg: bool, sfloor: nat)
    requires
        s > sfloor,
        mag % 10 == 0,
    ensures
        signed_mag(mag, neg) % 10 == 0,
        signed_mag(mag, neg) / 10 == signed_mag(mag / 10, neg),
        spec_strip_to(signed_mag(mag, neg), s, sfloor) == spec_strip_to(
            signed_mag(mag / 10, neg),
            (s - 1) as nat,
            sfloor,
        ),
{
    let k = mag / 10;
    assert(mag == 10 * k) by {
        vstd::arithmetic::div_mod::lemma_fundamental_div_mod(mag as int, 10);
    }
    if neg {
        assert((-(10 * k)) % 10 == 0 && (-(10 * k)) / 10 == -k) by {
            vstd::arithmetic::div_mod::lemma_fundamental_div_mod_converse(
                -(10 * (k as int)),
                10,
                -(k as int),
                0,
            );
        }
    }
}

/// Quotient of `n * 10^f` by `d`, truncated: the first `f` fractional digits
/// of `n / d`, written behind the integer part.
pub open spec fn div_q(n: nat, d: nat, f: nat) -> int {
    (n * pow10(f)) / (d as int)
}

/// Remainder matching `div_q`.
pub open spec fn div_r(n: nat, d: nat, f: nat) -> int {
    (n * pow10(f)) % (d as int)
}

/// One long-division step: producing the next fractional digit from the
/// running remainder extends the quotient by exactly that digit.
proof fn lemma_div_digit_step(n: nat, d: nat, f: nat)
    requires
        d >= 1,
    ensures
        0 <= div_r(n, d, f) < d,
        div_q(n, d, f) >= 0,
        0 <= (10 * div_r(n, d, f)) / (d as int) <= 9,
        div_q(n, d, (f + 1) as nat) == 10 * div_q(n, d, f) + (10 * div_r(n, d, f)) / (d as int),
        div_r(n, d, (f + 1) as nat) == (10 * div_r(n, d, f)) % (d as int),
{
    let di = d as int;
    let a = n * pow10(f);
    let q = a / di;
    let r = a % di;
    vstd::arithmetic::div_mod::lemma_fundamental_div_mod(a, di);
    vstd::arithmetic::div_mod::lemma_mod_division_less_than_divisor(a, di);
    lemma_pow10_pos(f);
    assert(a >= 0) by (nonlinear_arith)
        requires
            n >= 0 && pow10(f) >= 1 && a == n * pow10(f),
    ;
    vstd::arithmetic::div_mod::lemma_div_pos_is_pos(a, di);
    let d2 = (10 * r) / di;
    let r2 = (10 * r) % di;
    vstd::arithmetic::div_mod::lemma_fundamental_div_mod(10 * r, di);
    vstd::arithmetic::div_mod::lemma_mod_division_less_than_divisor(10 * r, di);
    assert(d2 <= 9) by (nonlinear_arith)
        requires
            di >= 1 && r <= di - 1 && 10 * r == di * d2 + r2 && 0 <= r2,
    ;
    vstd::arithmetic::div_mod::lemma_div_pos_is_pos(10 * r, di);
    assert(n * pow10((f + 1) as nat) == 10 * a) by (nonlinear_arith)
        requires
            pow10((f + 1) as nat) == 10 * pow10(f) && a == n * pow10(f),
    ;
    assert(10 * a == di * (10 * q + d2) + r2) by (nonlinear_arith)
        requires
            a == di * q + r && 10 * r == di * d2 + r2,
    ;
    vstd::arithmetic::div_mod::lemma_fundamental_div_mod_converse(10 * a, di, 10 * q + d2, r2);
}

/// The truncated quotient only grows as more fractional digits are taken.
proof fn lemma_div_q_mono(n: nat, d: nat, f1: nat, f2: nat)
    requires
        d >= 1,
        f1 <= f2,
    ensures
        0 <= div_q(n, d, f1) <= div_q(n, d, f2),
    decreases f2 - f1,
{
    lemma_div_digit_step(n, d, f1);
    if f1 < f2 {
        lemma_div_digit_step(n, d, f1);
        lemma_div_q_mono(n, d, (f1 + 1) as nat, f2);
        assert(div_q(n, d, (f1 + 1) as nat) >= div_q(n, d, f1)) by (nonlinear_arith)
            requires
                div_q(n, d, (f1 + 1) as nat) == 10 * div_q(n, d, f1) + (10 * div_r(n, d, f1)) / (
                d as int),
                div_q(n, d, f1) >= 0,
                (10 * div_r(n, d, f1)) / (d as int) >= 0,
        ;
    }
}

/// The number of fractional digits division actually keeps: digits are added
/// from `f` up while the remainder is non-zero, the cap `fmax` is not hit,
/// and one more digit would still fit the mantissa range.
pub open spec fn spec_div_scale(n: nat, d: nat, f: nat, fmax: nat) -> nat
    decreases fmax - f,
{
    if f >= fmax || div_r(n, d, f) == 0 || div_q(n, d, (f + 1) as nat) > MAX_MANTISSA {
        f
    } else {
        spec_div_scale(n, d, (f + 1) as nat, fmax)
    }
}

/// Exact division, truncated toward zero at the largest representable number
/// of fractional digits. The result's mantissa is the truncated quotient of
/// the scaled magnitudes; its scale is maximal in the sense of
/// `spec_div_scale`: digits stop only at an exact remainder, at the scale
/// cap, or where one more digit would overflow the mantissa.
pub open spec fn spec_div(a: Decimal, b: Decimal) -> Result<Decimal, DecimalError> {
    if b.m() == 0 {
        Err(DecimalError::DivisionByZero)
    } else {
        let n = abs(a.m());
        let d = abs(b.m());
        let e = b.s() - a.s();
        let f0 = if e >= 0 {
            e as nat
        } else {
            0
        };
        let fmax = (e + MAX_SCALE) as nat;
        if div_q(n, d, f0) > MAX_MANTISSA {
            Err(DecimalError::Overflow)
        } else {
            let f = spec_div_scale(n, d, f0, fmax);
            let q = div_q(n, d, f);
            let neg = (a.m() < 0) != (b.m() < 0);
            Ok(
                Decimal::raw(
                    if neg {
                        -q
                    } else {
                        q
                    },
                    (f - e) as nat,
                ),
            )
        }
    }
}

impl Decimal {
    /// Exact division; see `spec_div` for the precise result.
    pub fn checked_div(self, other: Decimal) -> (res: Result<Decimal, DecimalError>)
        ensures
            res == spec_div(self, other),
    {
        proof {
            use_type_invariant(self);
            use_type_invariant(other);
        }
        if other.mantissa == 0 {
            return Err(DecimalError::DivisionByZero);
        }
        let n: u128 = (if self.mantissa < 0 {
            -self.mantissa
        } else {
            self.mantissa
        }) as u128;
        let d: u128 = (if other.mantissa < 0 {
            -other.mantissa
        } else {
            other.mantissa
        }) as u128;
        let ghost gn = n as nat;
        let ghost gd = d as nat;
        let neg = (self.mantissa < 0) != (other.mantissa < 0);
        let e: i64 = other.scale as i64 - self.scale as i64;
        let f0: u32 = if e >= 0 {
            e as u32
        } else {
            0
        };
        let fmax: u32 = (e + MAX_SCALE as i64) as u32;
        let mut q: u128 = n / d;
        let mut r: u128 = n % d;
        let mut f: u32 = 0;
        assert(q == div_q(gn, gd, 0) && r == div_r(gn, gd, 0)) by {
            assert(gn * pow10(0) == gn);
        }
        while f < f0
            invariant
                gn == n as nat && gd == d as nat && 1 <= gd <= MAX_MANTISSA,
                f <= f0 <= 56,
                q == div_q(gn, gd, f as nat),
                r == div_r(gn, gd, f as nat),
            decreases f0 - f,
        {
            proof {
                lemma_div_digit_step(gn, gd, f as nat);
            }
            if q > MAX_MANTISSA as u128 {
                proof {
                    lemma_div_q_mono(gn, gd, f as nat, f0 as nat);
                }
                return Err(DecimalError::Overflow);
            }
            let digit = (r * 10) / d;
            q = q * 10 + digit;
            r = (r * 10) % d;
            f = f + 1;
            proof {
                assert((10 * div_r(gn, gd, (f - 1) as nat)) / (gd as int) == digit as int);
            }
        }
        if q > MAX_MANTISSA as u128 {
            return Err(DecimalError::Overflow);
        }
        let ghost gf0 = f0 as nat;
        let ghost gfmax = fmax as nat;
        let mut stop = false;
        while !stop && f < fmax && r != 0
            invariant
                gf0 <= f as nat && f <= fmax,
                q == div_q(gn, gd, f as nat),
                r == div_r(gn, gd, f as nat),
                q <= MAX_MANTISSA as u128,
                spec_div_scale(gn, gd, gf0, gfmax) == spec_div_scale(gn, gd, f as nat, gfmax),
                stop ==> spec_div_scale(gn, gd, f as nat, gfmax) == f as nat,
            decreases fmax - f, (if stop { 0int } else { 1int }),
        {
            proof {
                lemma_div_digit_step(gn, gd, f as nat);
            }
            let digit = (r * 10) / d;
            let q2 = q * 10 + digit;
            if q2 > MAX_MANTISSA as u128 {
                stop = true;
            } else {
                q = q2;
                r = (r * 10) % d;
                f = f + 1;
            }
        }
        proof {
            assert(f as nat == spec_div_scale(gn, gd, gf0, gfmax));
        }
        proof {
            assert(0 <= f as i64 - e <= MAX_SCALE);
        }
        let sf: u32 = (f as i64 - e) as u32;
        let mantissa: i128 = if neg {
            -(q as i128)
        } else {
            q as i128
        };
        Ok(Decimal { mantissa, scale: sf })
    }
}

/// `x` lies outside the symmetric `i128` working range.
pub open spec fn out_i128(x: int) -> bool {
    !(-i128::MAX <= x <= i128::MAX)
}

/// Integer division truncated toward zero.
pub open spec fn trunc_div(x: int, y: int) -> int {
    let q = abs(x) as int / abs(y) as int;
    if (x < 0) != (y < 0) {
        -q
    } else {
        q
    }
}

/// Integer division rounded toward negative infinity.
pub open spec fn floor_div(x: int, y: int) -> int {
    if y > 0 {
        x / y
    } else {
        (-x) / (-y)
    }
}

/// Truncated division and the sign-magnitude remainder satisfy the
/// fundamental identity.
proof fn lemma_trunc_rem(x: int, y: int)
    requires
        y != 0,
    ensures
        x - trunc_div(x, y) * y == (if x < 0 {
            -((abs(x) % abs(y)) as int)
        } else {
            (abs(x) % abs(y)) as int
        }),
{
    let am = abs(x) as int;
    let bm = abs(y) as int;
    let q = am / bm;
    let r = am % bm;
    vstd::arithmetic::div_mod::lemma_fundamental_div_mod(am, bm);
    if x >= 0 && y > 0 {
        assert(x - q * y == x - (y * q + r) + r) by (nonlinear_arith)
            requires
                q * y == y * q,
        ;
    } else if x >= 0 && y < 0 {
        assert(x - (-q) * y == x - (bm * q + r) + r) by (nonlinear_arith)
            requires
                bm == -y,
        ;
    } else if x < 0 && y > 0 {
        assert(x - (-q) * y == x + (y * q + r) - r) by (nonlinear_arith)
            requires
                am == -x,
        ;
    } else {
        assert(x - q * y == x + ((-y) * q + r) - r) by (nonlinear_arith)
            requires
                am == -x && bm == -y,
        ;
    }
}

/// Floor division from truncated magnitude division: when the signs differ
/// and the remainder is non-zero, the floor lies one below the truncation.
proof fn lemma_floor_from_mag(x: int, y: int)
    requires
        y != 0,
    ensures
        floor_div(x, y) == (if (x < 0) == (y < 0) {
            (abs(x) / abs(y)) as int
        } else if abs(x) % abs(y) == 0 {
            -((abs(x) / abs(y)) as int)
        } else {
            -((abs(x) / abs(y)) as int) - 1
        }),
{
    let am = abs(x) as int;
    let bm = abs(y) as int;
    let q = am / bm;
    let r = am % bm;
    vstd::arithmetic::div_mod::lemma_fundamental_div_mod(am, bm);
    vstd::arithmetic::div_mod::lemma_mod_division_less_than_divisor(am, bm);
    if x >= 0 && y > 0 {
    } else if x < 0 && y < 0 {
        // floor_div(x, y) == (-x) / (-y) == am / bm
        assert((-x) == am && (-y) == bm);
    } else {
        // Signs differ: the dividend of the euclidean division is -am.
        let pos = if y > 0 {
            y
        } else {
            -y
        };
        if r == 0 {
            assert(-am == pos * (-q) + 0) by (nonlinear_arith)
                requires
                    am == pos * q + 0,
            ;
            vstd::arithmetic::div_mod::lemma_fundamental_div_mod_converse(-am, pos, -q, 0);
        } else {
            assert(-am == pos * (-q - 1) + (pos - r)) by (nonlinear_arith)
                requires
                    am == pos * q + r,
            ;
            vstd::arithmetic::div_mod::lemma_fundamental_div_mod_converse(
                -am,
                pos,
                -q - 1,
                pos - r,
            );
        }
    }
}

/// Exact remainder of truncated division: `a - trunc(a/b) * b`, carried at
/// the common scale. The sign follows the dividend.
pub open spec fn spec_rem(a: Decimal, b: Decimal) -> Result<Decimal, DecimalError> {
    if b.m() == 0 {
        Err(DecimalError::DivisionByZero)
    } else {
        let s = if a.s() >= b.s() {
            a.s()
        } else {
            b.s()
        };
        let av = a.units(s);
        let bv = b.units(s);
        if out_i128(av) || out_i128(bv) {
            Err(DecimalError::Overflow)
        } else {
            Ok(Decimal::raw(av - trunc_div(av, bv) * bv, s))
        }
    }
}

/// Integer-truncating division in the sense of a floor: the largest integer
/// not above the exact quotient, as a scale-0 decimal.
pub open spec fn spec_idiv(a: Decimal, b: Decimal) -> Result<Decimal, DecimalError> {
    if b.m() == 0 {
        Err(DecimalError::DivisionByZero)
    } else {
        let s = if a.s() >= b.s() {
            a.s()
        } else {
            b.s()
        };
        let av = a.units(s);
        let bv = b.units(s);
        if out_i128(av) || out_i128(bv) {
            Err(DecimalError::Overflow)
        } else {
            let v = floor_div(av, bv);
            if -MAX_MANTISSA <= v <= MAX_MANTISSA {
                Ok(Decimal::raw(v, 0))
            } else {
                Err(DecimalError::Overflow)
            }
        }
    }
}

impl Decimal {
    /// The two operands rescaled to the common scale, or the overflow error,
    /// shared by `checked_rem` and `checked_idiv`.
    fn aligned_pair(self, other: Decimal) -> (r: Result<(i128, i128, u32), DecimalError>)
        ensures
            ({
                let s = if self.s() >= other.s() {
                    self.s()
                } else {
                    other.s()
                };
                let av = self.units(s);
                let bv = other.units(s);
                if out_i128(av) || out_i128(bv) {
                    r == Err::<(i128, i128, u32), DecimalError>(DecimalError::Overflow)
                } else {
                    r == Ok::<(i128, i128, u32), DecimalError>(
                        (av as i128, bv as i128, s as u32),
                    )
                }
            }),
    {
        proof {
            use_type_invariant(self);
            use_type_invariant(other);
        }
        let s: u32 = if self.scale >= other.scale {
            self.scale
        } else {
            other.scale
        };
        proof {
            lemma_pow10_pos((s - self.s()) as nat);
            lemma_pow10_pos((s - other.s()) as nat);
        }
        let xa = match self.mantissa.checked_mul(pow10_i128(s - self.scale)) {
            Some(v) => v,
            None => {
                return Err(DecimalError::Overflow);
            },
        };
        let xb = match other.mantissa.checked_mul(pow10_i128(s - other.scale)) {
            Some(v) => v,
            None => {
                return Err(DecimalError::Overflow);
            },
        };
        if xa == i128::MIN || xb == i128::MIN {
            return Err(DecimalError::Overflow);
        }
        Ok((xa, xb, s))
    }

    /// Exact remainder; see `spec_rem`.
    pub fn checked_rem(self, other: Decimal) -> (res: Result<Decimal, DecimalError>)
        ensures
            res == spec_rem(self, other),
    {
        proof {
            use_type_invariant(self);
            use_type_invariant(other);
        }
        if other.mantissa == 0 {
            return Err(DecimalError::DivisionByZero);
        }
        let (av, bv, s) = match self.aligned_pair(other) {
            Ok(t) => t,
            Err(e) => {
                return Err(e);
            },
        };
        let amag: u128 = (if av < 0 {
            -av
        } else {
            av
        }) as u128;
        let bmag: u128 = (if bv < 0 {
            -bv
        } else {
            bv
        }) as u128;
        proof {
            assert(bv != 0) by {
                lemma_pow10_pos((s - other.s()) as nat);
                assert(other.m() * pow10((s as nat - other.s()) as nat) != 0) by (nonlinear_arith)
                    requires
                        other.m() != 0,
                        pow10((s as nat - other.s()) as nat) >= 1,
                ;
            }
        }
        let remmag: u128 = amag % bmag;
        proof {
            lemma_trunc_rem(av as int, bv as int);
            vstd::arithmetic::div_mod::lemma_mod_division_less_than_divisor(
                amag as int,
                bmag as int,
            );
            vstd::arithmetic::div_mod::lemma_mod_decreases(amag as nat, bmag as nat);
            // One of the two sides kept its own mantissa, which bounds the
            // remainder magnitude by the representable range.
            if self.s() >= other.s() {
                assert(amag <= MAX_MANTISSA as u128);
            } else {
                assert(bmag <= MAX_MANTISSA as u128);
            }
        }
        let rm: i128 = if av < 0 {
            -(remmag as i128)
        } else {
            remmag as i128
        };
        Ok(Decimal { mantissa: rm, scale: s })
    }

    /// Floor division to an integer; see `spec_idiv`.
    pub fn checked_idiv(self, other: Decimal) -> (res: Result<Decimal, DecimalError>)
        ensures
            res == spec_idiv(self, other),
    {
        proof {
            use_type_invariant(self);
            use_type_invariant(other);
        }
        if other.mantissa == 0 {
            return Err(DecimalError::DivisionByZero);
        }
        let (av, bv, s) = match self.aligned_pair(other) {
            Ok(t) => t,
            Err(e) => {
                return Err(e);
            },
        };
        let amag: u128 = (if av < 0 {
            -av
        } else {
            av
        }) as u128;
        let bmag: u128 = (if bv < 0 {
            -bv
        } else {
            bv
        }) as u128;
        proof {
            assert(bv != 0) by {
                lemma_pow10_pos((s - other.s()) as nat);
                assert(other.m() * pow10((s as nat - other.s()) as nat) != 0) by (nonlinear_arith)
                    requires
                        other.m() != 0,
                        pow10((s as nat - other.s()) as nat) >= 1,
                ;
            }
        }
        let qmag: u128 = amag / bmag;
        let remmag: u128 = amag % bmag;
        proof {
            lemma_floor_from_mag(av as int, bv as int);
        }
        if (av < 0) == (bv < 0) {
            if qmag > MAX_MANTISSA as u128 {
                Err(DecimalError::Overflow)
            } else {
                Ok(Decimal { mantissa: qmag as i128, scale: 0 })
            }
        } else {
            if remmag == 0 {
                if qmag > MAX_MANTISSA as u128 {
                    Err(DecimalError::Overflow)
                } else {
                    Ok(Decimal { mantissa: -(qmag as i128), scale: 0 })
                }
            } else {
                if qmag >= MAX_MANTISSA as u128 {
                    Err(DecimalError::Overflow)
                } else {
                    Ok(Decimal { mantissa: -(qmag as i128) - 1, scale: 0 })
                }
            }
        }
    }
}

/// Once the strip loop stops, `spec_strip_to` of the current state is the
/// state itself.
proof fn lemma_signed_strip_done(mag: nat, s: nat, neg: bool, sfloor: nat)
    requires
        s <= sfloor || mag % 10 != 0,
    ensures
        spec_strip_to(signed_mag(mag, neg), s, sfloor) == (signed_mag(mag, neg), s),
{
    if s > sfloor {
        let k = mag % 10;
        if neg && mag != 0 {
            assert((-(mag as int)) % 10 == 10 - k) by {
                vstd::arithmetic::div_mod::lemma_fundamental_div_mod(mag as int, 10);
                vstd::arithmetic::div_mod::lemma_fundamental_div_mod_converse(
                    -(mag as int),
                    10,
                    -((mag / 10) as int) - 1,
                    10 - (k as int),
                );
            }
        }
    }
}


/// A decimal with all trailing zero digits removed: the canonical
/// representative of its value class.
pub open spec fn spec_normal(a: Decimal) -> Decimal {
    Decimal::raw(spec_strip_to(a.m(), a.s(), 0).0, spec_strip_to(a.m(), a.s(), 0).1)
}

/// `base` raised to the natural power `k` by repeated exact multiplication.
pub open spec fn spec_pow_nat(base: Decimal, k: nat) -> Result<Decimal, DecimalError>
    decreases k,
{
    if k == 0 {
        Ok(Decimal::raw(1, 0))
    } else {
        match spec_pow_nat(base, (k - 1) as nat) {
            Ok(p) => match spec_mul(p, base) {
                Some(r) => Ok(r),
                None => Err(DecimalError::Overflow),
            },
            Err(e) => Err(e),
        }
    }
}

/// Exponentiation. The exponent must denote an integer; the normalized base
/// is raised by repeated exact multiplication, and a negative exponent
/// divides one by the positive power.
pub open spec fn spec_pow(a: Decimal, b: Decimal) -> Result<Decimal, DecimalError> {
    let es = spec_strip_to(b.m(), b.s(), 0);
    if es.1 != 0 {
        Err(DecimalError::FractionalExponent)
    } else {
        let base = spec_normal(a);
        if es.0 >= 0 {
            spec_pow_nat(base, es.0 as nat)
        } else {
            match spec_pow_nat(base, (-es.0) as nat) {
                Ok(p) => spec_div(Decimal::raw(1, 0), p),
                Err(e) => Err(e),
            }
        }
    }
}

/// Stripping a zero mantissa runs all the way down to scale zero.
proof fn lemma_strip_zero(s: nat)
    ensures
        spec_strip_to(0, s, 0) == (0int, 0nat),
    decreases s,
{
    if s > 0 {
        lemma_strip_zero((s - 1) as nat);
    }
}

/// An error from one multiplication step poisons every higher power.
proof fn lemma_pow_nat_err(base: Decimal, j: nat, k: nat)
    requires
        j <= k,
        spec_pow_nat(base, j) is Err,
    ensures
        spec_pow_nat(base, k) == spec_pow_nat(base, j),
    decreases k - j,
{
    if j < k {
        lemma_pow_nat_err(base, j, (k - 1) as nat);
    }
}

/// Powers of zero: one at exponent zero, zero above.
proof fn lemma_pow_nat_zero(k: nat)
    requires
        k >= 1,
    ensures
        spec_pow_nat(Decimal::raw(0, 0), k) == Ok::<Decimal, DecimalError>(Decimal::raw(0, 0)),
    decreases k,
{
    let z = Decimal::raw(0, 0);
    Decimal::lemma_raw(0, 0);
    Decimal::lemma_raw(1, 0);
    assert(spec_strip_to(0, 0, MAX_SCALE as nat) == (0int, 0nat));
    if k == 1 {
        assert(spec_mul(Decimal::raw(1, 0), z) == Some(z));
    } else {
        lemma_pow_nat_zero((k - 1) as nat);
        assert(spec_mul(z, z) == Some(z));
    }
}

/// Powers of one are one.
proof fn lemma_pow_nat_one(k: nat)
    ensures
        spec_pow_nat(Decimal::raw(1, 0), k) == Ok::<Decimal, DecimalError>(Decimal::raw(1, 0)),
    decreases k,
{
    let o = Decimal::raw(1, 0);
    Decimal::lemma_raw(1, 0);
    assert(spec_strip_to(1, 0, MAX_SCALE as nat) == (1int, 0nat));
    if k > 0 {
        lemma_pow_nat_one((k - 1) as nat);
        assert(spec_mul(o, o) == Some(o));
    }
}

/// Powers of minus one alternate in sign with the exponent's parity.
proof fn lemma_pow_nat_neg_one(k: nat)
    ensures
        spec_pow_nat(Decimal::raw(-1, 0), k) == Ok::<Decimal, DecimalError>(
            Decimal::raw(if k % 2 == 0 { 1int } else { -1int }, 0),
        ),
    decreases k,
{
    let n = Decimal::raw(-1, 0);
    let o = Decimal::raw(1, 0);
    Decimal::lemma_raw(1, 0);
    assert(spec_strip_to(1, 0, MAX_SCALE as nat) == (1int, 0nat));
    if k > 0 {
        lemma_pow_nat_neg_one((k - 1) as nat);
        assert(spec_mul(o, n) == Some(n));
        assert(spec_mul(n, n) == Some(o));
    }
}

impl Decimal {
    /// Exact exponentiation; see `spec_pow`.
    pub fn checked_pow(self, exponent: Decimal) -> (res: Result<Decimal, DecimalError>)
        ensures
            res == spec_pow(self, exponent),
    {
        proof {
            use_type_invariant(self);
            use_type_invariant(exponent);
        }
        let eneg = exponent.mantissa < 0;
        let emag0: u128 = (if exponent.mantissa < 0 {
            -exponent.mantissa
        } else {
            exponent.mantissa
        }) as u128;
        proof {
            assert(signed_mag(emag0 as nat, eneg) == exponent.m());
            lemma_strip_value(exponent.m(), exponent.s(), 0);
        }
        let (emag, es) = strip_mag(emag0, exponent.scale, eneg, 0);
        if es != 0 {
            return Err(DecimalError::FractionalExponent);
        }
        let bneg = self.mantissa < 0;
        let bmag0: u128 = (if self.mantissa < 0 {
            -self.mantissa
        } else {
            self.mantissa
        }) as u128;
        proof {
            assert(signed_mag(bmag0 as nat, bneg) == self.m());
            lemma_strip_value(self.m(), self.s(), 0);
        }
        let (bmag, bs) = strip_mag(bmag0, self.scale, bneg, 0);
        let base = Decimal {
            mantissa: if bneg {
                -(bmag as i128)
            } else {
                bmag as i128
            },
            scale: bs,
        };
        proof {
            assert(base == spec_normal(self));
        }
        let k: u128 = emag;
        let kneg = eneg && emag > 0;
        proof {
            if kneg {
                assert((-spec_strip_to(exponent.m(), exponent.s(), 0).0) as nat == k as nat);
            } else {
                assert(spec_strip_to(exponent.m(), exponent.s(), 0).0 >= 0);
                assert(spec_strip_to(exponent.m(), exponent.s(), 0).0 as nat == k as nat);
            }
        }
        let p = if bmag == 0 {
            // Zero stripped to scale zero: every positive power is zero.
            proof {
                lemma_strip_zero(self.s());
                assert(base == Decimal::raw(0, 0));
            }
            if k == 0 {
                let w = Decimal { mantissa: 1, scale: 0 };
                proof {
                    assert(w == Decimal::raw(1, 0));
                }
                w
            } else {
                proof {
                    lemma_pow_nat_zero(k as nat);
                }
                Decimal { mantissa: 0, scale: 0 }
            }
        } else if bmag == 1 && bs == 0 {
            // A base of one or minus one cycles; no loop can end it.
            if !bneg {
                proof {
                    lemma_pow_nat_one(k as nat);
                    assert(base == Decimal::raw(1, 0));
                }
                Decimal { mantissa: 1, scale: 0 }
            } else {
                proof {
                    lemma_pow_nat_neg_one(k as nat);
                    assert(base == Decimal::raw(-1, 0));
                }
                if k % 2 == 0 {
                    Decimal { mantissa: 1, scale: 0 }
                } else {
                    Decimal { mantissa: -1, scale: 0 }
                }
            }
        } else {
            let mut acc = Decimal { mantissa: 1, scale: 0 };
            let mut i: u128 = 0;
            let mut overflowed = false;
            while !overflowed && i < k
                invariant
                    i <= k,
                    !overflowed ==> spec_pow_nat(base, i as nat) == Ok::<
                        Decimal,
                        DecimalError,
                    >(acc),
                    overflowed ==> spec_pow_nat(base, k as nat) == Err::<
                        Decimal,
                        DecimalError,
                    >(DecimalError::Overflow),
                decreases k - i, (if overflowed { 0int } else { 1int }),
            {
                match acc.checked_mul(base) {
                    Some(r2) => {
                        acc = r2;
                        i = i + 1;
                    },
                    None => {
                        proof {
                            assert(spec_pow_nat(base, (i + 1) as nat) == Err::<
                                Decimal,
                                DecimalError,
                            >(DecimalError::Overflow));
                            lemma_pow_nat_err(base, (i + 1) as nat, k as nat);
                        }
                        overflowed = true;
                    },
                }
            }
            if overflowed {
                return Err(DecimalError::Overflow);
            }
            acc
        };
        if kneg {
            let one = Decimal { mantissa: 1, scale: 0 };
            proof {
                assert(one == Decimal::raw(1, 0));
            }
            one.checked_div(p)
        } else {
            Ok(p)
        }
    }
}


// ---------------------------------------------------------------------------
// Decimal strings: formatting and parsing.
// ---------------------------------------------------------------------------

/// Is `c` an ASCII decimal digit?
pub open spec fn is_digit(c: char) -> bool {
    '0' <= c <= '9'
}

/// Numeric value of a digit character.
pub open spec fn digit_val(c: char) -> int {
    c as int - 48
}

/// The digit character for a value below ten.
pub open spec fn char_of_digit(v: int) -> char {
    if v == 0 {
        '0'
    } else if v == 1 {
        '1'
    } else if v == 2 {
        '2'
    } else if v == 3 {
        '3'
    } else if v == 4 {
        '4'
    } else if v == 5 {
        '5'
    } else if v == 6 {
        '6'
    } else if v == 7 {
        '7'
    } else if v == 8 {
        '8'
    } else {
        '9'
    }
}

pub open spec fn all_digits(s: Seq<char>) -> bool {
    forall|i: int| 0 <= i < s.len() ==> is_digit(#[trigger] s[i])
}

/// Value of a digit string read in base ten.
pub open spec fn digits_val(s: Seq<char>) -> int
    decreases s.len(),
{
    if s.len() == 0 {
        0
    } else {
        10 * digits_val(s.subrange(0, s.len() - 1)) + digit_val(s[s.len() - 1])
    }
}

/// A digit character round-trips through its numeric value.
pub proof fn lemma_char_digit(v: int)
    requires
        0 <= v <= 9,
    ensures
        digit_val(char_of_digit(v)) == v,
        is_digit(char_of_digit(v)),
        v >= 1 ==> char_of_digit(v) != '0',
{
}

pub proof fn lemma_digits_val_nonneg(s: Seq<char>)
    requires
        all_digits(s),
    ensures
        digits_val(s) >= 0,
    decreases s.len(),
{
    if s.len() > 0 {
        assert(all_digits(s.subrange(0, s.len() - 1)));
        lemma_digits_val_nonneg(s.subrange(0, s.len() - 1));
    }
}

/// Reading a concatenation of digit strings: the left part is shifted by
/// one power of ten for each digit of the right part.
pub proof fn lemma_digits_val_concat(a: Seq<char>, b: Seq<char>)
    ensures
        digits_val(a + b) == digits_val(a) * pow10(b.len()) + digits_val(b),
    decreases b.len(),
{
    if b.len() == 0 {
        assert(a + b =~= a);
    } else {
        let b1 = b.subrange(0, b.len() - 1);
        lemma_digits_val_concat(a, b1);
        assert((a + b).subrange(0, (a + b).len() - 1) =~= a + b1);
        assert((a + b)[(a + b).len() - 1] == b[b.len() - 1]);
        assert(digits_val(a + b) == 10 * digits_val(a + b1) + digit_val(b[b.len() - 1]));
        assert(10 * (digits_val(a) * pow10(b1.len()) + digits_val(b1)) == digits_val(a) * (10
            * pow10(b1.len())) + 10 * digits_val(b1)) by (nonlinear_arith);
        assert(pow10(b.len()) == 10 * pow10(b1.len()));
        assert(digits_val(a) * (10 * pow10(b1.len())) == digits_val(a) * pow10(b.len()));
    }
}

/// The digit string of a natural number, most significant digit first,
/// without leading zeros (zero itself is the single digit `0`).
pub open spec fn digit_seq(v: nat) -> Seq<char>
    decreases v,
{
    if v < 10 {
        seq![char_of_digit(v as int)]
    } else {
        digit_seq(v / 10).push(char_of_digit((v % 10) as int))
    }
}

/// The digit string of a natural number below `10^f`, left-padded with
/// zeros to exactly `f` digits.
pub open spec fn padded_digit_seq(v: nat, f: nat) -> Seq<char>
    decreases f,
{
    if f == 0 {
        Seq::empty()
    } else {
        padded_digit_seq(v / 10, (f - 1) as nat).push(char_of_digit((v % 10) as int))
    }
}

pub proof fn lemma_digit_seq_val(v: nat)
    ensures
        all_digits(digit_seq(v)),
        digits_val(digit_seq(v)) == v,
        digit_seq(v).len() >= 1,
        digit_seq(v)[0] != '0' || v < 10,
    decreases v,
{
    if v < 10 {
        lemma_char_digit(v as int);
        let s = digit_seq(v);
        assert(s.subrange(0, 0) =~= Seq::<char>::empty());
        assert(digits_val(Seq::<char>::empty()) == 0);
        assert(s[0] == char_of_digit(v as int));
        assert(digits_val(s) == 10 * digits_val(s.subrange(0, 0)) + digit_val(s[0]));
    } else {
        lemma_char_digit((v % 10) as int);
        lemma_digit_seq_val(v / 10);
        vstd::arithmetic::div_mod::lemma_fundamental_div_mod(v as int, 10);
        vstd::arithmetic::div_mod::lemma_mod_division_less_than_divisor(v as int, 10);
        if v / 10 < 10 {
            lemma_char_digit((v / 10) as int);
        }
        let s = digit_seq(v);
        let s1 = digit_seq(v / 10);
        assert(s.subrange(0, s.len() - 1) =~= s1);
        assert(digits_val(s) == 10 * digits_val(s1) + digit_val(char_of_digit((v % 10) as int)));
        assert(v / 10 >= 1) by (nonlinear_arith)
            requires
                v >= 10 && v as int == 10 * (v as int / 10) + (v as int % 10) && v as int % 10
                    < 10,
        ;
    }
}

pub proof fn lemma_padded_digit_seq_val(v: nat, f: nat)
    requires
        v < pow10(f),
    ensures
        all_digits(padded_digit_seq(v, f)),
        digits_val(padded_digit_seq(v, f)) == v,
        padded_digit_seq(v, f).len() == f,
    decreases f,
{
    if f == 0 {
    } else {
        lemma_char_digit((v % 10) as int);
        vstd::arithmetic::div_mod::lemma_fundamental_div_mod(v as int, 10);
        assert(v / 10 < pow10((f - 1) as nat)) by (nonlinear_arith)
            requires
                v < pow10(f) && pow10(f) == 10 * pow10((f - 1) as nat) && v as int == 10 * (
                v as int / 10) + (v as int % 10) && 0 <= v as int % 10 < 10,
        ;
        lemma_padded_digit_seq_val(v / 10, (f - 1) as nat);
        let s = padded_digit_seq(v, f);
        let s1 = padded_digit_seq(v / 10, (f - 1) as nat);
        assert(s.subrange(0, s.len() - 1) =~= s1);
    }
}

/// The canonical text of a decimal: optional minus sign, integer digits
/// without leading zeros, and, for a positive scale, a dot and exactly
/// `scale` fractional digits.
pub open spec fn spec_format(d: Decimal) -> Seq<char> {
    let mag = abs(d.m());
    let sign: Seq<char> = if d.m() < 0 {
        seq!['-']
    } else {
        Seq::empty()
    };
    if d.s() == 0 {
        sign + digit_seq(mag)
    } else {
        sign + digit_seq(mag / (pow10(d.s()) as nat)) + seq!['.'] + padded_digit_seq(
            mag % (pow10(d.s()) as nat),
            d.s(),
        )
    }
}

/// Append one digit character to a string.
fn push_digit(out: &mut String, d: u8)
    requires
        d <= 9,
    ensures
        final(out)@ == old(out)@ + seq![char_of_digit(d as int)],
{
    proof {
        reveal_strlit("0");
        reveal_strlit("1");
        reveal_strlit("2");
        reveal_strlit("3");
        reveal_strlit("4");
        reveal_strlit("5");
        reveal_strlit("6");
        reveal_strlit("7");
        reveal_strlit("8");
        reveal_strlit("9");
    }
    let t: &str = if d == 0 {
        "0"
    } else if d == 1 {
        "1"
    } else if d == 2 {
        "2"
    } else if d == 3 {
        "3"
    } else if d == 4 {
        "4"
    } else if d == 5 {
        "5"
    } else if d == 6 {
        "6"
    } else if d == 7 {
        "7"
    } else {
        "8"
    };
    let t: &str = if d == 9 {
        "9"
    } else {
        t
    };
    out.append(t);
    proof {
        assert(final(out)@ =~= old(out)@ + seq![char_of_digit(d as int)]);
    }
}

/// Append the digit string of `v` to `out`.
fn push_mag(out: &mut String, v: u128)
    ensures
        final(out)@ == old(out)@ + digit_seq(v as nat),
    decreases v,
{
    if v < 10 {
        push_digit(out, v as u8);
    } else {
        proof {
            vstd::arithmetic::div_mod::lemma_fundamental_div_mod(v as int, 10);
            vstd::arithmetic::div_mod::lemma_mod_division_less_than_divisor(v as int, 10);
        }
        push_mag(out, v / 10);
        push_digit(out, (v % 10) as u8);
        proof {
            assert(final(out)@ =~= old(out)@ + digit_seq(v as nat));
        }
    }
}

/// Append exactly `f` digits of `v`, zero-padded on the left.
fn push_padded(out: &mut String, v: u128, f: u32)
    requires
        f <= 38,
        v < pow10(f as nat),
    ensures
        final(out)@ == old(out)@ + padded_digit_seq(v as nat, f as nat),
    decreases f,
{
    if f == 0 {
        proof {
            assert(final(out)@ =~= old(out)@ + padded_digit_seq(v as nat, 0));
        }
    } else {
        proof {
            vstd::arithmetic::div_mod::lemma_fundamental_div_mod(v as int, 10);
            vstd::arithmetic::div_mod::lemma_mod_division_less_than_divisor(v as int, 10);
            assert((v as int) / 10 < pow10((f - 1) as nat)) by (nonlinear_arith)
                requires
                    v < pow10(f as nat) && pow10(f as nat) == 10 * pow10((f - 1) as nat) && v
                        as int == 10 * (v as int / 10) + (v as int % 10) && 0 <= v as int % 10
                        < 10,
            ;
        }
        push_padded(out, v / 10, f - 1);
        push_digit(out, (v % 10) as u8);
        proof {
            assert(final(out)@ =~= old(out)@ + padded_digit_seq(v as nat, f as nat));
        }
    }
}

impl Decimal {
    /// The canonical decimal string of this number; see `spec_format`.
    pub fn to_string(&self) -> (r: String)
        ensures
            r@ == spec_format(*self),
    {
        proof {
            use_type_invariant(self);
            reveal_strlit("-");
            reveal_strlit(".");
            reveal_strlit("");
        }
        let mut out = String::new();
        if self.mantissa < 0 {
            out.append("-");
        }
        let mag: u128 = (if self.mantissa < 0 {
            -self.mantissa
        } else {
            self.mantissa
        }) as u128;
        if self.scale == 0 {
            push_mag(&mut out, mag);
            proof {
                assert(out@ =~= spec_format(*self));
            }
        } else {
            let p = pow10_i128(self.scale) as u128;
            proof {
                vstd::arithmetic::div_mod::lemma_mod_division_less_than_divisor(
                    mag as int,
                    p as int,
                );
            }
            push_mag(&mut out, mag / p);
            out.append(".");
            push_padded(&mut out, mag % p, self.scale);
            proof {
                assert(out@ =~= spec_format(*self));
            }
        }
        out
    }
}


/// Does the string start with a minus sign?
pub open spec fn str_negative(s: Seq<char>) -> bool {
    s.len() > 0 && s[0] == '-'
}

/// The string with a leading sign removed.
pub open spec fn unsigned_part(s: Seq<char>) -> Seq<char> {
    if s.len() > 0 && (s[0] == '-' || s[0] == '+') {
        s.subrange(1, s.len() as int)
    } else {
        s
    }
}

pub open spec fn no_dot_before(u: Seq<char>, k: int) -> bool {
    forall|i: int| 0 <= i < k ==> #[trigger] u[i] != '.'
}

/// `k` splits `u` into a valid decimal literal: a non-empty run of integer
/// digits, then either the end of the string or a dot followed by a
/// non-empty run of fractional digits.
pub open spec fn valid_split_at(u: Seq<char>, k: int) -> bool {
    &&& 1 <= k <= u.len()
    &&& no_dot_before(u, k)
    &&& all_digits(u.subrange(0, k))
    &&& (k < u.len() ==> u[k] == '.' && k + 1 < u.len() && all_digits(
        u.subrange(k + 1, u.len() as int),
    ))
}

/// All mantissa digits of the literal: integer digits then fraction digits.
pub open spec fn mantissa_digits(u: Seq<char>, k: int) -> Seq<char> {
    if k < u.len() {
        u.subrange(0, k) + u.subrange(k + 1, u.len() as int)
    } else {
        u.subrange(0, k)
    }
}

/// Number of fraction digits of the literal.
pub open spec fn frac_len(u: Seq<char>, k: int) -> int {
    if k < u.len() {
        u.len() - k - 1
    } else {
        0
    }
}

/// The decimal a string denotes: `Some` exactly for a decimal literal
/// (optional sign, integer digits, optional dot and fraction digits) whose
/// mantissa and scale are within the representable range.
pub open spec fn spec_parse(s: Seq<char>) -> Option<Decimal> {
    let u = unsigned_part(s);
    if exists|k: int| valid_split_at(u, k) {
        let k = choose|k: int| valid_split_at(u, k);
        let mv = digits_val(mantissa_digits(u, k));
        let f = frac_len(u, k);
        if mv <= MAX_MANTISSA && f <= MAX_SCALE {
            Some(
                Decimal::raw(
                    if str_negative(s) {
                        -mv
                    } else {
                        mv
                    },
                    f as nat,
                ),
            )
        } else {
            None
        }
    } else {
        None
    }
}

/// At most one split position is valid: the dot, or the end.
proof fn lemma_split_unique(u: Seq<char>, k1: int, k2: int)
    requires
        valid_split_at(u, k1),
        valid_split_at(u, k2),
    ensures
        k1 == k2,
{
    if k1 < k2 {
        assert(u[k1] != '.');
        assert(!is_digit('.'));
    }
    if k2 < k1 {
        assert(u[k2] != '.');
    }
}

/// When a dot stands at `p` behind digits only, a valid split can only be
/// at `p`.
proof fn lemma_forced_split(u: Seq<char>, k: int, p: int)
    requires
        valid_split_at(u, k),
        0 <= p < u.len(),
        u[p] == '.',
        all_digits(u.subrange(0, p)),
    ensures
        k == p,
{
    if p < k {
        assert(u[p] != '.');
    }
    if k < p {
        assert(is_digit(u.subrange(0, p)[k]));
    }
}

/// A digit prefix of the mantissa already past the representable range
/// forces the whole mantissa past it.
proof fn lemma_mantissa_overflow(pre: Seq<char>, rest: Seq<char>)
    requires
        all_digits(rest),
        digits_val(pre) > MAX_MANTISSA,
    ensures
        digits_val(pre + rest) > MAX_MANTISSA,
{
    lemma_digits_val_concat(pre, rest);
    lemma_digits_val_nonneg(rest);
    lemma_pow10_pos(rest.len());
    assert(digits_val(pre) * pow10(rest.len()) >= digits_val(pre)) by (nonlinear_arith)
        requires
            digits_val(pre) > 0 && pow10(rest.len()) >= 1,
    ;
}

impl Decimal {
    /// Parse a decimal literal; see `spec_parse` for the exact grammar and
    /// range.
    #[verifier::rlimit(80)]
    pub fn from_string(s: &str) -> (r: Option<Decimal>)
        ensures
            r == spec_parse(s@),
    {
        let n: usize = s.unicode_len();
        let mut j: usize = 0;
        let mut neg = false;
        if n > 0 {
            let c0 = s.get_char(0);
            if c0 == '-' {
                neg = true;
                j = 1;
            } else if c0 == '+' {
                j = 1;
            }
        }
        let start: usize = j;
        let ghost off = j as int;
        let ghost u = unsigned_part(s@);
        proof {
            assert(u =~= s@.subrange(off, n as int));
            assert(neg == str_negative(s@));
        }
        // Integer digits.
        let mut m: u128 = 0;
        let mut stop = false;
        while !stop && j < n
            invariant
                off <= j <= n,
                n == s@.len(),
                u == s@.subrange(off, n as int),
                all_digits(u.subrange(0, j - off)),
                m == digits_val(u.subrange(0, j - off)),
                0 <= m <= MAX_MANTISSA as u128,
                stop ==> j < n && !is_digit(u[j - off]),
            decreases n - j, (if stop { 0int } else { 1int }),
        {
            let c = s.get_char(j);
            proof {
                assert(u[j - off] == s@[j as int]);
            }
            if '0' <= c && c <= '9' {
                let d: u128 = (c as u32 - 48) as u128;
                let m2: u128 = m * 10 + d;
                let ghost pre2 = u.subrange(0, j + 1 - off);
                proof {
                    assert(pre2 =~= u.subrange(0, j - off).push(c));
                    assert(pre2.subrange(0, pre2.len() - 1) =~= u.subrange(0, j - off));
                    assert(digits_val(pre2) == 10 * m + digit_val(c));
                }
                if m2 > MAX_MANTISSA as u128 {
                    // The digits seen so far already exceed the mantissa
                    // range, so any reading of the rest does too.
                    proof {
                        if exists|k: int| valid_split_at(u, k) {
                            let k = choose|k: int| valid_split_at(u, k);
                            assert(!is_digit('.'));
                            assert(k >= j + 1 - off) by {
                                if k < j + 1 - off {
                                    assert(is_digit(pre2[k]));
                                    assert(k < u.len() ==> u[k] == '.');
                                }
                            }
                            let md = mantissa_digits(u, k);
                            let rest = md.subrange(pre2.len() as int, md.len() as int);
                            assert(md =~= pre2 + rest);
                            assert(all_digits(rest)) by {
                                assert(all_digits(u.subrange(0, k)));
                                assert(forall|i: int|
                                    0 <= i < md.len() ==> is_digit(#[trigger] md[i]));
                            }
                            lemma_mantissa_overflow(pre2, rest);
                        }
                    }
                    return None;
                }
                m = m2;
                j = j + 1;
            } else {
                stop = true;
            }
        }
        if j == start {
            // No integer digit: nothing can make a valid split.
            proof {
                if exists|k: int| valid_split_at(u, k) {
                    let k = choose|k: int| valid_split_at(u, k);
                    assert(is_digit(u.subrange(0, k)[0]));
                    if stop {
                        assert(!is_digit(u[0]));
                    }
                }
            }
            return None;
        }
        if !stop {
            // The whole string is integer digits: split at the end.
            proof {
                assert(u.subrange(0, n - off) =~= u);
                assert(valid_split_at(u, u.len() as int));
                let k = choose|k: int| valid_split_at(u, k);
                lemma_split_unique(u, k, u.len() as int);
                assert(mantissa_digits(u, u.len() as int) =~= u);
            }
            let mantissa: i128 = if neg {
                -(m as i128)
            } else {
                m as i128
            };
            return Some(Decimal { mantissa, scale: 0 });
        }
        let c = s.get_char(j);
        proof {
            assert(u[j - off] == s@[j as int]);
        }
        if !(c == '.') {
            // An invalid character ends the integer digits: no valid split.
            proof {
                assert(!is_digit('.'));
                if exists|k: int| valid_split_at(u, k) {
                    let k = choose|k: int| valid_split_at(u, k);
                    if k <= j - off {
                        if k < u.len() {
                            assert(is_digit(u.subrange(0, j - off)[k]) || k == j - off);
                        }
                    } else {
                        assert(is_digit(u.subrange(0, k)[j - off]));
                    }
                }
            }
            return None;
        }
        let ghost k0 = j - off;
        // Fraction digits: everything after the dot must be a digit.
        if j + 1 >= n {
            // Nothing follows the dot.
            proof {
                if exists|k: int| valid_split_at(u, k) {
                    let k = choose|k: int| valid_split_at(u, k);
                    lemma_forced_split(u, k, k0);
                }
            }
            return None;
        }
        let f: usize = n - j - 1;
        if f > MAX_SCALE as usize {
            // Too many fraction digits for any representable scale.
            proof {
                if exists|k: int| valid_split_at(u, k) {
                    let k = choose|k: int| valid_split_at(u, k);
                    lemma_forced_split(u, k, k0);
                }
            }
            return None;
        }
        let mut t: usize = j + 1;
        let ghost ints = u.subrange(0, k0);
        while t < n
            invariant
                j + 1 <= t <= n,
                n == s@.len(),
                u == s@.subrange(off, n as int),
                off <= j < n,
                k0 == j - off,
                u[k0] == '.',
                ints == u.subrange(0, k0),
                all_digits(ints),
                all_digits(u.subrange(k0 + 1, t - off)),
                m == digits_val(ints + u.subrange(k0 + 1, t - off)),
                0 <= m <= MAX_MANTISSA as u128,
            decreases n - t,
        {
            let c = s.get_char(t);
            proof {
                assert(u[t - off] == s@[t as int]);
            }
            if '0' <= c && c <= '9' {
                let d: u128 = (c as u32 - 48) as u128;
                let m2: u128 = m * 10 + d;
                let ghost pre = ints + u.subrange(k0 + 1, t - off);
                let ghost pre2 = ints + u.subrange(k0 + 1, t + 1 - off);
                proof {
                    assert(pre2 =~= pre.push(c));
                    assert(pre2.subrange(0, pre2.len() - 1) =~= pre);
                    assert(digits_val(pre2) == 10 * m + digit_val(c));
                }
                if m2 > MAX_MANTISSA as u128 {
                    proof {
                        if exists|k: int| valid_split_at(u, k) {
                            let k = choose|k: int| valid_split_at(u, k);
                            lemma_forced_split(u, k, k0);
                            let md = mantissa_digits(u, k);
                            let rest = md.subrange(pre2.len() as int, md.len() as int);
                            assert(md =~= pre2 + rest);
                            assert(all_digits(rest)) by {
                                assert(forall|i: int|
                                    0 <= i < md.len() ==> is_digit(#[trigger] md[i]));
                            }
                            lemma_mantissa_overflow(pre2, rest);
                        }
                    }
                    return None;
                }
                m = m2;
                t = t + 1;
            } else {
                // An invalid character inside the fraction digits.
                proof {
                    if exists|k: int| valid_split_at(u, k) {
                        let k = choose|k: int| valid_split_at(u, k);
                        lemma_forced_split(u, k, k0);
                        assert(is_digit(u.subrange(k + 1, u.len() as int)[t - off - k0 - 1]));
                    }
                }
                return None;
            }
        }
        proof {
            assert(u.subrange(k0 + 1, n - off) =~= u.subrange(k0 + 1, u.len() as int));
            assert(forall|i: int| 0 <= i < k0 ==> is_digit(#[trigger] u[i])) by {
                assert(forall|i: int| 0 <= i < k0 ==> u[i] == ints[i]);
            }
            assert(!is_digit('.'));
            assert(valid_split_at(u, k0));
            let k = choose|k: int| valid_split_at(u, k);
            lemma_split_unique(u, k, k0);
            assert(mantissa_digits(u, k0) =~= ints + u.subrange(k0 + 1, u.len() as int));
        }
        let mantissa: i128 = if neg {
            -(m as i128)
        } else {
            m as i128
        };
        Some(Decimal { mantissa, scale: f as u32 })
    }
}


/// Round trip: parsing the canonical text of any representable decimal gives
/// back the identical number, same digits and same scale.
pub proof fn lemma_format_parse_round_trip(d: Decimal)
    requires
        -MAX_MANTISSA <= d.m() <= MAX_MANTISSA,
        d.s() <= MAX_SCALE,
    ensures
        spec_parse(spec_format(d)) == Some(d),
{
    let mag = abs(d.m());
    let f = d.s();
    let out = spec_format(d);
    let u = unsigned_part(out);
    assert(!is_digit('-') && !is_digit('+') && !is_digit('.'));
    if f == 0 {
        lemma_digit_seq_val(mag);
        let ds = digit_seq(mag);
        assert(is_digit(ds[0]));
        if d.m() < 0 {
            assert(out == seq!['-'] + ds);
            assert(out[0] == '-');
            assert(u =~= ds);
        } else {
            assert(out =~= ds);
            assert(out[0] == ds[0]);
            assert(u =~= ds);
        }
        assert(valid_split_at(u, u.len() as int)) by {
            assert(u.subrange(0, u.len() as int) =~= u);
        }
        let k = choose|k: int| valid_split_at(u, k);
        lemma_split_unique(u, k, u.len() as int);
        assert(mantissa_digits(u, k) =~= u);
        assert(digits_val(mantissa_digits(u, k)) == mag);
        assert(str_negative(out) == (d.m() < 0));
        assert(spec_parse(out) == Some(
            Decimal::raw(
                if d.m() < 0 {
                    -(mag as int)
                } else {
                    mag as int
                },
                0,
            ),
        ));
        assert(Decimal::raw(d.m(), 0) == d);
    } else {
        let p = pow10(f) as nat;
        lemma_pow10_pos(f);
        vstd::arithmetic::div_mod::lemma_fundamental_div_mod(mag as int, p as int);
        vstd::arithmetic::div_mod::lemma_mod_division_less_than_divisor(mag as int, p as int);
        let ints = digit_seq(mag / p);
        let fracs = padded_digit_seq(mag % p, f);
        lemma_digit_seq_val(mag / p);
        lemma_padded_digit_seq_val(mag % p, f);
        let body = ints + seq!['.'] + fracs;
        if d.m() < 0 {
            assert(out == seq!['-'] + ints + seq!['.'] + fracs);
            assert(out[0] == '-');
            assert(u =~= body);
        } else {
            assert(out == ints + seq!['.'] + fracs);
            assert(out[0] == ints[0]);
            assert(is_digit(ints[0]));
            assert(u =~= body);
        }
        let k = ints.len() as int;
        assert(valid_split_at(u, k)) by {
            assert(u.subrange(0, k) =~= ints);
            assert(u[k] == '.');
            assert(u.subrange(k + 1, u.len() as int) =~= fracs);
            assert(forall|i: int| 0 <= i < k ==> #[trigger] u[i] == ints[i]);
        }
        let kk = choose|kx: int| valid_split_at(u, kx);
        lemma_split_unique(u, kk, k);
        assert(mantissa_digits(u, k) =~= ints + fracs);
        lemma_digits_val_concat(ints, fracs);
        assert(digits_val(ints) * pow10(fracs.len()) + digits_val(fracs) == (mag / p) * (
        p as int) + (mag % p) as int);
        assert(digits_val(mantissa_digits(u, k)) == mag);
        assert(frac_len(u, k) == f);
        assert(str_negative(out) == (d.m() < 0));
        assert(spec_parse(out) == Some(
            Decimal::raw(
                if d.m() < 0 {
                    -(mag as int)
                } else {
                    mag as int
                },
                f,
            ),
        ));
        assert(Decimal::raw(d.m(), f) == d);
    }
}


/// A decimal is determined by its mantissa and scale.
pub proof fn lemma_parts_determine(a: Decimal, b: Decimal)
    requires
        a.m() == b.m(),
        a.s() == b.s(),
    ensures
        a == b,
{
    assert(a.mantissa == b.mantissa);
    assert(a.scale == b.scale);
}

/// Comparison of two decimals rescaled to any common scale agrees with the
/// value order.
pub proof fn lemma_cmp_units(a: Decimal, b: Decimal, s: nat)
    requires
        a.s() <= s,
        b.s() <= s,
    ensures
        (a.units(s) < b.units(s)) <==> val_lt(a, b),
        (a.units(s) == b.units(s)) <==> val_eq(a, b),
{
    let p = pow10((a.s() + b.s()) as nat);
    let q = pow10(s);
    lemma_pow10_pos((a.s() + b.s()) as nat);
    lemma_pow10_pos(s);
    lemma_pow10_add((s - a.s()) as nat, (a.s() + b.s()) as nat);
    lemma_pow10_add((s - b.s()) as nat, (a.s() + b.s()) as nat);
    lemma_pow10_add(b.s(), s);
    lemma_pow10_add(a.s(), s);
    assert(a.units(s) * p == (a.m() * pow10(b.s())) * q) by (nonlinear_arith)
        requires
            a.units(s) == a.m() * pow10((s - a.s()) as nat),
            pow10((s - a.s()) as nat) * p == pow10(((s - a.s()) + (a.s() + b.s())) as nat),
            pow10(b.s()) * q == pow10((b.s() + s) as nat),
            pow10(((s - a.s()) + (a.s() + b.s())) as nat) == pow10((b.s() + s) as nat),
    ;
    assert(b.units(s) * p == (b.m() * pow10(a.s())) * q) by (nonlinear_arith)
        requires
            b.units(s) == b.m() * pow10((s - b.s()) as nat),
            pow10((s - b.s()) as nat) * p == pow10(((s - b.s()) + (a.s() + b.s())) as nat),
            pow10(a.s()) * q == pow10((a.s() + s) as nat),
            pow10(((s - b.s()) + (a.s() + b.s())) as nat) == pow10((a.s() + s) as nat),
    ;
    lemma_mul_cmp(a.units(s), b.units(s), p);
    lemma_mul_cmp(a.m() * pow10(b.s()), b.m() * pow10(a.s()), q);
}

/// The larger of two scales, used to bring decimals to one scale.
pub open spec fn max_s(a: nat, b: nat) -> nat {
    if a >= b {
        a
    } else {
        b
    }
}

/// Value equality is compatible with the strict value order: equal numbers
/// stand in the same order relations.
pub proof fn lemma_val_eq_lt(a: Decimal, b: Decimal, z: Decimal)
    requires
        val_eq(a, b),
    ensures
        val_lt(a, z) <==> val_lt(b, z),
        val_lt(z, a) <==> val_lt(z, b),
{
    let s = max_s(max_s(a.s(), b.s()), z.s());
    lemma_cmp_units(a, b, s);
    lemma_cmp_units(a, z, s);
    lemma_cmp_units(b, z, s);
    lemma_cmp_units(z, a, s);
    lemma_cmp_units(z, b, s);
}

/// The strict value order is transitive.
pub proof fn lemma_val_lt_trans(a: Decimal, b: Decimal, c: Decimal)
    requires
        val_lt(a, b),
        val_lt(b, c),
    ensures
        val_lt(a, c),
{
    let s = max_s(max_s(a.s(), b.s()), c.s());
    lemma_cmp_units(a, b, s);
    lemma_cmp_units(b, c, s);
    lemma_cmp_units(a, c, s);
}

/// Value equality is symmetric and transitive.
pub proof fn lemma_val_eq_props(a: Decimal, b: Decimal, c: Decimal)
    ensures
        val_eq(a, a),
        val_eq(a, b) ==> val_eq(b, a),
        val_eq(a, b) && val_eq(b, c) ==> val_eq(a, c),
{
    let s = max_s(max_s(a.s(), b.s()), c.s());
    lemma_cmp_units(a, b, s);
    lemma_cmp_units(b, c, s);
    lemma_cmp_units(a, c, s);
    lemma_cmp_units(a, a, s);
    lemma_cmp_units(b, a, s);
}

/// The value order is total: exactly one of less, equal, greater holds.
pub proof fn lemma_val_total(a: Decimal, b: Decimal)
    ensures
        val_lt(a, b) || val_eq(a, b) || val_lt(b, a),
        val_lt(a, b) ==> !val_eq(a, b) && !val_lt(b, a),
        val_eq(a, b) ==> !val_lt(a, b) && !val_lt(b, a),
{
    let s = max_s(a.s(), b.s());
    lemma_cmp_units(a, b, s);
    lemma_cmp_units(b, a, s);
}



/// Addition is exact: cross-multiplied to a common denominator, the result
/// is the sum of its operands.
pub proof fn lemma_add_exact(a: Decimal, b: Decimal, r: Decimal)
    requires
        a.s() <= MAX_SCALE,
        b.s() <= MAX_SCALE,
        spec_add(a, b) == Some(r),
    ensures
        r.m() * (pow10(a.s()) * pow10(b.s())) == (a.m() * pow10(b.s()) + b.m() * pow10(a.s()))
            * pow10(r.s()),
{
    let s = if a.s() >= b.s() {
        a.s()
    } else {
        b.s()
    };
    let sum = a.units(s) + b.units(s);
    Decimal::lemma_raw(sum, s);
    lemma_pow10_add((s - a.s()) as nat, a.s());
    lemma_pow10_add((s - b.s()) as nat, b.s());
    let pa = pow10(a.s());
    let pb = pow10(b.s());
    let ps = pow10(s);
    let x = a.units(s);
    let y = b.units(s);
    assert((x + y) * (pa * pb) == x * (pa * pb) + y * (pa * pb)) by (nonlinear_arith);
    assert(x * (pa * pb) == (a.m() * pb) * ps) by (nonlinear_arith)
        requires
            x == a.m() * pow10((s - a.s()) as nat),
            pow10((s - a.s()) as nat) * pa == ps,
    ;
    assert(y * (pa * pb) == (b.m() * pa) * ps) by (nonlinear_arith)
        requires
            y == b.m() * pow10((s - b.s()) as nat),
            pow10((s - b.s()) as nat) * pb == ps,
    ;
    assert((a.m() * pb + b.m() * pa) * ps == (a.m() * pb) * ps + (b.m() * pa) * ps)
        by (nonlinear_arith);
}

/// Multiplication is exact: the result denotes exactly the product of the
/// values, the scales accounting for the stripped trailing zeros.
pub proof fn lemma_mul_exact(a: Decimal, b: Decimal, r: Decimal)
    requires
        spec_mul(a, b) == Some(r),
    ensures
        r.m() * pow10(a.s() + b.s()) == (a.m() * b.m()) * pow10(r.s()),
{
    let p = a.m() * b.m();
    let (m2, s2) = spec_strip(p, a.s() + b.s());
    lemma_strip_value(p, a.s() + b.s(), MAX_SCALE as nat);
    Decimal::lemma_raw(m2, s2);
}

/// A digit string denoting a number that fits `u128`, or nothing.
pub open spec fn spec_parse_u128(s: Seq<char>) -> Option<u128> {
    if s.len() >= 1 && all_digits(s) && digits_val(s) <= u128::MAX {
        Some(digits_val(s) as u128)
    } else {
        None
    }
}

/// The decimal digit string of an identifier.
pub fn u128_to_string(v: u128) -> (r: String)
    ensures
        r@ == digit_seq(v as nat),
{
    let mut out = String::new();
    push_mag(&mut out, v);
    proof {
        assert(out@ =~= digit_seq(v as nat));
    }
    out
}

/// Parse an identifier written as decimal digits; see `spec_parse_u128`.
pub fn u128_from_string(s: &str) -> (r: Option<u128>)
    ensures
        r == spec_parse_u128(s@),
{
    let n = s.unicode_len();
    if n == 0 {
        return None;
    }
    let mut v: u128 = 0;
    let mut i: usize = 0;
    while i < n
        invariant
            i <= n,
            n == s@.len(),
            all_digits(s@.subrange(0, i as int)),
            v == digits_val(s@.subrange(0, i as int)),
        decreases n - i,
    {
        let c = s.get_char(i);
        if !('0' <= c && c <= '9') {
            return None;
        }
        let d: u128 = (c as u32 - 48) as u128;
        let ghost pre2 = s@.subrange(0, i + 1);
        proof {
            assert(pre2.subrange(0, pre2.len() - 1) =~= s@.subrange(0, i as int));
            assert(pre2[pre2.len() - 1] == s@[i as int]);
        }
        if v > (u128::MAX - 9) / 10 {
            // Even the digits so far exceed the identifier range.
            let hi = match v.checked_mul(10) {
                Some(w) => w.checked_add(d),
                None => None,
            };
            match hi {
                Some(w) => {
                    v = w;
                },
                None => {
                    proof {
                        if all_digits(s@) && digits_val(s@) <= u128::MAX {
                            let rest = s@.subrange(i + 1, n as int);
                            assert(s@ =~= pre2 + rest);
                            assert(all_digits(rest));
                            lemma_mantissa_overflow_u128(pre2, rest);
                        }
                    }
                    return None;
                },
            }
        } else {
            v = v * 10 + d;
        }
        i = i + 1;
    }
    proof {
        assert(s@.subrange(0, n as int) =~= s@);
    }
    Some(v)
}

/// A digit prefix already past the `u128` range forces the whole string
/// past it.
proof fn lemma_mantissa_overflow_u128(pre: Seq<char>, rest: Seq<char>)
    requires
        all_digits(rest),
        digits_val(pre) > u128::MAX,
    ensures
        digits_val(pre + rest) > u128::MAX,
{
    lemma_digits_val_concat(pre, rest);
    lemma_digits_val_nonneg(rest);
    lemma_pow10_pos(rest.len());
    assert(digits_val(pre) * pow10(rest.len()) >= digits_val(pre)) by (nonlinear_arith)
        requires
            digits_val(pre) > 0 && pow10(rest.len()) >= 1,
    ;
}

/// Identifier strings round-trip: parsing the digit string of `v` gives `v`.
pub proof fn lemma_u128_string_round_trip(v: u128)
    ensures
        spec_parse_u128(digit_seq(v as nat)) == Some(v),
{
    lemma_digit_seq_val(v as nat);
}

} // verus!
