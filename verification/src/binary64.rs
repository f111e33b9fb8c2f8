//! Positive binary64 numbers, computed on integers.
//!
//! Sums, products and quotients are rounded to the nearest number with a 53-bit
//! significand, ties to even, as IEEE 754 asks. The numbers met here stay far
//! inside the range of normal numbers, so the exponent is not limited.

use vstd::arithmetic::div_mod::lemma_div_denominator;
use vstd::arithmetic::div_mod::lemma_fundamental_div_mod;
use vstd::arithmetic::mul::lemma_mul_inequality;
use vstd::arithmetic::power2::lemma2_to64;
use vstd::arithmetic::power2::lemma2_to64_rest;
use vstd::arithmetic::power2::lemma_pow2_adds;
use vstd::arithmetic::power2::lemma_pow2_pos;
use vstd::arithmetic::power2::lemma_pow2_strictly_increases;
use vstd::arithmetic::power2::lemma_pow2_unfold;
use vstd::arithmetic::power2::pow2;
use vstd::prelude::*;

verus! {

/// Two to the 52, the least significand.
pub const TWO52: u64 = 0x10_0000_0000_0000;

/// Two to the 53, above all significands.
pub const TWO53: u64 = 0x20_0000_0000_0000;

/// The number `mant` times two to the `exp`.
#[derive(Clone, Copy)]
pub struct Binary64 {
    pub mant: u64,
    pub exp: i32,
}

impl Binary64 {
    /// Whether the significand has exactly 53 bits.
    pub open spec fn wf(self) -> bool {
        TWO52 <= self.mant < TWO53
    }
}

/// How often `f` is halved until it is below two to the 53.
pub open spec fn halvings(f: nat) -> nat
    decreases f,
{
    if f < TWO53 {
        0
    } else {
        1 + halvings(f / 2)
    }
}

/// Whether `p / d` with the integer part `m` rounds up: the rest is more than a
/// half, or just a half and `m` is odd.
pub open spec fn rounds_up(p: nat, d: nat, m: nat) -> bool {
    2 * (p - m * d) > d || (2 * (p - m * d) == d && m % 2 == 1)
}

/// The number nearest to `p / q` times two to the `e`, ties to even, where
/// `p / q` is at least two to the 53.
pub open spec fn nearest(p: nat, q: nat, e: int) -> Binary64 {
    let k = halvings(p / q);
    let d = q * pow2(k);
    let m = p / d;
    if !rounds_up(p, d, m) {
        Binary64 { mant: m as u64, exp: (e + k) as i32 }
    } else if m + 1 < TWO53 {
        Binary64 { mant: (m + 1) as u64, exp: (e + k) as i32 }
    } else {
        Binary64 { mant: TWO52, exp: (e + k + 1) as i32 }
    }
}

/// The halvings leave a significand.
pub proof fn lemma_halvings(f: nat)
    requires
        f >= TWO52,
    ensures
        TWO52 <= f / pow2(halvings(f)) < TWO53,
        f < TWO53 * pow2(halvings(f)),
    decreases f,
{
    let k = halvings(f);
    lemma_pow2_pos(k);
    if f < TWO53 {
        lemma2_to64();
        assert(k == 0 && pow2(k) == 1);
        assert(f / 1 == f);
    } else {
        lemma_halvings(f / 2);
        lemma_pow2_unfold(k);
        lemma_pow2_pos((k - 1) as nat);
        lemma_div_denominator(f as int, 2, pow2((k - 1) as nat) as int);
        assert(pow2(k) == 2 * pow2((k - 1) as nat));
        assert(f / pow2(k) == (f / 2) / pow2((k - 1) as nat));
        lemma_fundamental_div_mod(f as int, pow2(k) as int);
        let g = f / pow2(k);
        assert(f < TWO53 * pow2(k)) by (nonlinear_arith)
            requires
                f == pow2(k) * g + f as int % pow2(k) as int,
                0 <= f as int % pow2(k) as int,
                (f as int % pow2(k) as int) < pow2(k),
                g + 1 <= TWO53,
                pow2(k) > 0,
        ;
    }
}

/// The integer part of the scaled quotient.
pub proof fn lemma_scaled_floor(p: nat, q: nat, k: nat)
    requires
        q > 0,
    ensures
        p / (q * pow2(k)) == (p / q) / pow2(k),
        q * pow2(k) > 0,
{
    lemma_pow2_pos(k);
    lemma_div_denominator(p as int, q as int, pow2(k) as int);
    assert(q * pow2(k) > 0) by (nonlinear_arith)
        requires
            q > 0,
            pow2(k) > 0,
    ;
}

/// A rounded quotient has a 53-bit significand.
pub proof fn lemma_nearest_wf(p: nat, q: nat, e: int)
    requires
        q > 0,
        p / q >= TWO53,
    ensures
        nearest(p, q, e).wf(),
        halvings(p / q) >= 1,
{
    lemma_halvings(p / q);
    lemma_scaled_floor(p, q, halvings(p / q));
}

/// Rounds `p / q` times two to the `e`.
fn round_quotient(p: u128, q: u128, e: i32) -> (r: Binary64)
    requires
        q > 0,
        p / q >= TWO53,
        -2000 <= e <= 2000,
    ensures
        r == nearest(p as nat, q as nat, e as int),
        r.wf(),
        r.exp >= e,
{
    let f: u128 = p / q;
    let rem: u128 = p % q;
    let mut h: u128 = f;
    let mut pw: u128 = 1;
    let mut k: i32 = 0;
    proof {
        lemma2_to64();
        lemma_halvings(f as nat);
        lemma_nearest_wf(p as nat, q as nat, e as int);
        assert(f as nat / 1 == f);
    }
    while h >= TWO53 as u128
        invariant
            0 <= k <= 128,
            pw == pow2(k as nat),
            h >= TWO52,
            h as nat == (f as nat) / pow2(k as nat),
            halvings(f as nat) == k + halvings(h as nat),
            pw * h <= f,
        decreases h,
    {
        proof {
            lemma_pow2_pos(k as nat);
            lemma_pow2_unfold((k + 1) as nat);
            lemma_div_denominator(f as int, pow2(k as nat) as int, 2);
            let hh = h / 2;
            assert(2 * pw * hh <= f) by (nonlinear_arith)
                requires
                    pw * h <= f,
                    2 * hh <= h,
                    pw > 0,
            ;
            assert(2 * pw <= f) by (nonlinear_arith)
                requires
                    2 * pw * hh <= f,
                    hh >= 1,
                    pw > 0,
            ;
            if k >= 127 {
                lemma2_to64_rest();
                lemma_pow2_adds(64, 63);
                lemma_pow2_adds(64, 64);
                if k > 127 {
                    lemma_pow2_strictly_increases(127, k as nat);
                }
                assert(pow2(128) == 0x1_0000_0000_0000_0000_0000_0000_0000_0000);
                assert(false);
            }
        }
        h = h / 2;
        pw = pw * 2;
        k = k + 1;
    }
    let m: u64 = h as u64;
    proof {
        lemma_pow2_pos(k as nat);
        lemma_fundamental_div_mod(f as int, pw as int);
        assert(pw * h == h * pw) by (nonlinear_arith);
    }
    let low: u128 = f - h * pw;
    let half: u128 = pw / 2;
    let up: bool = low > half || (low == half && (rem > 0 || m % 2 == 1));
    proof {
        let kk = k as nat;
        let d = (q as nat) * pow2(kk);
        lemma_scaled_floor(p as nat, q as nat, kk);
        lemma_pow2_unfold(kk);
        assert(kk == halvings((p as nat) / (q as nat)));
        lemma_fundamental_div_mod(p as int, q as int);
        assert(pw % 2 == 0 && pw == 2 * half);
        let x = p - (h as nat) * d;
        assert(x == low * q + rem) by (nonlinear_arith)
            requires
                x == p - h * (q * pw),
                p == q * f + rem,
                low == f - h * pw,
        ;
        assert(d == q * (2 * half));
        if low > half {
            assert(2 * x > d) by (nonlinear_arith)
                requires
                    x == low * q + rem,
                    d == q * (2 * half),
                    low >= half + 1,
                    q > 0,
                    rem >= 0,
            ;
        } else if low == half {
            assert(2 * x == d + 2 * rem) by (nonlinear_arith)
                requires
                    x == low * q + rem,
                    d == q * (2 * half),
                    low == half,
            ;
        } else {
            assert(2 * x < d) by (nonlinear_arith)
                requires
                    x == low * q + rem,
                    d == q * (2 * half),
                    low + 1 <= half,
                    rem < q,
            ;
        }
        assert(up == rounds_up(p as nat, d, h as nat));
    }
    if !up {
        Binary64 { mant: m, exp: e + k }
    } else if m + 1 < TWO53 {
        Binary64 { mant: m + 1, exp: e + k }
    } else {
        Binary64 { mant: TWO52, exp: e + k + 1 }
    }
}

/// The integer `n` as a number; exact below two to the 53.
pub open spec fn of_int(n: nat) -> Binary64 {
    nearest(n * pow2(53), 1, -53)
}

/// The rounded quotient.
pub open spec fn quotient(a: Binary64, b: Binary64) -> Binary64 {
    nearest(a.mant as nat * pow2(55), b.mant as nat, a.exp - b.exp - 55)
}

/// The rounded product.
pub open spec fn product(a: Binary64, b: Binary64) -> Binary64 {
    nearest(a.mant as nat * b.mant as nat, 1, a.exp + b.exp)
}

/// The rounded sum.
pub open spec fn sum(a: Binary64, b: Binary64) -> Binary64 {
    let e = if a.exp < b.exp { a.exp as int } else { b.exp as int };
    nearest(
        a.mant as nat * pow2((a.exp - e) as nat) + b.mant as nat * pow2((b.exp - e) as nat),
        1,
        e,
    )
}

/// The half of a number, which is exact.
pub open spec fn half(a: Binary64) -> Binary64 {
    Binary64 { mant: a.mant, exp: (a.exp - 1) as i32 }
}

/// The integer nearest to a number with a fraction, halves going up.
pub open spec fn to_int(a: Binary64) -> nat {
    (a.mant as nat + pow2((-a.exp - 1) as nat)) / pow2((-a.exp) as nat)
}

proof fn lemma_powers()
    ensures
        pow2(0) == 1,
        pow2(1) == 2,
        pow2(52) == TWO52,
        pow2(53) == TWO53,
        pow2(55) == 0x80_0000_0000_0000,
        pow2(64) == 0x1_0000_0000_0000_0000,
{
    lemma2_to64();
    lemma2_to64_rest();
}

impl Binary64 {
    /// The integer `n` as a number.
    pub fn from_int(n: u64) -> (r: Binary64)
        requires
            0 < n < TWO53,
        ensures
            r == of_int(n as nat),
            r.wf(),
            -53 <= r.exp,
    {
        proof {
            lemma_powers();
            assert(TWO53 <= n * TWO53 && n * TWO53 < TWO53 * TWO53) by (nonlinear_arith)
                requires
                    0 < n < TWO53,
            ;
            assert((n * TWO53) / 1 == n * TWO53);
        }
        round_quotient((n as u128) * (TWO53 as u128), 1, -53)
    }

    /// `self / b`.
    pub fn div(self, b: Binary64) -> (r: Binary64)
        requires
            self.wf(),
            b.wf(),
            -500 <= self.exp <= 500,
            -500 <= b.exp <= 500,
        ensures
            r == quotient(self, b),
            r.wf(),
            r.exp >= self.exp - b.exp - 55,
    {
        proof {
            lemma_powers();
            let p = self.mant * 0x80_0000_0000_0000;
            let q = b.mant as int;
            assert(p / q >= TWO53) by (nonlinear_arith)
                requires
                    p >= TWO52 * 0x80_0000_0000_0000,
                    0 < q < TWO53,
            ;
        }
        round_quotient(
            (self.mant as u128) * 0x80_0000_0000_0000,
            b.mant as u128,
            self.exp - b.exp - 55,
        )
    }

    /// `self * b`.
    pub fn times(self, b: Binary64) -> (r: Binary64)
        requires
            self.wf(),
            b.wf(),
            -500 <= self.exp <= 500,
            -500 <= b.exp <= 500,
        ensures
            r == product(self, b),
            r.wf(),
            r.exp >= self.exp + b.exp,
    {
        proof {
            let p = self.mant * b.mant;
            assert(TWO53 <= p && p < TWO53 * TWO53) by (nonlinear_arith)
                requires
                    TWO52 <= self.mant < TWO53,
                    TWO52 <= b.mant < TWO53,
                    p == self.mant * b.mant,
            ;
            assert(p / 1 == p);
        }
        round_quotient((self.mant as u128) * (b.mant as u128), 1, self.exp + b.exp)
    }

    /// `self + b`.
    pub fn plus(self, b: Binary64) -> (r: Binary64)
        requires
            self.wf(),
            b.wf(),
            -500 <= self.exp <= 500,
            -500 <= b.exp <= 500,
            -64 <= self.exp - b.exp <= 64,
        ensures
            r == sum(self, b),
            r.wf(),
    {
        let e: i32 = if self.exp < b.exp { self.exp } else { b.exp };
        let x: u128 = shift_up(self.mant, (self.exp - e) as u32);
        let y: u128 = shift_up(b.mant, (b.exp - e) as u32);
        proof {
            assert((x + y) / 1 == x + y);
        }
        round_quotient(x + y, 1, e)
    }

    /// The nearest integer, halves going up.
    pub fn round(self) -> (n: u64)
        requires
            self.wf(),
            -120 <= self.exp < 0,
        ensures
            n == to_int(self),
    {
        let s: u32 = (-self.exp) as u32;
        let d: u128 = two_to(s);
        let h: u128 = two_to(s - 1);
        proof {
            lemma_pow2_pos(s as nat);
            lemma_pow2_unfold(s as nat);
            let x = self.mant + h;
            assert(x / d as int <= TWO53) by (nonlinear_arith)
                requires
                    x == self.mant + h,
                    self.mant < TWO53,
                    d == 2 * h,
                    h >= 1,
            ;
        }
        ((self.mant as u128 + h) / d) as u64
    }
}

/// Two to the `s`.
fn two_to(s: u32) -> (r: u128)
    requires
        s <= 120,
    ensures
        r == pow2(s as nat),
        1 <= r <= 0x100_0000_0000_0000_0000_0000_0000_0000,
{
    let mut r: u128 = 1;
    let mut i: u32 = 0;
    proof {
        lemma_powers();
        lemma2_to64_rest();
        lemma_pow2_adds(60, 60);
        assert(pow2(120) == 0x100_0000_0000_0000_0000_0000_0000_0000);
    }
    while i < s
        invariant
            i <= s <= 120,
            r == pow2(i as nat),
            pow2(120) == 0x100_0000_0000_0000_0000_0000_0000_0000,
        decreases s - i,
    {
        proof {
            lemma_pow2_unfold((i + 1) as nat);
            lemma_pow2_strictly_increases(i as nat, 120);
        }
        r = r * 2;
        i += 1;
    }
    proof {
        lemma_pow2_pos(s as nat);
        if s < 120 {
            lemma_pow2_strictly_increases(s as nat, 120);
        }
    }
    r
}

/// `m` times two to the `s`.
fn shift_up(m: u64, s: u32) -> (r: u128)
    requires
        TWO52 <= m < TWO53,
        s <= 64,
    ensures
        r == m as nat * pow2(s as nat),
        TWO52 <= r,
        r < 0x20_0000_0000_0000_0000_0000_0000_0000,
{
    let d: u128 = two_to(s);
    proof {
        lemma_powers();
        lemma_pow2_pos(s as nat);
        if s < 64 {
            lemma_pow2_strictly_increases(s as nat, 64);
        }
        assert(TWO52 <= m * d && m * d < TWO53 * 0x1_0000_0000_0000_0000) by (nonlinear_arith)
            requires
                TWO52 <= m < TWO53,
                1 <= d <= 0x1_0000_0000_0000_0000,
        ;
    }
    (m as u128) * d
}

// ---------------------------------------------------------------------------
// Accuracy
// ---------------------------------------------------------------------------

/// The number times two to the 200, which is an integer for all exponents from
/// -200 on.
pub open spec fn scaled(a: Binary64) -> nat {
    a.mant as nat * pow2((a.exp + 200) as nat)
}

/// The integer part of the significand before it is rounded.
pub open spec fn floor_mant(p: nat, q: nat) -> nat {
    p / (q * pow2(halvings(p / q)))
}

/// The rounded significand, not yet brought back below two to the 53.
pub open spec fn rounded_mant(p: nat, q: nat) -> nat {
    let d = q * pow2(halvings(p / q));
    let m = floor_mant(p, q);
    if rounds_up(p, d, m) {
        m + 1
    } else {
        m
    }
}

/// Exponents that leave room for everything below.
pub open spec fn in_range(p: nat, q: nat, e: int) -> bool {
    q > 0 && p / q >= TWO53 && -200 <= e <= 200 && halvings(p / q) <= 200
}

proof fn lemma_nearest_parts(p: nat, q: nat, e: int)
    requires
        in_range(p, q, e),
    ensures
        ({
            let k = halvings(p / q);
            let d = q * pow2(k);
            let m = floor_mant(p, q);
            let r = rounded_mant(p, q);
            &&& k >= 1
            &&& d > 0
            &&& TWO52 <= m < TWO53
            &&& m * d <= p < (m + 1) * d
            &&& 2 * (r * d - p) <= d
            &&& 2 * (p - r * d) <= d
            &&& r == m || (r == m + 1 && m * d < p)
            &&& scaled(nearest(p, q, e)) == r * pow2((k + e + 200) as nat)
            &&& nearest(p, q, e).wf()
            &&& e <= nearest(p, q, e).exp <= e + k + 1
        }),
{
    let k = halvings(p / q);
    let d = q * pow2(k);
    let m = floor_mant(p, q);
    let r = rounded_mant(p, q);
    lemma_halvings(p / q);
    lemma_scaled_floor(p, q, k);
    lemma_nearest_wf(p, q, e);
    lemma_fundamental_div_mod(p as int, d as int);
    let rest = p as int % d as int;
    assert(m * d <= p < (m + 1) * d) by (nonlinear_arith)
        requires
            p == d * m + rest,
            0 <= rest < d,
    ;
    assert(m * d == d * m) by (nonlinear_arith);
    assert((m + 1) * d == m * d + d) by (nonlinear_arith);
    if r == m + 1 {
        assert(2 * (p - m * d) >= d);
    }
    let s = (k + e + 200) as nat;
    if rounds_up(p, d, m) && m + 1 >= TWO53 {
        lemma_pow2_unfold((s + 1) as nat);
        assert(m + 1 == TWO53);
        assert(TWO52 * (2 * pow2(s)) == TWO53 * pow2(s)) by (nonlinear_arith);
        assert(nearest(p, q, e).exp + 200 == s + 1);
    } else {
        assert(nearest(p, q, e).exp + 200 == s);
    }
}

/// A rounded number is off by at most one part in two to the 53.
pub proof fn lemma_nearest_error(p: nat, q: nat, e: int)
    requires
        in_range(p, q, e),
    ensures
        ({
            let x = p * pow2((e + 200) as nat);
            let y = q * scaled(nearest(p, q, e));
            &&& TWO53 * (y - x) <= x
            &&& TWO53 * (x - y) <= x
        }),
{
    lemma_nearest_parts(p, q, e);
    let k = halvings(p / q);
    let d = q * pow2(k);
    let m = floor_mant(p, q);
    let r = rounded_mant(p, q);
    let b = pow2((e + 200) as nat);
    let x = p * b;
    let y = q * scaled(nearest(p, q, e));
    lemma_pow2_adds(k, (e + 200) as nat);
    lemma_pow2_pos((e + 200) as nat);
    assert(pow2((k + e + 200) as nat) == pow2(k) * b);
    assert(y == (r * d) * b) by (nonlinear_arith)
        requires
            y == q * (r * (pow2(k) * b)),
            d == q * pow2(k),
    ;
    assert(TWO52 * d <= p) by (nonlinear_arith)
        requires
            m * d <= p,
            TWO52 <= m,
            d > 0,
    ;
    assert(TWO53 * (r * d - p) <= p);
    assert(TWO53 * (p - r * d) <= p);
    assert(TWO53 * (y - x) <= x) by (nonlinear_arith)
        requires
            y == (r * d) * b,
            x == p * b,
            TWO53 * (r * d - p) <= p,
            b > 0,
    ;
    assert(TWO53 * (x - y) <= x) by (nonlinear_arith)
        requires
            y == (r * d) * b,
            x == p * b,
            TWO53 * (p - r * d) <= p,
            b > 0,
    ;
}

/// No number lies strictly between two neighbours.
proof fn lemma_no_number_between(y: Binary64, m: nat, b: nat)
    requires
        y.wf(),
        -200 <= y.exp <= 500,
        TWO52 <= m,
    ensures
        scaled(y) <= m * pow2(b) || (m + 1) * pow2(b) <= scaled(y),
{
    let a = (y.exp + 200) as nat;
    lemma_pow2_pos(b);
    lemma_pow2_pos(a);
    if a >= b {
        lemma_pow2_adds((a - b) as nat, b);
        let z = y.mant as nat * pow2((a - b) as nat);
        assert(scaled(y) == z * pow2(b)) by (nonlinear_arith)
            requires
                scaled(y) == y.mant as nat * (pow2((a - b) as nat) * pow2(b)),
                z == y.mant as nat * pow2((a - b) as nat),
        ;
        if z <= m {
            lemma_mul_inequality(z as int, m as int, pow2(b) as int);
        } else {
            lemma_mul_inequality((m + 1) as int, z as int, pow2(b) as int);
        }
    } else {
        lemma_pow2_adds((b - a - 1) as nat, (a + 1) as nat);
        lemma_pow2_pos((b - a - 1) as nat);
        lemma_pow2_unfold((a + 1) as nat);
        let u = pow2((b - a - 1) as nat);
        assert(scaled(y) <= m * pow2(b)) by (nonlinear_arith)
            requires
                scaled(y) == y.mant as nat * pow2(a),
                y.mant < TWO53,
                pow2(b) == u * (2 * pow2(a)),
                u >= 1,
                TWO52 <= m,
                pow2(a) > 0,
        ;
    }
}

/// Rounding does not pass a number from below.
pub proof fn lemma_nearest_at_most(p: nat, q: nat, e: int, y: Binary64)
    requires
        in_range(p, q, e),
        y.wf(),
        -200 <= y.exp <= 500,
        p * pow2((e + 200) as nat) <= q * scaled(y),
    ensures
        scaled(nearest(p, q, e)) <= scaled(y),
{
    lemma_nearest_parts(p, q, e);
    let k = halvings(p / q);
    let d = q * pow2(k);
    let m = floor_mant(p, q);
    let r = rounded_mant(p, q);
    let b = pow2((e + 200) as nat);
    let bb = (k + e + 200) as nat;
    lemma_pow2_adds(k, (e + 200) as nat);
    lemma_pow2_pos((e + 200) as nat);
    let z = scaled(y);
    if r == m {
        assert(r * pow2(bb) <= z) by (nonlinear_arith)
            requires
                m * d <= p,
                r == m,
                d == q * pow2(k),
                pow2(bb) == pow2(k) * b,
                p * b <= q * z,
                q > 0,
                b > 0,
        ;
    } else if z < (m + 1) * pow2(bb) {
        assert(m * pow2(bb) < z) by (nonlinear_arith)
            requires
                m * d < p,
                d == q * pow2(k),
                pow2(bb) == pow2(k) * b,
                p * b <= q * z,
                q > 0,
                b > 0,
        ;
        lemma_no_number_between(y, m, bb);
    }
}

/// Rounding does not pass a number from above.
pub proof fn lemma_nearest_at_least(p: nat, q: nat, e: int, y: Binary64)
    requires
        in_range(p, q, e),
        y.wf(),
        -200 <= y.exp <= 500,
        q * scaled(y) <= p * pow2((e + 200) as nat),
    ensures
        scaled(y) <= scaled(nearest(p, q, e)),
{
    lemma_nearest_parts(p, q, e);
    let k = halvings(p / q);
    let d = q * pow2(k);
    let m = floor_mant(p, q);
    let r = rounded_mant(p, q);
    let b = pow2((e + 200) as nat);
    let bb = (k + e + 200) as nat;
    lemma_pow2_adds(k, (e + 200) as nat);
    lemma_pow2_pos((e + 200) as nat);
    lemma_pow2_pos(bb);
    let z = scaled(y);
    assert(z < (m + 1) * pow2(bb)) by (nonlinear_arith)
        requires
            p < (m + 1) * d,
            d == q * pow2(k),
            pow2(bb) == pow2(k) * b,
            q * z <= p * b,
            q > 0,
            b > 0,
    ;
    if r == m && z > m * pow2(bb) {
        lemma_no_number_between(y, m, bb);
    }
}

/// Few halvings suffice for small numbers.
pub proof fn lemma_halvings_bound(f: nat, j: nat)
    requires
        f < pow2(53 + j),
    ensures
        halvings(f) <= j,
    decreases j,
{
    lemma_powers();
    if f >= TWO53 {
        if j == 0 {
        } else {
            lemma_pow2_unfold(53 + j);
            lemma_halvings_bound(f / 2, (j - 1) as nat);
        }
    }
}

/// The scale of [`scaled`]: the number one.
pub open spec fn unit() -> nat {
    pow2(200)
}

/// A number of moderate size.
pub open spec fn moderate(a: Binary64) -> bool {
    a.wf() && -90 <= a.exp <= 40
}

/// The exponent follows from the size.
pub proof fn lemma_exp_bounds(a: Binary64, lo: nat, hi: nat)
    requires
        a.wf(),
        -200 <= a.exp <= 500,
        pow2(lo) <= scaled(a) <= pow2(hi),
    ensures
        lo <= a.exp + 252,
        a.exp + 252 <= hi,
{
    lemma_powers();
    let x = (a.exp + 200) as nat;
    lemma_pow2_pos(x);
    if lo > a.exp + 252 {
        lemma_pow2_adds(53, x);
        if lo > x + 53 {
            lemma_pow2_strictly_increases(x + 53, lo);
        }
        assert(scaled(a) < pow2(53) * pow2(x)) by (nonlinear_arith)
            requires
                scaled(a) == a.mant as nat * pow2(x),
                a.mant < pow2(53),
                pow2(x) > 0,
        ;
    }
    if a.exp + 252 > hi {
        lemma_pow2_adds(52, x);
        lemma_pow2_strictly_increases(hi, x + 52);
        assert(scaled(a) >= pow2(52) * pow2(x)) by (nonlinear_arith)
            requires
                scaled(a) == a.mant as nat * pow2(x),
                a.mant >= pow2(52),
                pow2(x) > 0,
        ;
    }
}

proof fn lemma_quotient_link(a: Binary64, b: Binary64)
    requires
        moderate(a),
        moderate(b),
        -145 <= a.exp - b.exp <= 145,
    ensures
        ({
            let p = a.mant as nat * pow2(55);
            let q = b.mant as nat;
            let e = a.exp - b.exp - 55;
            let s = pow2((b.exp + 200) as nat);
            &&& in_range(p, q, e)
            &&& (p * pow2((e + 200) as nat)) * s == scaled(a) * unit()
            &&& q * s == scaled(b)
            &&& s > 0
        }),
{
    lemma_powers();
    let p = a.mant as nat * pow2(55);
    let q = b.mant as nat;
    let e = a.exp - b.exp - 55;
    let s = pow2((b.exp + 200) as nat);
    lemma_pow2_pos((b.exp + 200) as nat);
    lemma_pow2_adds(53, 55);
    assert(p < pow2(53) * pow2(55)) by (nonlinear_arith)
        requires
            p == a.mant as nat * pow2(55),
            a.mant < pow2(53),
            pow2(55) > 0,
    ;
    assert(p / q <= p && p / q >= TWO53) by (nonlinear_arith)
        requires
            p >= TWO52 * 0x80_0000_0000_0000,
            TWO52 <= q < TWO53,
    ;
    lemma_halvings_bound(p / q, 55);
    lemma_pow2_adds((e + 200) as nat, (b.exp + 200) as nat);
    lemma_pow2_adds(55, (e + 200 + b.exp + 200) as nat);
    lemma_pow2_adds((a.exp + 200) as nat, 200);
    let x = pow2((e + 200) as nat);
    let y = pow2((a.exp + 200) as nat);
    assert((p * x) * s == (a.mant as nat * y) * unit()) by (nonlinear_arith)
        requires
            p == a.mant as nat * pow2(55),
            pow2(55) * (x * s) == y * unit(),
    ;
}

/// How a quotient lies to a number `y`.
pub proof fn lemma_quotient_bounds(a: Binary64, b: Binary64, y: Binary64)
    requires
        moderate(a),
        moderate(b),
        moderate(y),
        -145 <= a.exp - b.exp <= 145,
    ensures
        scaled(a) * unit() <= scaled(b) * scaled(y) ==> scaled(quotient(a, b)) <= scaled(y),
        scaled(b) * scaled(y) <= scaled(a) * unit() ==> scaled(y) <= scaled(quotient(a, b)),
        quotient(a, b).wf(),
        -200 <= quotient(a, b).exp <= 500,
{
    lemma_quotient_link(a, b);
    let p = a.mant as nat * pow2(55);
    let q = b.mant as nat;
    let e = a.exp - b.exp - 55;
    let s = pow2((b.exp + 200) as nat);
    lemma_nearest_parts(p, q, e);
    let l = p * pow2((e + 200) as nat);
    let r = q * scaled(y);
    assert(r * s == scaled(b) * scaled(y)) by (nonlinear_arith)
        requires
            q * s == scaled(b),
            r == q * scaled(y),
    ;
    if scaled(a) * unit() <= scaled(b) * scaled(y) {
        assert(l <= r) by (nonlinear_arith)
            requires
                l * s <= r * s,
                s > 0,
        ;
        lemma_nearest_at_most(p, q, e, y);
    }
    if scaled(b) * scaled(y) <= scaled(a) * unit() {
        assert(r <= l) by (nonlinear_arith)
            requires
                r * s <= l * s,
                s > 0,
        ;
        lemma_nearest_at_least(p, q, e, y);
    }
}

/// A quotient is off by at most one part in two to the 53.
pub proof fn lemma_quotient_error(a: Binary64, b: Binary64)
    requires
        moderate(a),
        moderate(b),
        -145 <= a.exp - b.exp <= 145,
    ensures
        ({
            let x = scaled(a) * unit();
            let y = scaled(b) * scaled(quotient(a, b));
            &&& TWO53 * (y - x) <= x
            &&& TWO53 * (x - y) <= x
        }),
{
    lemma_quotient_link(a, b);
    let p = a.mant as nat * pow2(55);
    let q = b.mant as nat;
    let e = a.exp - b.exp - 55;
    let s = pow2((b.exp + 200) as nat);
    lemma_nearest_error(p, q, e);
    let r = scaled(quotient(a, b));
    let x0 = p * pow2((e + 200) as nat);
    let y0 = q * r;
    assert(scaled(b) * r == y0 * s) by (nonlinear_arith)
        requires
            q * s == scaled(b),
            y0 == q * r,
    ;
    lemma_scale_error(x0, y0, s);
}

/// A bound on a relative error survives scaling.
proof fn lemma_scale_error(x: nat, y: nat, s: nat)
    requires
        TWO53 * (y - x) <= x,
        TWO53 * (x - y) <= x,
    ensures
        TWO53 * (y * s - x * s) <= x * s,
        TWO53 * (x * s - y * s) <= x * s,
{
    assert(TWO53 * (y * s - x * s) <= x * s) by (nonlinear_arith)
        requires
            TWO53 * (y - x) <= x,
    ;
    assert(TWO53 * (x * s - y * s) <= x * s) by (nonlinear_arith)
        requires
            TWO53 * (x - y) <= x,
    ;
}

proof fn lemma_product_link(a: Binary64, b: Binary64)
    requires
        moderate(a),
        moderate(b),
        -150 <= a.exp + b.exp,
    ensures
        ({
            let p = a.mant as nat * b.mant as nat;
            let e = a.exp + b.exp;
            &&& in_range(p, 1, e)
            &&& (p * pow2((e + 200) as nat)) * unit() == scaled(a) * scaled(b)
        }),
{
    lemma_powers();
    let p = a.mant as nat * b.mant as nat;
    let e = a.exp + b.exp;
    lemma_pow2_adds(53, 53);
    assert(TWO53 <= p && p < pow2(53) * pow2(53)) by (nonlinear_arith)
        requires
            p == a.mant as nat * b.mant as nat,
            TWO52 <= a.mant < TWO53,
            TWO52 <= b.mant < TWO53,
            pow2(53) == TWO53,
    ;
    assert(p / 1 == p);
    lemma_halvings_bound(p, 53);
    lemma_pow2_adds((e + 200) as nat, 200);
    lemma_pow2_adds((a.exp + 200) as nat, (b.exp + 200) as nat);
    let x = pow2((e + 200) as nat);
    let y = pow2((a.exp + 200) as nat);
    let z = pow2((b.exp + 200) as nat);
    assert((p * x) * unit() == (a.mant as nat * y) * (b.mant as nat * z)) by (nonlinear_arith)
        requires
            p == a.mant as nat * b.mant as nat,
            x * unit() == y * z,
    ;
}

/// How a product lies to a number `y`.
pub proof fn lemma_product_bounds(a: Binary64, b: Binary64, y: Binary64)
    requires
        moderate(a),
        moderate(b),
        moderate(y),
        -150 <= a.exp + b.exp,
    ensures
        scaled(a) * scaled(b) <= scaled(y) * unit() ==> scaled(product(a, b)) <= scaled(y),
        scaled(y) * unit() <= scaled(a) * scaled(b) ==> scaled(y) <= scaled(product(a, b)),
        product(a, b).wf(),
        -200 <= product(a, b).exp <= 500,
{
    lemma_product_link(a, b);
    let p = a.mant as nat * b.mant as nat;
    let e = a.exp + b.exp;
    lemma_nearest_parts(p, 1, e);
    lemma_pow2_pos(200);
    let l = p * pow2((e + 200) as nat);
    if scaled(a) * scaled(b) <= scaled(y) * unit() {
        assert(l <= scaled(y)) by (nonlinear_arith)
            requires
                l * unit() <= scaled(y) * unit(),
                unit() > 0,
        ;
        lemma_nearest_at_most(p, 1, e, y);
    }
    if scaled(y) * unit() <= scaled(a) * scaled(b) {
        assert(scaled(y) <= l) by (nonlinear_arith)
            requires
                scaled(y) * unit() <= l * unit(),
                unit() > 0,
        ;
        lemma_nearest_at_least(p, 1, e, y);
    }
}

/// A product is off by at most one part in two to the 53.
pub proof fn lemma_product_error(a: Binary64, b: Binary64)
    requires
        moderate(a),
        moderate(b),
        -150 <= a.exp + b.exp,
    ensures
        ({
            let x = scaled(a) * scaled(b);
            let y = scaled(product(a, b)) * unit();
            &&& TWO53 * (y - x) <= x
            &&& TWO53 * (x - y) <= x
        }),
{
    lemma_product_link(a, b);
    let p = a.mant as nat * b.mant as nat;
    let e = a.exp + b.exp;
    lemma_nearest_error(p, 1, e);
    lemma_scale_error(p * pow2((e + 200) as nat), scaled(product(a, b)), unit());
}

proof fn lemma_sum_link(a: Binary64, b: Binary64)
    requires
        moderate(a),
        moderate(b),
        -64 <= a.exp - b.exp <= 64,
    ensures
        ({
            let e = if a.exp < b.exp { a.exp as int } else { b.exp as int };
            let p = a.mant as nat * pow2((a.exp - e) as nat) + b.mant as nat * pow2(
                (b.exp - e) as nat,
            );
            &&& in_range(p, 1, e)
            &&& p * pow2((e + 200) as nat) == scaled(a) + scaled(b)
        }),
{
    lemma_powers();
    let e = if a.exp < b.exp { a.exp as int } else { b.exp as int };
    let u = (a.exp - e) as nat;
    let v = (b.exp - e) as nat;
    let x = a.mant as nat * pow2(u);
    let y = b.mant as nat * pow2(v);
    let p = x + y;
    lemma_shifted_size(a.mant as nat, u);
    lemma_shifted_size(b.mant as nat, v);
    lemma_pow2_unfold(118);
    assert(p / 1 == p);
    lemma_halvings_bound(p, 65);
    let w = pow2((e + 200) as nat);
    lemma_pow2_adds(u, (e + 200) as nat);
    lemma_pow2_adds(v, (e + 200) as nat);
    assert((x + y) * w == a.mant as nat * (pow2(u) * w) + b.mant as nat * (pow2(v) * w))
        by (nonlinear_arith)
        requires
            x == a.mant as nat * pow2(u),
            y == b.mant as nat * pow2(v),
    ;
}

proof fn lemma_shifted_size(m: nat, s: nat)
    requires
        TWO52 <= m < TWO53,
        s <= 64,
    ensures
        TWO52 <= m * pow2(s) < pow2(117),
{
    lemma_powers();
    lemma_pow2_pos(s);
    if s < 64 {
        lemma_pow2_strictly_increases(s, 64);
    }
    lemma_pow2_adds(53, 64);
    assert(TWO52 <= m * pow2(s) < pow2(53) * pow2(64)) by (nonlinear_arith)
        requires
            TWO52 <= m < pow2(53),
            1 <= pow2(s) <= pow2(64),
    ;
}

/// How a sum lies to a number `y`.
pub proof fn lemma_sum_bounds(a: Binary64, b: Binary64, y: Binary64)
    requires
        moderate(a),
        moderate(b),
        moderate(y),
        -64 <= a.exp - b.exp <= 64,
    ensures
        scaled(a) + scaled(b) <= scaled(y) ==> scaled(sum(a, b)) <= scaled(y),
        scaled(y) <= scaled(a) + scaled(b) ==> scaled(y) <= scaled(sum(a, b)),
        sum(a, b).wf(),
        -200 <= sum(a, b).exp <= 500,
{
    lemma_sum_link(a, b);
    let e = if a.exp < b.exp { a.exp as int } else { b.exp as int };
    let p = a.mant as nat * pow2((a.exp - e) as nat) + b.mant as nat * pow2((b.exp - e) as nat);
    lemma_nearest_parts(p, 1, e);
    if scaled(a) + scaled(b) <= scaled(y) {
        lemma_nearest_at_most(p, 1, e, y);
    }
    if scaled(y) <= scaled(a) + scaled(b) {
        lemma_nearest_at_least(p, 1, e, y);
    }
}

/// A sum is off by at most one part in two to the 53.
pub proof fn lemma_sum_error(a: Binary64, b: Binary64)
    requires
        moderate(a),
        moderate(b),
        -64 <= a.exp - b.exp <= 64,
    ensures
        ({
            let x = scaled(a) + scaled(b);
            let y = scaled(sum(a, b));
            &&& TWO53 * (y - x) <= x
            &&& TWO53 * (x - y) <= x
        }),
{
    lemma_sum_link(a, b);
    let e = if a.exp < b.exp { a.exp as int } else { b.exp as int };
    let p = a.mant as nat * pow2((a.exp - e) as nat) + b.mant as nat * pow2((b.exp - e) as nat);
    lemma_nearest_error(p, 1, e);
}

/// Integers are represented exactly.
pub proof fn lemma_of_int(n: nat)
    requires
        0 < n < TWO53,
    ensures
        of_int(n).wf(),
        scaled(of_int(n)) == n * unit(),
        -53 <= of_int(n).exp <= 1,
{
    lemma_powers();
    let p = n * pow2(53);
    lemma_pow2_adds(53, 53);
    assert(TWO53 <= p && p < pow2(53) * pow2(53)) by (nonlinear_arith)
        requires
            p == n * pow2(53),
            0 < n < pow2(53),
            pow2(53) == TWO53,
    ;
    assert(p / 1 == p);
    lemma_halvings_bound(p, 53);
    lemma_nearest_parts(p, 1, -53);
    let k = halvings(p);
    let d = pow2(k);
    let m = floor_mant(p, 1);
    lemma_pow2_adds((53 - k) as nat, k);
    let z = n * pow2((53 - k) as nat);
    assert(p == z * d) by (nonlinear_arith)
        requires
            p == n * (pow2((53 - k) as nat) * d),
            z == n * pow2((53 - k) as nat),
    ;
    assert(m == z) by (nonlinear_arith)
        requires
            m * d <= z * d < (m + 1) * d,
            d > 0,
    ;
    let r = rounded_mant(p, 1);
    assert(r == m);
    lemma_pow2_adds(k, 147);
    lemma_pow2_adds(53, 147);
    assert(m * (d * pow2(147)) == n * (pow2(53) * pow2(147))) by (nonlinear_arith)
        requires
            m * d == n * pow2(53),
    ;
}

} // verus!
