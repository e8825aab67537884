//! Arithmetic on double-precision numbers that are zero, positive and normal, or infinite, as
//! IEEE 754 has it: each result is the number next to the exact one, and of two that are equally
//! near the one with an even bit pattern.
use crate::score::{INFINITY_BITS, Score};
use vstd::arithmetic::power2::*;
use vstd::prelude::*;

verus! {

/// The distance between two powers of two, counted in bit patterns.
pub const BINADE: u64 = 0x10_0000_0000_0000;

/// The value of a bit pattern without a sign, in units of 2 to the power of -1075. That of
/// infinity counts as the power of two that follows the largest number.
pub open spec fn units(bits: int) -> int {
    if bits < BINADE {
        2 * bits
    } else {
        (BINADE + bits % (BINADE as int)) * pow2((bits / (BINADE as int)) as nat)
    }
}

/// How far the value of a bit pattern is from `p / q` units, `q` times over.
pub open spec fn distance(bits: int, p: int, q: int) -> int {
    if units(bits) * q >= p {
        units(bits) * q - p
    } else {
        p - units(bits) * q
    }
}

/// Holds where the value of a bit pattern is the one next to `p / q` units; of two that are
/// equally near the even one.
pub open spec fn is_nearest(bits: int, p: int, q: int) -> bool {
    &&& 0 <= bits <= INFINITY_BITS
    &&& forall|s: int|
        0 <= s <= INFINITY_BITS ==> {
            &&& distance(bits, p, q) <= #[trigger] distance(s, p, q)
            &&& distance(bits, p, q) == distance(s, p, q) && s != bits ==> bits % 2 == 0
        }
}

/// The number next to `p / q` units.
pub open spec fn nearest(p: int, q: int) -> Score {
    Score { bits: (choose|bits: int| is_nearest(bits, p, q)) as u64 }
}

/// Holds where a score is zero, positive and normal, or infinite.
pub open spec fn is_plain(s: Score) -> bool {
    s.bits == 0 || BINADE <= s.bits <= INFINITY_BITS
}

proof fn lemma_units_step(b: int)
    requires
        0 <= b,
    ensures
        units(b) < units(b + 1),
        b >= BINADE ==> units(b + 1) == units(b) + pow2((b / (BINADE as int)) as nat),
{
    let n = BINADE as int;
    if b >= n {
        let e = (b / n) as nat;
        let m = n + b % n;
        lemma_pow2_pos(e);
        if b % n < n - 1 {
            assert((b + 1) / n == b / n && (b + 1) % n == b % n + 1);
            assert((m + 1) * pow2(e) == m * pow2(e) + pow2(e)) by (nonlinear_arith);
        } else {
            assert((b + 1) / n == b / n + 1 && (b + 1) % n == 0);
            lemma_pow2_unfold(e + 1);
            assert(n * (2 * pow2(e)) == (2 * n - 1) * pow2(e) + pow2(e)) by (nonlinear_arith);
        }
    } else if b == n - 1 {
        lemma2_to64();
        assert(b + 1 == n);
        assert(n / n == 1 && n % n == 0);
        assert(units(n) == (n + 0) * pow2(1));
    }
}

/// A larger bit pattern has a larger value.
pub proof fn lemma_units_increase(a: int, b: int)
    requires
        0 <= a < b,
    ensures
        units(a) < units(b),
    decreases b - a,
{
    lemma_units_step(b - 1);
    if a < b - 1 {
        lemma_units_increase(a, b - 1);
    }
}

proof fn lemma_units_scaled(a: int, b: int, q: int)
    requires
        0 <= a <= b,
        0 < q,
    ensures
        units(a) * q <= units(b) * q,
        a < b ==> units(a) * q < units(b) * q,
{
    if a < b {
        lemma_units_increase(a, b);
        let x = units(a);
        let y = units(b);
        assert(x * q < y * q) by (nonlinear_arith)
            requires
                x < y,
                0 < q,
        ;
    }
}

/// There is one nearest number.
pub proof fn lemma_nearest_unique(a: int, b: int, p: int, q: int)
    requires
        is_nearest(a, p, q),
        is_nearest(b, p, q),
        0 < q,
    ensures
        a == b,
    decreases (if a <= b { 0int } else { 1int }),
{
    if a > b {
        lemma_nearest_unique(b, a, p, q);
    } else if a < b {
        assert(distance(a, p, q) <= distance(b, p, q));
        assert(distance(b, p, q) <= distance(a, p, q));
        lemma_units_scaled(a, a + 1, q);
        lemma_units_scaled(a, b, q);
        assert(b != a + 1);
        lemma_units_scaled(a + 1, b, q);
        assert(distance(a, p, q) <= distance(a + 1, p, q));
    }
}

/// What is found to be nearest is the nearest number.
proof fn lemma_is_nearest(bits: u64, p: int, q: int)
    requires
        is_nearest(bits as int, p, q),
        0 < q,
    ensures
        nearest(p, q) == (Score { bits }),
{
    let c = choose|c: int| is_nearest(c, p, q);
    lemma_nearest_unique(bits as int, c, p, q);
}

/// Rounding a value between two neighbouring numbers.
proof fn lemma_round(b: int, p: int, q: int, up: bool)
    requires
        0 <= b < INFINITY_BITS,
        0 < q,
        units(b) * q <= p < units(b + 1) * q,
        ({
            let below = p - units(b) * q;
            let above = units(b + 1) * q - p;
            up == (below > above || (below == above && b % 2 == 1))
        }),
    ensures
        is_nearest(if up { b + 1 } else { b }, p, q),
{
    let r = if up { b + 1 } else { b };
    assert forall|s: int| 0 <= s <= INFINITY_BITS implies {
        &&& distance(r, p, q) <= #[trigger] distance(s, p, q)
        &&& distance(r, p, q) == distance(s, p, q) && s != r ==> r % 2 == 0
    } by {
        if s <= b {
            lemma_units_scaled(s, b, q);
        } else {
            lemma_units_scaled(b + 1, s, q);
        }
    }
}

/// A value from the largest on is nearest to infinity.
proof fn lemma_round_top(p: int, q: int)
    requires
        0 < q,
        units(INFINITY_BITS as int) * q <= p,
    ensures
        is_nearest(INFINITY_BITS as int, p, q),
{
    let r = INFINITY_BITS as int;
    assert forall|s: int| 0 <= s <= INFINITY_BITS implies {
        &&& distance(r, p, q) <= #[trigger] distance(s, p, q)
        &&& distance(r, p, q) == distance(s, p, q) && s != r ==> r % 2 == 0
    } by {
        lemma_units_scaled(s, r, q);
    }
}

/// Only the ratio counts.
proof fn lemma_nearest_scale(bits: int, p: int, q: int, c: int)
    requires
        is_nearest(bits, p * c, q * c),
        0 < q,
        0 < c,
    ensures
        is_nearest(bits, p, q),
{
    assert forall|s: int| 0 <= s <= INFINITY_BITS implies {
        &&& distance(bits, p, q) <= #[trigger] distance(s, p, q)
        &&& distance(bits, p, q) == distance(s, p, q) && s != bits ==> bits % 2 == 0
    } by {
        lemma_distance_scale(bits, p, q, c);
        lemma_distance_scale(s, p, q, c);
        assert(distance(bits, p * c, q * c) <= distance(s, p * c, q * c));
        let x = distance(bits, p, q);
        let y = distance(s, p, q);
        assert(x * c <= y * c ==> x <= y) by (nonlinear_arith)
            requires
                0 < c,
        ;
        assert(x == y ==> x * c == y * c);
    }
}

proof fn lemma_distance_scale(s: int, p: int, q: int, c: int)
    requires
        0 < c,
    ensures
        distance(s, p * c, q * c) == distance(s, p, q) * c,
{
    let u = units(s);
    assert(u * (q * c) == (u * q) * c) by (nonlinear_arith);
    let v = u * q;
    assert((v - p) * c == v * c - p * c) by (nonlinear_arith);
    assert((p - v) * c == p * c - v * c) by (nonlinear_arith);
    assert(v >= p ==> v * c >= p * c) by (nonlinear_arith)
        requires
            0 < c,
    ;
    assert(v < p ==> v * c < p * c) by (nonlinear_arith)
        requires
            0 < c,
    ;
}

/// The number next to `(m + rem / den)` times a power of two.
fn round_up_or_down(m: u64, rem: u128, den: u128, e: u64) -> (r: Score)
    requires
        BINADE <= m < 2 * BINADE,
        rem < den,
        den <= 0x4000_0000_0000_0000_0000_0000_0000_0000,
        1 <= e < 0x8000_0000_0000_0000,
    ensures
        is_nearest(r.bits as int, (m * den + rem) * pow2(e as nat), den as int),
        is_plain(r),
        r.bits != 0,
{
    let ghost p = (m * den + rem) * pow2(e as nat);
    let ghost q = den as int;
    let ghost w = pow2(e as nat) as int;
    proof {
        lemma_pow2_pos(e as nat);
    }
    if e >= 2047 {
        proof {
            let top = INFINITY_BITS as int;
            assert(top / (BINADE as int) == 2047 && top % (BINADE as int) == 0);
            assert(units(top) == BINADE * pow2(2047));
            if e > 2047 {
                lemma_pow2_strictly_increases(2047, e as nat);
            }
            let v = pow2(2047) as int;
            lemma_pow2_pos(2047);
            assert(BINADE * v * q <= p) by (nonlinear_arith)
                requires
                    p == (m * den + rem) * w,
                    q == den,
                    0 <= rem,
                    0 < den,
                    BINADE <= m,
                    0 < v <= w,
            ;
            lemma_round_top(p, q);
        }
        return Score { bits: INFINITY_BITS };
    }
    let low: u64 = e * BINADE + (m - BINADE);
    let odd = low % 2 == 1;
    let up = rem > den - rem || (rem == den - rem && odd);
    proof {
        let n = BINADE as int;
        assert(low as int / n == e && low as int % n == m - n) by (nonlinear_arith)
            requires
                low == e * n + (m - n),
                0 <= m - n < n,
                n == 0x10_0000_0000_0000,
        ;
        assert(units(low as int) == m * w);
        lemma_units_step(low as int);
        assert(units(low + 1) == m * w + w);
        assert((m * w) * q == m * q * w) by (nonlinear_arith);
        assert((m * w + w) * q == m * q * w + q * w) by (nonlinear_arith);
        assert(p == m * q * w + rem * w) by (nonlinear_arith)
            requires
                p == (m * den + rem) * w,
                q == den,
        ;
        assert(rem * w < q * w) by (nonlinear_arith)
            requires
                rem < q,
                0 < w,
        ;
        assert(0 <= rem * w) by (nonlinear_arith)
            requires
                0 <= rem,
                0 < w,
        ;
        assert(rem > q - rem ==> rem * w > q * w - rem * w) by (nonlinear_arith)
            requires
                0 < w,
        ;
        assert(rem < q - rem ==> rem * w < q * w - rem * w) by (nonlinear_arith)
            requires
                0 < w,
        ;
        assert(rem == q - rem ==> rem * w == q * w - rem * w) by (nonlinear_arith)
            requires
                0 < w,
        ;
        lemma_round(low as int, p, q, up);
    }
    if up {
        Score { bits: low + 1 }
    } else {
        Score { bits: low }
    }
}

/// The number next to `n` times a power of two.
fn round_integer(n: u128, e: u64) -> (r: Score)
    requires
        BINADE <= n < 0x4000_0000_0000_0000_0000_0000_0000_0000,
        1 <= e < 0x1_0000_0000,
    ensures
        is_nearest(r.bits as int, n * pow2(e as nat), 1),
        is_plain(r),
        r.bits != 0,
{
    let mut den: u128 = 1;
    let mut k: u64 = 0;
    proof {
        lemma2_to64();
    }
    while n / den >= 2 * BINADE as u128
        invariant
            1 <= den <= n,
            BINADE * den <= n < 0x4000_0000_0000_0000_0000_0000_0000_0000,
            den == pow2(k as nat),
            k < den,
        decreases n - den,
    {
        proof {
            let quotient = n as int / den as int;
            assert(n >= 2 * BINADE * den) by (nonlinear_arith)
                requires
                    quotient == n as int / den as int,
                    quotient >= 2 * BINADE,
                    den > 0,
            ;
            lemma_pow2_unfold((k + 1) as nat);
            assert(BINADE * (2 * den) <= n) by (nonlinear_arith)
                requires
                    n >= 2 * BINADE * den,
            ;
            assert(2 * den <= n) by (nonlinear_arith)
                requires
                    BINADE * (2 * den) <= n,
                    BINADE >= 1,
                    den >= 0,
            ;
            assert(k < 128) by {
                if k >= 128 {
                    lemma_pow2_strictly_increases(126, k as nat);
                    lemma_pow2_adds(63, 63);
                    lemma2_to64_rest();
                }
            }
        }
        den = den * 2;
        k += 1;
    }
    let m: u64 = (n / den) as u64;
    let rem: u128 = n % den;
    proof {
        assert(n as int / den as int >= BINADE) by (nonlinear_arith)
            requires
                BINADE * den <= n,
                den > 0,
        ;
        assert(m * den + rem == n) by (nonlinear_arith)
            requires
                m == n as int / den as int,
                rem == n as int % den as int,
                den > 0,
        ;
        assert(k < 128) by {
            if k >= 128 {
                lemma_pow2_strictly_increases(126, k as nat);
                lemma_pow2_adds(63, 63);
                lemma2_to64_rest();
            }
        }
    }
    let r = round_up_or_down(m, rem, den, e + k);
    proof {
        lemma_pow2_adds(e as nat, k as nat);
        let d = den as int;
        let w = pow2(e as nat) as int;
        assert(n * (w * d) == (n * w) * d) by (nonlinear_arith);
        lemma_nearest_scale(r.bits as int, n * w, 1, d);
    }
    r
}

/// The number next to an integer.
pub open spec fn double_of(n: nat) -> Score {
    nearest((n * pow2(1075)) as int, 1)
}

/// The number next to an integer.
pub fn from_count(n: u64) -> (r: Score)
    ensures
        r == double_of(n as nat),
        is_plain(r),
        r.bits == 0 <==> n == 0,
        r.bits <= 1087 * BINADE,
{
    if n == 0 {
        proof {
            let w = pow2(1075) as int;
            assert(0 * w == 0);
            assert forall|s: int| 0 <= s <= INFINITY_BITS implies {
                &&& distance(0, 0, 1) <= #[trigger] distance(s, 0, 1)
                &&& distance(0, 0, 1) == distance(s, 0, 1) && s != 0 ==> 0int % 2 == 0
            } by {
                lemma_units_scaled(0, s, 1);
            }
            lemma_is_nearest(0, 0, 1);
        }
        return Score { bits: 0 };
    }
    let mut m: u128 = n as u128;
    let mut s: u64 = 0;
    proof {
        lemma2_to64();
        assert(n * 1 == n);
    }
    while m < BINADE as u128
        invariant
            0 < n,
            n <= m <= n || m < 2 * BINADE,
            m == n * pow2(s as nat),
            s <= 52,
            m >= pow2(s as nat),
            1 <= m <= 0xffff_ffff_ffff_ffff,
        decreases 0x1_0000_0000_0000_0000 - m,
    {
        proof {
            lemma_pow2_unfold((s + 1) as nat);
            let w = pow2(s as nat) as int;
            assert(n * (2 * w) == 2 * (n * w)) by (nonlinear_arith);
            assert(s < 52) by {
                if s == 52 {
                    lemma2_to64_rest();
                }
            }
        }
        m = m * 2;
        s += 1;
    }
    let r = round_integer(m, 1075 - s);
    proof {
        lemma_pow2_adds((1075 - s) as nat, s as nat);
        let w = pow2(s as nat) as int;
        let v = pow2((1075 - s) as nat) as int;
        assert((n * w) * v == n * (v * w)) by (nonlinear_arith);
        lemma_is_nearest(r.bits, (n * pow2(1075)) as int, 1);
        lemma_count_bound(n, r.bits as int);
    }
    r
}

/// The number next to an integer of 64 bits is at most two to the power of 64.
proof fn lemma_count_bound(n: u64, b: int)
    requires
        is_nearest(b, n * pow2(1075), 1),
    ensures
        b <= 1087 * BINADE,
{
    let top = 1087 * BINADE;
    assert(top / (BINADE as int) == 1087 && top % (BINADE as int) == 0);
    lemma_pow2_adds(12, 1075);
    lemma_pow2_pos(1075);
    lemma2_to64();
    let w = pow2(1075) as int;
    assert(units(top) == BINADE * pow2(1087));
    assert(BINADE * (0x1000 * w) == 0x1_0000_0000_0000_0000 * w) by (nonlinear_arith)
        requires
            BINADE == 0x10_0000_0000_0000,
    ;
    assert(n * w < 0x1_0000_0000_0000_0000 * w) by (nonlinear_arith)
        requires
            n < 0x1_0000_0000_0000_0000,
            0 < w,
    ;
    if b > top {
        lemma_units_increase(top, b);
        assert(distance(b, n * w, 1) <= distance(top, n * w, 1));
    }
}

/// The number next to one over a number; infinity for zero.
pub open spec fn reciprocal(d: Score) -> Score {
    if d.bits == 0 {
        Score { bits: INFINITY_BITS }
    } else {
        nearest(pow2(2150) as int, units(d.bits as int))
    }
}

/// The number next to one over a number that is not too large; infinity for zero.
pub fn invert(d: Score) -> (r: Score)
    requires
        is_plain(d),
        d.bits <= 1087 * BINADE,
    ensures
        r == reciprocal(d),
        is_plain(r),
        r.bits != 0,
{
    if d.bits == 0 {
        return Score { bits: INFINITY_BITS };
    }
    let e: u64 = d.bits / BINADE;
    let m: u64 = BINADE + d.bits % BINADE;
    let ghost w = pow2(e as nat) as int;
    proof {
        lemma_pow2_pos(e as nat);
        assert(units(d.bits as int) == m * w);
        assert(m * w > 0) by (nonlinear_arith)
            requires
                m > 0,
                w > 0,
        ;
        lemma2_to64();
        lemma2_to64_rest();
    }
    if m == BINADE {
        let r = round_up_or_down(BINADE, 0, 1, 2046 - e);
        proof {
            let v = pow2((2046 - e) as nat) as int;
            lemma_pow2_adds((2046 - e) as nat, e as nat);
            lemma_pow2_adds(52, 52);
            lemma_pow2_adds(104, 2046);
            let n = BINADE as int;
            // The quotient is 2^52 * 2^(2046 - e), and 2^2150 is that times 2^52 * 2^e.
            assert((n * v) * (n * w) == (n * n) * (v * w)) by (nonlinear_arith);
            assert(n * n == pow2(104));
            assert((n * 1 + 0) * v == n * v);
            assert(1 * (n * w) == n * w);
            lemma_nearest_scale_up(r.bits as int, n * v, 1, n * w);
            lemma_is_nearest(r.bits, pow2(2150) as int, units(d.bits as int));
        }
        r
    } else {
        let num: u128 = 0x200_0000_0000_0000_0000_0000_0000;
        let quotient: u128 = num / (m as u128);
        let rem: u128 = num % (m as u128);
        proof {
            assert(quotient >= BINADE && quotient < 2 * BINADE) by (nonlinear_arith)
                requires
                    quotient == num as int / m as int,
                    num == 0x200_0000_0000_0000_0000_0000_0000,
                    BINADE == 0x10_0000_0000_0000,
                    BINADE < m < 2 * BINADE,
            ;
        }
        let r = round_up_or_down(quotient as u64, rem, m as u128, 2045 - e);
        proof {
            assert(quotient * m + rem == num) by (nonlinear_arith)
                requires
                    quotient == num as int / m as int,
                    rem == num as int % m as int,
                    m > 0,
            ;
            let v = pow2((2045 - e) as nat) as int;
            lemma_pow2_adds(52, 53);
            assert(num == pow2(105)) by {
                assert(0x10_0000_0000_0000 * 0x20_0000_0000_0000
                    == 0x200_0000_0000_0000_0000_0000_0000) by (nonlinear_arith);
            }
            lemma_pow2_adds((2045 - e) as nat, e as nat);
            lemma_pow2_adds(105, 2045);
            assert((num * v) * w == num * (v * w)) by (nonlinear_arith);
            lemma_nearest_scale_up(r.bits as int, num * v, m as int, w);
            lemma_is_nearest(r.bits, pow2(2150) as int, units(d.bits as int));
        }
        r
    }
}

/// Only the ratio counts.
proof fn lemma_nearest_scale_up(bits: int, p: int, q: int, c: int)
    requires
        is_nearest(bits, p, q),
        0 < q,
        0 < c,
    ensures
        is_nearest(bits, p * c, q * c),
{
    assert forall|s: int| 0 <= s <= INFINITY_BITS implies {
        &&& distance(bits, p * c, q * c) <= #[trigger] distance(s, p * c, q * c)
        &&& distance(bits, p * c, q * c) == distance(s, p * c, q * c) && s != bits ==> bits % 2 == 0
    } by {
        lemma_distance_scale(bits, p, q, c);
        lemma_distance_scale(s, p, q, c);
        let x = distance(bits, p, q);
        let y = distance(s, p, q);
        assert(x <= y);
        assert(x * c <= y * c) by (nonlinear_arith)
            requires
                0 < c,
                x <= y,
        ;
        assert(x * c == y * c ==> x == y) by (nonlinear_arith)
            requires
                0 < c,
        ;
    }
}

/// The number next to the sum of two numbers.
pub open spec fn sum(a: Score, b: Score) -> Score {
    if a.bits == INFINITY_BITS || b.bits == INFINITY_BITS {
        Score { bits: INFINITY_BITS }
    } else {
        nearest(units(a.bits as int) + units(b.bits as int), 1)
    }
}

proof fn lemma_exact(bits: u64)
    requires
        bits <= INFINITY_BITS,
    ensures
        is_nearest(bits as int, units(bits as int), 1),
{
    let b = bits as int;
    let p = units(b);
    assert forall|s: int| 0 <= s <= INFINITY_BITS implies {
        &&& distance(b, p, 1) <= #[trigger] distance(s, p, 1)
        &&& distance(b, p, 1) == distance(s, p, 1) && s != b ==> b % 2 == 0
    } by {
        if s < b {
            lemma_units_scaled(s, b, 1);
        } else if b < s {
            lemma_units_scaled(b, s, 1);
        }
    }
}

/// A number and one that is too small to change it.
proof fn lemma_absorbed(a: u64, b: u64)
    requires
        BINADE <= b < INFINITY_BITS,
        BINADE <= a < INFINITY_BITS,
        b / BINADE + 55 <= a / BINADE,
    ensures
        is_nearest(a as int, units(a as int) + units(b as int), 1),
{
    let n = BINADE as int;
    let ea = (a / BINADE) as nat;
    let eb = (b / BINADE) as nat;
    let mb = n + b as int % n;
    lemma_units_step(a as int);
    lemma2_to64_rest();
    lemma_pow2_pos(eb);
    lemma_pow2_pos(ea);
    lemma_pow2_adds(55, eb);
    if 55 + eb < ea {
        lemma_pow2_strictly_increases(55 + eb, ea);
    }
    let w = pow2(eb) as int;
    let v = pow2(ea) as int;
    assert(units(b as int) == mb * w);
    assert(4 * (mb * w) < v) by (nonlinear_arith)
        requires
            mb < 0x20_0000_0000_0000,
            0x80_0000_0000_0000 * w <= v,
            0 < w,
    ;
    assert(0 < mb * w) by (nonlinear_arith)
        requires
            0 < mb,
            0 < w,
    ;
    lemma_round(a as int, units(a as int) + units(b as int), 1, false);
}

/// The sum of a number and one that is not larger, neither zero nor infinity.
fn add_ordered(a: Score, b: Score) -> (r: Score)
    requires
        BINADE <= b.bits <= a.bits < INFINITY_BITS,
    ensures
        is_nearest(r.bits as int, units(a.bits as int) + units(b.bits as int), 1),
        is_plain(r),
        r.bits != 0,
{
    let ea: u64 = a.bits / BINADE;
    let eb: u64 = b.bits / BINADE;
    let ma: u64 = BINADE + a.bits % BINADE;
    let mb: u64 = BINADE + b.bits % BINADE;
    if ea - eb >= 55 {
        proof {
            lemma_absorbed(a.bits, b.bits);
        }
        return a;
    }
    let diff: u64 = ea - eb;
    let mut high: u128 = ma as u128;
    let mut i: u64 = 0;
    proof {
        lemma2_to64();
        assert(ma * 1 == ma);
    }
    while i < diff
        invariant
            i <= diff < 55,
            high == ma * pow2(i as nat),
            ma < 2 * BINADE,
            BINADE <= ma,
            pow2(i as nat) <= 0x40_0000_0000_0000,
            pow2(i as nat) >= 1,
            high >= ma,
        decreases diff - i,
    {
        proof {
            let w = pow2(i as nat) as int;
            lemma_pow2_unfold((i + 1) as nat);
            assert(ma * (2 * w) == 2 * (ma * w)) by (nonlinear_arith);
            assert(ma * w <= 0x20_0000_0000_0000 * 0x40_0000_0000_0000) by (nonlinear_arith)
                requires
                    ma < 2 * BINADE,
                    BINADE == 0x10_0000_0000_0000,
                    1 <= w <= 0x40_0000_0000_0000,
            ;
            lemma2_to64_rest();
            if i + 1 < 54 {
                lemma_pow2_strictly_increases((i + 1) as nat, 54);
            }
        }
        high = high * 2;
        i += 1;
    }
    proof {
        let w = pow2(diff as nat) as int;
        assert(ma * w <= 0x20_0000_0000_0000 * 0x40_0000_0000_0000) by (nonlinear_arith)
            requires
                ma < 2 * BINADE,
                BINADE == 0x10_0000_0000_0000,
                1 <= w <= 0x40_0000_0000_0000,
        ;
        assert(0x20_0000_0000_0000 * 0x40_0000_0000_0000 == 0x800_0000_0000_0000_0000_0000_0000)
            by (nonlinear_arith);
    }
    let n: u128 = high + mb as u128;
    let r = round_integer(n, eb);
    proof {
        lemma_pow2_adds(diff as nat, eb as nat);
        let w = pow2(diff as nat) as int;
        let v = pow2(eb as nat) as int;
        assert((ma * w + mb) * v == ma * (w * v) + mb * v) by (nonlinear_arith);
        assert(units(a.bits as int) == ma * pow2(ea as nat));
        assert(units(b.bits as int) == mb * v);
    }
    r
}

/// The number next to the sum of two numbers.
pub fn plus(a: Score, b: Score) -> (r: Score)
    requires
        is_plain(a),
        is_plain(b),
    ensures
        r == sum(a, b),
        is_plain(r),
        r.bits == 0 <==> a.bits == 0 && b.bits == 0,
{
    if a.bits == INFINITY_BITS || b.bits == INFINITY_BITS {
        return Score { bits: INFINITY_BITS };
    }
    if a.bits == 0 {
        proof {
            lemma_exact(b.bits);
            lemma_is_nearest(b.bits, units(b.bits as int), 1);
        }
        return b;
    }
    if b.bits == 0 {
        proof {
            lemma_exact(a.bits);
            lemma_is_nearest(a.bits, units(a.bits as int), 1);
        }
        return a;
    }
    let r = if b.bits <= a.bits {
        add_ordered(a, b)
    } else {
        add_ordered(b, a)
    };
    proof {
        lemma_is_nearest(r.bits, units(a.bits as int) + units(b.bits as int), 1);
    }
    r
}

/// The order in which two numbers are added does not matter.
pub proof fn law_sum_commutes(a: Score, b: Score)
    ensures
        sum(a, b) == sum(b, a),
{
}

/// Adding zero changes nothing.
pub proof fn law_zero_adds_nothing(a: Score)
    requires
        is_plain(a),
    ensures
        sum(a, Score { bits: 0 }) == a,
{
    if a.bits != INFINITY_BITS {
        lemma_exact(a.bits);
        lemma_is_nearest(a.bits, units(a.bits as int), 1);
    }
}

/// Adding a number to another does not make it smaller.
pub proof fn law_sum_is_not_smaller(a: Score, b: Score)
    requires
        is_plain(a),
        is_plain(b),
    ensures
        sum(a, b).bits >= a.bits,
        !sum(a, b).is_nan(),
{
    if a.bits != INFINITY_BITS && b.bits != INFINITY_BITS {
        let p = units(a.bits as int) + units(b.bits as int);
        lemma_nearest_exists(a.bits, b.bits, p);
        let r = choose|r: int| is_nearest(r, p, 1);
        lemma_units_scaled(0, b.bits as int, 1);
        if r < a.bits {
            lemma_units_scaled(r, a.bits as int, 1);
            assert(distance(r, p, 1) <= distance(a.bits as int, p, 1));
        }
    }
}

proof fn lemma_nearest_exists(a: u64, b: u64, p: int)
    requires
        a <= INFINITY_BITS,
        b <= INFINITY_BITS,
        p == units(a as int) + units(b as int),
    ensures
        exists|r: int| is_nearest(r, p, 1),
{
    lemma_units_scaled(0, b as int, 1);
    if units(INFINITY_BITS as int) <= p {
        lemma_round_top(p, 1);
    } else {
        lemma_between(p, a as int);
        let low = choose|low: int|
            0 <= low < INFINITY_BITS && #[trigger] units(low) <= p < units(low + 1);
        let below = p - units(low);
        let above = units(low + 1) - p;
        let up = below > above || (below == above && low % 2 == 1);
        lemma_round(low, p, 1, up);
    }
}

proof fn lemma_between(p: int, from: int)
    requires
        0 <= from < INFINITY_BITS,
        units(from) <= p < units(INFINITY_BITS as int),
    ensures
        exists|low: int| 0 <= low < INFINITY_BITS && #[trigger] units(low) <= p < units(low + 1),
    decreases INFINITY_BITS - from,
{
    if p >= units(from + 1) {
        lemma_between(p, from + 1);
    }
}

} // verus!
