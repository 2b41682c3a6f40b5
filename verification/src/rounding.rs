//! Rounding of exact non-negative rationals to the magnitudes that a binary64
//! number can take.
//!
//! A magnitude is the bit pattern of a binary64 number without its sign bit.
//! Every finite magnitude stands for an integer count of the smallest
//! subnormal, 2^-1074: its "units". A rational `n / d` below is a count of
//! units too, so `n = 1, d = 2` is half of the smallest subnormal.
use vstd::prelude::*;
use vstd::arithmetic::div_mod::lemma_fundamental_div_mod;
use vstd::arithmetic::div_mod::lemma_fundamental_div_mod_converse;
use vstd::arithmetic::power2::lemma_pow2_adds;
use vstd::arithmetic::power2::lemma_pow2_pos;
use vstd::arithmetic::power2::lemma_pow2_strictly_increases;
use vstd::arithmetic::power2::lemma_pow2_unfold;
use vstd::arithmetic::power2::pow2;

verus! {

/// 2^52: the step from one binade of magnitudes to the next.
pub const BINADE: u64 = 0x10_0000_0000_0000;

/// 2^53: the bound on a significand.
pub const SIGNIFICAND_BOUND: u64 = 0x20_0000_0000_0000;

/// The magnitude of infinity; a larger one is a NaN.
pub const INFINITE: u64 = 0x7ff0_0000_0000_0000;

/// The integer nearest to `n / d`, the even one of two that are equally near.
pub open spec fn nearest_even(n: nat, d: nat) -> nat {
    let q = n / d;
    let r = n % d;
    if 2 * r > d || (2 * r == d && q % 2 == 1) {
        q + 1
    } else {
        q
    }
}

/// The least `k` for which `n / d` is below `2^53 * 2^k`: the exponent, counted
/// from that of the smallest subnormal, of the grid on which `n / d` is rounded.
pub open spec fn binade(n: nat, d: nat) -> nat
    decreases (if n >= d { n - d } else { 0 }),
{
    if d == 0 || n < d * SIGNIFICAND_BOUND {
        0
    } else {
        1 + binade(n, 2 * d)
    }
}

/// The magnitude nearest to `n / d` units, ties to the even significand. What
/// rounds past the largest finite magnitude is infinite.
pub open spec fn round_to_magnitude(n: nat, d: nat) -> nat {
    let k = binade(n, d);
    let b = k * BINADE + nearest_even(n, d * pow2(k));
    if b < INFINITE {
        b as nat
    } else {
        INFINITE as nat
    }
}

/// The grid exponent of a magnitude.
pub open spec fn magnitude_exponent(b: nat) -> nat {
    if b < BINADE {
        0
    } else {
        (b / (BINADE as nat) - 1) as nat
    }
}

/// The significand of a magnitude, its hidden bit in place.
pub open spec fn magnitude_significand(b: nat) -> nat {
    (b - magnitude_exponent(b) * BINADE) as nat
}

/// What a finite magnitude stands for, in units of 2^-1074.
pub open spec fn magnitude_units(b: nat) -> nat {
    magnitude_significand(b) * pow2(magnitude_exponent(b))
}

pub broadcast proof fn lemma_magnitude_parts(b: nat)
    ensures
        #[trigger] magnitude_significand(b) < SIGNIFICAND_BOUND,
        magnitude_exponent(b) > 0 ==> magnitude_significand(b) >= BINADE,
        b == magnitude_exponent(b) * BINADE + magnitude_significand(b),
{
    lemma_fundamental_div_mod(b as int, BINADE as int);
}

/// `binade` is the only exponent that meets both of its bounds.
pub proof fn lemma_binade_unique(n: nat, d: nat, k: nat)
    requires
        d > 0,
        n < d * (SIGNIFICAND_BOUND * pow2(k)),
        k == 0 || n >= d * (BINADE * pow2(k)),
    ensures
        binade(n, d) == k,
    decreases k,
{
    if k == 0 {
        assert(pow2(0) == 1) by {
            vstd::arithmetic::power2::lemma2_to64();
        }
    } else {
        lemma_pow2_unfold(k);
        lemma_pow2_pos((k - 1) as nat);
        let p = pow2((k - 1) as nat);
        assert(d * (BINADE * (2 * p)) >= d * SIGNIFICAND_BOUND) by (nonlinear_arith)
            requires
                p >= 1,
        ;
        assert(d * (BINADE * (2 * p)) == (2 * d) * (BINADE * p)) by (nonlinear_arith);
        assert(d * (SIGNIFICAND_BOUND * (2 * p)) == (2 * d) * (SIGNIFICAND_BOUND * p))
            by (nonlinear_arith);
        lemma_binade_unique(n, 2 * d, (k - 1) as nat);
    }
}

pub proof fn lemma_binade_bounds(n: nat, d: nat)
    requires
        d > 0,
    ensures
        n < d * (SIGNIFICAND_BOUND * pow2(binade(n, d))),
        binade(n, d) == 0 || n >= d * (BINADE * pow2(binade(n, d))),
    decreases (if n >= d { n - d } else { 0 }),
{
    if n < d * SIGNIFICAND_BOUND {
        assert(pow2(0) == 1) by {
            vstd::arithmetic::power2::lemma2_to64();
        }
    } else {
        lemma_binade_bounds(n, 2 * d);
        let k = binade(n, 2 * d);
        lemma_pow2_unfold(k + 1);
        let p = pow2(k);
        assert(d * (BINADE * (2 * p)) == (2 * d) * (BINADE * p)) by (nonlinear_arith);
        assert(d * (SIGNIFICAND_BOUND * (2 * p)) == (2 * d) * (SIGNIFICAND_BOUND * p))
            by (nonlinear_arith);
        if k == 0 {
            assert(pow2(0) == 1) by {
                vstd::arithmetic::power2::lemma2_to64();
            }
        }
    }
}

/// The quotient and remainder of `n / d` after both are scaled by `c`.
proof fn lemma_nearest_even_scaled(n: nat, d: nat, c: nat)
    requires
        d > 0,
        c > 0,
    ensures
        nearest_even(n * c, d * c) == nearest_even(n, d),
{
    let q = n / d;
    let r = n % d;
    lemma_fundamental_div_mod(n as int, d as int);
    assert(n * c == q * (d * c) + r * c) by (nonlinear_arith)
        requires
            n == d * q + r,
    ;
    assert(0 <= r * c < d * c) by (nonlinear_arith)
        requires
            0 <= r < d,
            c > 0,
    ;
    lemma_fundamental_div_mod_converse((n * c) as int, (d * c) as int, q as int, (r * c) as int);
    assert(2 * (r * c) > d * c <==> 2 * r > d) by (nonlinear_arith)
        requires
            c > 0,
    ;
    assert(2 * (r * c) == d * c <==> 2 * r == d) by (nonlinear_arith)
        requires
            c > 0,
    ;
}

/// `nearest_even` of a value between two integers stays between them.
proof fn lemma_nearest_even_bounds(n: nat, d: nat, lo: nat, hi: nat)
    requires
        d > 0,
        lo * d <= n <= hi * d,
    ensures
        lo <= nearest_even(n, d) <= hi,
{
    let q = n / d;
    let r = n % d;
    lemma_fundamental_div_mod(n as int, d as int);
    assert(q >= lo) by (nonlinear_arith)
        requires
            lo * d <= d * q + r,
            0 <= r < d,
    ;
    assert(q <= hi) by (nonlinear_arith)
        requires
            d * q + r <= hi * d,
            0 <= r < d,
    ;
    if q == hi {
        assert(r == 0) by (nonlinear_arith)
            requires
                d * q + r <= hi * d,
                q == hi,
                0 <= r,
        ;
    }
}

proof fn lemma_nearest_even_monotone(n1: nat, d1: nat, n2: nat, d2: nat)
    requires
        d1 > 0,
        d2 > 0,
        n1 * d2 <= n2 * d1,
    ensures
        nearest_even(n1, d1) <= nearest_even(n2, d2),
{
    lemma_nearest_even_scaled(n1, d1, d2);
    lemma_nearest_even_scaled(n2, d2, d1);
    let d = d1 * d2;
    assert(d > 0 && d == d2 * d1) by (nonlinear_arith)
        requires
            d1 > 0,
            d2 > 0,
            d == d1 * d2,
    ;
    let a = n1 * d2;
    let b = n2 * d1;
    lemma_fundamental_div_mod(a as int, d as int);
    lemma_fundamental_div_mod(b as int, d as int);
    let qa = a / d;
    let qb = b / d;
    assert(qa <= qb) by (nonlinear_arith)
        requires
            a <= b,
            d > 0,
            a == d * qa + a % d,
            b == d * qb + b % d,
            0 <= a % d < d,
            0 <= b % d < d,
    ;
    if qa == qb {
        assert(a % d <= b % d);
    }
}

/// Rounding keeps the order: a value that is not larger does not round to a
/// larger magnitude.
pub proof fn lemma_round_monotone(n1: nat, d1: nat, n2: nat, d2: nat)
    requires
        d1 > 0,
        d2 > 0,
        n1 * d2 <= n2 * d1,
    ensures
        round_to_magnitude(n1, d1) <= round_to_magnitude(n2, d2),
{
    let k1 = binade(n1, d1);
    let k2 = binade(n2, d2);
    lemma_binade_bounds(n1, d1);
    lemma_binade_bounds(n2, d2);
    lemma_pow2_pos(k1);
    lemma_pow2_pos(k2);
    let p1 = pow2(k1);
    let p2 = pow2(k2);
    assert(d1 * p1 > 0 && d2 * p2 > 0) by (nonlinear_arith)
        requires
            d1 > 0,
            d2 > 0,
            p1 > 0,
            p2 > 0,
    ;
    if k1 == k2 {
        assert(n1 * (d2 * p2) <= n2 * (d1 * p1)) by (nonlinear_arith)
            requires
                n1 * d2 <= n2 * d1,
                p1 == p2,
                p1 > 0,
        ;
        lemma_nearest_even_monotone(n1, d1 * p1, n2, d2 * p2);
    } else if k1 < k2 {
        assert(n1 <= SIGNIFICAND_BOUND * (d1 * p1)) by (nonlinear_arith)
            requires
                n1 < d1 * (SIGNIFICAND_BOUND * p1),
        ;
        lemma_nearest_even_bounds(n1, d1 * p1, 0, SIGNIFICAND_BOUND as nat);
        assert(BINADE * (d2 * p2) <= n2) by (nonlinear_arith)
            requires
                n2 >= d2 * (BINADE * p2),
        ;
        assert(n2 <= SIGNIFICAND_BOUND * (d2 * p2)) by (nonlinear_arith)
            requires
                n2 < d2 * (SIGNIFICAND_BOUND * p2),
        ;
        lemma_nearest_even_bounds(n2, d2 * p2, BINADE as nat, SIGNIFICAND_BOUND as nat);
    } else {
        // n1 would lie in a higher binade than n2, and so be larger
        lemma_pow2_strictly_increases(k2, k1);
        lemma_pow2_unfold(k1);
        if k2 + 1 < k1 {
            lemma_pow2_strictly_increases(k2, (k1 - 1) as nat);
        }
        assert(p1 >= 2 * p2);
        assert(n1 * d2 > n2 * d1) by (nonlinear_arith)
            requires
                n1 >= d1 * (BINADE * p1),
                n2 < d2 * (SIGNIFICAND_BOUND * p2),
                SIGNIFICAND_BOUND == 2 * BINADE,
                p1 >= 2 * p2,
                p2 > 0,
                d1 > 0,
                d2 > 0,
        ;
    }
}

/// A finite magnitude is what its own units round to.
pub proof fn lemma_round_exact(b: nat, c: nat)
    requires
        b < INFINITE,
        c > 0,
    ensures
        round_to_magnitude(magnitude_units(b) * c, c) == b,
{
    let k = magnitude_exponent(b);
    let m = magnitude_significand(b);
    lemma_magnitude_parts(b);
    lemma_pow2_pos(k);
    let p = pow2(k);
    let n = (m * p) * c;
    assert(n < c * (SIGNIFICAND_BOUND * p)) by (nonlinear_arith)
        requires
            n == (m * p) * c,
            m < SIGNIFICAND_BOUND,
            p > 0,
            c > 0,
    ;
    if k > 0 {
        assert(n >= c * (BINADE * p)) by (nonlinear_arith)
            requires
                n == (m * p) * c,
                m >= BINADE,
                p > 0,
                c > 0,
        ;
    }
    lemma_binade_unique(n, c, k);
    assert(m * (c * p) == n) by (nonlinear_arith)
        requires
            n == (m * p) * c,
    ;
    assert(c * p > 0) by (nonlinear_arith)
        requires
            c > 0,
            p > 0,
    ;
    lemma_nearest_even_bounds(n, c * p, m, m);
}

/// A larger finite magnitude stands for more units.
pub proof fn lemma_units_monotone(b1: nat, b2: nat)
    requires
        b1 < b2,
    ensures
        magnitude_units(b1) < magnitude_units(b2),
{
    lemma_magnitude_parts(b1);
    lemma_magnitude_parts(b2);
    let k1 = magnitude_exponent(b1);
    let k2 = magnitude_exponent(b2);
    let m1 = magnitude_significand(b1);
    let m2 = magnitude_significand(b2);
    lemma_pow2_pos(k1);
    lemma_pow2_pos(k2);
    let p1 = pow2(k1);
    let p2 = pow2(k2);
    if k1 == k2 {
        assert(m1 * p1 < m2 * p2) by (nonlinear_arith)
            requires
                m1 < m2,
                p1 == p2,
                p1 > 0,
        ;
    } else {
        assert(k1 < k2) by {
            if k2 < k1 {
                assert(k1 * BINADE + m1 >= (k2 + 1) * BINADE + BINADE);
            }
        }
        lemma_pow2_unfold(k2);
        if k1 + 1 < k2 {
            lemma_pow2_strictly_increases(k1, (k2 - 1) as nat);
        }
        assert(m1 * p1 < m2 * p2) by (nonlinear_arith)
            requires
                m1 < SIGNIFICAND_BOUND,
                m2 >= BINADE,
                SIGNIFICAND_BOUND == 2 * BINADE,
                p2 >= 2 * p1,
                p1 > 0,
        ;
    }
}

/// The bound on the integers that `pack` takes: 2^120.
pub const WIDE: u128 = 0x100_0000_0000_0000_0000_0000_0000_0000;

/// `n / d` is `m * 2^s`, or lies strictly between it and `(m + 1) * 2^s` where
/// `inexact` says that a part was cut off.
pub open spec fn encloses(m: nat, s: int, inexact: bool, n: nat, d: nat) -> bool {
    let up = pow2(if s >= 0 { s as nat } else { 0 });
    let down = pow2(if s >= 0 { 0 } else { (-s) as nat });
    if inexact {
        m * (d * up) < n * down < (m + 1) * (d * up)
    } else {
        n * down == m * (d * up)
    }
}

pub proof fn lemma_pow2_zero()
    ensures
        pow2(0) == 1,
{
    vstd::arithmetic::power2::lemma2_to64();
}

pub proof fn lemma_pow2_ordered(a: nat, b: nat)
    requires
        a <= b,
    ensures
        pow2(a) <= pow2(b),
{
    if a < b {
        lemma_pow2_strictly_increases(a, b);
    }
}

/// 2^t.
pub(crate) fn two_to(t: u32) -> (p: u128)
    requires
        t <= 120,
    ensures
        p == pow2(t as nat),
{
    proof {
        lemma_pow2_zero();
    }
    let mut p: u128 = 1;
    let mut i: u32 = 0;
    while i < t
        invariant
            i <= t <= 120,
            p == pow2(i as nat),
        decreases t - i,
    {
        proof {
            lemma_pow2_unfold((i + 1) as nat);
            lemma_pow2_ordered(i as nat, 120);
            assert(pow2(120) == 0x100_0000_0000_0000_0000_0000_0000_0000) by {
                lemma_pow2_wide();
            }
        }
        p = p * 2;
        i = i + 1;
    }
    p
}

pub proof fn lemma_pow2_wide()
    ensures
        pow2(52) == BINADE,
        pow2(53) == SIGNIFICAND_BOUND,
        pow2(54) == 2 * SIGNIFICAND_BOUND,
        pow2(60) == 0x1000_0000_0000_0000,
        pow2(120) == WIDE,
{
    vstd::arithmetic::power2::lemma2_to64();
    vstd::arithmetic::power2::lemma2_to64_rest();
    lemma_pow2_adds(60, 60);
}

/// How many bits `m` has.
pub(crate) fn bit_length(m: u128) -> (len: u32)
    requires
        0 < m < WIDE,
    ensures
        0 < len <= 120,
        pow2((len - 1) as nat) <= m < pow2(len as nat),
{
    proof {
        lemma_pow2_zero();
        lemma_pow2_wide();
    }
    let mut p: u128 = 1;
    let mut len: u32 = 0;
    while p <= m
        invariant
            0 < m < WIDE,
            p == pow2(len as nat),
            len <= 120,
            len > 0 ==> pow2((len - 1) as nat) <= m,
            pow2(0) == 1,
            pow2(120) == WIDE,
        ensures
            p > m,
            p == pow2(len as nat),
            len <= 120,
            len > 0 ==> pow2((len - 1) as nat) <= m,
        decreases 120 - len,
    {
        proof {
            lemma_pow2_unfold((len + 1) as nat);
            if len == 120 {
                assert(false);
            }
        }
        p = p * 2;
        len = len + 1;
    }
    len
}

/// The digits of `nearest_even` when `n / d` is known only as far as `encloses`
/// says: `t` bits below the last kept one are enough to tell.
proof fn lemma_nearest_even_cut(
    x: nat,
    unit: nat,
    m: nat,
    p: nat,
    inexact: bool,
)
    requires
        unit > 0,
        p > 0,
        p == 1 || p % 2 == 0,
        inexact ==> p > 1,
        inexact ==> m * unit < x < (m + 1) * unit,
        !inexact ==> x == m * unit,
    ensures
        ({
            let q = m / p;
            let r = m % p;
            nearest_even(x, unit * p) == if 2 * r > p || (2 * r == p && (inexact || q % 2 == 1)) {
                q + 1
            } else {
                q
            }
        }),
{
    let q = m / p;
    let r = m % p;
    lemma_fundamental_div_mod(m as int, p as int);
    let rest = x - q * (unit * p);
    assert(m * unit == q * (unit * p) + r * unit) by (nonlinear_arith)
        requires
            m == p * q + r,
    ;
    assert((m + 1) * unit == m * unit + unit) by (nonlinear_arith);
    assert(r * unit <= rest < (r + 1) * unit) by (nonlinear_arith)
        requires
            r * unit <= rest,
            rest < r * unit + unit,
    ;
    assert((r + 1) * unit <= unit * p) by (nonlinear_arith)
        requires
            r + 1 <= p,
    ;
    assert(q * (unit * p) == (unit * p) * q) by (nonlinear_arith);
    lemma_fundamental_div_mod_converse(x as int, (unit * p) as int, q as int, rest);
    if 2 * r > p {
        assert(2 * rest > unit * p) by (nonlinear_arith)
            requires
                rest >= r * unit,
                2 * r >= p + 1,
                unit > 0,
        ;
    } else if 2 * r == p {
        assert(2 * (r * unit) == unit * p) by (nonlinear_arith)
            requires
                2 * r == p,
        ;
    } else {
        if p == 1 {
            assert(rest == 0);
        } else {
            assert(2 * r + 2 <= p);
            assert(2 * rest < unit * p) by (nonlinear_arith)
                requires
                    rest < (r + 1) * unit,
                    2 * r + 2 <= p,
                    unit > 0,
            ;
        }
    }
}

/// The magnitude that `n / d` rounds to, from its leading bits `m`, their
/// exponent `s` and whether anything was cut off below them.
pub(crate) fn pack(m: u128, s: i32, inexact: bool, Ghost(n): Ghost<nat>, Ghost(d): Ghost<nat>) -> (b: u64)
    requires
        d > 0,
        0 < m < WIDE,
        inexact ==> m >= 2 * SIGNIFICAND_BOUND,
        -4000 <= s <= 3900,
        encloses(m as nat, s as int, inexact, n, d),
    ensures
        b == round_to_magnitude(n, d),
        b <= INFINITE,
{
    let len = bit_length(m);
    let top: i32 = len as i32 + s;
    let k: i32 = if top > 53 { top - 53 } else { 0 };
    let ghost up_exp = if s >= 0 { s as nat } else { 0 };
    let ghost down_exp = if s >= 0 { 0 } else { (-s) as nat };
    let ghost up = pow2(up_exp);
    let ghost down = pow2(down_exp);
    let ghost unit = d * up;
    let ghost x = n * down;
    let ghost grid = d * pow2(k as nat);
    proof {
        lemma_pow2_zero();
        lemma_pow2_wide();
        lemma_pow2_pos(up_exp);
        lemma_pow2_pos(down_exp);
        lemma_pow2_pos(k as nat);
        assert(unit > 0 && grid > 0) by (nonlinear_arith)
            requires
                d > 0,
                up > 0,
                pow2(k as nat) > 0,
                unit == d * up,
                grid == d * pow2(k as nat),
        ;
        if inexact {
            if len <= 54 {
                lemma_pow2_ordered(len as nat, 54);
            }
            assert(len >= 55);
        }
        lemma_pack_binade(m as nat, s as int, inexact, n, d, len as nat, k as nat);
        lemma_nearest_even_scaled(n, grid, down);
    }
    let q: u128;
    if k >= s {
        let t: i32 = k - s;
        proof {
            // grid * down == unit * 2^t, as k + down_exp == t + up_exp
            lemma_pow2_adds(k as nat, down_exp);
            lemma_pow2_adds(t as nat, up_exp);
            lemma_pow2_pos(t as nat);
            let pt = pow2(t as nat);
            assert(grid * down == unit * pt) by (nonlinear_arith)
                requires
                    grid == d * pow2(k as nat),
                    unit == d * up,
                    pow2(k as nat) * down == pt * up,
            ;
            if t > 0 {
                lemma_pow2_unfold(t as nat);
            }
            lemma_nearest_even_cut(x, unit, m as nat, pt, inexact);
        }
        if t > 120 {
            proof {
                lemma_pow2_strictly_increases(120, t as nat);
                lemma_pow2_unfold(t as nat);
                lemma_pow2_ordered(120, (t - 1) as nat);
                vstd::arithmetic::div_mod::lemma_basic_div(m as int, pow2(t as nat) as int);
                vstd::arithmetic::div_mod::lemma_small_mod(m as nat, pow2(t as nat));
            }
            q = 0;
        } else {
            let p: u128 = two_to(t as u32);
            let floor: u128 = m / p;
            let rest: u128 = m % p;
            proof {
                assert(rest < p <= WIDE) by {
                    lemma_pow2_ordered(t as nat, 120);
                }
                vstd::arithmetic::div_mod::lemma_div_nonincreasing(m as int, p as int);
            }
            if 2 * rest > p || (2 * rest == p && (inexact || floor % 2 == 1)) {
                q = floor + 1;
            } else {
                q = floor;
            }
        }
    } else {
        let t: i32 = s - k;
        proof {
            assert(!inexact);
            assert(t <= 53 - len);
            assert(s >= 0 && down == 1);
            lemma_pow2_adds(t as nat, k as nat);
            lemma_pow2_adds(t as nat, len as nat);
            lemma_pow2_pos(t as nat);
            lemma_pow2_ordered((t + len) as nat, 53);
            let pt = pow2(t as nat);
            assert(m * pt <= pow2(len as nat) * pt) by (nonlinear_arith)
                requires
                    m <= pow2(len as nat),
            ;
            assert(n == (m * pt) * grid) by (nonlinear_arith)
                requires
                    n * down == m * unit,
                    down == 1,
                    unit == d * up,
                    up == pt * pow2(k as nat),
                    grid == d * pow2(k as nat),
            ;
            lemma_nearest_even_bounds(n, grid, (m * pt) as nat, (m * pt) as nat);
            assert(pow2(len as nat) * pt == pt * pow2(len as nat)) by (nonlinear_arith);
        }
        q = m * two_to(t as u32);
    }
    proof {
        assert(q == nearest_even(n, grid));
        let kp = pow2(k as nat);
        assert(n <= SIGNIFICAND_BOUND * grid) by (nonlinear_arith)
            requires
                n < d * (SIGNIFICAND_BOUND * kp),
                grid == d * kp,
        ;
        lemma_nearest_even_bounds(n, grid, 0, SIGNIFICAND_BOUND as nat);
    }
    let b: u64 = k as u64 * BINADE + q as u64;
    if b < INFINITE {
        b
    } else {
        INFINITE
    }
}

proof fn lemma_pack_binade(
    m: nat,
    s: int,
    inexact: bool,
    n: nat,
    d: nat,
    len: nat,
    k: nat,
)
    requires
        d > 0,
        0 < len,
        pow2((len - 1) as nat) <= m < pow2(len),
        encloses(m, s, inexact, n, d),
        k == if len + s > 53 { len + s - 53 } else { 0 },
    ensures
        binade(n, d) == k,
        n < d * (SIGNIFICAND_BOUND * pow2(k)),
{
    let up_exp = if s >= 0 { s as nat } else { 0 };
    let down_exp = if s >= 0 { 0 } else { (-s) as nat };
    let up = pow2(up_exp);
    let down = pow2(down_exp);
    lemma_pow2_zero();
    lemma_pow2_wide();
    lemma_pow2_pos(up_exp);
    lemma_pow2_pos(down_exp);
    lemma_pow2_pos(k);
    lemma_pow2_pos(len);
    let pl = pow2(len);
    let pk = pow2(k);
    // n * down < 2^len * d * up
    assert(n * down < pl * (d * up)) by (nonlinear_arith)
        requires
            n * down == m * (d * up) || n * down < (m + 1) * (d * up),
            m + 1 <= pl,
            d > 0,
            up > 0,
    ;
    // 2^len * up <= 2^53 * 2^k * down
    lemma_pow2_adds(len, up_exp);
    lemma_pow2_adds(53, k);
    lemma_pow2_adds(53 + k, down_exp);
    lemma_pow2_ordered(len + up_exp, 53 + k + down_exp);
    assert(n < d * (SIGNIFICAND_BOUND * pk)) by (nonlinear_arith)
        requires
            n * down < pl * (d * up),
            pl * up <= (SIGNIFICAND_BOUND * pk) * down,
            d > 0,
            down > 0,
    ;
    if k > 0 {
        let ph = pow2((len - 1) as nat);
        lemma_pow2_adds((len - 1) as nat, up_exp);
        lemma_pow2_adds(52, k);
        lemma_pow2_adds(52 + k, down_exp);
        assert(len - 1 + up_exp == 52 + k + down_exp);
        assert(n >= d * (BINADE * pk)) by (nonlinear_arith)
            requires
                n * down >= m * (d * up),
                m >= ph,
                ph * up == (BINADE * pk) * down,
                d > 0,
                down > 0,
                up > 0,
        ;
    }
    lemma_binade_unique(n, d, k);
}

/// How `encloses` follows from the integers that a computation holds: the
/// rational is `x * 2^e1 / (y * 2^e2)`, and `m` is `x / (y * 2^g)`, cut off
/// where `inexact` says so.
pub proof fn lemma_encloses(
    m: nat,
    inexact: bool,
    x: nat,
    y: nat,
    g: nat,
    e1: nat,
    e2: nat,
)
    requires
        inexact ==> m * (y * pow2(g)) < x < (m + 1) * (y * pow2(g)),
        !inexact ==> x == m * (y * pow2(g)),
    ensures
        encloses(m, g + e1 - e2, inexact, x * pow2(e1), y * pow2(e2)),
{
    let s = g + e1 - e2;
    lemma_pow2_zero();
    let n = x * pow2(e1);
    let d = y * pow2(e2);
    let step = y * pow2(g);
    // both sides of `encloses` are the sides above, times 2^w
    let w: nat = if s >= 0 { e1 } else { (e2 - g) as nat };
    let pw = pow2(w);
    lemma_pow2_pos(w);
    if s >= 0 {
        lemma_pow2_adds(e2, s as nat);
        lemma_pow2_adds(g, e1);
        assert(d * pow2(s as nat) == step * pw) by (nonlinear_arith)
            requires
                d == y * pow2(e2),
                step == y * pow2(g),
                pow2(e2) * pow2(s as nat) == pow2(g) * pw,
        ;
        assert(n * 1 == x * pw);
    } else {
        lemma_pow2_adds(e1, (-s) as nat);
        lemma_pow2_adds(g, w);
        assert(n * pow2((-s) as nat) == x * pw) by (nonlinear_arith)
            requires
                n == x * pow2(e1),
                pow2(e1) * pow2((-s) as nat) == pw,
        ;
        assert(d * 1 == step * pw) by (nonlinear_arith)
            requires
                d == y * pow2(e2),
                step == y * pow2(g),
                pow2(e2) == pow2(g) * pw,
        ;
    }
    let up = pow2(if s >= 0 { s as nat } else { 0 });
    let down = pow2(if s >= 0 { 0 } else { (-s) as nat });
    assert(d * up == step * pw);
    assert(n * down == x * pw);
    assert(m * (step * pw) == (m * step) * pw) by (nonlinear_arith);
    assert((m + 1) * (step * pw) == ((m + 1) * step) * pw) by (nonlinear_arith);
    if inexact {
        assert((m * step) * pw < x * pw < ((m + 1) * step) * pw) by (nonlinear_arith)
            requires
                m * step < x < (m + 1) * step,
                pw > 0,
        ;
    }
}

/// The integer part of the square root of `n`.
pub open spec fn floor_root(n: nat) -> nat {
    choose|r: nat| is_floor_root(r, n)
}

pub open spec fn is_floor_root(r: nat, n: nat) -> bool {
    r * r <= n < (r + 1) * (r + 1)
}

proof fn lemma_floor_root_unique(r: nat, n: nat)
    requires
        is_floor_root(r, n),
    ensures
        floor_root(n) == r,
{
    let q = floor_root(n);
    assert(is_floor_root(q, n));
    assert(q == r) by (nonlinear_arith)
        requires
            r * r <= n < (r + 1) * (r + 1),
            q * q <= n < (q + 1) * (q + 1),
    ;
}

/// The integer part of the square root, a bit at a time.
fn integer_root(w: u128) -> (r: u64)
    requires
        w < 0x1000_0000_0000_0000_0000_0000_0000,
    ensures
        r == floor_root(w as nat),
        r < 0x40_0000_0000_0000,
{
    let mut r: u64 = 0;
    let mut step: u64 = 0x40_0000_0000_0000;
    proof {
        lemma_pow2_wide();
        assert(step == pow2(54));
    }
    assert(w < step * step) by (nonlinear_arith)
        requires
            w < 0x1000_0000_0000_0000_0000_0000_0000,
            step == 0x40_0000_0000_0000,
    ;
    while step > 1
        invariant
            step <= 0x40_0000_0000_0000,
            step == 1 || step % 2 == 0,
            exists|i: nat| step == pow2(i),
            r + step <= 0x40_0000_0000_0000,
            r * r <= w < (r + step) * (r + step),
        decreases step,
    {
        proof {
            let i = choose|i: nat| step == pow2(i);
            lemma_pow2_zero();
            if i > 0 {
                lemma_pow2_unfold(i);
                if i > 1 {
                    lemma_pow2_unfold((i - 1) as nat);
                }
            }
        }
        step = step / 2;
        let next: u64 = r + step;
        assert(next * next < 0x1000_0000_0000_0000_0000_0000_0000) by (nonlinear_arith)
            requires
                next < 0x40_0000_0000_0000,
        ;
        if next as u128 * next as u128 <= w {
            r = next;
        }
    }
    proof {
        assert(step == 1) by {
            let i = choose|i: nat| step == pow2(i);
            lemma_pow2_pos(i);
        }
        lemma_floor_root_unique(r as nat, w as nat);
    }
    r
}

pub proof fn lemma_floor_root_exists(n: nat)
    ensures
        is_floor_root(floor_root(n), n),
    decreases n,
{
    if n == 0 {
        assert(n * n <= n < (n + 1) * (n + 1)) by (nonlinear_arith)
            requires
                n == 0,
        ;
        assert(is_floor_root(n, n));
    } else {
        let m = (n - 1) as nat;
        lemma_floor_root_exists(m);
        let r = floor_root(m);
        assert((r + 1) * (r + 1) < (r + 2) * (r + 2)) by (nonlinear_arith);
        assert(is_floor_root(r, n) || is_floor_root(r + 1, n));
    }
}

/// The magnitude nearest to the square root of `v`, in units. `v` is a count of
/// units times 2^1074, so that its root is a count of units.
pub open spec fn root_to_magnitude(v: nat) -> nat {
    let k = binade(floor_root(v), 1);
    (k * BINADE + (floor_root((4 * v) / pow2(2 * k)) + 1) / 2) as nat
}

/// The magnitude nearest to the square root of `m * 2^e`.
pub(crate) fn root(m: u64, e: u32) -> (b: u64)
    requires
        0 < m < SIGNIFICAND_BOUND,
        1074 <= e <= 3200,
    ensures
        b == root_to_magnitude(m as nat * pow2(e as nat)),
        0 < b < INFINITE,
{
    proof {
        lemma_pow2_wide();
        lemma_pow2_zero();
    }
    let len: u32 = bit_length(m as u128);
    proof {
        if len > 53 {
            lemma_pow2_ordered(53, (len - 1) as nat);
        }
    }
    let top: u32 = len + e;
    let k: u32 = (top - 105) / 2;
    let j: u32 = e + 2 - 2 * k;
    let p: u128 = two_to(j);
    let ghost v = m as nat * pow2(e as nat);
    let ghost lo = pow2((j + len - 1) as nat);
    let ghost hi = pow2((j + len) as nat);
    proof {
        assert(j + len == 107 || j + len == 108);
        lemma_pow2_pos(j as nat);
        assert(pow2(108) == 0x1000_0000_0000_0000_0000_0000_0000) by {
            vstd::arithmetic::power2::lemma2_to64();
            vstd::arithmetic::power2::lemma2_to64_rest();
            lemma_pow2_adds(54, 54);
        }
        lemma_pow2_adds((len - 1) as nat, j as nat);
        lemma_pow2_adds(len as nat, j as nat);
        lemma_pow2_ordered((j + len) as nat, 108);
        lemma_pow2_ordered(106, (j + len - 1) as nat);
        assert(lo <= m * p < hi) by (nonlinear_arith)
            requires
                pow2((len - 1) as nat) <= m < pow2(len as nat),
                lo == pow2((len - 1) as nat) * p,
                hi == pow2(len as nat) * p,
                p > 0,
        ;
    }
    let w: u128 = m as u128 * p;
    let r: u64 = integer_root(w);
    proof {
        let k2 = pow2((2 * k) as nat);
        // 4 v == w * 2^(2 k), and so v lies between the squares of the binade's ends
        lemma_pow2_adds(j as nat, (2 * k) as nat);
        lemma_pow2_adds(2, e as nat);
        lemma_pow2_pos((2 * k) as nat);
        assert(pow2(2) == 4) by {
            vstd::arithmetic::power2::lemma2_to64();
        }
        assert(4 * v == w * k2) by (nonlinear_arith)
            requires
                v == m * pow2(e as nat),
                w == m * p,
                p * k2 == 4 * pow2(e as nat),
        ;
        vstd::arithmetic::div_mod::lemma_div_multiples_vanish(w as int, k2 as int);
        assert(w * k2 == k2 * w) by (nonlinear_arith);
        let bottom = pow2((52 + k) as nat);
        let limit = pow2((53 + k) as nat);
        lemma_pow2_adds((52 + k) as nat, (52 + k) as nat);
        lemma_pow2_adds((53 + k) as nat, (53 + k) as nat);
        lemma_pow2_adds(106, (2 * k) as nat);
        lemma_pow2_adds(108, (2 * k) as nat);
        lemma_pow2_adds(2, (104 + 2 * k) as nat);
        lemma_pow2_adds(2, (106 + 2 * k) as nat);
        assert(bottom * bottom <= v) by (nonlinear_arith)
            requires
                4 * v == w * k2,
                pow2(106) <= w,
                pow2(106) * k2 == 4 * (bottom * bottom),
        ;
        assert(v < limit * limit) by (nonlinear_arith)
            requires
                4 * v == w * k2,
                w < pow2(108),
                k2 > 0,
                pow2(108) * k2 == 4 * (limit * limit),
        ;
        let q = floor_root(v);
        lemma_floor_root_exists(v);
        assert(q < limit) by (nonlinear_arith)
            requires
                q * q <= v,
                v < limit * limit,
        ;
        assert(bottom <= q) by (nonlinear_arith)
            requires
                bottom * bottom <= v,
                v < (q + 1) * (q + 1),
        ;
        lemma_pow2_adds(52, k as nat);
        lemma_pow2_adds(53, k as nat);
        lemma_binade_unique(q, 1, k as nat);
    }
    k as u64 * BINADE + (r + 1) / 2
}

} // verus!
