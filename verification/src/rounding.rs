//! Rounding of exact ratios to the patterns of a binary floating-point format.
//!
//! A format of precision `p` counts in multiples of its smallest positive number, the
//! *quantum*. Seen so, every finite magnitude is a natural number of quanta, and the
//! pattern that stands for it is itself a natural number: the exponent field above, the
//! fraction below. Patterns grow with the magnitudes they stand for.

use vstd::arithmetic::power2::*;
use vstd::arithmetic::div_mod::*;
use vstd::arithmetic::mul::*;
use vstd::prelude::*;

verus! {

/// The integer nearest to `num / den`; halfway between two integers, the even one.
pub open spec fn nearest_even(num: nat, den: nat) -> nat {
    let q = num / den;
    let r = num % den;
    if 2 * r < den || (2 * r == den && q % 2 == 0) {
        q
    } else {
        q + 1
    }
}

/// How many times the quantum has to double until `num / den` is less than `2^p` of it.
pub open spec fn binade(p: nat, num: nat, den: nat) -> nat
    decreases num - den,
{
    if p == 0 || den == 0 || num < den * pow2(p) {
        0
    } else {
        proof {
            lemma_pow2_unfold(p);
            lemma_pow2_pos((p - 1) as nat);
            assert(den * pow2(p) >= 2 * den) by (nonlinear_arith)
                requires pow2(p) == 2 * pow2((p - 1) as nat), pow2((p - 1) as nat) >= 1;
        }
        1 + binade(p, num, 2 * den)
    }
}

/// The pattern of the number of precision `p` that is nearest to `num / den` quanta, ties
/// going to the even pattern, where the exponent has no upper bound.
pub open spec fn round_ratio(p: nat, num: nat, den: nat) -> nat {
    let e = binade(p, num, den);
    e * pow2((p - 1) as nat) + nearest_even(num, den * pow2(e))
}

/// The quanta that a pattern stands for.
pub open spec fn quanta(p: nat, pattern: nat) -> nat {
    let h = pow2((p - 1) as nat);
    let field = pattern / h;
    let fraction = pattern % h;
    if field == 0 {
        fraction
    } else {
        (h + fraction) * pow2((field - 1) as nat)
    }
}

/// `nearest_even` is a function of the ratio.
pub proof fn lemma_nearest_even_ratio(n1: nat, d1: nat, n2: nat, d2: nat)
    requires
        d1 > 0,
        d2 > 0,
        n1 * d2 == n2 * d1,
    ensures
        nearest_even(n1, d1) == nearest_even(n2, d2),
{
    let q = n1 / d1;
    let r = n1 % d1;
    lemma_fundamental_div_mod(n1 as int, d1 as int);
    lemma_mod_pos_bound(n1 as int, d1 as int);
    let r2 = n2 - q * d2;
    assert(r2 * d1 == r * d2) by (nonlinear_arith)
        requires
            n1 * d2 == n2 * d1,
            n1 == d1 * q + r,
            r2 == n2 - q * d2,
    ;
    assert(0 <= r2 < d2) by (nonlinear_arith)
        requires
            r2 * d1 == r * d2,
            0 <= r < d1,
            d1 > 0,
            d2 > 0,
    ;
    assert(n2 == q * d2 + r2);
    lemma_fundamental_div_mod_converse(n2 as int, d2 as int, q as int, r2);
    assert((2 * r < d1) == (2 * r2 < d2)) by (nonlinear_arith)
        requires
            r2 * d1 == r * d2,
            d1 > 0,
            d2 > 0,
    ;
    assert((2 * r == d1) == (2 * r2 == d2)) by (nonlinear_arith)
        requires
            r2 * d1 == r * d2,
            d1 > 0,
            d2 > 0,
    ;
}

/// What `binade` returns is the only exponent that leaves `num / den` less than `2^p`
/// steps, and at least half as many unless the exponent is zero.
pub open spec fn is_binade(p: nat, num: nat, den: nat, e: nat) -> bool {
    &&& num < den * pow2(e) * pow2(p)
    &&& e > 0 ==> num >= den * pow2(e) * pow2((p - 1) as nat)
}

pub proof fn lemma_binade(p: nat, num: nat, den: nat)
    requires
        p >= 1,
        den > 0,
    ensures
        is_binade(p, num, den, binade(p, num, den)),
    decreases num - den,
{
    lemma_pow2(0);
    reveal(vstd::arithmetic::power::pow);
    if num < den * pow2(p) {
        assert(den * pow2(0) == den) by (nonlinear_arith)
            requires
                pow2(0) == 1,
        ;
    } else {
        lemma_pow2_unfold(p);
        lemma_pow2_pos((p - 1) as nat);
        assert(den * pow2(p) >= 2 * den) by (nonlinear_arith)
            requires
                pow2(p) == 2 * pow2((p - 1) as nat),
                pow2((p - 1) as nat) >= 1,
        ;
        lemma_binade(p, num, 2 * den);
        let e1 = binade(p, num, 2 * den);
        let e = e1 + 1;
        lemma_pow2_unfold(e);
        assert(den * pow2(e) == (2 * den) * pow2(e1)) by (nonlinear_arith)
            requires
                pow2(e) == 2 * pow2(e1),
        ;
        if e1 == 0 {
            assert(den * pow2(e) * pow2((p - 1) as nat) == den * pow2(p)) by (nonlinear_arith)
                requires
                    pow2(e) == 2 * pow2(e1),
                    pow2(e1) == 1,
                    pow2(p) == 2 * pow2((p - 1) as nat),
            ;
        }
    }
}

pub proof fn lemma_binade_unique(p: nat, num: nat, den: nat, e: nat)
    requires
        p >= 1,
        den > 0,
        is_binade(p, num, den, e),
    ensures
        binade(p, num, den) == e,
{
    lemma_binade(p, num, den);
    let b = binade(p, num, den);
    if b < e {
        lemma_binade_gap(p, num, den, b, e);
    } else if e < b {
        lemma_binade_gap(p, num, den, e, b);
    }
}

proof fn lemma_binade_gap(p: nat, num: nat, den: nat, low: nat, high: nat)
    requires
        p >= 1,
        den > 0,
        low < high,
        num < den * pow2(low) * pow2(p),
    ensures
        num < den * pow2(high) * pow2((p - 1) as nat),
{
    let d = (high - low - 1) as nat;
    lemma_pow2_adds(low, d);
    lemma_pow2_unfold(high);
    lemma_pow2_unfold(p);
    lemma_pow2_pos(d);
    lemma_pow2_pos(low);
    lemma_pow2_pos((p - 1) as nat);
    let a = den * pow2(low);
    let h = pow2((p - 1) as nat);
    assert(low + d == high - 1);
    assert(den * pow2(high) == 2 * (a * pow2(d))) by (nonlinear_arith)
        requires
            pow2(high) == 2 * (pow2(low) * pow2(d)),
            a == den * pow2(low),
    ;
    assert(den * pow2(high) * h >= a * pow2(p)) by (nonlinear_arith)
        requires
            den * pow2(high) == 2 * (a * pow2(d)),
            pow2(d) >= 1,
            pow2(p) == 2 * h,
            h >= 1,
            a >= 0,
    ;
}

/// `round_ratio` is a function of the ratio.
pub proof fn lemma_round_ratio_ratio(p: nat, n1: nat, d1: nat, n2: nat, d2: nat)
    requires
        p >= 1,
        d1 > 0,
        d2 > 0,
        n1 * d2 == n2 * d1,
    ensures
        round_ratio(p, n1, d1) == round_ratio(p, n2, d2),
{
    let e = binade(p, n1, d1);
    lemma_binade(p, n1, d1);
    lemma_pow2_pos(e);
    lemma_pow2_pos(p);
    lemma_pow2_pos((p - 1) as nat);
    let a = pow2(e);
    assert(n2 < d2 * a * pow2(p)) by (nonlinear_arith)
        requires
            n1 < d1 * a * pow2(p),
            n1 * d2 == n2 * d1,
            d1 > 0,
            d2 > 0,
    ;
    if e > 0 {
        let h = pow2((p - 1) as nat);
        assert(n2 >= d2 * a * h) by (nonlinear_arith)
            requires
                n1 >= d1 * a * h,
                n1 * d2 == n2 * d1,
                d1 > 0,
                d2 > 0,
        ;
    }
    lemma_binade_unique(p, n2, d2, e);
    assert(d1 * a > 0 && d2 * a > 0 && n1 * (d2 * a) == n2 * (d1 * a)) by (nonlinear_arith)
        requires
            n1 * d2 == n2 * d1,
            d1 > 0,
            d2 > 0,
            a > 0,
    ;
    lemma_nearest_even_ratio(n1, d1 * a, n2, d2 * a);
}

/// `nearest_even` keeps the order of the ratios.
pub proof fn lemma_nearest_even_monotone(n1: nat, d1: nat, n2: nat, d2: nat)
    requires
        d1 > 0,
        d2 > 0,
        n1 * d2 <= n2 * d1,
    ensures
        nearest_even(n1, d1) <= nearest_even(n2, d2),
{
    let q1 = n1 / d1;
    let r1 = n1 % d1;
    let q2 = n2 / d2;
    let r2 = n2 % d2;
    lemma_fundamental_div_mod(n1 as int, d1 as int);
    lemma_mod_pos_bound(n1 as int, d1 as int);
    lemma_fundamental_div_mod(n2 as int, d2 as int);
    lemma_mod_pos_bound(n2 as int, d2 as int);
    assert(q1 <= q2) by (nonlinear_arith)
        requires
            n1 == d1 * q1 + r1,
            n2 == d2 * q2 + r2,
            0 <= r1,
            r2 < d2,
            n1 * d2 <= n2 * d1,
            d1 > 0,
            d2 > 0,
    ;
    if q1 == q2 {
        assert(r1 * d2 <= r2 * d1) by (nonlinear_arith)
            requires
                n1 == d1 * q1 + r1,
                n2 == d2 * q2 + r2,
                q1 == q2,
                n1 * d2 <= n2 * d1,
        ;
        if 2 * r1 >= d1 {
            assert(2 * r2 >= d2) by (nonlinear_arith)
                requires
                    2 * r1 >= d1,
                    r1 * d2 <= r2 * d1,
                    d1 > 0,
                    d2 > 0,
            ;
        }
        if 2 * r1 > d1 {
            assert(2 * r2 > d2) by (nonlinear_arith)
                requires
                    2 * r1 > d1,
                    r1 * d2 <= r2 * d1,
                    d1 > 0,
                    d2 > 0,
            ;
        }
    }
}

/// Where the pattern of a rounded ratio lies, by its binade.
pub proof fn lemma_round_ratio_bounds(p: nat, num: nat, den: nat)
    requires
        p >= 1,
        den > 0,
    ensures
        ({
            let e = binade(p, num, den);
            let h = pow2((p - 1) as nat);
            &&& round_ratio(p, num, den) <= e * h + 2 * h
            &&& e > 0 ==> round_ratio(p, num, den) >= e * h + h
        }),
{
    let e = binade(p, num, den);
    let h = pow2((p - 1) as nat);
    let cap = den * pow2(e);
    lemma_binade(p, num, den);
    lemma_pow2_pos(e);
    lemma_pow2_unfold(p);
    assert(cap > 0) by (nonlinear_arith)
        requires
            cap == den * pow2(e),
            den > 0,
            pow2(e) > 0,
    ;
    assert(num * 1 <= (2 * h) * cap) by (nonlinear_arith)
        requires
            num < cap * pow2(p),
            pow2(p) == 2 * h,
    ;
    lemma_nearest_even_monotone(num, cap, 2 * h, 1);
    if e > 0 {
        assert(h * cap <= num * 1) by (nonlinear_arith)
            requires
                num >= cap * h,
        ;
        lemma_nearest_even_monotone(h, 1, num, cap);
    }
}

/// `round_ratio` keeps the order of the ratios.
pub proof fn lemma_round_ratio_monotone(p: nat, n1: nat, d1: nat, n2: nat, d2: nat)
    requires
        p >= 1,
        d1 > 0,
        d2 > 0,
        n1 * d2 <= n2 * d1,
    ensures
        round_ratio(p, n1, d1) <= round_ratio(p, n2, d2),
{
    let e1 = binade(p, n1, d1);
    let e2 = binade(p, n2, d2);
    let h = pow2((p - 1) as nat);
    lemma_binade(p, n1, d1);
    lemma_binade(p, n2, d2);
    lemma_pow2_pos(e1);
    lemma_pow2_pos(e2);
    lemma_pow2_unfold(p);
    if e1 == e2 {
        let a = pow2(e1);
        assert(d1 * a > 0 && d2 * a > 0 && n1 * (d2 * a) <= n2 * (d1 * a)) by (nonlinear_arith)
            requires
                n1 * d2 <= n2 * d1,
                d1 > 0,
                d2 > 0,
                a > 0,
        ;
        lemma_nearest_even_monotone(n1, d1 * a, n2, d2 * a);
    } else if e1 < e2 {
        lemma_round_ratio_bounds(p, n1, d1);
        lemma_round_ratio_bounds(p, n2, d2);
        assert(e1 * h + 2 * h <= e2 * h + h) by (nonlinear_arith)
            requires
                e1 + 1 <= e2,
                h >= 0,
        ;
    } else {
        lemma_binade_gap(p, n2, d2, e2, e1);
        let a = pow2(e1);
        assert(false) by (nonlinear_arith)
            requires
                n2 < d2 * a * h,
                n1 >= d1 * a * h,
                n1 * d2 <= n2 * d1,
                d1 > 0,
                d2 > 0,
        ;
    }
}

/// What is less than `2^(p + k)` quanta has a pattern with an exponent field of at most
/// `k + 2`.
pub proof fn lemma_round_ratio_limit(p: nat, num: nat, den: nat, k: nat)
    requires
        p >= 1,
        den > 0,
        num < den * pow2(p + k),
    ensures
        round_ratio(p, num, den) <= (k + 2) * pow2((p - 1) as nat),
{
    let e = binade(p, num, den);
    let h = pow2((p - 1) as nat);
    lemma_binade(p, num, den);
    lemma_round_ratio_bounds(p, num, den);
    lemma_pow2_pos((p - 1) as nat);
    if e > k {
        lemma_pow2_adds(e, (p - 1) as nat);
        lemma_pow2_le(p + k, e + (p - 1) as nat);
        assert(false) by (nonlinear_arith)
            requires
                num < den * pow2(p + k),
                num >= den * pow2(e) * h,
                pow2(p + k) <= pow2(e) * h,
                den > 0,
        ;
    }
    assert(e * h + 2 * h <= (k + 2) * h) by (nonlinear_arith)
        requires
            e <= k,
            h >= 0,
    ;
}

/// The quanta of a rounded ratio.
pub proof fn lemma_quanta_of_rounded(p: nat, num: nat, den: nat)
    requires
        p >= 2,
        den > 0,
    ensures
        ({
            let e = binade(p, num, den);
            quanta(p, round_ratio(p, num, den)) == nearest_even(num, den * pow2(e)) * pow2(e)
        }),
{
    let e = binade(p, num, den);
    let h = pow2((p - 1) as nat);
    let n = nearest_even(num, den * pow2(e));
    let pattern = round_ratio(p, num, den);
    lemma_round_ratio_bounds(p, num, den);
    lemma_pow2_pos((p - 1) as nat);
    lemma_pow2(0);
    reveal(vstd::arithmetic::power::pow);
    assert(pattern == e * h + n);
    if n < h {
        assert(e == 0);
        assert(e * h == 0) by (nonlinear_arith)
            requires
                e == 0,
        ;
        lemma_small_mod(n, h);
        lemma_basic_div(n as int, h as int);
        assert(n * pow2(0) == n) by (nonlinear_arith)
            requires
                pow2(0) == 1,
        ;
    } else if n < 2 * h {
        assert(pattern == (e + 1) * h + (n - h)) by (nonlinear_arith)
            requires
                pattern == e * h + n,
        ;
        lemma_fundamental_div_mod_converse(pattern as int, h as int, (e + 1) as int, n - h);
    } else {
        assert(n == 2 * h);
        assert(pattern == (e + 2) * h) by (nonlinear_arith)
            requires
                pattern == e * h + 2 * h,
        ;
        lemma_fundamental_div_mod_converse(pattern as int, h as int, (e + 2) as int, 0);
        lemma_pow2_unfold(e + 1);
        assert((h + 0) * pow2(e + 1) == n * pow2(e)) by (nonlinear_arith)
            requires
                pow2(e + 1) == 2 * pow2(e),
                n == 2 * h,
        ;
    }
}

/// What has no more than `p` significant bits is not changed by rounding.
pub proof fn lemma_round_exact(p: nat, m: nat, k: nat)
    requires
        p >= 2,
        m < pow2(p),
    ensures
        quanta(p, round_ratio(p, m * pow2(k), 1)) == m * pow2(k),
{
    let num = m * pow2(k);
    let e = binade(p, num, 1);
    let h = pow2((p - 1) as nat);
    lemma_binade(p, num, 1);
    lemma_quanta_of_rounded(p, num, 1);
    lemma_pow2_pos(e);
    lemma_pow2_pos(k);
    lemma_pow2_unfold(p);
    if e > k {
        lemma_pow2_unfold(e);
        lemma_pow2_le(k, (e - 1) as nat);
        assert(false) by (nonlinear_arith)
            requires
                num >= 1 * pow2(e) * h,
                num == m * pow2(k),
                m < 2 * h,
                pow2(e) == 2 * pow2((e - 1) as nat),
                pow2(k) <= pow2((e - 1) as nat),
                pow2(k) > 0,
        ;
    }
    let s = (k - e) as nat;
    lemma_pow2_adds(s, e);
    let n = m * pow2(s);
    let cap = 1 * pow2(e);
    assert(num == n * cap) by (nonlinear_arith)
        requires
            num == m * pow2(k),
            pow2(k) == pow2(s) * pow2(e),
            n == m * pow2(s),
            cap == 1 * pow2(e),
    ;
    lemma_div_by_multiple(n as int, cap as int);
    lemma_mod_multiples_basic(n as int, cap as int);
}

/// The pattern of a number is what the number rounds to.
pub proof fn lemma_round_of_quanta(p: nat, pattern: nat)
    requires
        p >= 2,
    ensures
        round_ratio(p, quanta(p, pattern), 1) == pattern,
{
    let h = pow2((p - 1) as nat);
    lemma_pow2_pos((p - 1) as nat);
    lemma_pow2_unfold(p);
    lemma_pow2(0);
    reveal(vstd::arithmetic::power::pow);
    let field = pattern / h;
    let fraction = pattern % h;
    lemma_fundamental_div_mod(pattern as int, h as int);
    lemma_mod_pos_bound(pattern as int, h as int);
    let e: nat = if field == 0 { 0 } else { (field - 1) as nat };
    let m: nat = if field == 0 { fraction } else { h + fraction };
    let num = quanta(p, pattern);
    lemma_pow2_pos(e);
    assert(num == m * pow2(e)) by (nonlinear_arith)
        requires
            field == 0 ==> num == fraction && m == fraction && pow2(e) == 1,
            field > 0 ==> num == (h + fraction) * pow2(e) && m == h + fraction,
    ;
    assert(pattern == e * h + m) by (nonlinear_arith)
        requires
            pattern == h * field + fraction,
            field == 0 ==> e == 0 && m == fraction,
            field > 0 ==> e == field - 1 && m == h + fraction,
    ;
    assert(num < 1 * pow2(e) * pow2(p)) by (nonlinear_arith)
        requires
            num == m * pow2(e),
            m < 2 * h,
            pow2(p) == 2 * h,
            pow2(e) > 0,
    ;
    if e > 0 {
        assert(num >= 1 * pow2(e) * h) by (nonlinear_arith)
            requires
                num == m * pow2(e),
                m >= h,
                pow2(e) > 0,
        ;
    }
    lemma_binade_unique(p, num, 1, e);
    let cap = 1 * pow2(e);
    lemma_div_by_multiple(m as int, cap as int);
    lemma_mod_multiples_basic(m as int, cap as int);
}

/// In the normal range, a rounded ratio is off by at most one part in `2^p`.
pub proof fn lemma_round_error(p: nat, num: nat, den: nat)
    requires
        p >= 2,
        den > 0,
        num >= den * pow2((p - 1) as nat),
    ensures
        ({
            let q = quanta(p, round_ratio(p, num, den));
            &&& (q * den) * pow2(p) <= num * (pow2(p) + 1)
            &&& (q * den) * pow2(p) >= num * (pow2(p) - 1)
        }),
{
    let e = binade(p, num, den);
    let h = pow2((p - 1) as nat);
    let w = pow2(e);
    let cap = den * w;
    let n = nearest_even(num, cap);
    lemma_binade(p, num, den);
    lemma_quanta_of_rounded(p, num, den);
    lemma_pow2_pos(e);
    lemma_pow2_unfold(p);
    lemma_pow2_pos((p - 1) as nat);
    lemma_pow2(0);
    reveal(vstd::arithmetic::power::pow);
    assert(cap > 0) by (nonlinear_arith)
        requires
            cap == den * w,
            den > 0,
            w > 0,
    ;
    assert(num >= cap * h) by {
        if e == 0 {
            assert(cap == den) by (nonlinear_arith)
                requires
                    cap == den * w,
                    w == 1,
            ;
        }
    }
    lemma_fundamental_div_mod(num as int, cap as int);
    lemma_mod_pos_bound(num as int, cap as int);
    // Off by at most half a step.
    assert(2 * (n * cap) <= 2 * num + cap && 2 * (n * cap) + cap >= 2 * num) by (nonlinear_arith)
        requires
            num == cap * (num / cap) + num % cap,
            0 <= num % cap < cap,
            n == num / cap || n == num / cap + 1,
            n == num / cap ==> 2 * (num % cap) <= cap,
            n == num / cap + 1 ==> 2 * (num % cap) >= cap,
    ;
    let q = n * w;
    assert(q * den == n * cap) by (nonlinear_arith)
        requires
            q == n * w,
            cap == den * w,
    ;
    assert((q * den) * pow2(p) <= num * (pow2(p) + 1) && (q * den) * pow2(p) >= num * (pow2(p) - 1))
        by (nonlinear_arith)
        requires
            q * den == n * cap,
            2 * (n * cap) <= 2 * num + cap,
            2 * (n * cap) + cap >= 2 * num,
            num >= cap * h,
            pow2(p) == 2 * h,
            h > 0,
    ;
}

/// How far two integers are apart.
pub open spec fn distance(a: int, b: int) -> int {
    if a < b {
        b - a
    } else {
        a - b
    }
}

/// No integer is nearer to a ratio than the nearest one.
proof fn lemma_nearest_even(num: nat, den: nat, k: nat)
    requires
        den > 0,
    ensures
        distance((nearest_even(num, den) * den) as int, num as int) <= distance(
            (k * den) as int,
            num as int,
        ),
        2 * distance((nearest_even(num, den) * den) as int, num as int) <= den,
{
    let q = num / den;
    let r = num % den;
    let n = nearest_even(num, den);
    lemma_fundamental_div_mod(num as int, den as int);
    lemma_mod_pos_bound(num as int, den as int);
    assert((q + 1) * den == q * den + den) by (nonlinear_arith);
    assert(den * q == q * den) by (nonlinear_arith);
    if k <= q {
        assert(k * den <= q * den) by (nonlinear_arith)
            requires
                k <= q,
        ;
    } else {
        assert(k * den >= (q + 1) * den) by (nonlinear_arith)
            requires
                k >= q + 1,
        ;
    }
}

/// No number of the precision is nearer to a ratio than the one that it rounds to.
pub proof fn lemma_round_nearest(p: nat, num: nat, den: nat, y: nat)
    requires
        p >= 2,
        den > 0,
    ensures
        distance((quanta(p, round_ratio(p, num, den)) * den) as int, num as int) <= distance(
            (quanta(p, y) * den) as int,
            num as int,
        ),
{
    let e = binade(p, num, den);
    let h = pow2((p - 1) as nat);
    let w = pow2(e);
    let cap = den * w;
    let n = nearest_even(num, cap);
    lemma_binade(p, num, den);
    lemma_quanta_of_rounded(p, num, den);
    lemma_pow2_pos(e);
    lemma_pow2_pos((p - 1) as nat);
    lemma_pow2_unfold(p);
    assert(cap > 0) by (nonlinear_arith)
        requires
            cap == den * w,
            den > 0,
            w > 0,
    ;
    assert((n * w) * den == n * cap) by (nonlinear_arith)
        requires
            cap == den * w,
    ;
    // The number to compare with, as a significand and an exponent.
    let field = y / h;
    let fraction = y % h;
    lemma_fundamental_div_mod(y as int, h as int);
    lemma_mod_pos_bound(y as int, h as int);
    lemma_pow2(0);
    reveal(vstd::arithmetic::power::pow);
    let ey: nat = if field == 0 {
        0
    } else {
        (field - 1) as nat
    };
    let m: nat = if field == 0 {
        fraction
    } else {
        h + fraction
    };
    assert(quanta(p, y) == m * pow2(ey)) by (nonlinear_arith)
        requires
            field == 0 ==> quanta(p, y) == fraction && m == fraction && pow2(ey) == 1,
            field > 0 ==> quanta(p, y) == (h + fraction) * pow2(ey) && m == h + fraction,
    ;
    if ey >= e {
        let k = m * pow2((ey - e) as nat);
        lemma_pow2_adds((ey - e) as nat, e);
        assert(quanta(p, y) * den == k * cap) by (nonlinear_arith)
            requires
                quanta(p, y) == m * pow2(ey),
                pow2(ey) == pow2((ey - e) as nat) * w,
                k == m * pow2((ey - e) as nat),
                cap == den * w,
        ;
        lemma_nearest_even(num, cap, k);
    } else {
        lemma_pow2_unfold(e);
        lemma_pow2_le(ey, (e - 1) as nat);
        assert(quanta(p, y) * den <= h * cap) by (nonlinear_arith)
            requires
                quanta(p, y) == m * pow2(ey),
                m < 2 * h,
                pow2(ey) <= pow2((e - 1) as nat),
                w == 2 * pow2((e - 1) as nat),
                cap == den * w,
                pow2(ey) > 0,
        {
            assert(m * pow2(ey) <= (2 * h) * pow2((e - 1) as nat));
            assert((2 * h) * pow2((e - 1) as nat) == h * w);
            assert((m * pow2(ey)) * den <= (h * w) * den);
            assert((h * w) * den == h * (den * w));
        }
        assert(h * cap <= num) by (nonlinear_arith)
            requires
                num >= den * w * h,
                cap == den * w,
        ;
        lemma_nearest_even(num, cap, h);
    }
}

/// A rounded ratio is off by at most one part in `2^p`, or by half a quantum where it is
/// tiny. A whole number of quanta is off by no more than one part in `2^p`, however small.
pub proof fn lemma_round_near(p: nat, num: nat, den: nat)
    requires
        p >= 2,
        den > 0,
    ensures
        ({
            let d = distance((quanta(p, round_ratio(p, num, den)) * den) as int, num as int);
            &&& d * pow2(p) <= num + den * pow2((p - 1) as nat)
            &&& num >= den * pow2((p - 1) as nat) ==> d * pow2(p) <= num
            &&& den == 1 ==> d * pow2(p) <= num
        }),
{
    let h = pow2((p - 1) as nat);
    let q = quanta(p, round_ratio(p, num, den));
    let d = distance((q * den) as int, num as int);
    lemma_pow2_unfold(p);
    lemma_pow2_pos((p - 1) as nat);
    if num >= den * h {
        lemma_round_error(p, num, den);
        assert(d * pow2(p) <= num) by (nonlinear_arith)
            requires
                (q * den) * pow2(p) <= num * (pow2(p) + 1),
                (q * den) * pow2(p) >= num * (pow2(p) - 1),
                d == q * den - num || d == num - q * den,
        ;
        assert(den * h >= 0) by (nonlinear_arith)
            requires
                den > 0,
                h > 0,
        ;
    } else {
        lemma_pow2(0);
        reveal(vstd::arithmetic::power::pow);
        assert(num < den * pow2(0) * pow2(p)) by (nonlinear_arith)
            requires
                num < den * h,
                pow2(p) == 2 * h,
                pow2(0) == 1,
                h > 0,
                den > 0,
        ;
        lemma_binade_unique(p, num, den, 0);
        lemma_quanta_of_rounded(p, num, den);
        assert(den * pow2(0) == den) by (nonlinear_arith)
            requires
                pow2(0) == 1,
        ;
        lemma_nearest_even(num, den, num);
        let n = nearest_even(num, den);
        assert(n * pow2(0) == n) by (nonlinear_arith)
            requires
                pow2(0) == 1,
        ;
        assert(d * pow2(p) <= den * h) by (nonlinear_arith)
            requires
                2 * d <= den,
                pow2(p) == 2 * h,
                h > 0,
        ;
        if den == 1 {
            assert(num * 1 == num);
            assert(d == 0);
            assert(d * pow2(p) == 0) by (nonlinear_arith)
                requires
                    d == 0,
            ;
        }
    }
}

/// A quotient that is known only up to the unit `u` still rounds correctly, as long as a
/// bit below the rounding position is known: what lies strictly between `m` and `m + 1`
/// units rounds as `m` and a half units do.
pub proof fn lemma_round_sticky(p: nat, num: nat, den: nat, u: nat, m: nat, r: nat, x: nat, y: nat)
    requires
        p >= 1,
        den > 0,
        u > 0,
        num == m * u + r,
        0 < r < u,
        den * pow2(x) == u * pow2(y),
        m >= pow2(p),
    ensures
        round_ratio(p, num, den) == round_ratio(p, (2 * m + 1) * pow2(x), 2 * pow2(y)),
{
    let e = binade(p, num, den);
    lemma_binade(p, num, den);
    lemma_pow2_pos(e);
    lemma_pow2_pos(x);
    lemma_pow2_pos(y);
    lemma_pow2_pos(p);
    let cap = den * pow2(e);
    assert(cap > u) by (nonlinear_arith)
        requires
            num < cap * pow2(p),
            num == m * u + r,
            m >= pow2(p),
            r > 0,
            u > 0,
            pow2(p) > 0,
    ;
    assert(y + e > x) by {
        lemma_pow2_adds(y, e);
        assert(cap * pow2(x) == u * pow2(y + e)) by (nonlinear_arith)
            requires
                cap == den * pow2(e),
                den * pow2(x) == u * pow2(y),
                pow2(y + e) == pow2(y) * pow2(e),
        ;
        if y + e <= x {
            if y + e < x {
                lemma_pow2_strictly_increases(y + e, x);
            }
            assert(false) by (nonlinear_arith)
                requires
                    cap * pow2(x) == u * pow2(y + e),
                    pow2(y + e) <= pow2(x),
                    cap > u,
                    pow2(x) > 0,
            ;
        }
    }
    let j = (y + e - x) as nat;
    let big = pow2(j);
    assert(cap == u * big) by {
        lemma_pow2_adds(y, e);
        lemma_pow2_adds(x, j);
        assert(x + j == y + e);
        assert(pow2(x) * cap == pow2(x) * (u * big)) by (nonlinear_arith)
            requires
                cap == den * pow2(e),
                den * pow2(x) == u * pow2(y),
                pow2(y) * pow2(e) == pow2(x) * big,
        ;
        lemma_mul_equality_converse(pow2(x) as int, cap as int, (u * big) as int);
    }
    let half = pow2((j - 1) as nat);
    lemma_pow2_unfold(j);
    lemma_pow2_pos((j - 1) as nat);
    let n2 = (2 * m + 1) * u;
    let d2 = 2 * den;
    // Both ratios lie in the same binade.
    let k = big * pow2(p);
    let h = pow2((p - 1) as nat);
    lemma_pow2_pos((p - 1) as nat);
    assert(m < k) by (nonlinear_arith)
        requires
            num < u * big * pow2(p),
            num == m * u + r,
            r > 0,
            u > 0,
            k == big * pow2(p),
    ;
    assert(d2 * pow2(e) == 2 * (u * big)) by (nonlinear_arith)
        requires
            d2 == 2 * den,
            cap == den * pow2(e),
            cap == u * big,
    ;
    assert(n2 < d2 * pow2(e) * pow2(p)) by (nonlinear_arith)
        requires
            d2 * pow2(e) == 2 * (u * big),
            k == big * pow2(p),
            m < k,
            n2 == (2 * m + 1) * u,
            u > 0,
    ;
    if e > 0 {
        assert(m >= big * h) by (nonlinear_arith)
            requires
                num >= u * big * h,
                num == m * u + r,
                r < u,
                u > 0,
        ;
        assert(n2 >= d2 * pow2(e) * h) by (nonlinear_arith)
            requires
                d2 * pow2(e) == 2 * (u * big),
                m >= big * h,
                n2 == (2 * m + 1) * u,
                u > 0,
        ;
    }
    lemma_binade_unique(p, n2, d2, e);
    // And both round to the same integer.
    let q = m / big;
    let low = m % big;
    lemma_fundamental_div_mod(m as int, big as int);
    lemma_mod_pos_bound(m as int, big as int);
    let rem1 = low * u + r;
    let rem2 = (2 * low + 1) * u;
    assert(num == cap * q + rem1 && rem1 < cap) by (nonlinear_arith)
        requires
            num == m * u + r,
            m == big * q + low,
            cap == u * big,
            rem1 == low * u + r,
            r < u,
            low < big,
    ;
    lemma_fundamental_div_mod_converse(num as int, cap as int, q as int, rem1 as int);
    let cap2 = d2 * pow2(e);
    assert(n2 == cap2 * q + rem2 && rem2 < cap2) by (nonlinear_arith)
        requires
            n2 == (2 * m + 1) * u,
            m == big * q + low,
            cap2 == 2 * (u * big),
            rem2 == (2 * low + 1) * u,
            low < big,
            u > 0,
    ;
    lemma_fundamental_div_mod_converse(n2 as int, cap2 as int, q as int, rem2 as int);
    if low < half {
        assert(2 * rem1 < cap && 2 * rem2 < cap2) by (nonlinear_arith)
            requires
                low < half,
                big == 2 * half,
                cap == u * big,
                cap2 == 2 * (u * big),
                rem1 == low * u + r,
                rem2 == (2 * low + 1) * u,
                r < u,
                u > 0,
        ;
    } else {
        assert(2 * rem1 > cap && 2 * rem2 > cap2) by (nonlinear_arith)
            requires
                low >= half,
                big == 2 * half,
                cap == u * big,
                cap2 == 2 * (u * big),
                rem1 == low * u + r,
                rem2 == (2 * low + 1) * u,
                r > 0,
                u > 0,
        ;
    }
    assert(round_ratio(p, num, den) == round_ratio(p, n2, d2));
    assert(n2 * (2 * pow2(y)) == ((2 * m + 1) * pow2(x)) * d2) by (nonlinear_arith)
        requires
            n2 == (2 * m + 1) * u,
            d2 == 2 * den,
            den * pow2(x) == u * pow2(y),
    ;
    lemma_round_ratio_ratio(p, n2, d2, (2 * m + 1) * pow2(x), 2 * pow2(y));
}

pub proof fn lemma_pow2_le(a: nat, b: nat)
    requires
        a <= b,
    ensures
        0 < pow2(a) <= pow2(b),
{
    lemma_pow2_pos(a);
    if a < b {
        lemma_pow2_strictly_increases(a, b);
    }
}

/// Numerator of `m * 2^t`.
pub open spec fn scaled_num(m: nat, t: int) -> nat {
    if t >= 0 {
        m * pow2(t as nat)
    } else {
        m
    }
}

/// Denominator of `m * 2^t`.
pub open spec fn scaled_den(t: int) -> nat {
    if t >= 0 {
        1
    } else {
        pow2((-t) as nat)
    }
}

proof fn lemma_scaled_binade(p: nat, m: nat, t: int, n: nat, e: nat)
    requires
        p >= 1,
        m < pow2(n),
        n > 0,
        m >= pow2((n - 1) as nat),
        e == (if n + t - p > 0 { n + t - p } else { 0 }),
    ensures
        scaled_den(t) > 0,
        binade(p, scaled_num(m, t), scaled_den(t)) == e,
{
    let num = scaled_num(m, t);
    let den = scaled_den(t);
    lemma_pow2_pos(e);
    lemma_pow2_pos(p);
    lemma_pow2_adds(e, p);
    lemma_pow2_adds(e, (p - 1) as nat);
    if t >= 0 {
        let s = t as nat;
        lemma_pow2_pos(s);
        lemma_pow2_adds(n, s);
        lemma_pow2_le(n + s, e + p);
        assert(den * pow2(e) * pow2(p) == pow2(e + p)) by (nonlinear_arith)
            requires
                den == 1,
                pow2(e + p) == pow2(e) * pow2(p),
        ;
        assert(m * pow2(s) < pow2(n) * pow2(s)) by (nonlinear_arith)
            requires
                m < pow2(n),
                pow2(s) > 0,
        ;
        if e > 0 {
            lemma_pow2_adds((n - 1) as nat, s);
            assert((n - 1) as nat + s == e + (p - 1) as nat);
            assert(m * pow2(s) >= pow2((n - 1) as nat) * pow2(s)) by (nonlinear_arith)
                requires
                    m >= pow2((n - 1) as nat),
                    pow2(s) > 0,
            ;
            assert(den * pow2(e) * pow2((p - 1) as nat) == pow2(e) * pow2((p - 1) as nat))
                by (nonlinear_arith)
                requires
                    den == 1,
            ;
        }
    } else {
        let s = (-t) as nat;
        lemma_pow2_pos(s);
        lemma_pow2_adds(s, e + p);
        lemma_pow2_le(n, s + (e + p));
        assert(den * pow2(e) * pow2(p) == pow2(s + (e + p))) by (nonlinear_arith)
            requires
                den == pow2(s),
                pow2(e + p) == pow2(e) * pow2(p),
                pow2(s + (e + p)) == pow2(s) * pow2(e + p),
        ;
        if e > 0 {
            lemma_pow2_adds(s, e + (p - 1) as nat);
            assert((n - 1) as nat == s + (e + (p - 1) as nat));
            assert(den * pow2(e) * pow2((p - 1) as nat) == pow2((n - 1) as nat))
                by (nonlinear_arith)
                requires
                    den == pow2(s),
                    pow2(e + (p - 1) as nat) == pow2(e) * pow2((p - 1) as nat),
                    pow2((n - 1) as nat) == pow2(s) * pow2(e + (p - 1) as nat),
            ;
        }
    }
    lemma_binade_unique(p, num, den, e);
}

/// Rounds `m * 2^t` quanta.
pub fn round_scaled(p: u32, m: u128, t: i32) -> (pattern: u128)
    requires
        1 <= p <= 64,
        m < pow2(120),
        -10_000 <= t <= 10_000,
    ensures
        pattern == round_ratio(p as nat, scaled_num(m as nat, t as int), scaled_den(t as int)),
{
    let ghost num = scaled_num(m as nat, t as int);
    let ghost den = scaled_den(t as int);
    proof {
        lemma_pow2_pos((if t >= 0 { t as int } else { -t }) as nat);
        lemma_pow2(0);
        reveal(vstd::arithmetic::power::pow);
    }
    if m == 0 {
        proof {
            lemma_pow2_pos(p as nat);
            assert(num == 0) by (nonlinear_arith)
                requires
                    num == 0 * pow2(t as nat) || num == 0,
            ;
            assert(den * pow2(p as nat) > 0) by (nonlinear_arith)
                requires
                    den > 0,
                    pow2(p as nat) > 0,
            ;
            assert(den * pow2(0) > 0) by (nonlinear_arith)
                requires
                    den > 0,
                    pow2(0) == 1,
            ;
            assert(0 * pow2((p - 1) as nat) == 0);
            lemma_div_of0((den * pow2(0)) as int);
        }
        return 0;
    }
    let n: u32 = bit_length(m);
    proof {
        if n > 120 {
            lemma_pow2_le(120, (n - 1) as nat);
        }
        if n == 0 {
            assert(false);
        }
    }
    let top: i32 = n as i32 + t - p as i32;
    let e: i32 = if top > 0 { top } else { 0 };
    proof {
        lemma_scaled_binade(p as nat, m as nat, t as int, n as nat, e as nat);
    }
    let h: u128 = power_of_two(p - 1);
    proof {
        lemma2_to64();
        lemma_pow2_le((p - 1) as nat, 63);
        lemma2_to64_rest();
        assert(e * h <= 20_000 * 0x8000_0000_0000_0000) by (nonlinear_arith)
            requires
                0 <= e <= 20_000,
                0 <= h <= 0x8000_0000_0000_0000,
        ;
    }
    let base: u128 = e as u128 * h;
    let ghost cap = den * pow2(e as nat);
    proof {
        lemma_pow2_pos(e as nat);
        assert(cap > 0) by (nonlinear_arith)
            requires
                den > 0,
                pow2(e as nat) > 0,
                cap == den * pow2(e as nat),
        ;
    }
    if e <= t {
        let s: u32 = (t - e) as u32;
        proof {
            // Here no bit is lost.
            assert(n + s <= p);
            lemma_pow2_adds(n as nat, s as nat);
            lemma_pow2_le((n + s) as nat, 64);
            lemma_pow2_pos(s as nat);
            assert(m * pow2(s as nat) < pow2(n as nat) * pow2(s as nat)) by (nonlinear_arith)
                requires
                    m < pow2(n as nat),
                    pow2(s as nat) > 0,
            ;
            lemma_pow2_adds(s as nat, e as nat);
            let k = (m * pow2(s as nat)) as nat;
            assert(num == k * cap) by (nonlinear_arith)
                requires
                    num == m * pow2(t as nat),
                    pow2(t as nat) == pow2(s as nat) * pow2(e as nat),
                    cap == den * pow2(e as nat),
                    den == 1,
                    k == m * pow2(s as nat),
            ;
            lemma_div_by_multiple(k as int, cap as int);
            lemma_mod_multiples_basic(k as int, cap as int);
        }
        return base + m * power_of_two(s);
    }
    let j: u32 = (e - t) as u32;
    let ghost big = pow2(j as nat);
    proof {
        lemma_pow2_pos(j as nat);
        if t >= 0 {
            lemma_pow2_adds(j as nat, t as nat);
            assert(num * big == m * cap) by (nonlinear_arith)
                requires
                    num == m * pow2(t as nat),
                    pow2(e as nat) == big * pow2(t as nat),
                    cap == den * pow2(e as nat),
                    den == 1,
            ;
        } else {
            lemma_pow2_adds((-t) as nat, e as nat);
            assert((-t) as nat + e as nat == j as nat);
            assert(num * big == m * cap) by (nonlinear_arith)
                requires
                    num == m,
                    big == pow2((-t) as nat) * pow2(e as nat),
                    cap == den * pow2(e as nat),
                    den == pow2((-t) as nat),
            ;
        }
        lemma_nearest_even_ratio(num, cap, m as nat, big);
        lemma_pow2_unfold(j as nat);
    }
    if j > 121 {
        proof {
            lemma_pow2_le(120, (j - 1) as nat);
            lemma_small_mod(m as nat, big);
            lemma_basic_div(m as int, big as int);
        }
        return base;
    }
    let d: u128 = power_of_two(j);
    let q: u128 = m / d;
    let r: u128 = m % d;
    proof {
        lemma_pow2_le(j as nat, 121);
        lemma_pow2_adds(61, 60);
        lemma_pow2_adds(60, 60);
        assert(pow2(121) <= 0x400_0000_0000_0000_0000_0000_0000_0000) by (nonlinear_arith)
            requires
                pow2(121) == pow2(61) * pow2(60),
                pow2(61) == 0x2000_0000_0000_0000,
                pow2(60) == 0x1000_0000_0000_0000,
        ;
        assert(pow2(120) <= 0x100_0000_0000_0000_0000_0000_0000_0000) by (nonlinear_arith)
            requires
                pow2(120) == pow2(60) * pow2(60),
                pow2(60) == 0x1000_0000_0000_0000,
        ;
        lemma_mod_pos_bound(m as int, d as int);
        lemma_div_nonincreasing(m as int, d as int);
    }
    if 2 * r < d || (2 * r == d && q % 2 == 0) {
        base + q
    } else {
        base + q + 1
    }
}

/// `2^k`.
pub fn power_of_two(k: u32) -> (r: u128)
    requires
        k < 128,
    ensures
        r == pow2(k as nat),
{
    let mut i: u32 = 0;
    let mut r: u128 = 1;
    proof {
        lemma_pow2(0);
        reveal(vstd::arithmetic::power::pow);
    }
    while i < k
        invariant
            i <= k < 128,
            r == pow2(i as nat),
        decreases k - i,
    {
        proof {
            lemma_pow2_unfold((i + 1) as nat);
            lemma_power_of_two_fits((i + 1) as nat);
        }
        r = r * 2;
        i = i + 1;
    }
    r
}

pub proof fn lemma_power_of_two_fits(k: nat)
    requires
        k < 128,
    ensures
        pow2(k) <= 0x8000_0000_0000_0000_0000_0000_0000_0000,
{
    lemma2_to64();
    lemma2_to64_rest();
    lemma_pow2_adds(64, 63);
    assert(pow2(127) == 0x8000_0000_0000_0000_0000_0000_0000_0000) by (nonlinear_arith)
        requires
            pow2(127) == pow2(64) * pow2(63),
            pow2(64) == 0x1_0000_0000_0000_0000,
            pow2(63) == 0x8000_0000_0000_0000,
    ;
    if k < 127 {
        lemma_pow2_strictly_increases(k, 127);
    }
}

/// The length of `m` in binary.
pub fn bit_length(m: u128) -> (n: u32)
    ensures
        n <= 128,
        m < pow2(n as nat),
        n > 0 ==> m >= pow2((n - 1) as nat),
{
    let mut n: u32 = 0;
    let mut x: u128 = m;
    proof {
        lemma_pow2(0);
        reveal(vstd::arithmetic::power::pow);
    }
    let ghost mut rest: nat = 0;
    proof {
        assert(m == x * pow2(0) + rest) by (nonlinear_arith)
            requires
                pow2(0) == 1,
                x == m,
                rest == 0,
        ;
    }
    while x > 0
        invariant
            n <= 128,
            m == x * pow2(n as nat) + rest,
            rest < pow2(n as nat),
            x == 0 && n > 0 ==> m >= pow2((n - 1) as nat),
            m <= u128::MAX,
        decreases x,
    {
        proof {
            lemma_pow2_pos(n as nat);
            lemma_pow2_unfold((n + 1) as nat);
            if n == 128 {
                lemma_pow2_unfold(128);
                lemma_pow2_adds(64, 63);
                lemma2_to64();
                lemma2_to64_rest();
                assert(pow2(127) == 0x8000_0000_0000_0000_0000_0000_0000_0000) by (nonlinear_arith)
                    requires
                        pow2(127) == pow2(64) * pow2(63),
                        pow2(64) == 0x1_0000_0000_0000_0000,
                        pow2(63) == 0x8000_0000_0000_0000,
                ;
                assert(false) by (nonlinear_arith)
                    requires
                        m == x * pow2(128) + rest,
                        x > 0,
                        m < pow2(128),
                        rest >= 0,
                ;
            }
            let half = x / 2;
            let b = x % 2;
            let w = pow2(n as nat);
            assert(m == half * (2 * w) + (b * w + rest) && b * w + rest < 2 * w) by (nonlinear_arith)
                requires
                    m == x * w + rest,
                    x == 2 * half + b,
                    b < 2,
                    rest < w,
            ;
            if half == 0 {
                assert(m >= w) by (nonlinear_arith)
                    requires
                        m == x * w + rest,
                        x >= 1,
                        rest >= 0,
                ;
            }
            rest = (b * w + rest) as nat;
        }
        x = x / 2;
        n = n + 1;
    }
    n
}

} // verus!
