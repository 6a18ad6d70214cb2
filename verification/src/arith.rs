//! Specification-level number theory: the Euclidean greatest common
//! divisor, primality, and the lemmas that justify computing a gcd by
//! trial division over an ascending run of primes.

use vstd::arithmetic::div_mod::*;
use vstd::prelude::*;

verus! {

/// Greatest common divisor by the Euclidean recursion.  In particular
/// the divisor of zero and a value is the value itself.
pub open spec fn gcd_nat(a: nat, b: nat) -> nat
    decreases b,
{
    if b == 0 {
        a
    } else {
        gcd_nat(b, a % b)
    }
}

/// A prime has no divisor strictly between 1 and itself.
pub open spec fn is_prime(p: nat) -> bool {
    p >= 2 && forall|d: nat| 2 <= d < p ==> #[trigger] (p % d) != 0
}

/// A linear combination `q * b + a` keeps any common divisor of `a` and `b`.
proof fn lemma_combo_mod_zero(a: nat, b: nat, q: nat, d: nat)
    requires
        d > 0,
        a % d == 0,
        b % d == 0,
    ensures
        (q * b + a) % d == 0,
{
    lemma_mul_mod_noop_right(q as int, b as int, d as int);
    lemma_small_mod(0nat, d);
    assert((q * b) % d == 0);
    lemma_add_mod_noop((q * b) as int, a as int, d as int);
}

/// The gcd of two values with a positive side is positive.
pub proof fn lemma_gcd_pos(a: nat, b: nat)
    requires
        a > 0 || b > 0,
    ensures
        gcd_nat(a, b) >= 1,
    decreases b,
{
    if b > 0 {
        lemma_gcd_pos(b, a % b);
    }
}

/// The gcd divides both of its arguments (whenever it is nonzero).
pub proof fn lemma_gcd_divides(a: nat, b: nat)
    ensures
        gcd_nat(a, b) > 0 ==> a % gcd_nat(a, b) == 0 && b % gcd_nat(a, b) == 0,
    decreases b,
{
    let g = gcd_nat(a, b);
    if b == 0 {
        if g > 0 {
            lemma_mod_self_0(g as int);
        }
    } else {
        lemma_gcd_divides(b, a % b);
        if g > 0 {
            lemma_fundamental_div_mod(a as int, b as int);
            assert(a == (a / b) * b + (a % b));
            lemma_combo_mod_zero(a % b, b, a / b, g);
        }
    }
}

/// Any common divisor of `a` and `b` divides their gcd.
pub proof fn lemma_common_divides_gcd(a: nat, b: nat, d: nat)
    requires
        d > 0,
        a % d == 0,
        b % d == 0,
    ensures
        gcd_nat(a, b) % d == 0,
    decreases b,
{
    if b > 0 {
        lemma_fundamental_div_mod(a as int, b as int);
        assert(a == (a / b) * b + (a % b));
        // d divides (a / b) * b, hence the remainder a % b as well
        lemma_mul_mod_noop_right((a / b) as int, b as int, d as int);
        lemma_small_mod(0nat, d);
        assert(((a / b) * b) % d == 0);
        lemma_sub_mod_noop(a as int, ((a / b) * b) as int, d as int);
        assert((a % b) % d == 0);
        lemma_common_divides_gcd(b, a % b, d);
    }
}

/// A positive divisor of a positive value is no larger than that value.
pub proof fn lemma_divisor_le(n: nat, d: nat)
    requires
        n >= 1,
        d >= 1,
        n % d == 0,
    ensures
        d <= n,
{
    lemma_fundamental_div_mod(n as int, d as int);
    assert(d <= n) by (nonlinear_arith)
        requires
            n == d * (n / d),
            n >= 1,
            d >= 1,
    ;
}

/// Divisibility is transitive: if b divides a and c divides b, c divides a.
pub proof fn lemma_mod_trans(a: nat, b: nat, c: nat)
    requires
        b >= 1,
        c >= 1,
        a % b == 0,
        b % c == 0,
    ensures
        a % c == 0,
{
    lemma_fundamental_div_mod(a as int, b as int);
    lemma_fundamental_div_mod(b as int, c as int);
    let u = a / b;
    let v = b / c;
    assert(a == b * u);
    assert(b == c * v);
    assert(a == (v * u) * c) by (nonlinear_arith)
        requires
            a == b * u,
            b == c * v,
    ;
    lemma_mod_multiples_basic((v * u) as int, c as int);
}

/// If g divides both arguments and the quotients are coprime, g is the gcd.
pub proof fn lemma_gcd_from_parts(a: nat, b: nat, g: nat)
    requires
        g >= 1,
        a >= 1,
        a % g == 0,
        b % g == 0,
        gcd_nat(a / g, b / g) == 1,
    ensures
        gcd_nat(a, b) == g,
{
    let big = gcd_nat(a, b);
    lemma_gcd_pos(a, b);
    lemma_gcd_divides(a, b);
    lemma_common_divides_gcd(a, b, g);
    lemma_divisor_le(big, g);
    let k = big / g;
    lemma_fundamental_div_mod(big as int, g as int);
    assert(big == g * k);
    assert(k >= 1) by (nonlinear_arith)
        requires
            big == g * k,
            big >= g >= 1,
    ;
    // a is a multiple of big = g * k, so a / g is a multiple of k
    lemma_fundamental_div_mod(a as int, big as int);
    let qa = a / big;
    assert(a == g * (k * qa)) by (nonlinear_arith)
        requires
            a == big * qa,
            big == g * k,
    ;
    assert(a / g == k * qa) by {
        lemma_div_multiples_vanish((k * qa) as int, g as int);
    }
    assert((a / g) % k == 0) by {
        lemma_mod_multiples_basic(qa as int, k as int);
        assert(k * qa == qa * k) by (nonlinear_arith);
    }
    // likewise for b
    lemma_fundamental_div_mod(b as int, big as int);
    let qb = b / big;
    assert(b == g * (k * qb)) by (nonlinear_arith)
        requires
            b == big * qb,
            big == g * k,
    ;
    assert(b / g == k * qb) by {
        lemma_div_multiples_vanish((k * qb) as int, g as int);
    }
    assert((b / g) % k == 0) by {
        lemma_mod_multiples_basic(qb as int, k as int);
        assert(k * qb == qb * k) by (nonlinear_arith);
    }
    lemma_common_divides_gcd(a / g, b / g, k);
    lemma_divisor_le(1, k);
    assert(k == 1);
}

/// Dividing both components of a fraction by their gcd leaves coprime parts.
pub proof fn lemma_gcd_quotients_coprime(a: nat, b: nat)
    requires
        a > 0 || b > 0,
    ensures
        gcd_nat(a / gcd_nat(a, b), b / gcd_nat(a, b)) == 1,
{
    let g = gcd_nat(a, b);
    lemma_gcd_pos(a, b);
    lemma_gcd_divides(a, b);
    let k = gcd_nat(a / g, b / g);
    lemma_fundamental_div_mod(a as int, g as int);
    lemma_fundamental_div_mod(b as int, g as int);
    assert(a == g * (a / g));
    assert(b == g * (b / g));
    if a > 0 {
        assert(a / g > 0) by (nonlinear_arith)
            requires
                a == g * (a / g),
                a > 0,
        ;
    } else {
        assert(b / g > 0) by (nonlinear_arith)
            requires
                b == g * (b / g),
                b > 0,
        ;
    }
    lemma_gcd_pos(a / g, b / g);
    lemma_gcd_divides(a / g, b / g);
    // g * k divides a: a / g = k * m gives a = (g * k) * m
    lemma_fundamental_div_mod((a / g) as int, k as int);
    let ma = (a / g) / k;
    assert(a == (g * k) * ma) by (nonlinear_arith)
        requires
            a == g * (a / g),
            a / g == k * ma,
    ;
    assert(a % (g * k) == 0) by {
        assert(g * k >= 1) by (nonlinear_arith)
            requires
                g >= 1,
                k >= 1,
        ;
        lemma_mod_multiples_basic(ma as int, (g * k) as int);
        assert((g * k) * ma == ma * (g * k)) by (nonlinear_arith);
    }
    lemma_fundamental_div_mod((b / g) as int, k as int);
    let mb = (b / g) / k;
    assert(b == (g * k) * mb) by (nonlinear_arith)
        requires
            b == g * (b / g),
            b / g == k * mb,
    ;
    assert(b % (g * k) == 0) by {
        assert(g * k >= 1) by (nonlinear_arith)
            requires
                g >= 1,
                k >= 1,
        ;
        lemma_mod_multiples_basic(mb as int, (g * k) as int);
        assert((g * k) * mb == mb * (g * k)) by (nonlinear_arith);
    }
    assert(g * k >= 1) by (nonlinear_arith)
        requires
            g >= 1,
            k >= 1,
    ;
    lemma_common_divides_gcd(a, b, g * k);
    lemma_divisor_le(g, g * k);
    assert(g * k <= g);
    assert(k == 1) by (nonlinear_arith)
        requires
            g * k <= g,
            g >= 1,
            k >= 1,
    ;
}

/// One is coprime to everything.
pub proof fn lemma_gcd_one(m: nat)
    ensures
        gcd_nat(m, 1) == 1,
{
    lemma_mod_multiples_basic(m as int, 1int);
    assert(m * 1 == m);
    assert(m % 1 == 0);
    assert(gcd_nat(m, 1) == gcd_nat(1, 0));
}

/// The least candidate divisor of `n` from `k` upward (n itself if none).
pub open spec fn least_factor_from(n: nat, k: nat) -> nat
    decreases n - k,
{
    if k < n {
        if n % k == 0 {
            k
        } else {
            least_factor_from(n, k + 1)
        }
    } else {
        n
    }
}

/// The least divisor of `n` that is at least 2.
pub open spec fn least_factor(n: nat) -> nat {
    least_factor_from(n, 2)
}

proof fn lemma_least_factor_from(n: nat, k: nat)
    requires
        2 <= k <= n,
        forall|d: nat| 2 <= d < k ==> #[trigger] (n % d) != 0,
    ensures
        k <= least_factor_from(n, k) <= n,
        n % least_factor_from(n, k) == 0,
        forall|d: nat| 2 <= d < least_factor_from(n, k) ==> #[trigger] (n % d) != 0,
    decreases n - k,
{
    if k < n {
        if n % k != 0 {
            lemma_least_factor_from(n, k + 1);
        }
    } else {
        lemma_mod_self_0(n as int);
    }
}

/// The least factor of any `n >= 2` is a prime divisor of `n`.
pub proof fn lemma_least_factor_is_prime(n: nat)
    requires
        n >= 2,
    ensures
        is_prime(least_factor(n)),
        n % least_factor(n) == 0,
        2 <= least_factor(n) <= n,
{
    lemma_least_factor_from(n, 2);
    let f = least_factor(n);
    assert forall|d: nat| 2 <= d < f implies #[trigger] (f % d) != 0 by {
        if f % d == 0 {
            lemma_mod_trans(n, f, d);
        }
    }
}

/// A composite has a prime factor whose square does not exceed it.
pub proof fn lemma_composite_small_factor(n: nat)
    requires
        n >= 2,
        !is_prime(n),
    ensures
        is_prime(least_factor(n)),
        n % least_factor(n) == 0,
        least_factor(n) * least_factor(n) <= n,
{
    lemma_least_factor_is_prime(n);
    lemma_least_factor_from(n, 2);
    let f = least_factor(n);
    let d = choose|d: nat| 2 <= d < n && #[trigger] (n % d) == 0;
    assert(2 <= d < n && n % d == 0);
    assert(f <= d);
    let q = n / f;
    lemma_fundamental_div_mod(n as int, f as int);
    assert(n == f * q);
    assert(q >= 1) by (nonlinear_arith)
        requires
            n == f * q,
            n >= 2,
            f >= 2,
    ;
    if q == 1 {
        assert(n == f) by (nonlinear_arith)
            requires
                n == f * q,
                q == 1,
        ;
        assert(false);
    }
    // q is itself a divisor of n in [2, n), so the least factor bounds it
    assert(n % q == 0) by {
        lemma_mod_multiples_basic(f as int, q as int);
    }
    assert(q < n) by (nonlinear_arith)
        requires
            n == f * q,
            f >= 2,
            q >= 1,
    ;
    assert(f <= q);
    assert(f * f <= n) by (nonlinear_arith)
        requires
            n == f * q,
            f <= q,
            f >= 0,
    ;
}

/// Trial division is sound: a value not divided by any prime whose
/// square fits below it is prime.
pub proof fn lemma_trial_division_prime(n: nat)
    requires
        n >= 2,
        forall|p: nat| is_prime(p) && #[trigger] (p * p) <= n ==> n % p != 0,
    ensures
        is_prime(n),
{
    if !is_prime(n) {
        lemma_composite_small_factor(n);
        let f = least_factor(n);
        assert(f * f <= n);
        assert(false);
    }
}

/// Two values with no common prime divisor are coprime.
pub proof fn lemma_coprime_no_common_prime(x: nat, y: nat)
    requires
        x >= 1,
        forall|p: nat| is_prime(p) ==> !(#[trigger] (x % p) == 0 && y % p == 0),
    ensures
        gcd_nat(x, y) == 1,
{
    let c = gcd_nat(x, y);
    lemma_gcd_pos(x, y);
    lemma_gcd_divides(x, y);
    if c >= 2 {
        lemma_least_factor_is_prime(c);
        let p = least_factor(c);
        lemma_mod_trans(x, c, p);
        lemma_mod_trans(y, c, p);
        assert(x % p == 0 && y % p == 0);
        assert(false);
    }
}

} // verus!
