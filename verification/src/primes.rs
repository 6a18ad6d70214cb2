//! An ascending cache of primes discovered by trial division.  The cache
//! is an ordinary memoization vector: a gcd computation creates one, it
//! grows append-only, and it always holds exactly the primes below its
//! bound.

use crate::arith::{
    gcd_nat, is_prime, lemma_coprime_no_common_prime, lemma_divisor_le, lemma_gcd_from_parts,
    lemma_mod_trans, lemma_trial_division_prime,
};
use vstd::arithmetic::div_mod::*;
use vstd::prelude::*;

verus! {

/// The elements of the cache grow strictly.
pub open spec fn ascending(s: Seq<u64>) -> bool {
    forall|i: int, j: int| 0 <= i < j < s.len() ==> s[i] < s[j]
}

/// Every prime below `b` appears in the cache.
pub open spec fn contains_primes_below(s: Seq<u64>, b: int) -> bool {
    forall|q: u64| is_prime(q as nat) && (q as int) < b ==> #[trigger] s.contains(q)
}

/// The cache holds exactly the primes below `b`, in some order.
pub open spec fn all_primes_below(s: Seq<u64>, b: int) -> bool {
    &&& forall|i: int| 0 <= i < s.len() ==> is_prime(#[trigger] s[i] as nat) && (s[i] as int) < b
    &&& contains_primes_below(s, b)
}

/// The bound a well-formed cache is complete up to: one past its last entry.
pub open spec fn cache_bound(s: Seq<u64>) -> int {
    if s.len() == 0 {
        2
    } else {
        s[s.len() - 1] as int + 1
    }
}

/// A well-formed prime cache: ascending and complete below its bound.
pub open spec fn cache_ok(s: Seq<u64>) -> bool {
    ascending(s) && all_primes_below(s, cache_bound(s))
}

/// In an ascending run, positions order the values.
proof fn lemma_ascending_at(s: Seq<u64>, i: int, j: int)
    requires
        ascending(s),
        0 <= i < s.len(),
        0 <= j < s.len(),
        s[i] < s[j],
    ensures
        i < j,
{
    if i == j {
        assert(false);
    } else if j < i {
        assert(s[j] < s[i]);
        assert(false);
    }
}

/// `x * x > c` exactly when `x` exceeds `c / x`, for positive `x`.
proof fn lemma_square_against_div(c: nat, x: nat)
    requires
        x >= 1,
    ensures
        (x > c / x) <==> (x * x > c),
{
    lemma_fundamental_div_mod(c as int, x as int);
    lemma_mod_bound(c as int, x as int);
    let q = c / x;
    if x > q {
        assert(x * x > c) by (nonlinear_arith)
            requires
                c == x * q + (c % x),
                0 <= (c % x) < x,
                x > q,
        ;
    } else {
        assert(x * x <= c) by (nonlinear_arith)
            requires
                c == x * q + (c % x),
                0 <= (c % x),
                x <= q,
                x >= 1,
        ;
    }
}

/// Yields the next prime after the cache's last entry, provided it does
/// not exceed `limit`; extends the cache with it.  Returns `None` when
/// every prime up to `limit` is already cached.
pub fn next_prime(cache: &mut Vec<u64>, limit: u64) -> (r: Option<u64>)
    requires
        cache_ok(old(cache)@),
        limit < u64::MAX,
    ensures
        cache_ok(final(cache)@),
        match r {
            Some(p) => {
                &&& is_prime(p as nat)
                &&& p <= limit
                &&& final(cache)@ == old(cache)@.push(p)
                &&& all_primes_below(old(cache)@, p as int)
            },
            None => {
                &&& final(cache)@ == old(cache)@
                &&& contains_primes_below(final(cache)@, limit as int + 1)
            },
        },
{
    if cache.len() == 0 {
        if limit >= 2 {
            cache.push(2);
            proof {
                assert forall|q: u64| is_prime(q as nat) && (q as int) < 3 implies #[trigger] cache@.contains(q) by {
                    assert(q == 2);
                    assert(cache@[0] == q);
                }
            }
            return Some(2);
        } else {
            proof {
                assert forall|q: u64| is_prime(q as nat) && (q as int) < limit as int
                    + 1 implies #[trigger] cache@.contains(q) by {
                    assert(q as nat >= 2);
                    assert(false);
                }
            }
            return None;
        }
    }
    let last = cache[cache.len() - 1];
    if last >= limit {
        return None;
    }
    let ghost orig = cache@;
    let mut cand: u64 = last + 1;
    loop
        invariant
            orig == old(cache)@,
            cache@ == orig,
            cache_ok(cache@),
            cache@.len() >= 1,
            last == cache@[cache@.len() - 1],
            last as int + 1 <= cand as int <= limit as int + 1,
            last >= 2,
            limit > last,
            limit < u64::MAX,
            all_primes_below(cache@, cand as int),
        decreases limit as int + 1 - cand as int,
    {
        if cand > limit {
            return None;
        }
        // trial division of cand by the cached primes up to its square root
        let mut j: usize = 0;
        let mut divisor_found = false;
        loop
            invariant_except_break
                !divisor_found,
                forall|jj: int| 0 <= jj < j ==> cand as nat % (#[trigger] cache@[jj] as nat) != 0,
            invariant
                cache@ == orig,
                cache_ok(cache@),
                all_primes_below(cache@, cand as int),
                0 <= j <= cache@.len(),
                cand >= 2,
            ensures
                cache@ == orig,
                if divisor_found {
                    !is_prime(cand as nat)
                } else {
                    is_prime(cand as nat)
                },
            decreases cache@.len() - j,
        {
            if j == cache.len() {
                // every cached prime was tried; all primes below cand are cached
                proof {
                    assert forall|p: nat| is_prime(p) && #[trigger] (p * p) <= cand as nat implies cand
                        as nat % p != 0 by {
                        assert(p < cand as nat) by (nonlinear_arith)
                            requires
                                p * p <= cand as nat,
                                p >= 2,
                        ;
                        let pu = p as u64;
                        assert(cache@.contains(pu));
                        let jj = choose|jj: int| 0 <= jj < cache@.len() && cache@[jj] == pu;
                        assert(cand as nat % (cache@[jj] as nat) != 0);
                    }
                    lemma_trial_division_prime(cand as nat);
                }
                break;
            }
            let p = cache[j];
            if p > cand / p {
                // p * p exceeds cand: no prime that small remains untried
                proof {
                    lemma_square_against_div(cand as nat, p as nat);
                    assert forall|q: nat| is_prime(q) && #[trigger] (q * q) <= cand as nat implies cand
                        as nat % q != 0 by {
                        assert(q < cand as nat) by (nonlinear_arith)
                            requires
                                q * q <= cand as nat,
                                q >= 2,
                        ;
                        let qu = q as u64;
                        assert(cache@.contains(qu));
                        let jj = choose|jj: int| 0 <= jj < cache@.len() && cache@[jj] == qu;
                        assert(qu < p) by (nonlinear_arith)
                            requires
                                q * q <= cand as nat,
                                (p as nat) * (p as nat) > cand as nat,
                                qu as nat == q,
                                q >= 0,
                                p as nat >= 0,
                        ;
                        lemma_ascending_at(cache@, jj, j as int);
                        assert(cand as nat % (cache@[jj] as nat) != 0);
                    }
                    lemma_trial_division_prime(cand as nat);
                }
                break;
            }
            if cand % p == 0 {
                divisor_found = true;
                // p is a proper divisor: p * p <= cand rules out p == cand
                proof {
                    lemma_square_against_div(cand as nat, p as nat);
                    assert((p as nat) * (p as nat) <= cand as nat);
                    assert(p < cand) by (nonlinear_arith)
                        requires
                            (p as nat) * (p as nat) <= cand as nat,
                            p >= 2,
                    ;
                    assert(cand as nat % (p as nat) == 0);
                    assert(!is_prime(cand as nat));
                }
                break;
            }
            j = j + 1;
        }
        if !divisor_found {
            cache.push(cand);
            proof {
                assert forall|i: int, jx: int| 0 <= i < jx < cache@.len() implies cache@[i]
                    < cache@[jx] by {
                    if jx == cache@.len() - 1 {
                        assert(orig[i] < cand);
                    }
                }
                assert forall|q: u64| is_prime(q as nat) && (q as int) < cand as int
                    + 1 implies #[trigger] cache@.contains(q) by {
                    if (q as int) < cand as int {
                        assert(orig.contains(q));
                        let jj = choose|jj: int| 0 <= jj < orig.len() && orig[jj] == q;
                        assert(cache@[jj] == q);
                    } else {
                        assert(q == cand);
                        assert(cache@[cache@.len() - 1] == q);
                    }
                }
            }
            return Some(cand);
        }
        proof {
            // cand is composite, so completeness below cand + 1 still holds
            assert forall|q: u64| is_prime(q as nat) && (q as int) < cand as int
                + 1 implies #[trigger] cache@.contains(q) by {
                assert((q as int) < cand as int || q == cand);
            }
        }
        cand = cand + 1;
    }
}

/// Greatest common divisor by trial division: every prime up to the
/// smaller argument is divided out of both sides while it divides both,
/// and the product of the extracted factors is the gcd.
pub fn gcd(a: u64, b: u64) -> (g: u64)
    requires
        a < u64::MAX || b < u64::MAX,
    ensures
        g as nat == gcd_nat(a as nat, b as nat),
{
    if a == 0 {
        proof {
            if b > 0 {
                lemma_small_mod(0nat, b as nat);
                assert(gcd_nat(a as nat, b as nat) == gcd_nat(b as nat, 0));
                assert(gcd_nat(b as nat, 0) == b as nat);
            }
        }
        return b;
    }
    if b == 0 {
        return a;
    }
    let lowest0 = if a < b { a } else { b };
    let highest0 = if a < b { b } else { a };
    let mut lowest = lowest0;
    let mut highest = highest0;
    let mut g: u64 = 1;
    let mut cache: Vec<u64> = Vec::new();
    loop
        invariant
            cache_ok(cache@),
            1 <= lowest <= highest,
            1 <= g,
            lowest <= lowest0,
            1 <= lowest0 <= highest0,
            lowest0 < u64::MAX,
            g as nat * lowest as nat == lowest0 as nat,
            g as nat * highest as nat == highest0 as nat,
            forall|p: nat|
                is_prime(p) && (p as int) < cache_bound(cache@) ==> !(#[trigger] (lowest as nat
                    % p) == 0 && highest as nat % p == 0),
            forall|i: int|
                0 <= i < cache@.len() ==> (#[trigger] cache@[i] as int) >= i + 2 && cache@[i]
                    <= lowest0,
        ensures
            1 <= lowest <= highest,
            1 <= g,
            g as nat * lowest as nat == lowest0 as nat,
            g as nat * highest as nat == highest0 as nat,
            contains_primes_below(cache@, lowest as int + 1),
            forall|p: nat|
                is_prime(p) && (p as int) < cache_bound(cache@) ==> !(#[trigger] (lowest as nat
                    % p) == 0 && highest as nat % p == 0),
        decreases lowest0 as int - cache@.len(),
    {
        proof {
            if cache@.len() > 0 {
                assert(cache@[cache@.len() - 1] as int >= cache@.len() - 1 + 2);
            }
        }
        let ghost cache_prev = cache@;
        let r = next_prime(&mut cache, lowest);
        match r {
            None => {
                break;
            },
            Some(i) => {
                let ghost cache_now = cache@;
                let ghost l_before = lowest;
                proof {
                    // every prime below i sits in the old cache, so the
                    // outer invariant already covers it
                    assert forall|p: nat|
                        is_prime(p) && (p as int) < i as int implies !(#[trigger] (lowest as nat
                        % p) == 0 && highest as nat % p == 0) by {
                        if lowest as nat % p == 0 && highest as nat % p == 0 {
                            let pu = p as u64;
                            assert(cache_prev.contains(pu));
                            let jj = choose|jj: int|
                                0 <= jj < cache_prev.len() && cache_prev[jj] == pu;
                            assert((cache_prev[jj] as int) < cache_bound(cache_prev)) by {
                                if jj < cache_prev.len() - 1 {
                                    assert(cache_prev[jj] < cache_prev[cache_prev.len() - 1]);
                                }
                            }
                            assert(false);
                        }
                    }
                }
                while lowest % i == 0 && highest % i == 0
                    invariant
                        cache@ == cache_now,
                        2 <= i,
                        1 <= lowest <= highest,
                        1 <= g,
                        lowest <= l_before,
                        1 <= lowest0 <= highest0,
                        lowest0 < u64::MAX,
                        g as nat * lowest as nat == lowest0 as nat,
                        g as nat * highest as nat == highest0 as nat,
                        forall|p: nat|
                            is_prime(p) && (p as int) < i as int ==> !(#[trigger] (lowest as nat
                                % p) == 0 && highest as nat % p == 0),
                    decreases lowest,
                {
                    let ghost l = lowest as nat;
                    let ghost h = highest as nat;
                    proof {
                        lemma_fundamental_div_mod(lowest as int, i as int);
                        lemma_fundamental_div_mod(highest as int, i as int);
                        lemma_divisor_le(l, i as nat);
                        assert(l / (i as nat) >= 1) by (nonlinear_arith)
                            requires
                                l == (i as nat) * (l / (i as nat)),
                                l >= i as nat,
                                i as nat >= 2,
                        ;
                        assert(l / (i as nat) <= h / (i as nat)) by {
                            lemma_div_is_ordered(lowest as int, highest as int, i as int);
                        }
                        // the extracted factor keeps the running products exact
                        assert(g as nat * (i as nat) <= lowest0 as nat) by (nonlinear_arith)
                            requires
                                g as nat * l == lowest0 as nat,
                                l == (i as nat) * (l / (i as nat)),
                                l / (i as nat) >= 1,
                                g as nat >= 1,
                                i as nat >= 1,
                        ;
                        assert((g as nat * (i as nat)) * (l / (i as nat)) == lowest0 as nat)
                            by (nonlinear_arith)
                            requires
                                g as nat * l == lowest0 as nat,
                                l == (i as nat) * (l / (i as nat)),
                        ;
                        assert((g as nat * (i as nat)) * (h / (i as nat)) == highest0 as nat)
                            by (nonlinear_arith)
                            requires
                                g as nat * h == highest0 as nat,
                                h == (i as nat) * (h / (i as nat)),
                        ;
                        assert(lowest / i < lowest) by {
                            lemma_div_is_strictly_smaller(lowest as int, i as int);
                        }
                        // shared prime factors below i stay divided out
                        assert forall|p: nat|
                            is_prime(p) && (p as int) < i as int implies !(#[trigger] ((l / (
                        i as nat)) % p) == 0 && (h / (i as nat)) % p == 0) by {
                            if (l / (i as nat)) % p == 0 && (h / (i as nat)) % p == 0 {
                                lemma_mod_multiples_basic((i as nat) as int, (l / (i as nat)) as int);
                                assert(l % (l / (i as nat)) == 0) by (nonlinear_arith)
                                    requires
                                        l == (i as nat) * (l / (i as nat)),
                                        ((i as nat) * (l / (i as nat))) % (l / (i as nat)) == 0,
                                ;
                                lemma_mod_trans(l, l / (i as nat), p);
                                lemma_mod_multiples_basic((i as nat) as int, (h / (i as nat)) as int);
                                assert(h % (h / (i as nat)) == 0) by (nonlinear_arith)
                                    requires
                                        h == (i as nat) * (h / (i as nat)),
                                        ((i as nat) * (h / (i as nat))) % (h / (i as nat)) == 0,
                                ;
                                lemma_mod_trans(h, h / (i as nat), p);
                                assert(false);
                            }
                        }
                    }
                    lowest = lowest / i;
                    highest = highest / i;
                    g = g * i;
                }
                proof {
                    // primes below i were already handled; i itself no longer
                    // divides both sides, and i is the new cache bound
                    assert(cache_bound(cache@) == i as int + 1);
                    assert forall|p: nat|
                        is_prime(p) && (p as int) < cache_bound(cache@) implies !(
                    #[trigger] (lowest as nat % p) == 0 && highest as nat % p == 0) by {
                        if (p as int) < i as int {
                        } else {
                            assert(p == i as nat);
                        }
                    }
                }
            },
        }
    }
    proof {
        // no prime divides both remaining sides, so they are coprime
        assert forall|p: nat|
            is_prime(p) implies !(#[trigger] (lowest as nat % p) == 0 && highest as nat % p
            == 0) by {
            if lowest as nat % p == 0 && highest as nat % p == 0 {
                if p <= lowest as nat {
                    assert(cache@.contains(p as u64)) by {
                        assert((p as u64 as int) < lowest as int + 1);
                    }
                    let jj = choose|jj: int| 0 <= jj < cache@.len() && cache@[jj] == p as u64;
                    assert((cache@[jj] as int) < cache_bound(cache@)) by {
                        if jj < cache@.len() - 1 {
                            assert(cache@[jj] < cache@[cache@.len() - 1]);
                        }
                    }
                    assert(false);
                } else {
                    lemma_small_mod(lowest as nat, p);
                    assert(false);
                }
            }
        }
        lemma_coprime_no_common_prime(lowest as nat, highest as nat);
        lemma_coprime_no_common_prime(highest as nat, lowest as nat);
        let gn = g as nat;
        let ln = lowest as nat;
        let hn = highest as nat;
        lemma_mod_multiples_basic(ln as int, gn as int);
        assert(gn * ln == ln * gn) by (nonlinear_arith);
        lemma_div_multiples_vanish(ln as int, gn as int);
        lemma_mod_multiples_basic(hn as int, gn as int);
        assert(gn * hn == hn * gn) by (nonlinear_arith);
        lemma_div_multiples_vanish(hn as int, gn as int);
        if a <= b {
            assert(a as nat == gn * ln && b as nat == gn * hn);
            assert(a as nat % gn == 0 && a as nat / gn == ln);
            assert(b as nat % gn == 0 && b as nat / gn == hn);
            lemma_gcd_from_parts(a as nat, b as nat, gn);
        } else {
            assert(b as nat == gn * ln && a as nat == gn * hn);
            assert(a as nat % gn == 0 && a as nat / gn == hn);
            assert(b as nat % gn == 0 && b as nat / gn == ln);
            lemma_gcd_from_parts(a as nat, b as nat, gn);
        }
    }
    g
}

} // verus!
