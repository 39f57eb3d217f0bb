//! Facts about divisibility and primes that the field and the secret
//! sharing scheme rest on: Euclid's lemma, binomial coefficients and
//! Fermat's little theorem.

use vstd::prelude::*;
use vstd::arithmetic::div_mod::*;
use vstd::arithmetic::mul::*;
use vstd::arithmetic::power::*;

verus! {

/// `d` divides `n` (for a positive `d`).
pub open spec fn divides(d: nat, n: nat) -> bool {
    n % d == 0
}

/// `n` is a prime number: at least 2, and no number strictly between 1
/// and `n` divides it.
pub open spec fn spec_is_prime(n: nat) -> bool {
    &&& n >= 2
    &&& forall|d: nat| 2 <= d < n ==> !#[trigger] divides(d, n)
}

/// If `a` divides `b` and `b` divides `n`, then `a` divides `n`.
pub proof fn lemma_divides_transitive(a: nat, b: nat, n: nat)
    requires
        a > 0,
        b > 0,
        divides(a, b),
        divides(b, n),
    ensures
        divides(a, n),
{
    lemma_fundamental_div_mod(b as int, a as int);
    lemma_fundamental_div_mod(n as int, b as int);
    let j = b / a;
    let k = n / b;
    assert(n == b * k);
    assert(b == a * j);
    assert(n == a * (j * k)) by {
        lemma_mul_is_associative(a as int, j as int, k as int);
    }
    lemma_mod_multiples_basic((j * k) as int, a as int);
    lemma_mul_is_commutative(a as int, (j * k) as int);
}

/// A composite `n` has a divisor below any bound whose square exceeds `n`.
pub proof fn lemma_small_divisor(n: nat, d: nat, bound: nat)
    requires
        2 <= d < n,
        divides(d, n),
        bound * bound > n,
    ensures
        exists|f: nat| 2 <= f < bound && #[trigger] divides(f, n),
{
    lemma_fundamental_div_mod(n as int, d as int);
    let e = n / d;
    assert(n == d * e);
    if d < bound {
        assert(divides(d, n));
    } else {
        // e must be below the bound, since d * e == n < bound * bound <= d * bound
        if e >= bound {
            lemma_mul_upper_bound(bound as int, d as int, bound as int, e as int);
            assert(false);
        }
        if e < 2 {
            if e == 0 {
                assert(n == 0) by { lemma_mul_basics(d as int); }
            } else {
                assert(n == d) by { lemma_mul_basics(d as int); }
            }
            assert(false);
        }
        assert(n == e * d) by { lemma_mul_is_commutative(d as int, e as int); }
        lemma_mod_multiples_basic(d as int, e as int);
        assert(divides(e, n));
    }
}

/// For a prime `p` and `0 < a < p`: if `p` divides `a * b`, then `p` divides `b`.
proof fn lemma_euclid_reduced(a: nat, b: nat, p: nat)
    requires
        spec_is_prime(p),
        0 < a < p,
        (a * b) % p == 0,
    ensures
        b % p == 0,
    decreases a,
{
    if a == 1 {
        lemma_mul_basics(b as int);
    } else {
        let q = p / a;
        let r = p % a;
        lemma_fundamental_div_mod(p as int, a as int);
        assert(p == a * q + r);
        if r == 0 {
            assert(divides(a, p));
            assert(false);
        }
        lemma_mod_bound(p as int, a as int);
        // r * b == p * b - q * (a * b)
        assert(r * b == p * b - q * (a * b)) by {
            lemma_mul_is_distributive_sub_other_way(b as int, p as int, (a * q) as int);
            lemma_mul_is_commutative(a as int, q as int);
            lemma_mul_is_associative(q as int, a as int, b as int);
        }
        assert((p * b) % p == 0) by {
            lemma_mul_is_commutative(p as int, b as int);
            lemma_mod_multiples_basic(b as int, p as int);
        }
        assert((q * (a * b)) % p == 0) by {
            lemma_mul_mod_noop_right(q as int, (a * b) as int, p as int);
            lemma_mul_basics(q as int);
            lemma_small_mod(0, p);
        }
        assert(((p * b) - q * (a * b)) % (p as int) == 0) by {
            lemma_sub_mod_noop((p * b) as int, (q * (a * b)) as int, p as int);
            lemma_small_mod(0, p);
        }
        lemma_euclid_reduced(r, b, p);
    }
}

/// Euclid's lemma: a prime that divides a product divides one of its factors.
pub proof fn lemma_euclid(a: int, b: int, p: nat)
    requires
        spec_is_prime(p),
        (a * b) % (p as int) == 0,
    ensures
        a % (p as int) == 0 || b % (p as int) == 0,
{
    let pi = p as int;
    let ar = a % pi;
    let br = b % pi;
    lemma_mod_bound(a, pi);
    lemma_mod_bound(b, pi);
    assert((ar * br) % pi == 0) by {
        lemma_mul_mod_noop(a, b, pi);
    }
    if ar != 0 {
        lemma_mul_nonnegative(ar, br);
        lemma_euclid_reduced(ar as nat, br as nat, p);
        lemma_mod_twice(b, pi);
    }
}

/// A product of two numbers that are nonzero modulo a prime is nonzero modulo that prime.
pub proof fn lemma_product_nonzero(a: int, b: int, p: nat)
    requires
        spec_is_prime(p),
        a % (p as int) != 0,
        b % (p as int) != 0,
    ensures
        (a * b) % (p as int) != 0,
{
    if (a * b) % (p as int) == 0 {
        lemma_euclid(a, b, p);
    }
}


/// The binomial coefficient "n choose k", by Pascal's rule.
pub open spec fn binom(n: nat, k: nat) -> nat
    decreases n,
{
    if k == 0 {
        1
    } else if n == 0 {
        0
    } else {
        binom((n - 1) as nat, (k - 1) as nat) + binom((n - 1) as nat, k)
    }
}

/// There are no ways to choose more elements than there are.
pub proof fn lemma_binom_above(n: nat, k: nat)
    requires
        k > n,
    ensures
        binom(n, k) == 0,
    decreases n,
{
    if n > 0 {
        lemma_binom_above((n - 1) as nat, (k - 1) as nat);
        lemma_binom_above((n - 1) as nat, k);
    }
}

/// There is one way to choose all elements.
pub proof fn lemma_binom_all(n: nat)
    ensures
        binom(n, n) == 1,
    decreases n,
{
    if n > 0 {
        lemma_binom_all((n - 1) as nat);
        lemma_binom_above((n - 1) as nat, n);
    }
}

/// The absorption identity: `k * C(n, k) == n * C(n - 1, k - 1)`.
pub proof fn lemma_binom_absorption(n: nat, k: nat)
    requires
        n >= 1,
        k >= 1,
    ensures
        k * binom(n, k) == n * binom((n - 1) as nat, (k - 1) as nat),
    decreases n,
{
    let n1 = (n - 1) as nat;
    let k1 = (k - 1) as nat;
    lemma_mul_basics(binom(n, k) as int);
    lemma_mul_basics(n as int);
    if n == 1 {
        if k == 1 {
            assert(binom(1, 1) == 1);
        } else {
            lemma_binom_above(0, k1);
            lemma_binom_above(0, k);
            lemma_binom_above(1, k);
            lemma_mul_basics(k as int);
            lemma_mul_basics(binom(0, k1) as int);
        }
    } else {
        // k * C(n-1, k) == (n-1) * C(n-2, k-1)
        lemma_binom_absorption(n1, k);
        if k == 1 {
            // k * C(n, 1) == C(n-1, 0) + C(n-1, 1) and C(n-1, 1) == n - 1
            assert(binom(n1, 1) == n1 * binom((n1 - 1) as nat, 0)) by {
                lemma_binom_absorption(n1, 1);
                lemma_mul_basics(binom(n1, 1) as int);
                lemma_mul_basics(n1 as int);
            }
            assert(binom(n, 1) == binom(n1, 0) + binom(n1, 1));
            lemma_mul_basics(n1 as int);
            assert(binom(n1, 1) == n1);
            assert(binom(n, 1) == n);
        } else {
            // (k-1) * C(n-1, k-1) == (n-1) * C(n-2, k-2)
            lemma_binom_absorption(n1, k1);
            let a = binom(n1, k1);
            let b = binom(n1, k);
            let c = binom((n1 - 1) as nat, (k1 - 1) as nat);
            let d = binom((n1 - 1) as nat, k1);
            assert(a == c + d);
            assert(binom(n, k) == a + b);
            assert(k * b == n1 * d);
            assert(k1 * a == n1 * c);
            assert(k * (a + b) == k * a + k * b) by {
                lemma_mul_is_distributive_add(k as int, a as int, b as int);
            }
            assert(k * a == k1 * a + a) by {
                lemma_mul_is_distributive_add_other_way(a as int, k1 as int, 1);
            }
            assert(n1 * c + n1 * d == n1 * a) by {
                lemma_mul_is_distributive_add(n1 as int, c as int, d as int);
            }
            assert(n * a == n1 * a + a) by {
                lemma_mul_is_distributive_add_other_way(a as int, n1 as int, 1);
            }
            assert(k * binom(n, k) == n * a);
        }
    }
}

/// A prime `p` divides `C(p, k)` for `0 < k < p`.
pub proof fn lemma_prime_divides_binom(p: nat, k: nat)
    requires
        spec_is_prime(p),
        0 < k < p,
    ensures
        binom(p, k) % p == 0,
{
    lemma_binom_absorption(p, k);
    let m = binom((p - 1) as nat, (k - 1) as nat);
    assert(((k * binom(p, k)) as int) % (p as int) == 0) by {
        lemma_mul_is_commutative(p as int, m as int);
        lemma_mod_multiples_basic(m as int, p as int);
    }
    lemma_euclid(k as int, binom(p, k) as int, p);
    lemma_small_mod(k, p);
}

/// The first `m` terms of the binomial expansion of `(a + 1)^n`:
/// the sum of `C(n, k) * a^k` for `k < m`.
pub open spec fn binom_sum(n: nat, a: int, m: nat) -> int
    decreases m,
{
    if m == 0 {
        0
    } else {
        binom_sum(n, a, (m - 1) as nat) + binom(n, (m - 1) as nat) * pow(a, (m - 1) as nat)
    }
}

/// Pascal's rule, summed: `T(n + 1, m) == T(n, m) + a * T(n, m - 1)`.
proof fn lemma_binom_sum_pascal(n: nat, a: int, m: nat)
    requires
        m >= 1,
    ensures
        binom_sum(n + 1, a, m) == binom_sum(n, a, m) + a * binom_sum(n, a, (m - 1) as nat),
    decreases m,
{
    reveal(pow);
    if m == 1 {
        assert(binom_sum(n, a, 0) == 0);
        assert(a * 0 == 0);
        assert(binom(n + 1, 0) == 1 && binom(n, 0) == 1);
        assert(binom_sum(n + 1, a, 1) == binom_sum(n + 1, a, 0) + binom(n + 1, 0) * pow(a, 0));
        assert(binom_sum(n, a, 1) == binom_sum(n, a, 0) + binom(n, 0) * pow(a, 0));
    } else {
        let m1 = (m - 1) as nat;
        let m2 = (m - 2) as nat;
        lemma_binom_sum_pascal(n, a, m1);
        // the new term: C(n+1, m-1) a^(m-1) == C(n, m-2) a^(m-1) + C(n, m-1) a^(m-1)
        let t1 = binom(n, m2) as int;
        let t2 = binom(n, m1) as int;
        assert(binom(n + 1, m1) == t1 + t2);
        let pw = pow(a, m1);
        assert(pw == a * pow(a, m2));
        assert((t1 + t2) * pw == t1 * pw + t2 * pw) by {
            lemma_mul_is_distributive_add_other_way(pw, t1, t2);
        }
        assert(t1 * pw == a * (t1 * pow(a, m2))) by {
            lemma_mul_is_associative(t1, a, pow(a, m2));
            lemma_mul_is_commutative(t1, a);
            lemma_mul_is_associative(a, t1, pow(a, m2));
        }
        let s2 = binom_sum(n, a, m2);
        assert(a * (s2 + t1 * pow(a, m2)) == a * s2 + a * (t1 * pow(a, m2))) by {
            lemma_mul_is_distributive_add(a, s2, t1 * pow(a, m2));
        }
    }
}

/// The expansion stops at `k == n`.
proof fn lemma_binom_sum_tail(n: nat, a: int, m: nat)
    requires
        m >= n + 1,
    ensures
        binom_sum(n, a, m) == binom_sum(n, a, n + 1),
    decreases m,
{
    if m > n + 1 {
        lemma_binom_sum_tail(n, a, (m - 1) as nat);
        lemma_binom_above(n, (m - 1) as nat);
    }
}

/// The binomial theorem for `(a + 1)^n`.
pub proof fn lemma_binomial_theorem(n: nat, a: int)
    ensures
        pow(a + 1, n) == binom_sum(n, a, n + 1),
    decreases n,
{
    reveal(pow);
    if n == 0 {
        assert(binom_sum(0, a, 1) == binom_sum(0, a, 0) + binom(0, 0) * pow(a, 0));
    } else {
        let n1 = (n - 1) as nat;
        lemma_binomial_theorem(n1, a);
        let t = binom_sum(n1, a, n);
        assert(pow(a + 1, n) == (a + 1) * t);
        assert((a + 1) * t == a * t + t) by {
            lemma_mul_is_distributive_add_other_way(t, a, 1);
        }
        lemma_binom_sum_tail(n1, a, n + 1);
        lemma_binom_sum_pascal(n1, a, n + 1);
    }
}

/// Modulo a prime `p`, the inner terms of the expansion of `(a + 1)^p` vanish.
proof fn lemma_binom_sum_prime(p: nat, a: int, m: nat)
    requires
        spec_is_prime(p),
        1 <= m <= p,
    ensures
        binom_sum(p, a, m) % (p as int) == 1,
    decreases m,
{
    reveal(pow);
    let pi = p as int;
    if m == 1 {
        assert(binom_sum(p, a, 1) == binom_sum(p, a, 0) + binom(p, 0) * pow(a, 0));
        lemma_small_mod(1, p);
    } else {
        let m1 = (m - 1) as nat;
        lemma_binom_sum_prime(p, a, m1);
        lemma_prime_divides_binom(p, m1);
        let c = binom(p, m1) as int;
        let q = c / pi;
        lemma_fundamental_div_mod(c, pi);
        assert(c == pi * q);
        let term = c * pow(a, m1);
        assert(term == pi * (q * pow(a, m1))) by {
            lemma_mul_is_associative(pi, q, pow(a, m1));
        }
        assert(term % pi == 0) by {
            lemma_mul_is_commutative(pi, q * pow(a, m1));
            lemma_mod_multiples_basic(q * pow(a, m1), pi);
        }
        lemma_add_mod_noop(binom_sum(p, a, m1), term, pi);
        lemma_small_mod(1, p);
    }
}

/// The "freshman's dream" modulo a prime: `(a + 1)^p == a^p + 1 (mod p)`.
pub proof fn lemma_freshman(p: nat, a: int)
    requires
        spec_is_prime(p),
    ensures
        pow(a + 1, p) % (p as int) == (pow(a, p) + 1) % (p as int),
{
    let pi = p as int;
    lemma_binomial_theorem(p, a);
    lemma_binom_all(p);
    assert(binom_sum(p, a, p + 1) == binom_sum(p, a, p) + binom(p, p) * pow(a, p));
    lemma_binom_sum_prime(p, a, p);
    lemma_add_mod_noop(binom_sum(p, a, p), pow(a, p), pi);
    lemma_add_mod_noop(1, pow(a, p), pi);
    lemma_small_mod(1, p);
}

/// `a^p == a (mod p)` for a prime `p`.
pub proof fn lemma_pow_prime_fixed(p: nat, a: nat)
    requires
        spec_is_prime(p),
    ensures
        pow(a as int, p) % (p as int) == (a as int) % (p as int),
    decreases a,
{
    let pi = p as int;
    if a == 0 {
        lemma0_pow(p);
    } else {
        let a1 = (a - 1) as nat;
        lemma_pow_prime_fixed(p, a1);
        lemma_freshman(p, a1 as int);
        // (a1^p + 1) % p == (a1 + 1) % p
        lemma_add_mod_noop(pow(a1 as int, p), 1, pi);
        lemma_add_mod_noop(a1 as int, 1, pi);
    }
}

/// Fermat's little theorem: `a^(p-1) == 1 (mod p)` when the prime `p` does not divide `a`.
pub proof fn lemma_fermat(p: nat, a: nat)
    requires
        spec_is_prime(p),
        a % p != 0,
    ensures
        pow(a as int, (p - 1) as nat) % (p as int) == 1,
{
    let pi = p as int;
    let e = pow(a as int, (p - 1) as nat);
    lemma_pow_prime_fixed(p, a);
    assert(pow(a as int, p) == a * e) by {
        reveal(pow);
    }
    // a * (e - 1) == 0 (mod p)
    assert((a * (e - 1)) % pi == 0) by {
        lemma_mul_is_distributive_sub(a as int, e, 1);
        lemma_sub_mod_noop(a * e, a as int, pi);
        lemma_small_mod(0, p);
    }
    lemma_euclid(a as int, e - 1, p);
    // (e - 1) % p == 0, so e % p == 1
    lemma_add_mod_noop(e - 1, 1, pi);
    lemma_small_mod(1, p);
    lemma_small_mod(0, p);
}

} // verus!
