//! Polynomials over the integers, given by their coefficients (constant
//! term first), and the facts about them that interpolation rests on.

use vstd::prelude::*;
use vstd::arithmetic::div_mod::*;
use vstd::arithmetic::mul::*;
use vstd::arithmetic::power::*;
use crate::number_theory::{spec_is_prime, lemma_euclid};

verus! {

/// The coefficient of `t^k`: zero beyond the given ones.
pub open spec fn coef(c: Seq<int>, k: int) -> int {
    if 0 <= k < c.len() {
        c[k]
    } else {
        0
    }
}

/// The sum of the first `m` terms `coef(c, k) * t^k`.
pub open spec fn eval_upto(c: Seq<int>, t: int, m: nat) -> int
    decreases m,
{
    if m == 0 {
        0
    } else {
        eval_upto(c, t, (m - 1) as nat) + coef(c, m - 1) * pow(t, (m - 1) as nat)
    }
}

/// The value of the polynomial with coefficients `c` at `t`.
pub open spec fn poly_eval(c: Seq<int>, t: int) -> int {
    eval_upto(c, t, c.len())
}


/// Terms past the last coefficient add nothing.
pub proof fn lemma_eval_upto_beyond(c: Seq<int>, t: int, m: nat)
    requires
        m >= c.len(),
    ensures
        eval_upto(c, t, m) == poly_eval(c, t),
    decreases m,
{
    if m > c.len() {
        lemma_eval_upto_beyond(c, t, (m - 1) as nat);
        lemma_mul_basics(pow(t, (m - 1) as nat));
    }
}

/// Polynomials whose first `m` coefficients agree have equal partial sums.
pub proof fn lemma_eval_upto_same(a: Seq<int>, b: Seq<int>, t: int, m: nat)
    requires
        forall|k: int| 0 <= k < m ==> coef(a, k) == coef(b, k),
    ensures
        eval_upto(a, t, m) == eval_upto(b, t, m),
    decreases m,
{
    if m > 0 {
        lemma_eval_upto_same(a, b, t, (m - 1) as nat);
    }
}

/// The value at zero is the constant coefficient.
pub proof fn lemma_eval_at_zero(c: Seq<int>)
    ensures
        poly_eval(c, 0) == coef(c, 0),
{
    lemma_eval_upto_zero(c, c.len());
    if c.len() == 0 {
    }
}

proof fn lemma_eval_upto_zero(c: Seq<int>, m: nat)
    ensures
        eval_upto(c, 0, m) == if m == 0 { 0 } else { coef(c, 0) },
    decreases m,
{
    if m > 0 {
        lemma_eval_upto_zero(c, (m - 1) as nat);
        if m == 1 {
            lemma_pow0(0);
            lemma_mul_basics(coef(c, 0));
        } else {
            lemma0_pow((m - 1) as nat);
            lemma_mul_basics(coef(c, m - 1));
        }
    }
}

/// The coefficient-wise sum of two polynomials.
pub open spec fn poly_add(a: Seq<int>, b: Seq<int>) -> Seq<int> {
    Seq::new(if a.len() >= b.len() { a.len() } else { b.len() }, |k: int| coef(a, k) + coef(b, k))
}

/// A polynomial with every coefficient multiplied by `s`.
pub open spec fn poly_scale(a: Seq<int>, s: int) -> Seq<int> {
    Seq::new(a.len(), |k: int| s * a[k])
}

/// The product of a polynomial with the linear factor `(t - r)`.
pub open spec fn poly_mul_linear(c: Seq<int>, r: int) -> Seq<int> {
    Seq::new(c.len() + 1, |k: int| coef(c, k - 1) - r * coef(c, k))
}

proof fn lemma_eval_upto_add(a: Seq<int>, b: Seq<int>, t: int, m: nat)
    ensures
        eval_upto(poly_add(a, b), t, m) == eval_upto(a, t, m) + eval_upto(b, t, m),
    decreases m,
{
    if m > 0 {
        let k = m - 1;
        lemma_eval_upto_add(a, b, t, (m - 1) as nat);
        assert(coef(poly_add(a, b), k) == coef(a, k) + coef(b, k));
        lemma_mul_is_distributive_add_other_way(pow(t, k as nat), coef(a, k), coef(b, k));
    }
}

/// Evaluation distributes over the sum of polynomials.
pub proof fn lemma_eval_add(a: Seq<int>, b: Seq<int>, t: int)
    ensures
        poly_eval(poly_add(a, b), t) == poly_eval(a, t) + poly_eval(b, t),
{
    let s = poly_add(a, b);
    lemma_eval_upto_add(a, b, t, s.len());
    lemma_eval_upto_beyond(a, t, s.len());
    lemma_eval_upto_beyond(b, t, s.len());
}

proof fn lemma_eval_upto_scale(a: Seq<int>, s: int, t: int, m: nat)
    ensures
        eval_upto(poly_scale(a, s), t, m) == s * eval_upto(a, t, m),
    decreases m,
{
    if m > 0 {
        let k = m - 1;
        lemma_eval_upto_scale(a, s, t, (m - 1) as nat);
        assert(coef(poly_scale(a, s), k) == s * coef(a, k)) by {
            lemma_mul_basics(s);
        }
        lemma_mul_is_associative(s, coef(a, k), pow(t, k as nat));
        lemma_mul_is_distributive_add(s, eval_upto(a, t, (m - 1) as nat), coef(a, k) * pow(t, k as nat));
    }
}

/// Evaluation commutes with scaling.
pub proof fn lemma_eval_scale(a: Seq<int>, s: int, t: int)
    ensures
        poly_eval(poly_scale(a, s), t) == s * poly_eval(a, t),
{
    lemma_eval_upto_scale(a, s, t, a.len());
}

proof fn lemma_eval_upto_mul_linear(c: Seq<int>, r: int, t: int, m: nat)
    requires
        m >= 1,
    ensures
        eval_upto(poly_mul_linear(c, r), t, m)
            == t * eval_upto(c, t, (m - 1) as nat) - r * eval_upto(c, t, m),
    decreases m,
{
    let d = poly_mul_linear(c, r);
    if m == 1 {
        lemma_pow0(t);
        assert(coef(d, 0) == coef(c, -1) - r * coef(c, 0));
        lemma_mul_basics(coef(d, 0));
        lemma_mul_basics(t);
        lemma_mul_basics(coef(c, 0));
        assert(eval_upto(c, t, 0) == 0);
        assert(eval_upto(d, t, 0) == 0);
        assert(eval_upto(c, t, 1) == coef(c, 0) * pow(t, 0));
        assert(eval_upto(d, t, 1) == coef(d, 0) * pow(t, 0));
    } else {
        let k = (m - 1) as nat;
        let k1 = (m - 2) as nat;
        lemma_eval_upto_mul_linear(c, r, t, k);
        // d_k == c_{k-1} - r * c_k
        let ck1 = coef(c, k1 as int);
        let ck = coef(c, k as int);
        assert(coef(d, k as int) == ck1 - r * ck);
        let pk = pow(t, k);
        let pk1 = pow(t, k1);
        assert(pk == t * pk1) by {
            reveal(pow);
        }
        assert((ck1 - r * ck) * pk == ck1 * pk - r * ck * pk) by {
            lemma_mul_is_distributive_sub_other_way(pk, ck1, r * ck);
        }
        assert(ck1 * pk == t * (ck1 * pk1)) by {
            lemma_mul_is_associative(ck1, t, pk1);
            lemma_mul_is_commutative(ck1, t);
            lemma_mul_is_associative(t, ck1, pk1);
        }
        assert(r * ck * pk == r * (ck * pk)) by {
            lemma_mul_is_associative(r, ck, pk);
        }
        let e1 = eval_upto(c, t, k1);
        let e = eval_upto(c, t, k);
        assert(t * (e1 + ck1 * pk1) == t * e1 + t * (ck1 * pk1)) by {
            lemma_mul_is_distributive_add(t, e1, ck1 * pk1);
        }
        assert(r * (e + ck * pk) == r * e + r * (ck * pk)) by {
            lemma_mul_is_distributive_add(r, e, ck * pk);
        }
    }
}

/// Evaluating the product with a linear factor.
pub proof fn lemma_eval_mul_linear(c: Seq<int>, r: int, t: int)
    ensures
        poly_eval(poly_mul_linear(c, r), t) == (t - r) * poly_eval(c, t),
{
    lemma_eval_upto_mul_linear(c, r, t, c.len() + 1);
    lemma_eval_upto_beyond(c, t, c.len() + 1);
    lemma_mul_is_distributive_sub_other_way(poly_eval(c, t), t, r);
}


/// The polynomial `t^(m-1) + r t^(m-2) + ... + r^(m-1)`, the quotient of
/// `t^m - r^m` by `t - r`.
pub open spec fn geometric_poly(r: int, m: nat) -> Seq<int>
    decreases m,
{
    if m == 0 {
        Seq::empty()
    } else {
        poly_add(poly_mul_linear(geometric_poly(r, (m - 1) as nat), 0), seq![pow(r, (m - 1) as nat)])
    }
}

/// `t^m - r^m == (t - r) * geometric_poly(r, m)(t)`, and the quotient has `m` coefficients.
pub proof fn lemma_geometric(r: int, m: nat, t: int)
    ensures
        pow(t, m) - pow(r, m) == (t - r) * poly_eval(geometric_poly(r, m), t),
        geometric_poly(r, m).len() == m,
    decreases m,
{
    reveal(pow);
    if m == 0 {
        lemma_mul_basics(t - r);
    } else {
        let m1 = (m - 1) as nat;
        let g = geometric_poly(r, m1);
        lemma_geometric(r, m1, t);
        let sh = poly_mul_linear(g, 0);
        let k = seq![pow(r, m1)];
        lemma_eval_add(sh, k, t);
        lemma_eval_mul_linear(g, 0, t);
        assert(poly_eval(k, t) == pow(r, m1)) by {
            assert(eval_upto(k, t, 0) == 0);
            lemma_pow0(t);
            lemma_mul_basics(pow(r, m1));
        }
        let gv = poly_eval(g, t);
        // t^m - r^m == t * (t^(m-1) - r^(m-1)) + r^(m-1) * (t - r)
        assert(pow(t, m) == t * pow(t, m1));
        assert(pow(r, m) == r * pow(r, m1));
        assert(t * (pow(t, m1) - pow(r, m1)) == t * pow(t, m1) - t * pow(r, m1)) by {
            lemma_mul_is_distributive_sub(t, pow(t, m1), pow(r, m1));
        }
        assert((t - r) * pow(r, m1) == t * pow(r, m1) - r * pow(r, m1)) by {
            lemma_mul_is_distributive_sub_other_way(pow(r, m1), t, r);
        }
        assert(t * ((t - r) * gv) == (t - r) * (t * gv)) by {
            lemma_mul_is_associative(t, t - r, gv);
            lemma_mul_is_commutative(t, t - r);
            lemma_mul_is_associative(t - r, t, gv);
        }
        assert((t - 0) * gv == t * gv);
        assert((t - r) * (t * gv + pow(r, m1)) == (t - r) * (t * gv) + (t - r) * pow(r, m1)) by {
            lemma_mul_is_distributive_add(t - r, t * gv, pow(r, m1));
        }
    }
}

/// The quotient of a polynomial by the linear factor `(t - r)`.
pub open spec fn poly_quotient(c: Seq<int>, r: int) -> Seq<int>
    decreases c.len(),
{
    if c.len() == 0 {
        Seq::empty()
    } else {
        poly_add(
            poly_quotient(c.drop_last(), r),
            poly_scale(geometric_poly(r, (c.len() - 1) as nat), c.last()),
        )
    }
}

/// A polynomial is its last term plus the polynomial of the other coefficients.
proof fn lemma_eval_drop_last(c: Seq<int>, t: int)
    requires
        c.len() >= 1,
    ensures
        poly_eval(c, t) == poly_eval(c.drop_last(), t) + c.last() * pow(t, (c.len() - 1) as nat),
{
    let m = (c.len() - 1) as nat;
    lemma_eval_upto_same(c, c.drop_last(), t, m);
}

/// Division with remainder by `(t - r)`: `c(t) - c(r) == (t - r) * q(t)`, where
/// the quotient `q` has one coefficient fewer than `c`.
pub proof fn lemma_quotient(c: Seq<int>, r: int, t: int)
    ensures
        poly_eval(c, t) - poly_eval(c, r) == (t - r) * poly_eval(poly_quotient(c, r), t),
        c.len() >= 1 ==> poly_quotient(c, r).len() == c.len() - 1,
        c.len() == 0 ==> poly_quotient(c, r).len() == 0,
    decreases c.len(),
{
    if c.len() == 0 {
        lemma_mul_basics(t - r);
    } else {
        let m = (c.len() - 1) as nat;
        let c1 = c.drop_last();
        let a = c.last();
        lemma_quotient(c1, r, t);
        let q1 = poly_quotient(c1, r);
        let g = geometric_poly(r, m);
        lemma_geometric(r, m, t);
        lemma_eval_drop_last(c, t);
        lemma_eval_drop_last(c, r);
        lemma_eval_add(q1, poly_scale(g, a), t);
        lemma_eval_scale(g, a, t);
        let gv = poly_eval(g, t);
        let qv = poly_eval(q1, t);
        // c(t) - c(r) == (c1(t) - c1(r)) + a * (t^m - r^m)
        assert(a * pow(t, m) - a * pow(r, m) == a * (pow(t, m) - pow(r, m))) by {
            lemma_mul_is_distributive_sub(a, pow(t, m), pow(r, m));
        }
        assert(a * ((t - r) * gv) == (t - r) * (a * gv)) by {
            lemma_mul_is_associative(a, t - r, gv);
            lemma_mul_is_commutative(a, t - r);
            lemma_mul_is_associative(t - r, a, gv);
        }
        assert((t - r) * (qv + a * gv) == (t - r) * qv + (t - r) * (a * gv)) by {
            lemma_mul_is_distributive_add(t - r, qv, a * gv);
        }
    }
}

/// Distinct modulo `p`: no two entries of `rs` are congruent.
pub open spec fn distinct_mod(rs: Seq<int>, p: nat) -> bool {
    forall|j: int, k: int|
        0 <= j < rs.len() && 0 <= k < rs.len() && j != k
            ==> (#[trigger] rs[j] - #[trigger] rs[k]) % (p as int) != 0
}

/// A polynomial with at most `n` coefficients that vanishes modulo a prime
/// `p` at `n` points, distinct modulo `p`, vanishes modulo `p` everywhere.
pub proof fn lemma_root_count(c: Seq<int>, rs: Seq<int>, p: nat)
    requires
        spec_is_prime(p),
        c.len() <= rs.len(),
        distinct_mod(rs, p),
        forall|k: int| 0 <= k < rs.len() ==> #[trigger] poly_eval(c, rs[k]) % (p as int) == 0,
    ensures
        forall|t: int| #[trigger] poly_eval(c, t) % (p as int) == 0,
    decreases rs.len(),
{
    let pi = p as int;
    if c.len() == 0 {
        assert forall|t: int| #[trigger] poly_eval(c, t) % pi == 0 by {
            lemma_small_mod(0, p);
        }
    } else {
        let n = rs.len();
        let r = rs[n - 1];
        let q = poly_quotient(c, r);
        let rs1 = rs.drop_last();
        assert(poly_eval(c, rs[n - 1]) % pi == 0);
        assert forall|k: int| 0 <= k < rs1.len() implies #[trigger] poly_eval(q, rs1[k]) % pi == 0 by {
            let x = rs1[k];
            assert(x == rs[k]);
            assert(poly_eval(c, rs[k]) % pi == 0);
            lemma_quotient(c, r, x);
            // (x - r) * q(x) == c(x) - c(r) == 0 (mod p)
            lemma_sub_mod_noop(poly_eval(c, x), poly_eval(c, r), pi);
            lemma_small_mod(0, p);
            assert((rs[k] - rs[n - 1]) % pi != 0);
            lemma_euclid(x - r, poly_eval(q, x), p);
        }
        assert(distinct_mod(rs1, p)) by {
            assert forall|j: int, k: int|
                0 <= j < rs1.len() && 0 <= k < rs1.len() && j != k
                    implies (#[trigger] rs1[j] - #[trigger] rs1[k]) % pi != 0 by {
                assert(rs1[j] == rs[j] && rs1[k] == rs[k]);
            }
        }
        lemma_quotient(c, r, 0);
        lemma_root_count(q, rs1, p);
        assert forall|t: int| #[trigger] poly_eval(c, t) % pi == 0 by {
            lemma_quotient(c, r, t);
            assert(poly_eval(q, t) % pi == 0);
            lemma_mul_mod_noop_right(t - r, poly_eval(q, t), pi);
            lemma_mul_basics(t - r);
            lemma_small_mod(0, p);
            lemma_add_mod_noop(poly_eval(c, r), (t - r) * poly_eval(q, t), pi);
        }
    }
}


/// The product of `(t - xs[j])` over `j < m`, `j != i`.
pub open spec fn basis_value(xs: Seq<int>, i: int, m: nat, t: int) -> int
    decreases m,
{
    if m == 0 {
        1
    } else if m - 1 == i {
        basis_value(xs, i, (m - 1) as nat, t)
    } else {
        basis_value(xs, i, (m - 1) as nat, t) * (t - xs[m - 1])
    }
}

/// The coefficients of the product of `(t - xs[j])` over `j < m`, `j != i`.
pub open spec fn basis_poly(xs: Seq<int>, i: int, m: nat) -> Seq<int>
    decreases m,
{
    if m == 0 {
        seq![1]
    } else if m - 1 == i {
        basis_poly(xs, i, (m - 1) as nat)
    } else {
        poly_mul_linear(basis_poly(xs, i, (m - 1) as nat), xs[m - 1])
    }
}

/// The basis polynomial evaluates to the product, and has one coefficient
/// more than it has factors.
pub proof fn lemma_basis_poly(xs: Seq<int>, i: int, m: nat, t: int)
    ensures
        poly_eval(basis_poly(xs, i, m), t) == basis_value(xs, i, m, t),
        basis_poly(xs, i, m).len() == if 0 <= i < m { m } else { m + 1 },
    decreases m,
{
    if m == 0 {
        let one = seq![1int];
        assert(eval_upto(one, t, 0) == 0);
        lemma_pow0(t);
        assert(poly_eval(one, t) == 1);
    } else {
        lemma_basis_poly(xs, i, (m - 1) as nat, t);
        if m - 1 != i {
            lemma_eval_mul_linear(basis_poly(xs, i, (m - 1) as nat), xs[m - 1], t);
            lemma_mul_is_commutative(t - xs[m - 1], basis_value(xs, i, (m - 1) as nat, t));
        }
    }
}

/// The product vanishes at every `xs[k]` with `k < m`, `k != i`.
pub proof fn lemma_basis_vanishes(xs: Seq<int>, i: int, m: nat, k: int)
    requires
        0 <= k < m,
        k != i,
    ensures
        basis_value(xs, i, m, xs[k]) == 0,
    decreases m,
{
    if k < m - 1 {
        lemma_basis_vanishes(xs, i, (m - 1) as nat, k);
        lemma_mul_basics(xs[k] - xs[m - 1]);
    } else {
        lemma_mul_basics(basis_value(xs, i, (m - 1) as nat, xs[k]));
    }
}

/// The sum over `i < m` of `ws[i]` times the basis product of point `i` (over all points).
pub open spec fn interp_value(xs: Seq<int>, ws: Seq<int>, m: nat, t: int) -> int
    decreases m,
{
    if m == 0 {
        0
    } else {
        interp_value(xs, ws, (m - 1) as nat, t) + ws[m - 1] * basis_value(xs, m - 1, xs.len(), t)
    }
}

/// The coefficients of the polynomial whose values `interp_value` gives.
pub open spec fn interp_poly(xs: Seq<int>, ws: Seq<int>, m: nat) -> Seq<int>
    decreases m,
{
    if m == 0 {
        Seq::empty()
    } else {
        poly_add(interp_poly(xs, ws, (m - 1) as nat), poly_scale(basis_poly(xs, m - 1, xs.len()), ws[m - 1]))
    }
}

/// The interpolating polynomial evaluates to `interp_value` and has at most
/// as many coefficients as there are points.
pub proof fn lemma_interp_poly(xs: Seq<int>, ws: Seq<int>, m: nat, t: int)
    requires
        m <= xs.len(),
    ensures
        poly_eval(interp_poly(xs, ws, m), t) == interp_value(xs, ws, m, t),
        interp_poly(xs, ws, m).len() <= xs.len(),
    decreases m,
{
    if m > 0 {
        lemma_interp_poly(xs, ws, (m - 1) as nat, t);
        let b = basis_poly(xs, m - 1, xs.len());
        lemma_basis_poly(xs, m - 1, xs.len(), t);
        lemma_eval_add(interp_poly(xs, ws, (m - 1) as nat), poly_scale(b, ws[m - 1]), t);
        lemma_eval_scale(b, ws[m - 1], t);
    }
}

/// At a point `xs[k]` only the basis product of point `k` survives.
pub proof fn lemma_interp_at_point(xs: Seq<int>, ws: Seq<int>, m: nat, k: int)
    requires
        m <= xs.len(),
        0 <= k < xs.len(),
    ensures
        interp_value(xs, ws, m, xs[k])
            == if k < m { ws[k] * basis_value(xs, k, xs.len(), xs[k]) } else { 0 },
    decreases m,
{
    if m > 0 {
        lemma_interp_at_point(xs, ws, (m - 1) as nat, k);
        if m - 1 != k {
            lemma_basis_vanishes(xs, m - 1, xs.len(), k);
            lemma_mul_basics(ws[m - 1]);
        }
    }
}

} // verus!
