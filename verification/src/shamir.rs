//! Shamir's (k, n) threshold secret sharing over a prime field.

use vstd::prelude::*;
use vstd::arithmetic::div_mod::*;
use vstd::arithmetic::mul::*;
use vstd::arithmetic::power::*;
use rand::Rng;
use crate::error::{FieldError, ShamirError};
use crate::field::{FieldElement, field_add, field_sub, field_mul, field_pow, field_inv};
use crate::number_theory::spec_is_prime;
use crate::poly::{coef, eval_upto, poly_eval, basis_value, interp_value, interp_poly, poly_add, poly_scale,
    distinct_mod, lemma_eval_add, lemma_eval_scale, lemma_interp_poly, lemma_interp_at_point, lemma_root_count,
    lemma_eval_at_zero};

verus! {

/// A share: the point `(x, f(x))` of the sharing polynomial `f`.
pub type Share = (FieldElement, FieldElement);

/// The values of a sequence of field elements, as integers.
pub open spec fn values(c: Seq<FieldElement>) -> Seq<int> {
    c.map_values(|e: FieldElement| e.val() as int)
}

/// The x-coordinates of a sequence of shares.
pub open spec fn share_xs(shares: Seq<Share>) -> Seq<nat> {
    shares.map_values(|s: Share| s.0.val())
}

/// The y-coordinates of a sequence of shares.
pub open spec fn share_ys(shares: Seq<Share>) -> Seq<nat> {
    shares.map_values(|s: Share| s.1.val())
}

/// `shares` are the points `x = 1, 2, ..., n` of the polynomial with
/// coefficients `c` (constant term first), reduced modulo `p`.
pub open spec fn shares_of_polynomial(shares: Seq<Share>, c: Seq<FieldElement>, p: nat, n: nat) -> bool {
    &&& shares.len() == n
    &&& forall|i: int| 0 <= i < n ==> {
        &&& (#[trigger] shares[i]).0.val() == i + 1
        &&& shares[i].0.modulus() == p
        &&& shares[i].1.modulus() == p
        &&& shares[i].1.val() == poly_eval(values(c), i + 1) % (p as int)
    }
}

/// All elements of `c` belong to the field of modulus `p`, with values below it.
pub open spec fn all_in_field(c: Seq<FieldElement>, p: nat) -> bool {
    forall|k: int| 0 <= k < c.len() ==> (#[trigger] c[k]).modulus() == p && c[k].val() < p
}

/// The product, over `j < m` with `j != i`, of `(0 - x_j) mod p`, folded as
/// reconstruction computes it.
pub open spec fn lagrange_numerator(xs: Seq<nat>, i: int, m: nat, p: nat) -> nat
    decreases m,
{
    if m == 0 {
        1
    } else if m - 1 == i {
        lagrange_numerator(xs, i, (m - 1) as nat, p)
    } else {
        field_mul(lagrange_numerator(xs, i, (m - 1) as nat, p), field_sub(0, xs[m - 1], p), p)
    }
}

/// The product, over `j < m` with `j != i`, of `(x_i - x_j) mod p`.
pub open spec fn lagrange_denominator(xs: Seq<nat>, i: int, m: nat, p: nat) -> nat
    decreases m,
{
    if m == 0 {
        1
    } else if m - 1 == i {
        lagrange_denominator(xs, i, (m - 1) as nat, p)
    } else {
        field_mul(lagrange_denominator(xs, i, (m - 1) as nat, p), field_sub(xs[i], xs[m - 1], p), p)
    }
}

/// The Lagrange basis polynomial of point `i`, evaluated at zero.
pub open spec fn lagrange_basis(xs: Seq<nat>, i: int, p: nat) -> nat {
    field_mul(
        lagrange_numerator(xs, i, xs.len(), p),
        field_inv(lagrange_denominator(xs, i, xs.len(), p), p),
        p,
    )
}

/// The sum, over the first `m` points, of `y_i` times the basis polynomial of point `i` at zero.
pub open spec fn lagrange_sum(xs: Seq<nat>, ys: Seq<nat>, m: nat, p: nat) -> nat
    decreases m,
{
    if m == 0 {
        0
    } else {
        field_add(
            lagrange_sum(xs, ys, (m - 1) as nat, p),
            field_mul(ys[m - 1], lagrange_basis(xs, m - 1, p), p),
            p,
        )
    }
}

/// The value at zero of the polynomial through the points `(xs[i], ys[i])`,
/// by Lagrange interpolation modulo `p`.
pub open spec fn lagrange_at_zero(xs: Seq<nat>, ys: Seq<nat>, p: nat) -> nat {
    lagrange_sum(xs, ys, xs.len(), p)
}

/// No two x-coordinates of `shares` are equal.
pub open spec fn distinct_xs(shares: Seq<Share>) -> bool {
    forall|i: int, j: int|
        0 <= i < shares.len() && 0 <= j < shares.len() && i != j
            ==> (#[trigger] shares[i]).0.val() != (#[trigger] shares[j]).0.val()
}

/// Both coordinates of the share are in the field of modulus `p`.
pub open spec fn share_in_field(s: Share, p: nat) -> bool {
    s.0.modulus() == p && s.1.modulus() == p
}

/// The modulus of the first coordinate of `s` that is not `p`.
pub open spec fn mismatched_modulus(s: Share, p: nat) -> nat {
    if s.0.modulus() != p { s.0.modulus() } else { s.1.modulus() }
}

/// Index `j` holds the first share with a coordinate outside the field of modulus `p`.
pub open spec fn first_mismatch(shares: Seq<Share>, p: nat, j: int) -> bool {
    &&& 0 <= j < shares.len()
    &&& !share_in_field(shares[j], p)
    &&& forall|k: int| 0 <= k < j ==> share_in_field(#[trigger] shares[k], p)
}

/// Both coordinates of every share are in the field of modulus `p`.
pub open spec fn shares_in_field(shares: Seq<Share>, p: nat) -> bool {
    forall|k: int| 0 <= k < shares.len() ==> share_in_field(#[trigger] shares[k], p)
}

/// Every x-coordinate of `shares` is below `p`.
pub open spec fn xs_below(shares: Seq<Share>, p: nat) -> bool {
    forall|k: int| 0 <= k < shares.len() ==> (#[trigger] shares[k]).0.val() < p
}

/// Draws a number uniformly from `0..bound` with the operating system's
/// random generator (`rand::Rng::gen_range` on `rand::rngs::OsRng`).
/// The contract claims only that the number is below `bound`.
#[verifier::external_body]
fn random_below(bound: u64) -> (r: u64)
    requires
        bound > 0,
    ensures
        r < bound,
{
    let mut rng = rand::rngs::OsRng;
    rng.gen_range(0..bound)
}

/// A (threshold, total_shares) sharing of a secret field element.
#[derive(Debug)]
pub struct Shamir {
    secret: FieldElement,
    total_shares: u64,
    threshold: u64,
}

impl Shamir {
    #[verifier::type_invariant]
    spec fn well_formed(self) -> bool {
        1 <= self.threshold <= self.total_shares
    }

    /// The secret that is shared.
    pub closed spec fn secret(self) -> FieldElement {
        self.secret
    }

    /// The number of shares a split produces.
    pub closed spec fn total_shares(self) -> nat {
        self.total_shares as nat
    }

    /// The number of shares needed to reconstruct the secret.
    pub closed spec fn threshold(self) -> nat {
        self.threshold as nat
    }

    /// Construct a new Shamir secret sharing scheme.
    ///
    /// # Errors
    /// - `ShamirError::InvalidThreshold` if `threshold > total_shares`
    /// - `ShamirError::ThresholdTooSmall` if `threshold < 1`
    /// - `ShamirError::FieldError` if `prime` is invalid or `secret` out of range
    pub fn new(secret: u64, total_shares: u64, threshold: u64, prime: u64) -> (r: Result<Shamir, ShamirError>)
        ensures
            match r {
                Ok(s) => {
                    &&& 1 <= threshold <= total_shares
                    &&& spec_is_prime(prime as nat)
                    &&& secret < prime
                    &&& s.secret().val() == secret
                    &&& s.secret().modulus() == prime
                    &&& s.total_shares() == total_shares
                    &&& s.threshold() == threshold
                },
                Err(ShamirError::ThresholdTooSmall(t)) => threshold < 1 && t == threshold,
                Err(ShamirError::InvalidThreshold { threshold: t, total_shares: n }) =>
                    1 <= threshold && threshold > total_shares && t == threshold && n == total_shares,
                Err(ShamirError::FieldError(FieldError::NotPrime(q))) =>
                    1 <= threshold <= total_shares && !spec_is_prime(prime as nat) && q == prime,
                Err(ShamirError::FieldError(FieldError::OutOfRange { value, prime: q })) =>
                    1 <= threshold <= total_shares && spec_is_prime(prime as nat) && secret >= prime
                        && value == secret && q == prime,
                Err(_) => false,
            },
    {
        if threshold < 1 {
            return Err(ShamirError::ThresholdTooSmall(threshold));
        }
        if threshold > total_shares {
            return Err(ShamirError::InvalidThreshold { threshold, total_shares });
        }
        let field_secret = match FieldElement::new(secret, prime) {
            Ok(e) => e,
            Err(e) => return Err(ShamirError::FieldError(e)),
        };
        Ok(Shamir { secret: field_secret, total_shares, threshold })
    }

    /// Split the secret into `total_shares` shares.
    /// Any `threshold` of them can reconstruct the secret.
    ///
    /// The coefficients of the sharing polynomial, other than the secret, are
    /// drawn at random; the shares are the points `x = 1, ..., total_shares`.
    pub fn split(&self) -> (shares: Vec<Share>)
        requires
            self.total_shares() < self.secret().modulus(),
        ensures
            exists|c: Seq<FieldElement>| {
                &&& c.len() == self.threshold()
                &&& c[0] == self.secret()
                &&& all_in_field(c, self.secret().modulus())
                &&& shares_of_polynomial(shares@, c, self.secret().modulus(), self.total_shares())
            },
    {
        proof { use_type_invariant(self); }
        let prime = self.secret.prime();
        let mut coefficients: Vec<FieldElement> = Vec::new();
        coefficients.push(self.secret);
        let mut k: u64 = 1;
        while k < self.threshold
            invariant
                1 <= k <= self.threshold,
                prime == self.secret.modulus(),
                coefficients@.len() == k,
                spec_is_prime(prime as nat),
                coefficients@[0] == self.secret,
                all_in_field(coefficients@, prime as nat),
            decreases self.threshold - k,
        {
            let random_num = random_below(prime);
            let coeff = FieldElement::new(random_num, prime).unwrap();
            coefficients.push(coeff);
            k = k + 1;
        }
        Self::evaluate_shares(&coefficients, self.total_shares)
    }

    /// The shares `(x, f(x))` for `x = 1, ..., total_shares` of the polynomial
    /// `f` whose coefficients, constant term first, are `coefficients`.
    pub fn evaluate_shares(coefficients: &Vec<FieldElement>, total_shares: u64) -> (shares: Vec<Share>)
        requires
            coefficients@.len() >= 1,
            all_in_field(coefficients@, coefficients@[0].modulus()),
            total_shares < coefficients@[0].modulus(),
        ensures
            shares_of_polynomial(shares@, coefficients@, coefficients@[0].modulus(), total_shares as nat),
    {
        let prime = coefficients[0].prime();
        let ghost p = prime as int;
        let ghost c = values(coefficients@);
        let mut shares: Vec<Share> = Vec::new();
        let mut x: u64 = 1;
        while x <= total_shares
            invariant
                1 <= x <= total_shares + 1,
                total_shares < prime,
                p == prime as int,
                spec_is_prime(prime as nat),
                prime as nat == coefficients@[0].modulus(),
                all_in_field(coefficients@, prime as nat),
                c == values(coefficients@),
                shares@.len() == x - 1,
                forall|i: int| 0 <= i < x - 1 ==> {
                    &&& (#[trigger] shares@[i]).0.val() == i + 1
                    &&& shares@[i].0.modulus() == prime
                    &&& shares@[i].1.modulus() == prime
                    &&& shares@[i].1.val() == poly_eval(c, i + 1) % p
                },
            decreases total_shares + 1 - x,
        {
            let x_fe = FieldElement::new(x, prime).unwrap();
            let mut y = FieldElement::zero(prime).unwrap();
            let mut i: usize = 0;
            proof { lemma_small_mod(0, prime as nat); }
            while i < coefficients.len()
                invariant
                    i <= coefficients@.len(),
                    p == prime as int,
                    p >= 2,
                    all_in_field(coefficients@, prime as nat),
                    c == values(coefficients@),
                    x_fe.val() == x,
                    x_fe.modulus() == prime,
                    y.modulus() == prime,
                    y.val() == eval_upto(c, x as int, i as nat) % p,
                decreases coefficients@.len() - i,
            {
                let coeff = coefficients[i];
                let term = coeff * x_fe.pow(i as u64);
                let ghost prev = y.val();
                y = y + term;
                proof {
                    lemma_share_term(c, x as int, i as nat, prev, coeff.val(), prime as nat);
                }
                i = i + 1;
            }
            shares.push((x_fe, y));
            x = x + 1;
        }
        shares
    }

    /// Reconstruct the secret from a slice of shares using Lagrange interpolation.
    ///
    /// # Errors
    /// - `ShamirError::InsufficientShares` if `shares` is empty or holds fewer
    ///   than `threshold` shares
    /// - `ShamirError::ShareFieldMismatch` if shares come from different fields
    pub fn reconstruct(shares: &[Share], threshold: u64) -> (r: Result<FieldElement, ShamirError>)
        requires
            shares@.len() >= 1 && shares@.len() >= threshold && shares_in_field(shares@, shares@[0].0.modulus())
                ==> distinct_xs(shares@),
        ensures
            (r matches Err(ShamirError::InsufficientShares(t, m)) && t == threshold && m == shares@.len())
                <==> (shares@.len() == 0 || shares@.len() < threshold),
            shares@.len() >= 1 && shares@.len() >= threshold ==> match r {
                Ok(v) => {
                    &&& shares_in_field(shares@, shares@[0].0.modulus())
                    &&& v.modulus() == shares@[0].0.modulus()
                    &&& v.val() == lagrange_at_zero(share_xs(shares@), share_ys(shares@), v.modulus())
                    // the value at zero of every polynomial through the shares, of degree below their count
                    &&& forall|c: Seq<int>|
                        c.len() <= shares@.len() && #[trigger] interpolates(c, shares@, v.modulus())
                            ==> v.val() == coef(c, 0) % (v.modulus() as int)
                },
                Err(ShamirError::ShareFieldMismatch { left, right }) => {
                    &&& left == shares@[0].0.modulus()
                    &&& exists|j: int| first_mismatch(shares@, left as nat, j)
                        && right == mismatched_modulus(shares@[j], left as nat)
                },
                Err(_) => false,
            },
    {
        if shares.len() == 0 {
            return Err(ShamirError::InsufficientShares(threshold, 0));
        }
        if (shares.len() as u64) < threshold {
            return Err(ShamirError::InsufficientShares(threshold, shares.len()));
        }
        let prime = shares[0].0.prime();
        let n = shares.len();
        let mut k: usize = 0;
        while k < n
            invariant
                n == shares@.len(),
                n >= 1,
                n >= threshold,
                k <= n,
                prime == shares@[0].0.modulus(),
                forall|l: int| 0 <= l < k ==> share_in_field(#[trigger] shares@[l], prime as nat),
                forall|l: int| 0 <= l < k ==> (#[trigger] shares@[l]).0.val() < prime,
            decreases n - k,
        {
            let kp = shares[k].0.prime();
            if kp != prime {
                proof { assert(first_mismatch(shares@, prime as nat, k as int)); }
                return Err(ShamirError::ShareFieldMismatch { left: prime, right: kp });
            }
            let yp = shares[k].1.prime();
            if yp != prime {
                proof { assert(first_mismatch(shares@, prime as nat, k as int)); }
                return Err(ShamirError::ShareFieldMismatch { left: prime, right: yp });
            }
            k = k + 1;
        }
        let ghost xs = share_xs(shares@);
        let ghost ys = share_ys(shares@);
        let ghost p = prime as nat;
        let zero = FieldElement::zero(prime).unwrap();
        let one = FieldElement::one(prime).unwrap();
        let mut result = zero;
        let mut i: usize = 0;
        while i < n
            invariant
                n == shares@.len(),
                n >= 1,
                n >= threshold,
                i <= n,
                prime == shares@[0].0.modulus(),
                p == prime as nat,
                spec_is_prime(p),
                xs == share_xs(shares@),
                ys == share_ys(shares@),
                shares_in_field(shares@, p),
                xs_below(shares@, p),
                distinct_xs(shares@),
                zero.val() == 0 && zero.modulus() == p,
                one.val() == 1 && one.modulus() == p,
                result.modulus() == p,
                result.val() == lagrange_sum(xs, ys, i as nat, p),
            decreases n - i,
        {
            let xi = shares[i].0;
            let yi = shares[i].1;
            let mut numerator = one;
            let mut denominator = one;
            let mut j: usize = 0;
            while j < n
                invariant
                    n == shares@.len(),
                    i < n,
                    j <= n,
                    p == prime as nat,
                    xs == share_xs(shares@),
                    shares_in_field(shares@, p),
                    xi == shares@[i as int].0,
                    zero.val() == 0 && zero.modulus() == p,
                    numerator.modulus() == p,
                    denominator.modulus() == p,
                    numerator.val() == lagrange_numerator(xs, i as int, j as nat, p),
                    denominator.val() == lagrange_denominator(xs, i as int, j as nat, p),
                decreases n - j,
            {
                if i != j {
                    let xj = shares[j].0;
                    numerator = numerator * (zero - xj);
                    denominator = denominator * (xi - xj);
                }
                j = j + 1;
            }
            proof {
                lemma_share_denominator_nonzero(shares@, i as int, p);
            }
            let lagrange_basis = numerator / denominator;
            result = result + (yi * lagrange_basis);
            i = i + 1;
        }
        proof {
            lemma_reconstruct_interpolates(shares@, p, result.val());
        }
        Ok(result)
    }
}

/// The y-coordinates of `shares` are the values modulo `p` of the polynomial `c`
/// at their x-coordinates.
pub open spec fn interpolates(c: Seq<int>, shares: Seq<Share>, p: nat) -> bool {
    forall|k: int| 0 <= k < shares.len()
        ==> (#[trigger] shares[k]).1.val() as int == poly_eval(c, shares[k].0.val() as int) % (p as int)
}

/// The reconstructed value is the constant term of every polynomial of
/// degree below the number of shares that passes through them.
proof fn lemma_reconstruct_interpolates(shares: Seq<Share>, p: nat, v: nat)
    requires
        spec_is_prime(p),
        xs_below(shares, p),
        distinct_xs(shares),
        v == lagrange_at_zero(share_xs(shares), share_ys(shares), p),
    ensures
        forall|c: Seq<int>|
            c.len() <= shares.len() && #[trigger] interpolates(c, shares, p) ==> v == coef(c, 0) % (p as int),
{
    let xs = share_xs(shares);
    let ys = share_ys(shares);
    assert forall|c: Seq<int>| c.len() <= shares.len() && #[trigger] interpolates(c, shares, p)
        implies v == coef(c, 0) % (p as int) by {
        assert forall|k: int| 0 <= k < xs.len() implies #[trigger] xs[k] < p by {
            assert(shares[k].0.val() < p);
        }
        assert forall|j: int, k: int| 0 <= j < xs.len() && 0 <= k < xs.len() && j != k
            implies #[trigger] xs[j] != #[trigger] xs[k] by {
            assert(shares[j].0.val() != shares[k].0.val());
        }
        assert forall|k: int| 0 <= k < xs.len()
            implies #[trigger] ys[k] as int == poly_eval(c, xs[k] as int) % (p as int) by {
            assert(shares[k].1.val() as int == poly_eval(c, shares[k].0.val() as int) % (p as int));
        }
        lemma_interpolation_recovers_constant(xs, ys, c, p);
    }
}

/// One step of evaluating a share: adding the term `c_i * x^i` modulo `p`.
proof fn lemma_share_term(c: Seq<int>, x: int, i: nat, prev: nat, ci: nat, p: nat)
    requires
        p >= 2,
        x >= 0,
        i < c.len(),
        c[i as int] == ci as int,
        prev == eval_upto(c, x, i) % (p as int),
    ensures
        field_add(prev, field_mul(ci, field_pow(x as nat, i, p), p), p)
            == eval_upto(c, x, i + 1) % (p as int),
{
    let pi = p as int;
    let pw = pow(x, i);
    let e = eval_upto(c, x, i);
    lemma_mod_bound(pw, pi);
    lemma_mul_mod_noop_right(ci as int, pw, pi);
    lemma_mod_bound(ci * (pw % pi), pi);
    lemma_add_mod_noop(e, ci * pw, pi);
    assert(eval_upto(c, x, i + 1) == e + coef(c, i as int) * pw);
}

/// The Lagrange denominator of a point is nonzero when the x-coordinates
/// are distinct and below the prime.
pub proof fn lemma_denominator_nonzero(xs: Seq<nat>, i: int, m: nat, p: nat)
    requires
        spec_is_prime(p),
        0 <= i < xs.len(),
        m <= xs.len(),
        forall|k: int| 0 <= k < xs.len() ==> #[trigger] xs[k] < p,
        forall|j: int, k: int| 0 <= j < xs.len() && 0 <= k < xs.len() && j != k ==> #[trigger] xs[j] != #[trigger] xs[k],
    ensures
        lagrange_denominator(xs, i, m, p) != 0,
        lagrange_denominator(xs, i, m, p) < p,
    decreases m,
{
    let pi = p as int;
    if m == 0 {
    } else {
        lemma_denominator_nonzero(xs, i, (m - 1) as nat, p);
        if m - 1 != i {
            let prev = lagrange_denominator(xs, i, (m - 1) as nat, p);
            let a = xs[i];
            let b = xs[m - 1];
            assert(a != b && a < p && b < p);
            let d = field_sub(a, b, p);
            assert(d != 0) by {
                if a > b {
                    lemma_mod_add_multiples_vanish((a - b) as int, pi);
                    lemma_small_mod((a - b) as nat, p);
                } else {
                    lemma_small_mod((a + p - b) as nat, p);
                }
            }
            lemma_mod_bound((a + p - b) as int, pi);
            lemma_small_mod(prev, p);
            lemma_small_mod(d, p);
            crate::number_theory::lemma_product_nonzero(prev as int, d as int, p);
            lemma_mod_bound((prev * d) as int, pi);
        }
    }
}

/// The x-coordinates of valid shares satisfy the conditions of
/// `lemma_denominator_nonzero`.
proof fn lemma_share_denominator_nonzero(shares: Seq<Share>, i: int, p: nat)
    requires
        spec_is_prime(p),
        0 <= i < shares.len(),
        xs_below(shares, p),
        distinct_xs(shares),
    ensures
        lagrange_denominator(share_xs(shares), i, shares.len(), p) != 0,
{
    let xs = share_xs(shares);
    assert forall|k: int| 0 <= k < xs.len() implies #[trigger] xs[k] < p by {
        assert(shares[k].0.val() < p);
    }
    assert forall|j: int, k: int| 0 <= j < xs.len() && 0 <= k < xs.len() && j != k
        implies #[trigger] xs[j] != #[trigger] xs[k] by {
        assert(shares[j].0.val() != shares[k].0.val());
    }
    lemma_denominator_nonzero(xs, i, shares.len(), p);
}

/// Naturals as integers.
pub open spec fn as_ints(xs: Seq<nat>) -> Seq<int> {
    xs.map_values(|x: nat| x as int)
}

/// `(a - b) mod p` as the field computes it, for `b < p`.
proof fn lemma_field_sub_congruent(a: nat, b: nat, p: nat)
    requires
        p >= 2,
        b < p,
    ensures
        field_sub(a, b, p) as int == (a - b) % (p as int),
{
    lemma_mod_add_multiples_vanish(a - b, p as int);
}

/// The folded numerator is the product of `(0 - x_j)`, reduced.
proof fn lemma_numerator_value(xs: Seq<nat>, i: int, m: nat, p: nat)
    requires
        p >= 2,
        m <= xs.len(),
        forall|k: int| 0 <= k < xs.len() ==> #[trigger] xs[k] < p,
    ensures
        lagrange_numerator(xs, i, m, p) as int == basis_value(as_ints(xs), i, m, 0) % (p as int),
    decreases m,
{
    let pi = p as int;
    if m == 0 {
        lemma_small_mod(1, p);
    } else {
        lemma_numerator_value(xs, i, (m - 1) as nat, p);
        if m - 1 != i {
            let b = basis_value(as_ints(xs), i, (m - 1) as nat, 0);
            let x = xs[m - 1];
            assert(as_ints(xs)[m - 1] == x as int);
            lemma_field_sub_congruent(0, x, p);
            lemma_mul_mod_noop(b, 0 - x, pi);
        }
    }
}

/// The folded denominator is the product of `(x_i - x_j)`, reduced.
proof fn lemma_denominator_value(xs: Seq<nat>, i: int, m: nat, p: nat)
    requires
        p >= 2,
        0 <= i < xs.len(),
        m <= xs.len(),
        forall|k: int| 0 <= k < xs.len() ==> #[trigger] xs[k] < p,
    ensures
        lagrange_denominator(xs, i, m, p) as int
            == basis_value(as_ints(xs), i, m, xs[i] as int) % (p as int),
    decreases m,
{
    let pi = p as int;
    if m == 0 {
        lemma_small_mod(1, p);
    } else {
        lemma_denominator_value(xs, i, (m - 1) as nat, p);
        if m - 1 != i {
            let b = basis_value(as_ints(xs), i, (m - 1) as nat, xs[i] as int);
            let x = xs[m - 1];
            assert(as_ints(xs)[m - 1] == x as int);
            lemma_field_sub_congruent(xs[i], x, p);
            lemma_mul_mod_noop(b, xs[i] - x, pi);
        }
    }
}

/// The weights of the interpolating polynomial: `y_i` over the denominator of point `i`.
pub open spec fn lagrange_weights(xs: Seq<nat>, ys: Seq<nat>, p: nat) -> Seq<int> {
    Seq::new(xs.len(), |i: int| (ys[i] * field_inv(lagrange_denominator(xs, i, xs.len(), p), p)) as int)
}

/// The folded Lagrange sum is the interpolating polynomial's value at zero, reduced.
proof fn lemma_sum_value(xs: Seq<nat>, ys: Seq<nat>, m: nat, p: nat)
    requires
        p >= 2,
        m <= xs.len(),
        ys.len() == xs.len(),
        forall|k: int| 0 <= k < xs.len() ==> #[trigger] xs[k] < p,
    ensures
        lagrange_sum(xs, ys, m, p) as int
            == interp_value(as_ints(xs), lagrange_weights(xs, ys, p), m, 0) % (p as int),
    decreases m,
{
    let pi = p as int;
    let xi = as_ints(xs);
    let ws = lagrange_weights(xs, ys, p);
    let n = xs.len();
    if m == 0 {
        lemma_small_mod(0, p);
    } else {
        let i = m - 1;
        lemma_sum_value(xs, ys, (m - 1) as nat, p);
        lemma_numerator_value(xs, i, n, p);
        let num = lagrange_numerator(xs, i, n, p) as int;
        let inv = field_inv(lagrange_denominator(xs, i, n, p), p) as int;
        let b0 = basis_value(xi, i, n, 0);
        let y = ys[i] as int;
        let w = ws[i];
        assert(w == y * inv);
        let prev = interp_value(xi, ws, (m - 1) as nat, 0);
        // y * basis == w * b0 (mod p)
        assert((y * ((num * inv) % pi)) % pi == (w * b0) % pi) by {
            lemma_mul_mod_noop_right(y, num * inv, pi);
            lemma_mul_is_associative(y, num, inv);
            lemma_mul_is_commutative(num, inv);
            lemma_mul_is_associative(y, inv, num);
            lemma_mul_mod_noop_right(w, b0, pi);
        }
        lemma_add_mod_noop(prev, w * b0, pi);
    }
}

/// Lagrange interpolation recovers the constant term: if the `y`s are the
/// values modulo a prime `p` of a polynomial with at most as many
/// coefficients as there are points, at distinct `x`s below `p`, then the
/// interpolated value at zero is the polynomial's constant term modulo `p`.
pub proof fn lemma_interpolation_recovers_constant(xs: Seq<nat>, ys: Seq<nat>, c: Seq<int>, p: nat)
    requires
        spec_is_prime(p),
        ys.len() == xs.len(),
        c.len() <= xs.len(),
        forall|k: int| 0 <= k < xs.len() ==> #[trigger] xs[k] < p,
        forall|j: int, k: int| 0 <= j < xs.len() && 0 <= k < xs.len() && j != k ==> #[trigger] xs[j] != #[trigger] xs[k],
        forall|k: int| 0 <= k < xs.len() ==> #[trigger] ys[k] as int == poly_eval(c, xs[k] as int) % (p as int),
    ensures
        lagrange_at_zero(xs, ys, p) as int == coef(c, 0) % (p as int),
{
    let pi = p as int;
    let n = xs.len();
    let xi = as_ints(xs);
    let ws = lagrange_weights(xs, ys, p);
    let ip = interp_poly(xi, ws, n);
    let h = poly_add(ip, poly_scale(c, -1));
    assert forall|t: int| #[trigger] poly_eval(h, t) == poly_eval(ip, t) - poly_eval(c, t) by {
        lemma_eval_add(ip, poly_scale(c, -1), t);
        lemma_eval_scale(c, -1, t);
        lemma_interp_poly(xi, ws, n, t);
    }
    lemma_interp_poly(xi, ws, n, 0);
    // the difference vanishes at every point
    assert forall|k: int| 0 <= k < xi.len() implies #[trigger] poly_eval(h, xi[k]) % pi == 0 by {
        let x = xi[k];
        assert(x == xs[k] as int);
        lemma_interp_poly(xi, ws, n, x);
        lemma_interp_at_point(xi, ws, n, k);
        lemma_denominator_nonzero(xs, k, n, p);
        lemma_denominator_value(xs, k, n, p);
        let den = lagrange_denominator(xs, k, n, p);
        let d = basis_value(xi, k, n, x);
        let inv = field_inv(den, p);
        crate::field::lemma_inverse(den, p);
        let y = ys[k] as int;
        assert(ws[k] == y * inv);
        // (y * inv * d) % p == y % p
        assert(((y * inv) * d) % pi == y % pi) by {
            lemma_mul_is_associative(y, inv as int, d);
            lemma_mul_mod_noop_right(y, inv * d, pi);
            lemma_mul_mod_noop_right(inv as int, d, pi);
            lemma_mul_is_commutative(inv as int, den as int);
            lemma_mul_basics(y);
        }
        let cv = poly_eval(c, x);
        assert(y % pi == y) by {
            lemma_mod_bound(cv, pi);
            lemma_small_mod(ys[k], p);
        }
        lemma_mod_twice(cv, pi);
        lemma_sub_mod_noop(poly_eval(ip, x), cv, pi);
        lemma_small_mod(0, p);
    }
    assert(distinct_mod(xi, p)) by {
        assert forall|j: int, k: int| 0 <= j < xi.len() && 0 <= k < xi.len() && j != k
            implies (#[trigger] xi[j] - #[trigger] xi[k]) % pi != 0 by {
            let d = xi[j] - xi[k];
            assert(xs[j] != xs[k]);
            if d > 0 {
                lemma_small_mod(d as nat, p);
            } else {
                lemma_mod_add_multiples_vanish(d, pi);
                lemma_small_mod((d + pi) as nat, p);
            }
        }
    }
    assert(h.len() <= n);
    lemma_root_count(h, xi, p);
    assert(poly_eval(h, 0) % pi == 0);
    lemma_eval_at_zero(c);
    let a = poly_eval(ip, 0);
    let b = coef(c, 0);
    // a - b == 0 (mod p), so a == b (mod p)
    lemma_add_mod_noop(a - b, b, pi);
    lemma_mod_twice(b, pi);
    lemma_small_mod(0, p);
    lemma_sum_value(xs, ys, n, p);
}


/// The threshold property of the scheme: any `k` or more shares, at distinct
/// x-coordinates, of a sharing polynomial with `k` coefficients reconstruct
/// its constant term, the secret.
pub proof fn lemma_threshold_shares_recover_secret(
    shares: Seq<Share>,
    c: Seq<FieldElement>,
    p: nat,
    n: nat,
    picked: Seq<Share>,
)
    requires
        spec_is_prime(p),
        c.len() >= 1,
        c[0].val() < p,
        n < p,
        shares_of_polynomial(shares, c, p, n),
        picked.len() >= c.len(),
        forall|k: int| 0 <= k < picked.len() ==> shares.contains(#[trigger] picked[k]),
        distinct_xs(picked),
    ensures
        lagrange_at_zero(share_xs(picked), share_ys(picked), p) == c[0].val(),
{
    let xs = share_xs(picked);
    let ys = share_ys(picked);
    let cv = values(c);
    assert forall|k: int| 0 <= k < xs.len() implies #[trigger] xs[k] < p by {
        let j = choose|j: int| 0 <= j < shares.len() && shares[j] == picked[k];
        assert(shares[j].0.val() == j + 1);
    }
    assert forall|j: int, k: int| 0 <= j < xs.len() && 0 <= k < xs.len() && j != k
        implies #[trigger] xs[j] != #[trigger] xs[k] by {
        assert(picked[j].0.val() != picked[k].0.val());
    }
    assert forall|k: int| 0 <= k < xs.len() implies #[trigger] ys[k] as int == poly_eval(cv, xs[k] as int) % (p as int) by {
        let j = choose|j: int| 0 <= j < shares.len() && shares[j] == picked[k];
        assert(shares[j].0.val() == j + 1);
    }
    lemma_interpolation_recovers_constant(xs, ys, cv, p);
    assert(coef(cv, 0) == c[0].val());
    lemma_small_mod(c[0].val(), p);
}

} // verus!
