//! Arithmetic in a prime field.

use vstd::prelude::*;
use vstd::arithmetic::div_mod::*;
use vstd::arithmetic::mul::*;
use vstd::arithmetic::power::*;
use vstd::std_specs::ops::{AddSpecImpl, SubSpecImpl, MulSpecImpl, DivSpecImpl};
use std::ops::{Add, Sub, Mul, Div};
use crate::error::FieldError;
use crate::number_theory::{divides, spec_is_prime, lemma_divides_transitive, lemma_small_divisor, lemma_fermat};

verus! {

/// An element of the prime field of integers modulo `prime`.
///
/// Every element holds a prime modulus and a value below it.
#[derive(Debug, Clone, Copy, PartialEq, Eq, Structural)]
pub struct FieldElement {
    num: u64,
    prime: u64,
}

/// `(a + b) mod p`
pub open spec fn field_add(a: nat, b: nat, p: nat) -> nat {
    (a + b) % p
}

/// `(a - b) mod p`, for `b <= p`.
pub open spec fn field_sub(a: nat, b: nat, p: nat) -> nat {
    ((a + p - b) as nat) % p
}

/// `(a * b) mod p`
pub open spec fn field_mul(a: nat, b: nat, p: nat) -> nat {
    (a * b) % p
}

/// `a^e mod p`
pub open spec fn field_pow(a: nat, e: nat, p: nat) -> nat {
    (pow(a as int, e) % (p as int)) as nat
}

/// The inverse of `a` as Fermat's little theorem gives it: `a^(p-2) mod p`.
pub open spec fn field_inv(a: nat, p: nat) -> nat {
    field_pow(a, (p - 2) as nat, p)
}

/// The decimal digit of `d < 10`.
pub open spec fn digit_char(d: nat) -> char {
    if d == 0 { '0' } else if d == 1 { '1' } else if d == 2 { '2' } else if d == 3 { '3' }
    else if d == 4 { '4' } else if d == 5 { '5' } else if d == 6 { '6' } else if d == 7 { '7' }
    else if d == 8 { '8' } else { '9' }
}

/// The decimal notation of `n`, most significant digit first.
pub open spec fn decimal(n: nat) -> Seq<char>
    decreases n,
{
    if n < 10 {
        seq![digit_char(n)]
    } else {
        decimal(n / 10).push(digit_char(n % 10))
    }
}

/// The digit of `d < 10` is the character `'0' + d`.
pub proof fn lemma_digit_char(d: nat)
    requires
        d < 10,
    ensures
        digit_char(d) as nat == '0' as nat + d,
{
}

/// The number that a string of decimal digits denotes, most significant first.
pub open spec fn decimal_value(s: Seq<char>) -> int
    decreases s.len(),
{
    if s.len() == 0 {
        0
    } else {
        10 * decimal_value(s.drop_last()) + (s.last() as int - '0' as int)
    }
}

/// The decimal notation of `n` is nonempty, made of digits, starts with a
/// nonzero digit unless `n` is zero, and denotes `n`.
pub proof fn lemma_decimal_denotes(n: nat)
    ensures
        decimal(n).len() >= 1,
        forall|i: int| 0 <= i < decimal(n).len() ==> '0' <= #[trigger] decimal(n)[i] <= '9',
        n > 0 ==> decimal(n)[0] != '0',
        decimal_value(decimal(n)) == n,
    decreases n,
{
    if n < 10 {
        lemma_digit_char(n);
        assert(decimal(n).drop_last() =~= Seq::<char>::empty());
        assert(decimal_value(Seq::<char>::empty()) == 0);
        assert(decimal(n).last() == digit_char(n));
    } else {
        lemma_decimal_denotes(n / 10);
        lemma_digit_char(n % 10);
        let s = decimal(n);
        assert(s.drop_last() =~= decimal(n / 10));
        assert forall|i: int| 0 <= i < s.len() implies '0' <= #[trigger] s[i] <= '9' by {
            if i < s.len() - 1 {
                assert(s[i] == decimal(n / 10)[i]);
            }
        }
        assert(s[0] == decimal(n / 10)[0]);
        assert(s.last() == digit_char(n % 10));
        lemma_fundamental_div_mod(n as int, 10);
        assert(decimal_value(s) == 10 * decimal_value(decimal(n / 10)) + (s.last() as int - '0' as int));
    }
}

/// The one-character text of the decimal digit `d < 10`.
fn digit_str(d: u64) -> (s: &'static str)
    requires
        d < 10,
    ensures
        s@ == seq![digit_char(d as nat)],
{
    proof {
        reveal_strlit("0");
        reveal_strlit("1");
        reveal_strlit("2");
        reveal_strlit("3");
        reveal_strlit("4");
        reveal_strlit("5");
        reveal_strlit("6");
        reveal_strlit("7");
        reveal_strlit("8");
        reveal_strlit("9");
    }
    if d == 0 { "0" } else if d == 1 { "1" } else if d == 2 { "2" } else if d == 3 { "3" }
    else if d == 4 { "4" } else if d == 5 { "5" } else if d == 6 { "6" } else if d == 7 { "7" }
    else if d == 8 { "8" } else { "9" }
}

/// The decimal notation of `n` as text.
fn decimal_string(n: u64) -> (s: String)
    ensures
        s@ == decimal(n as nat),
    decreases n,
{
    if n < 10 {
        String::from_str(digit_str(n))
    } else {
        let mut s = decimal_string(n / 10);
        s.append(digit_str(n % 10));
        s
    }
}

/// `(a * b) mod m`, computed in 128 bits so that the product cannot overflow.
fn mul_mod(a: u64, b: u64, m: u64) -> (r: u64)
    requires
        m > 0,
    ensures
        r == (a as int * b as int) % (m as int),
{
    proof {
        lemma_mul_upper_bound(a as int, u64::MAX as int, b as int, u64::MAX as int);
        lemma_mod_bound(a as int * b as int, m as int);
    }
    let wide = (a as u128) * (b as u128);
    (wide % (m as u128)) as u64
}

/// Squaring the base halves the exponent:
/// `b^e == (b*b)^(e/2) * (b if e is odd else 1)`.
proof fn lemma_pow_halving(b: int, e: nat)
    ensures
        pow(b, e) == pow(b * b, e / 2) * (if e % 2 == 1 { b } else { 1 }),
{
    let h = e / 2;
    lemma_fundamental_div_mod(e as int, 2);
    lemma_pow_multiplies(b, 2, h);
    lemma_square_is_pow2(b);
    assert(pow(b, 2) == b * b) by {
        reveal(pow);
    }
    if e % 2 == 1 {
        assert(e == 2 * h + 1);
        lemma_pow_adds(b, 2 * h, 1);
        lemma_pow1(b);
    } else {
        assert(e == 2 * h);
        lemma_mul_basics(pow(b * b, h));
    }
}

/// Zero is the additive identity: `a + 0 == a` for `a < p`.
pub proof fn lemma_add_zero(a: nat, p: nat)
    requires
        a < p,
    ensures
        field_add(a, 0, p) == a,
{
    lemma_small_mod(a, p);
}

/// One is the multiplicative identity: `a * 1 == a` for `a < p`.
pub proof fn lemma_mul_one(a: nat, p: nat)
    requires
        a < p,
    ensures
        field_mul(a, 1, p) == a,
{
    lemma_small_mod(a, p);
}

/// Subtraction undoes addition: `(a - b) + b == a` for `a, b < p`.
pub proof fn lemma_sub_then_add(a: nat, b: nat, p: nat)
    requires
        a < p,
        b < p,
    ensures
        field_add(field_sub(a, b, p), b, p) == a,
{
    let pi = p as int;
    lemma_add_mod_noop((a + p - b) as int, b as int, pi);
    lemma_mod_twice(b as int, pi);
    lemma_small_mod(b, p);
    lemma_mod_add_multiples_vanish(a as int, pi);
    lemma_small_mod(a, p);
}

/// Fermat's inverse is an inverse: `a * a^(p-2) == 1 (mod p)` for `0 < a < p`.
pub proof fn lemma_inverse(a: nat, p: nat)
    requires
        spec_is_prime(p),
        0 < a < p,
    ensures
        field_inv(a, p) < p,
        field_mul(a, field_inv(a, p), p) == 1,
{
    let pi = p as int;
    let e = pow(a as int, (p - 2) as nat);
    lemma_small_mod(a, p);
    lemma_fermat(p, a);
    assert(pow(a as int, (p - 1) as nat) == a * e) by {
        reveal(pow);
    }
    lemma_mul_mod_noop_right(a as int, e, pi);
    lemma_mod_bound(e, pi);
}

impl FieldElement {
    #[verifier::type_invariant]
    spec fn well_formed(self) -> bool {
        spec_is_prime(self.prime as nat) && self.num < self.prime
    }

    /// The element's value, in `[0, prime)`.
    pub closed spec fn val(self) -> nat {
        self.num as nat
    }

    /// The element's prime modulus.
    pub closed spec fn modulus(self) -> nat {
        self.prime as nat
    }

    /// Two elements with the same value and the same modulus are equal.
    pub proof fn lemma_equal(a: FieldElement, b: FieldElement)
        requires
            a.val() == b.val(),
            a.modulus() == b.modulus(),
        ensures
            a == b,
    {
    }

    /// Construct a new field element.
    /// Returns `Err` if `prime` is not prime or `num` is out of range.
    pub fn new(num: u64, prime: u64) -> (r: Result<FieldElement, FieldError>)
        ensures
            match r {
                Ok(e) => spec_is_prime(prime as nat) && num < prime && e.val() == num && e.modulus() == prime,
                Err(FieldError::NotPrime(q)) => !spec_is_prime(prime as nat) && q == prime,
                Err(FieldError::OutOfRange { value, prime: q }) =>
                    spec_is_prime(prime as nat) && num >= prime && value == num && q == prime,
                Err(_) => false,
            },
    {
        if prime < 2 || !is_prime(prime) {
            return Err(FieldError::NotPrime(prime));
        }
        if num >= prime {
            return Err(FieldError::OutOfRange { value: num, prime });
        }
        Ok(FieldElement { num, prime })
    }

    /// Returns the zero element of the field.
    pub fn zero(prime: u64) -> (r: Result<FieldElement, FieldError>)
        ensures
            match r {
                Ok(e) => spec_is_prime(prime as nat) && e.val() == 0 && e.modulus() == prime,
                Err(FieldError::NotPrime(q)) => !spec_is_prime(prime as nat) && q == prime,
                Err(_) => false,
            },
    {
        Self::new(0, prime)
    }

    /// Returns the multiplicative identity of the field.
    pub fn one(prime: u64) -> (r: Result<FieldElement, FieldError>)
        ensures
            match r {
                Ok(e) => spec_is_prime(prime as nat) && e.val() == 1 && e.modulus() == prime,
                Err(FieldError::NotPrime(q)) => !spec_is_prime(prime as nat) && q == prime,
                Err(_) => false,
            },
    {
        Self::new(1, prime)
    }

    /// Fast binary exponentiation: computes self^exponent mod prime.
    pub fn pow(&self, exponent: u64) -> (r: FieldElement)
        ensures
            r.modulus() == self.modulus(),
            r.val() == field_pow(self.val(), exponent as nat, self.modulus()),
    {
        proof { use_type_invariant(self); }
        let mut exponent = exponent;
        let mut base = self.num;
        let mut result = 1u64;
        let prime = self.prime;
        let ghost p = prime as int;
        let ghost e0 = exponent as nat;
        proof {
            lemma_pow1(base as int);
            lemma_mul_basics(pow(base as int, e0));
            lemma_small_mod(1, prime as nat);
        }

        while exponent > 0
            invariant
                p == prime as int,
                prime == self.prime,
                p >= 2,
                base < prime,
                result < prime,
                (result * pow(base as int, exponent as nat)) % p == pow(self.num as int, e0) % p,
            decreases exponent,
        {
            let ghost old_result = result as int;
            let ghost old_base = base as int;
            let ghost old_exp = exponent as nat;
            let odd = exponent & 1 == 1;
            proof {
                assert((exponent & 1 == 1) == (exponent % 2 == 1)) by (bit_vector);
                assert(exponent >> 1 == exponent / 2) by (bit_vector);
            }
            if odd {
                result = mul_mod(result, base, prime);
            }
            base = mul_mod(base, base, prime);
            exponent = exponent >> 1;
            proof {
                lemma_pow_halving(old_base, old_exp);
                let half = pow(old_base * old_base, exponent as nat);
                let factor = if old_exp % 2 == 1 { old_base } else { 1 };
                // old_result * pow(old_base, old_exp) == (old_result * factor) * half
                assert(old_result * pow(old_base, old_exp) == (old_result * factor) * half) by {
                    lemma_mul_is_associative(old_result, factor, half);
                    lemma_mul_is_commutative(half, factor);
                }
                assert(result as int == (old_result * factor) % p) by {
                    if old_exp % 2 != 1 {
                        lemma_mul_basics(old_result);
                        lemma_small_mod(old_result as nat, p as nat);
                    }
                }
                assert(base as int == (old_base * old_base) % p);
                // reduce both factors modulo p
                lemma_pow_mod_noop(old_base * old_base, exponent as nat, p);
                lemma_mul_mod_noop(old_result * factor, half, p);
                lemma_mul_mod_noop(result as int, pow(base as int, exponent as nat), p);
                lemma_mod_twice(old_result * factor, p);
                lemma_mod_twice(half, p);
                assert(pow(base as int, exponent as nat) % p == half % p);
            }
        }
        proof {
            lemma_pow0(base as int);
            lemma_mul_basics(result as int);
            lemma_small_mod(result as nat, prime as nat);
        }
        FieldElement { num: result, prime }
    }

    /// Modular inverse via Fermat's little theorem: self^(p-2) mod p.
    /// Returns `Err` if self is zero (no inverse exists).
    pub fn inverse(&self) -> (r: Result<FieldElement, FieldError>)
        ensures
            match r {
                Ok(e) => {
                    &&& self.val() != 0
                    &&& e.modulus() == self.modulus()
                    &&& e.val() == field_inv(self.val(), self.modulus())
                    &&& field_mul(self.val(), e.val(), self.modulus()) == 1
                },
                Err(FieldError::DivisionByZero) => self.val() == 0,
                Err(_) => false,
            },
    {
        proof { use_type_invariant(self); }
        if self.num == 0 {
            return Err(FieldError::DivisionByZero);
        }
        proof { lemma_inverse(self.num as nat, self.prime as nat); }
        Ok(self.pow(self.prime - 2))
    }

    /// The text `"<value> (mod <prime>)"`, as the element is displayed.
    pub fn to_display_string(&self) -> (s: String)
        ensures
            s@ == decimal(self.val()) + seq![' ', '(', 'm', 'o', 'd', ' '] + decimal(self.modulus()) + seq![')'],
    {
        let mut s = decimal_string(self.num);
        s.append(" (mod ");
        let prime_text = decimal_string(self.prime);
        s.append(prime_text.as_str());
        s.append(")");
        proof {
            reveal_strlit(" (mod ");
            reveal_strlit(")");
        }
        s
    }

    /// Returns the raw value of this element.
    pub fn value(&self) -> (v: u64)
        ensures
            v == self.val(),
            v < self.modulus(),
    {
        proof { use_type_invariant(self); }
        self.num
    }

    /// Returns the prime modulus of this field.
    pub fn prime(&self) -> (p: u64)
        ensures
            p == self.modulus(),
            spec_is_prime(p as nat),
            self.val() < p,
    {
        proof { use_type_invariant(self); }
        self.prime
    }
}

impl Add for FieldElement {
    type Output = FieldElement;

    /// Field addition; both operands must belong to the same field.
    fn add(self, rhs: FieldElement) -> (r: FieldElement)
        ensures
            r.modulus() == self.modulus(),
            r.val() == field_add(self.val(), rhs.val(), self.modulus()),
    {
        proof {
            use_type_invariant(&self);
            use_type_invariant(&rhs);
            lemma_mod_bound(self.num as int + rhs.num as int, self.prime as int);
        }
        let sum = (self.num as u128) + (rhs.num as u128);
        FieldElement { num: (sum % (self.prime as u128)) as u64, prime: self.prime }
    }
}

impl AddSpecImpl for FieldElement {
    open spec fn obeys_add_spec() -> bool {
        true
    }

    open spec fn add_req(self, rhs: FieldElement) -> bool {
        self.modulus() == rhs.modulus()
    }

    closed spec fn add_spec(self, rhs: FieldElement) -> FieldElement {
        FieldElement {
            num: field_add(self.val(), rhs.val(), self.modulus()) as u64,
            prime: self.modulus() as u64,
        }
    }
}

impl Sub for FieldElement {
    type Output = FieldElement;

    /// Field subtraction; both operands must belong to the same field.
    fn sub(self, rhs: FieldElement) -> (r: FieldElement)
        ensures
            r.modulus() == self.modulus(),
            r.val() == field_sub(self.val(), rhs.val(), self.modulus()),
    {
        proof {
            use_type_invariant(&self);
            use_type_invariant(&rhs);
            lemma_mod_bound(self.num as int + self.prime as int - rhs.num as int, self.prime as int);
        }
        let shifted = (self.num as u128) + (self.prime as u128) - (rhs.num as u128);
        FieldElement { num: (shifted % (self.prime as u128)) as u64, prime: self.prime }
    }
}

impl SubSpecImpl for FieldElement {
    open spec fn obeys_sub_spec() -> bool {
        true
    }

    open spec fn sub_req(self, rhs: FieldElement) -> bool {
        self.modulus() == rhs.modulus()
    }

    closed spec fn sub_spec(self, rhs: FieldElement) -> FieldElement {
        FieldElement {
            num: field_sub(self.val(), rhs.val(), self.modulus()) as u64,
            prime: self.modulus() as u64,
        }
    }
}

impl Mul for FieldElement {
    type Output = FieldElement;

    /// Field multiplication; both operands must belong to the same field.
    fn mul(self, rhs: FieldElement) -> (r: FieldElement)
        ensures
            r.modulus() == self.modulus(),
            r.val() == field_mul(self.val(), rhs.val(), self.modulus()),
    {
        proof {
            use_type_invariant(&self);
            use_type_invariant(&rhs);
            lemma_mod_bound(self.num as int * rhs.num as int, self.prime as int);
        }
        FieldElement { num: mul_mod(self.num, rhs.num, self.prime), prime: self.prime }
    }
}

impl MulSpecImpl for FieldElement {
    open spec fn obeys_mul_spec() -> bool {
        true
    }

    open spec fn mul_req(self, rhs: FieldElement) -> bool {
        self.modulus() == rhs.modulus()
    }

    closed spec fn mul_spec(self, rhs: FieldElement) -> FieldElement {
        FieldElement {
            num: field_mul(self.val(), rhs.val(), self.modulus()) as u64,
            prime: self.modulus() as u64,
        }
    }
}

/// Division panics on zero divisor — use `inverse()` directly if you need
/// a `Result`-returning path.
impl Div for FieldElement {
    type Output = FieldElement;

    /// Field division: multiplication by the inverse of a nonzero divisor
    /// from the same field.
    fn div(self, rhs: FieldElement) -> (r: FieldElement)
        ensures
            r.modulus() == self.modulus(),
            r.val() == field_mul(self.val(), field_inv(rhs.val(), self.modulus()), self.modulus()),
            field_mul(r.val(), rhs.val(), self.modulus()) == self.val(),
    {
        proof {
            use_type_invariant(&self);
            use_type_invariant(&rhs);
        }
        let inv = match rhs.inverse() {
            Ok(inv) => inv,
            Err(_) => {
                proof { assert(false); }
                rhs
            },
        };
        let r = self * inv;
        proof {
            lemma_div_cancels(self.num as nat, rhs.num as nat, inv.val(), self.prime as nat);
        }
        r
    }
}

impl DivSpecImpl for FieldElement {
    open spec fn obeys_div_spec() -> bool {
        true
    }

    open spec fn div_req(self, rhs: FieldElement) -> bool {
        self.modulus() == rhs.modulus() && rhs.val() != 0
    }

    closed spec fn div_spec(self, rhs: FieldElement) -> FieldElement {
        FieldElement {
            num: field_mul(self.val(), field_inv(rhs.val(), self.modulus()), self.modulus()) as u64,
            prime: self.modulus() as u64,
        }
    }
}

/// Multiplying a quotient back by the divisor gives the dividend:
/// `((a * b') mod p) * b == a (mod p)` when `b * b' == 1 (mod p)` and `a < p`.
proof fn lemma_div_cancels(a: nat, b: nat, b_inv: nat, p: nat)
    requires
        p > 0,
        a < p,
        field_mul(b, b_inv, p) == 1,
    ensures
        field_mul(field_mul(a, b_inv, p), b, p) == a,
{
    let pi = p as int;
    lemma_mul_mod_noop_left((a * b_inv) as int, b as int, pi);
    lemma_mul_is_associative(a as int, b_inv as int, b as int);
    lemma_mul_is_commutative(b_inv as int, b as int);
    lemma_mul_mod_noop_right(a as int, (b * b_inv) as int, pi);
    lemma_mul_basics(a as int);
    lemma_small_mod(a, p);
}

/// Decides whether `n` is prime, by trial division with 2, 3 and the
/// numbers of the form 6k - 1 and 6k + 1 up to the square root of `n`.
pub fn is_prime(n: u64) -> (b: bool)
    ensures
        b == spec_is_prime(n as nat),
{
    if n < 2 {
        return false;
    }
    if n == 2 || n == 3 {
        proof {
            assert forall|d: nat| 2 <= d < n implies !#[trigger] divides(d, n as nat) by {}
        }
        return true;
    }
    if n % 2 == 0 || n % 3 == 0 {
        proof {
            if n % 2 == 0 {
                assert(divides(2, n as nat));
            } else {
                assert(divides(3, n as nat));
            }
        }
        return false;
    }
    let mut i: u64 = 5;
    proof {
        assert forall|d: nat| 2 <= d < 5 implies !#[trigger] divides(d, n as nat) by {
            if d == 4 && divides(4, n as nat) {
                lemma_divides_transitive(2, 4, n as nat);
            }
        }
    }
    while i <= n / i
        invariant
            5 <= i,
            i % 6 == 5,
            n >= 5,
            n % 2 != 0,
            n % 3 != 0,
            forall|d: nat| 2 <= d < i ==> !#[trigger] divides(d, n as nat),
        decreases n - i,
    {
        proof {
            lemma_mul_inequality(i as int, (n / i) as int, i as int);
            lemma_fundamental_div_mod(n as int, i as int);
            lemma_mul_is_commutative(i as int, (n / i) as int);
            lemma_mul_inequality(5, i as int, i as int);
        }
        assert(i * i <= n);
        if n % i == 0 || n % (i + 2) == 0 {
            proof {
                if n % i == 0 {
                    assert(divides(i as nat, n as nat));
                } else {
                    assert(divides((i + 2) as nat, n as nat));
                }
            }
            return false;
        }
        proof {
            assert forall|d: nat| 2 <= d < i + 6 implies !#[trigger] divides(d, n as nat) by {
                if d >= i && divides(d, n as nat) {
                    if d == i + 1 || d == i + 3 || d == i + 5 {
                        assert(divides(2, d));
                        lemma_divides_transitive(2, d, n as nat);
                    } else if d == i + 4 {
                        assert(divides(3, d));
                        lemma_divides_transitive(3, d, n as nat);
                    }
                }
            }
        }
        i = i + 6;
    }
    proof {
        // no divisor below i, and i * i > n
        assert(i * i > n) by {
            lemma_fundamental_div_mod(n as int, i as int);
            lemma_mul_inequality((n / i + 1) as int, i as int, i as int);
            lemma_mul_is_commutative(i as int, (n / i) as int);
            lemma_mul_is_distributive_add_other_way(i as int, (n / i) as int, 1);
        }
        assert forall|d: nat| 2 <= d < n implies !#[trigger] divides(d, n as nat) by {
            if divides(d, n as nat) {
                lemma_small_divisor(n as nat, d, i as nat);
            }
        }
    }
    true
}

} // verus!
