//! The sender of the oblivious transfer, as a typestate machine:
//! `Sender<Uninitialized>` publishes its key, and becomes `Sender<Ready>`
//! once it holds the receiver's key.

use vstd::prelude::*;
use std::marker::PhantomData;
use crate::ot::group::{
    is_point, is_scalar, point_mul, point_add, point_sub, key_of_point, xor_bytes_spec, sha512,
    random_scalar, ristretto_mul, ristretto_sub, hash_to_bytes, xor_bytes,
};

verus! {

/// The sender before it has the receiver's key.
pub struct Uninitialized;

/// The sender once it has the receiver's key.
pub struct Ready;

/// The sender: a secret scalar `r`, its public point `r * G`, and, once
/// ready, the receiver's point.
pub struct Sender<State> {
    scalar: [u8; 32],
    public: [u8; 32],
    receiver_point: Option<[u8; 32]>,
    _state: PhantomData<State>,
}

impl<State> Sender<State> {
    #[verifier::type_invariant]
    spec fn well_formed(self) -> bool {
        &&& is_scalar(self.scalar@)
        &&& is_point(self.public@)
        &&& self.receiver_point matches Some(r) ==> is_point(r@)
    }

    /// The sender's secret scalar.
    pub closed spec fn secret_scalar(self) -> Seq<u8> {
        self.scalar@
    }

    /// The sender's public point.
    pub closed spec fn public_point(self) -> Seq<u8> {
        self.public@
    }

    /// The receiver's point, once received.
    pub closed spec fn peer_point(self) -> Option<Seq<u8>> {
        match self.receiver_point {
            Some(r) => Some(r@),
            None => None,
        }
    }

    /// The sender's key pair is `(r, r * g)` for a valid scalar `r` and point `g`.
    pub open spec fn keys_for(self, g: Seq<u8>) -> bool {
        &&& is_scalar(self.secret_scalar())
        &&& is_point(g)
        &&& self.public_point() == point_mul(self.secret_scalar(), g)
        &&& is_point(self.public_point())
    }
}

impl Sender<Uninitialized> {
    /// Draws a fresh secret scalar `r` and computes the public point `r * generator`.
    pub fn new(generator: &[u8; 32]) -> (s: Sender<Uninitialized>)
        requires
            is_point(generator@),
        ensures
            s.keys_for(generator@),
            s.peer_point() is None,
    {
        let scalar = random_scalar();
        let public = ristretto_mul(&scalar, generator);
        Sender { scalar, public, receiver_point: None, _state: PhantomData }
    }

    /// The public point to send to the receiver.
    pub fn send(&self) -> (p: [u8; 32])
        ensures
            p@ == self.public_point(),
    {
        self.public
    }

    /// Takes the receiver's point and becomes ready to encrypt.
    pub fn receive(self, receiver_point: [u8; 32]) -> (s: Sender<Ready>)
        requires
            is_point(receiver_point@),
        ensures
            s.secret_scalar() == self.secret_scalar(),
            s.public_point() == self.public_point(),
            s.peer_point() == Some(receiver_point@),
    {
        proof { use_type_invariant(&self); }
        Sender {
            scalar: self.scalar,
            public: self.public,
            receiver_point: Some(receiver_point),
            _state: PhantomData,
        }
    }
}

impl Sender<Ready> {
    /// The sender's public point.
    pub fn public_key(&self) -> (p: [u8; 32])
        ensures
            p@ == self.public_point(),
    {
        self.public
    }

    /// Masks `m0` with the key derived from `r * R` and `m1` with the key
    /// derived from `r * (R - A)`, where `R` is the receiver's point and
    /// `A` the sender's public point.
    ///
    /// If `R == t * g` (the receiver chose 0), the first key point is
    /// `t * (r * g)`; if `R == A + t * g` (the receiver chose 1), the second
    /// key point is `t * (r * g)`.
    pub fn encrypt(&self, m0: &[u8; 32], m1: &[u8; 32]) -> (c: ([u8; 32], [u8; 32]))
        requires
            self.peer_point() is Some,
        ensures
            ({
                let r = self.secret_scalar();
                let a = self.public_point();
                let rp = self.peer_point()->Some_0;
                &&& c.0@ == xor_bytes_spec(m0@, key_of_point(point_mul(r, rp)))
                &&& c.1@ == xor_bytes_spec(m1@, key_of_point(point_mul(r, point_sub(rp, a))))
                &&& sha512(point_mul(r, rp)).len() == 64
                &&& sha512(point_mul(r, point_sub(rp, a))).len() == 64
                &&& forall|i: int| 0 <= i < 32 ==> #[trigger] c.0@[i] == m0@[i] ^ sha512(point_mul(r, rp))[i]
                &&& forall|i: int| 0 <= i < 32 ==> #[trigger] c.1@[i] == m1@[i] ^ sha512(point_mul(r, point_sub(rp, a)))[i]
                &&& forall|t: Seq<u8>, g: Seq<u8>|
                    is_scalar(t) && is_point(g) && rp == #[trigger] point_mul(t, g)
                        ==> point_mul(r, rp) == point_mul(t, point_mul(r, g))
                &&& forall|t: Seq<u8>, g: Seq<u8>|
                    is_scalar(t) && is_point(g) && is_point(point_mul(t, g))
                        && rp == #[trigger] point_add(a, point_mul(t, g))
                        ==> point_mul(r, point_sub(rp, a)) == point_mul(t, point_mul(r, g))
            }),
    {
        proof { use_type_invariant(self); }
        let r = match self.receiver_point {
            Some(r) => r,
            None => {
                proof { assert(false); }
                self.public
            },
        };
        let k0 = self.derive_key(&r);
        let diff = ristretto_sub(&r, &self.public);
        let k1 = self.derive_key(&diff);
        let c0 = xor_bytes(m0, &hash_to_bytes(&k0));
        let c1 = xor_bytes(m1, &hash_to_bytes(&k1));
        (c0, c1)
    }

    /// The shared key point `r * point`.
    fn derive_key(&self, point: &[u8; 32]) -> (k: [u8; 32])
        requires
            is_point(point@),
        ensures
            k@ == point_mul(self.secret_scalar(), point@),
            is_point(k@),
            forall|t: Seq<u8>, g: Seq<u8>|
                is_scalar(t) && is_point(g) && point@ == #[trigger] point_mul(t, g)
                    ==> k@ == point_mul(t, point_mul(self.secret_scalar(), g)),
    {
        proof { use_type_invariant(self); }
        ristretto_mul(&self.scalar, point)
    }
}

} // verus!
