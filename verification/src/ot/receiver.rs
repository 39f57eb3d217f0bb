//! The receiver of the oblivious transfer, as a typestate machine:
//! `Receiver<FirstPhase>` publishes a point that hides its choice bit, and
//! `Receiver<SecondPhase>` decrypts the message it chose.

use vstd::prelude::*;
use std::marker::PhantomData;
use crate::ot::group::{
    is_point, is_scalar, point_mul, point_add, key_of_point, xor_bytes_spec, sha512, le_value,
    random_scalar, ristretto_mul, ristretto_add, hash_to_bytes, xor_bytes, sha512_digest,
};

verus! {

/// The receiver before it has the sender's ciphertexts.
pub struct FirstPhase;

/// The receiver once it has the sender's ciphertexts.
pub struct SecondPhase {
    encrypted_tuple: [u8; 32],
}

/// The receiver: its choice bit, a secret scalar `s`, the public point it
/// sends, and the sender's public point `A`.
pub struct Receiver<State> {
    scalar: [u8; 32],
    public_key: [u8; 32],
    chosen_bit: u8,
    received_spk: [u8; 32],
    _state: PhantomData<State>,
}

impl<State> Receiver<State> {
    #[verifier::type_invariant]
    spec fn well_formed(self) -> bool {
        &&& is_scalar(self.scalar@)
        &&& is_point(self.public_key@)
        &&& is_point(self.received_spk@)
        &&& self.chosen_bit <= 1
    }

    /// The receiver's secret scalar.
    pub closed spec fn secret_scalar(self) -> Seq<u8> {
        self.scalar@
    }

    /// The point the receiver sends.
    pub closed spec fn public_point(self) -> Seq<u8> {
        self.public_key@
    }

    /// The receiver's choice bit.
    pub closed spec fn choice(self) -> u8 {
        self.chosen_bit
    }

    /// The sender's public point.
    pub closed spec fn sender_point(self) -> Seq<u8> {
        self.received_spk@
    }

    /// The receiver's state is well formed for generator `g`: a valid
    /// scalar `s`, a choice bit, and the point `s * g` (bit 0) or
    /// `A + s * g` (bit 1).
    pub open spec fn keys_for(self, g: Seq<u8>) -> bool {
        &&& is_scalar(self.secret_scalar())
        &&& is_point(g)
        &&& is_point(self.sender_point())
        &&& self.choice() <= 1
        &&& is_point(point_mul(self.secret_scalar(), g))
        &&& is_point(self.public_point())
        &&& self.public_point() == if self.choice() == 0 {
            point_mul(self.secret_scalar(), g)
        } else {
            point_add(self.sender_point(), point_mul(self.secret_scalar(), g))
        }
    }
}

impl Receiver<FirstPhase> {
    /// Draws a fresh secret scalar `s` and computes the point to send:
    /// `s * generator` to choose message 0, `A + s * generator` to choose
    /// message 1, where `A` is the sender's public point.
    pub fn new(chosen_bit: u8, generator: &[u8; 32], received_spk: &[u8; 32]) -> (r: Receiver<FirstPhase>)
        requires
            chosen_bit <= 1,
            is_point(generator@),
            is_point(received_spk@),
        ensures
            r.keys_for(generator@),
            r.choice() == chosen_bit,
            r.sender_point() == received_spk@,
    {
        let scalar = random_scalar();
        let blinding = ristretto_mul(&scalar, generator);
        let public_key = if chosen_bit == 0 {
            blinding
        } else {
            ristretto_add(received_spk, &blinding)
        };
        Receiver {
            scalar,
            public_key,
            chosen_bit,
            received_spk: *received_spk,
            _state: PhantomData,
        }
    }

    /// The point to send to the sender.
    pub fn send(&self) -> (p: [u8; 32])
        ensures
            p@ == self.public_point(),
    {
        self.public_key
    }

    /// Moves on to the decryption phase.
    pub fn receive(self) -> (r: Receiver<SecondPhase>)
        ensures
            r.secret_scalar() == self.secret_scalar(),
            r.public_point() == self.public_point(),
            r.choice() == self.choice(),
            r.sender_point() == self.sender_point(),
    {
        proof { use_type_invariant(&self); }
        Receiver {
            scalar: self.scalar,
            public_key: self.public_key,
            chosen_bit: self.chosen_bit,
            received_spk: self.received_spk,
            _state: PhantomData,
        }
    }
}

impl Receiver<SecondPhase> {
    /// The first 8 bytes of the SHA-512 digest of a point's encoding, read
    /// as a little-endian number.
    #[allow(dead_code)]
    fn hash_to_u64(&self, point: &[u8; 32]) -> (v: u64)
        ensures
            v as nat == le_value(sha512(point@).take(8)),
    {
        let hash = sha512_digest(point);
        let mut v: u64 = 0;
        let mut i: usize = 8;
        proof {
            assert(sha512(point@).take(8).subrange(8, 8) =~= Seq::<u8>::empty());
        }
        while i > 0
            invariant
                i <= 8,
                hash@ == sha512(point@),
                hash@.len() == 64,
                v as nat == le_value(sha512(point@).take(8).subrange(i as int, 8)),
                v < pow256((8 - i) as nat),
            decreases i,
        {
            let ghost suffix = sha512(point@).take(8).subrange(i as int, 8);
            i = i - 1;
            let ghost longer = sha512(point@).take(8).subrange(i as int, 8);
            proof {
                assert(longer.drop_first() =~= suffix);
                assert(longer[0] == hash@[i as int]);
                lemma_pow256_step((8 - (i + 1)) as nat);
                assert(v * 256 + 255 < pow256((8 - i) as nat)) by (nonlinear_arith)
                    requires
                        v < pow256((8 - (i + 1)) as nat),
                        pow256((8 - i) as nat) == 256 * pow256((8 - (i + 1)) as nat),
                {}
                assert(pow256(8) == 0x1_0000_0000_0000_0000) by {
                    reveal_with_fuel(pow256, 9);
                }
                lemma_pow256_monotone((8 - i) as nat, 8);
            }
            v = v * 256 + hash[i] as u64;
        }
        proof {
            assert(sha512(point@).take(8).subrange(0, 8) =~= sha512(point@).take(8));
        }
        v
    }

    /// Recovers the chosen message: unmasks ciphertext `b` with the key
    /// derived from `s * A`.
    pub fn decrypt(&self, encrypted_tuple: &([u8; 32], [u8; 32])) -> (m: [u8; 32])
        ensures
            m@ == xor_bytes_spec(
                if self.choice() == 0 { encrypted_tuple.0@ } else { encrypted_tuple.1@ },
                key_of_point(point_mul(self.secret_scalar(), self.sender_point())),
            ),
            sha512(point_mul(self.secret_scalar(), self.sender_point())).len() == 64,
            forall|i: int| 0 <= i < 32 ==> #[trigger] m@[i]
                == (if self.choice() == 0 { encrypted_tuple.0@[i] } else { encrypted_tuple.1@[i] })
                    ^ sha512(point_mul(self.secret_scalar(), self.sender_point()))[i],
    {
        proof { use_type_invariant(self); }
        let k_point = ristretto_mul(&self.scalar, &self.received_spk);
        let key = hash_to_bytes(&k_point);
        if self.chosen_bit == 0 {
            xor_bytes(&encrypted_tuple.0, &key)
        } else {
            xor_bytes(&encrypted_tuple.1, &key)
        }
    }
}

/// `256^n`
pub open spec fn pow256(n: nat) -> nat
    decreases n,
{
    if n == 0 {
        1
    } else {
        256 * pow256((n - 1) as nat)
    }
}

proof fn lemma_pow256_step(n: nat)
    ensures
        pow256(n + 1) == 256 * pow256(n),
{
}

proof fn lemma_pow256_monotone(a: nat, b: nat)
    requires
        a <= b,
    ensures
        pow256(a) <= pow256(b),
    decreases b,
{
    if a < b {
        lemma_pow256_monotone(a, (b - 1) as nat);
    }
}

} // verus!
