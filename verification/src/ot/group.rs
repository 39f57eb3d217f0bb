//! The Ristretto group, SHA-512 and the random scalars that the protocol
//! uses, as seen by the library: points and scalars travel as their
//! canonical 32-byte encodings.

use vstd::prelude::*;
use curve25519_dalek::constants::RISTRETTO_BASEPOINT_COMPRESSED;
use curve25519_dalek::ristretto::CompressedRistretto;
use curve25519_dalek::scalar::Scalar;
use rand::rngs::OsRng;
use sha2::{Digest, Sha512};

verus! {

/// The order of the Ristretto group, `2^252 + 27742317777372353535851937790883648493`.
pub open spec fn group_order() -> nat {
    7237005577332262213973186563042994240857116359379907606001950938285454250989nat
}

/// The value of a byte string read as a little-endian number.
pub open spec fn le_value(b: Seq<u8>) -> nat
    decreases b.len(),
{
    if b.len() == 0 {
        0
    } else {
        b[0] as nat + 256 * le_value(b.drop_first())
    }
}

/// `s` is the canonical encoding of a scalar: 32 bytes whose little-endian
/// value is below the group order.
pub open spec fn is_scalar(s: Seq<u8>) -> bool {
    s.len() == 32 && le_value(s) < group_order()
}

/// Whether `CompressedRistretto(b).decompress()` succeeds, that is, whether
/// `b` is the canonical encoding of a Ristretto point.
pub uninterp spec fn is_point(b: Seq<u8>) -> bool;

/// The encoding of the scalar multiple `s * q` of the point encoded by `q`
/// (`Scalar * RistrettoPoint`, then `compress`).
pub uninterp spec fn point_mul(s: Seq<u8>, q: Seq<u8>) -> Seq<u8>;

/// The encoding of the sum of the points encoded by `a` and `b`
/// (`RistrettoPoint + RistrettoPoint`, then `compress`).
pub uninterp spec fn point_add(a: Seq<u8>, b: Seq<u8>) -> Seq<u8>;

/// The encoding of the difference of the points encoded by `a` and `b`
/// (`RistrettoPoint - RistrettoPoint`, then `compress`).
pub uninterp spec fn point_sub(a: Seq<u8>, b: Seq<u8>) -> Seq<u8>;

/// The SHA-512 digest of `data` (`sha2::Sha512::digest`).
pub uninterp spec fn sha512(data: Seq<u8>) -> Seq<u8>;

/// The byte-wise exclusive or of two 32-byte strings.
pub open spec fn xor_bytes_spec(a: Seq<u8>, b: Seq<u8>) -> Seq<u8> {
    Seq::new(32, |i: int| a[i] ^ b[i])
}

/// The 32-byte key derived from a point: the first half of the SHA-512
/// digest of its encoding.
pub open spec fn key_of_point(q: Seq<u8>) -> Seq<u8> {
    sha512(q).take(32)
}

/// A fresh random scalar: `Scalar::random` with the operating system's
/// generator, encoded by `Scalar::to_bytes`. The contract claims only that
/// the result is a canonical scalar encoding, as every output of
/// `Scalar::random` is.
#[verifier::external_body]
pub(crate) fn random_scalar() -> (s: [u8; 32])
    ensures
        is_scalar(s@),
{
    Scalar::random(&mut OsRng).to_bytes()
}

/// The encoding of the Ristretto basepoint, `RISTRETTO_BASEPOINT_COMPRESSED`;
/// it decompresses.
#[verifier::external_body]
pub(crate) fn basepoint() -> (b: [u8; 32])
    ensures
        is_point(b@),
        b@ == seq![
            0xe2u8, 0xf2, 0xae, 0x0a, 0x6a, 0xbc, 0x4e, 0x71, 0xa8, 0x84, 0xa9, 0x61, 0xc5, 0x00, 0x51, 0x5f,
            0x58, 0xe3, 0x0b, 0x6a, 0xa5, 0x82, 0xdd, 0x8d, 0xb6, 0xa6, 0x59, 0x45, 0xe0, 0x8d, 0x2d, 0x76,
        ],
{
    RISTRETTO_BASEPOINT_COMPRESSED.to_bytes()
}

/// Scalar multiplication `Scalar * RistrettoPoint` on decoded arguments
/// (`Scalar::from_canonical_bytes`, `CompressedRistretto::decompress`),
/// re-encoded with `compress`. The result is the named `point_mul`, and it is
/// a point. Because the group is cyclic, multiplying a multiple `t * g` by
/// `s` gives `t * (s * g)`; the encoding is canonical, so equal points have
/// equal encodings.
#[verifier::external_body]
pub(crate) fn ristretto_mul(s: &[u8; 32], q: &[u8; 32]) -> (r: [u8; 32])
    requires
        is_scalar(s@),
        is_point(q@),
    ensures
        r@ == point_mul(s@, q@),
        is_point(r@),
        forall|t: Seq<u8>, g: Seq<u8>|
            is_scalar(t) && is_point(g) && q@ == #[trigger] point_mul(t, g)
                ==> r@ == point_mul(t, point_mul(s@, g)),
{
    let scalar = Scalar::from_canonical_bytes(*s).unwrap();
    let point = CompressedRistretto(*q).decompress().unwrap();
    (scalar * point).compress().to_bytes()
}

/// Point addition `RistrettoPoint + RistrettoPoint` on decompressed
/// arguments, re-encoded with `compress`. The result is the named
/// `point_add`, and it is a point.
#[verifier::external_body]
pub(crate) fn ristretto_add(a: &[u8; 32], b: &[u8; 32]) -> (r: [u8; 32])
    requires
        is_point(a@),
        is_point(b@),
    ensures
        r@ == point_add(a@, b@),
        is_point(r@),
{
    let pa = CompressedRistretto(*a).decompress().unwrap();
    let pb = CompressedRistretto(*b).decompress().unwrap();
    (pa + pb).compress().to_bytes()
}

/// Point subtraction `RistrettoPoint - RistrettoPoint` on decompressed
/// arguments, re-encoded with `compress`. The result is the named
/// `point_sub`, and it is a point; subtracting `b` from `b + x` gives back
/// `x` (a point's canonical encoding is the one it decompresses from).
#[verifier::external_body]
pub(crate) fn ristretto_sub(a: &[u8; 32], b: &[u8; 32]) -> (r: [u8; 32])
    requires
        is_point(a@),
        is_point(b@),
    ensures
        r@ == point_sub(a@, b@),
        is_point(r@),
        forall|x: Seq<u8>| is_point(x) && a@ == #[trigger] point_add(b@, x) ==> r@ == x,
{
    let pa = CompressedRistretto(*a).decompress().unwrap();
    let pb = CompressedRistretto(*b).decompress().unwrap();
    (pa - pb).compress().to_bytes()
}

/// Whether `CompressedRistretto(bytes).decompress()` succeeds: the named
/// `is_point`.
#[verifier::external_body]
pub(crate) fn decompresses(bytes: &[u8; 32]) -> (b: bool)
    ensures
        b == is_point(bytes@),
{
    CompressedRistretto(*bytes).decompress().is_some()
}

/// The SHA-512 digest of `data` (`sha2::Sha512::digest`), 64 bytes long.
#[verifier::external_body]
pub(crate) fn sha512_digest(data: &[u8]) -> (h: Vec<u8>)
    ensures
        h@ == sha512(data@),
        h@.len() == 64,
{
    Sha512::digest(data).to_vec()
}

/// The key derived from a point: the first 32 bytes of the SHA-512 digest
/// of its encoding.
pub fn hash_to_bytes(point: &[u8; 32]) -> (k: [u8; 32])
    ensures
        k@ == key_of_point(point@),
        sha512(point@).len() == 64,
        forall|i: int| 0 <= i < 32 ==> #[trigger] k@[i] == sha512(point@)[i],
{
    let hash = sha512_digest(point);
    let mut result = [0u8; 32];
    let mut i: usize = 0;
    while i < 32
        invariant
            hash@ == sha512(point@),
            hash@.len() == 64,
            i <= 32,
            result@.len() == 32,
            forall|j: int| 0 <= j < i ==> result@[j] == hash@[j],
        decreases 32 - i,
    {
        result[i] = hash[i];
        i = i + 1;
    }
    assert(result@ =~= sha512(point@).take(32));
    result
}

/// Byte-wise exclusive or of two 32-byte strings.
pub fn xor_bytes(a: &[u8; 32], b: &[u8; 32]) -> (r: [u8; 32])
    ensures
        r@ == xor_bytes_spec(a@, b@),
        r@.len() == 32,
        forall|i: int| 0 <= i < 32 ==> #[trigger] r@[i] == a@[i] ^ b@[i],
{
    let mut result = [0u8; 32];
    let mut i: usize = 0;
    while i < 32
        invariant
            i <= 32,
            result@.len() == 32,
            a@.len() == 32,
            b@.len() == 32,
            forall|j: int| 0 <= j < i ==> result@[j] == a@[j] ^ b@[j],
        decreases 32 - i,
    {
        result[i] = a[i] ^ b[i];
        i = i + 1;
    }
    assert(result@ =~= xor_bytes_spec(a@, b@));
    result
}

/// Masking is byte-wise exclusive or at the same position: byte `i` of the
/// result is byte `i` of the message xor byte `i` of the key.
pub proof fn lemma_xor_bytes_at(a: Seq<u8>, b: Seq<u8>)
    ensures
        xor_bytes_spec(a, b).len() == 32,
        forall|i: int| 0 <= i < 32 ==> #[trigger] xor_bytes_spec(a, b)[i] == a[i] ^ b[i],
{
}

/// The key of a point is the first 32 bytes of the SHA-512 digest of its encoding.
pub proof fn lemma_key_of_point_at(q: Seq<u8>)
    requires
        sha512(q).len() >= 32,
    ensures
        key_of_point(q).len() == 32,
        forall|i: int| 0 <= i < 32 ==> #[trigger] key_of_point(q)[i] == sha512(q)[i],
{
}

/// Masking twice with the same key gives the message back.
pub proof fn lemma_xor_twice(m: Seq<u8>, k: Seq<u8>)
    requires
        m.len() == 32,
    ensures
        xor_bytes_spec(xor_bytes_spec(m, k), k) == m,
{
    assert forall|i: int| 0 <= i < 32 implies #[trigger] xor_bytes_spec(xor_bytes_spec(m, k), k)[i] == m[i] by {
        let x = m[i];
        let y = k[i];
        assert((x ^ y) ^ y == x) by (bit_vector);
    }
    assert(xor_bytes_spec(xor_bytes_spec(m, k), k) =~= m);
}

} // verus!
