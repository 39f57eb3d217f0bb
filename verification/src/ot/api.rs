//! The protocol's public interface: a step-by-step orchestrator and a
//! one-call session.

use vstd::prelude::*;
use crate::ot::group::{is_point, is_scalar, point_mul, key_of_point, sha512, xor_bytes_spec, basepoint, lemma_xor_twice, decompresses};
use crate::ot::sender::{Sender, Uninitialized, Ready};
use crate::ot::receiver::{Receiver, FirstPhase, SecondPhase};

verus! {

/// The sender's public key, sent to the receiver at the start of the protocol.
pub struct SenderPublicKey {
    pub key: [u8; 32],
}

/// The receiver's public key, sent back to the sender.
pub struct ReceiverPublicKey {
    pub key: [u8; 32],
}

impl SenderPublicKey {
    /// The sender's key with the given encoding, if it is the encoding of a point.
    pub fn from_bytes(bytes: [u8; 32]) -> (k: Option<SenderPublicKey>)
        ensures
            k is Some <==> is_point(bytes@),
            k matches Some(key) ==> key.key == bytes,
    {
        if decompresses(&bytes) {
            Some(SenderPublicKey { key: bytes })
        } else {
            None
        }
    }
}

impl ReceiverPublicKey {
    /// The receiver's key with the given encoding, if it is the encoding of a point.
    pub fn from_bytes(bytes: [u8; 32]) -> (k: Option<ReceiverPublicKey>)
        ensures
            k is Some <==> is_point(bytes@),
            k matches Some(key) ==> key.key == bytes,
    {
        if decompresses(&bytes) {
            Some(ReceiverPublicKey { key: bytes })
        } else {
            None
        }
    }
}

/// The two encrypted messages produced by the sender.
pub struct EncryptedMessages {
    pub ciphertexts: ([u8; 32], [u8; 32]),
}

/// The decrypted result obtained by the receiver.
pub struct OTResult {
    pub decrypted: [u8; 32],
}

/// Step-by-step orchestrator for the Chou-Orlandi OT protocol.
///
/// Use this when you need explicit control over each protocol step —
/// for example, when sender and receiver are on separate machines and
/// messages are passed over a network.
pub struct ObliviousTransferProtocol;

/// The encoding of the Ristretto basepoint, the protocol's generator.
pub open spec fn generator() -> Seq<u8> {
    seq![
        0xe2u8, 0xf2, 0xae, 0x0a, 0x6a, 0xbc, 0x4e, 0x71, 0xa8, 0x84, 0xa9, 0x61, 0xc5, 0x00, 0x51, 0x5f,
        0x58, 0xe3, 0x0b, 0x6a, 0xa5, 0x82, 0xdd, 0x8d, 0xb6, 0xa6, 0x59, 0x45, 0xe0, 0x8d, 0x2d, 0x76,
    ]
}

impl ObliviousTransferProtocol {
    /// Step 1: Sender generates its keypair.
    pub fn initialize_sender() -> (s: Sender<Uninitialized>)
        ensures
            s.keys_for(generator()),
            s.peer_point() is None,
    {
        Sender::new(&basepoint())
    }

    /// Step 2: Extract sender's public key to send to the receiver.
    pub fn sender_public_key(sender: &Sender<Uninitialized>) -> (k: SenderPublicKey)
        ensures
            k.key@ == sender.public_point(),
    {
        SenderPublicKey { key: sender.send() }
    }

    /// Step 3: Receiver initializes with its choice bit and the sender's public key.
    pub fn initialize_receiver(chosen_bit: u8, sender_key: &SenderPublicKey) -> (r: Receiver<FirstPhase>)
        requires
            chosen_bit <= 1,
            is_point(sender_key.key@),
        ensures
            r.keys_for(generator()),
            r.choice() == chosen_bit,
            r.sender_point() == sender_key.key@,
    {
        Receiver::new(chosen_bit, &basepoint(), &sender_key.key)
    }

    /// Step 4: Extract receiver's public key to send back to the sender.
    pub fn receiver_public_key(receiver: &Receiver<FirstPhase>) -> (k: ReceiverPublicKey)
        ensures
            k.key@ == receiver.public_point(),
    {
        ReceiverPublicKey { key: receiver.send() }
    }

    /// Step 5: Sender receives the receiver's public key and encrypts both messages.
    pub fn sender_encrypt(
        sender: Sender<Uninitialized>,
        receiver_key: &ReceiverPublicKey,
        m0: &[u8; 32],
        m1: &[u8; 32],
    ) -> (out: (Sender<Ready>, EncryptedMessages))
        requires
            is_point(receiver_key.key@),
        ensures
            out.0.secret_scalar() == sender.secret_scalar(),
            out.0.public_point() == sender.public_point(),
            out.0.peer_point() == Some(receiver_key.key@),
            out.1.ciphertexts.0@ == xor_bytes_spec(
                m0@, key_of_point(point_mul(sender.secret_scalar(), receiver_key.key@))),
            out.1.ciphertexts.1@ == xor_bytes_spec(
                m1@, key_of_point(point_mul(sender.secret_scalar(),
                    crate::ot::group::point_sub(receiver_key.key@, sender.public_point())))),
            forall|i: int| 0 <= i < 32 ==> #[trigger] out.1.ciphertexts.0@[i]
                == m0@[i] ^ sha512(point_mul(sender.secret_scalar(), receiver_key.key@))[i],
            forall|i: int| 0 <= i < 32 ==> #[trigger] out.1.ciphertexts.1@[i]
                == m1@[i] ^ sha512(point_mul(sender.secret_scalar(),
                    crate::ot::group::point_sub(receiver_key.key@, sender.public_point())))[i],
            forall|g: Seq<u8>|
                is_point(g) && sender.public_point() == #[trigger] point_mul(sender.secret_scalar(), g)
                    ==> sent_to_chooser(g, sender.secret_scalar(), receiver_key.key@, m0@, m1@, out.1.ciphertexts),
    {
        let sender_ready = sender.receive(receiver_key.key);
        let ciphertexts = sender_ready.encrypt(m0, m1);
        proof {
            assert forall|g: Seq<u8>|
                is_point(g) && sender.public_point() == #[trigger] point_mul(sender.secret_scalar(), g)
                    implies sent_to_chooser(g, sender.secret_scalar(), receiver_key.key@, m0@, m1@, ciphertexts) by {
                lemma_encrypt_serves_choice(sender_ready, g, receiver_key.key@, m0@, m1@, ciphertexts);
            }
        }
        (sender_ready, EncryptedMessages { ciphertexts })
    }

    /// Step 6: Receiver advances to the decryption phase.
    pub fn receiver_advance(receiver: Receiver<FirstPhase>) -> (r: Receiver<SecondPhase>)
        ensures
            r.secret_scalar() == receiver.secret_scalar(),
            r.public_point() == receiver.public_point(),
            r.choice() == receiver.choice(),
            r.sender_point() == receiver.sender_point(),
    {
        receiver.receive()
    }

    /// Step 7: Receiver decrypts the message corresponding to its chosen bit.
    pub fn receiver_decrypt(receiver: &Receiver<SecondPhase>, encrypted: &EncryptedMessages) -> (r: OTResult)
        ensures
            r.decrypted@ == xor_bytes_spec(
                if receiver.choice() == 0 { encrypted.ciphertexts.0@ } else { encrypted.ciphertexts.1@ },
                key_of_point(point_mul(receiver.secret_scalar(), receiver.sender_point())),
            ),
            forall|i: int| 0 <= i < 32 ==> #[trigger] r.decrypted@[i]
                == (if receiver.choice() == 0 { encrypted.ciphertexts.0@[i] } else { encrypted.ciphertexts.1@[i] })
                    ^ sha512(point_mul(receiver.secret_scalar(), receiver.sender_point()))[i],
    {
        OTResult { decrypted: receiver.decrypt(&encrypted.ciphertexts) }
    }
}

/// The ciphertexts a sender with secret `r` produced for the receiver point
/// `rp` and messages `m0`, `m1` let a receiver that chose bit `b` with
/// scalar `s` unmask `m_b`: whenever `rp` is `s * g` (bit 0) or
/// `r * g + s * g` (bit 1), ciphertext `b` is `m_b` masked with the key of
/// `s * (r * g)`, the point the receiver derives from the sender's `r * g`.
pub open spec fn sent_to_chooser(g: Seq<u8>, r: Seq<u8>, rp: Seq<u8>, m0: Seq<u8>, m1: Seq<u8>, c: ([u8; 32], [u8; 32])) -> bool {
    forall|s: Seq<u8>, b: u8|
        #![trigger chooser_point(g, r, s, b)]
        is_scalar(s) && b <= 1 && is_point(point_mul(s, g)) && rp == chooser_point(g, r, s, b)
            ==> (if b == 0 { c.0@ } else { c.1@ })
                == xor_bytes_spec(if b == 0 { m0 } else { m1 }, key_of_point(point_mul(s, point_mul(r, g))))
}

/// The point a receiver with scalar `s` and choice `b` sends to a sender
/// with secret `r`, both over the generator `g`.
pub open spec fn chooser_point(g: Seq<u8>, r: Seq<u8>, s: Seq<u8>, b: u8) -> Seq<u8> {
    if b == 0 {
        point_mul(s, g)
    } else {
        crate::ot::group::point_add(point_mul(r, g), point_mul(s, g))
    }
}

/// What `Sender::encrypt` states, instantiated for the generator `g` of the sender's key.
proof fn lemma_encrypt_serves_choice(
    sender: Sender<Ready>,
    g: Seq<u8>,
    rp: Seq<u8>,
    m0: Seq<u8>,
    m1: Seq<u8>,
    c: ([u8; 32], [u8; 32]),
)
    requires
        is_point(g),
        sender.public_point() == point_mul(sender.secret_scalar(), g),
        sender.peer_point() == Some(rp),
        ({
            let r = sender.secret_scalar();
            let a = sender.public_point();
            &&& c.0@ == xor_bytes_spec(m0, key_of_point(point_mul(r, rp)))
            &&& c.1@ == xor_bytes_spec(m1, key_of_point(point_mul(r, crate::ot::group::point_sub(rp, a))))
            &&& forall|t: Seq<u8>, h: Seq<u8>|
                is_scalar(t) && is_point(h) && rp == #[trigger] point_mul(t, h)
                    ==> point_mul(r, rp) == point_mul(t, point_mul(r, h))
            &&& forall|t: Seq<u8>, h: Seq<u8>|
                is_scalar(t) && is_point(h) && is_point(point_mul(t, h))
                    && rp == #[trigger] crate::ot::group::point_add(a, point_mul(t, h))
                    ==> point_mul(r, crate::ot::group::point_sub(rp, a)) == point_mul(t, point_mul(r, h))
        }),
    ensures
        sent_to_chooser(g, sender.secret_scalar(), rp, m0, m1, c),
{
    let r = sender.secret_scalar();
    assert forall|s: Seq<u8>, b: u8|
        #![trigger chooser_point(g, r, s, b)]
        is_scalar(s) && b <= 1 && is_point(point_mul(s, g)) && rp == chooser_point(g, r, s, b)
        implies (if b == 0 { c.0@ } else { c.1@ })
            == xor_bytes_spec(if b == 0 { m0 } else { m1 }, key_of_point(point_mul(s, point_mul(r, g)))) by {
        if b == 0 {
            assert(rp == point_mul(s, g));
        } else {
            assert(rp == crate::ot::group::point_add(sender.public_point(), point_mul(s, g)));
        }
    }
}

/// High-level convenience API — runs the full protocol in a single call.
///
/// Both sender and receiver are simulated in the same process.
/// Use [`ObliviousTransferProtocol`] directly for distributed scenarios.
pub struct OTSession;

impl OTSession {
    /// Run the full 1-of-2 OT protocol.
    ///
    /// # Arguments
    /// - `chosen_bit`: `0` or `1` — which message the receiver wants
    /// - `m0`: the sender's first message (32 bytes)
    /// - `m1`: the sender's second message (32 bytes)
    ///
    /// # Returns
    /// [`OTResult`] containing the decrypted message for `chosen_bit`.
    pub fn run(chosen_bit: u8, m0: &[u8; 32], m1: &[u8; 32]) -> (r: OTResult)
        requires
            chosen_bit <= 1,
        ensures
            r.decrypted@ == if chosen_bit == 0 { m0@ } else { m1@ },
    {
        let sender = ObliviousTransferProtocol::initialize_sender();
        let sender_key = ObliviousTransferProtocol::sender_public_key(&sender);

        let receiver = ObliviousTransferProtocol::initialize_receiver(chosen_bit, &sender_key);
        let receiver_key = ObliviousTransferProtocol::receiver_public_key(&receiver);

        let (_, encrypted) = ObliviousTransferProtocol::sender_encrypt(sender, &receiver_key, m0, m1);

        let receiver_ready = ObliviousTransferProtocol::receiver_advance(receiver);
        let result = ObliviousTransferProtocol::receiver_decrypt(&receiver_ready, &encrypted);
        proof {
            let r = sender.secret_scalar();
            let s = receiver.secret_scalar();
            assert(sender.public_point() == point_mul(r, generator()));
            assert(receiver_key.key@ == chooser_point(generator(), r, s, chosen_bit));
            lemma_xor_twice(m0@, key_of_point(point_mul(s, point_mul(r, generator()))));
            lemma_xor_twice(m1@, key_of_point(point_mul(s, point_mul(r, generator()))));
        }
        result
    }
}

} // verus!
