use curve25519_dalek::constants::RISTRETTO_BASEPOINT_POINT;
use curve25519_dalek::ristretto::CompressedRistretto;
use mpc_primitives::ot::api::{ObliviousTransferProtocol, OTSession, ReceiverPublicKey, SenderPublicKey};
use mpc_primitives::ot::group::{hash_to_bytes, xor_bytes};
use sha2::{Digest, Sha512};

const M0: &[u8; 32] = b"this is the first  message!!!!!!";
const M1: &[u8; 32] = b"this is the second message!!!!!!";

#[test]
fn run_delivers_the_first_message_for_bit_zero() {
    let result = OTSession::run(0, M0, M1);
    assert_eq!(&result.decrypted, M0);
}

#[test]
fn run_delivers_the_second_message_for_bit_one() {
    let result = OTSession::run(1, M0, M1);
    assert_eq!(&result.decrypted, M1);
}

#[test]
fn step_by_step_protocol() {
    for bit in [0u8, 1u8] {
        let sender = ObliviousTransferProtocol::initialize_sender();
        let sender_key = ObliviousTransferProtocol::sender_public_key(&sender);
        let receiver = ObliviousTransferProtocol::initialize_receiver(bit, &sender_key);
        let receiver_key = ObliviousTransferProtocol::receiver_public_key(&receiver);
        let (ready, encrypted) = ObliviousTransferProtocol::sender_encrypt(sender, &receiver_key, M0, M1);
        assert_eq!(ready.public_key(), sender_key.key);
        let receiver = ObliviousTransferProtocol::receiver_advance(receiver);
        let result = ObliviousTransferProtocol::receiver_decrypt(&receiver, &encrypted);
        let expected = if bit == 0 { M0 } else { M1 };
        assert_eq!(&result.decrypted, expected);
        // the other ciphertext does not decrypt to the other message under the receiver's key
        let other = if bit == 0 { encrypted.ciphertexts.1 } else { encrypted.ciphertexts.0 };
        let unexpected = if bit == 0 { M1 } else { M0 };
        assert_ne!(&other, unexpected);
    }
}

#[test]
fn public_points_are_fresh_multiples_of_the_basepoint() {
    let base = RISTRETTO_BASEPOINT_POINT.compress().to_bytes();
    let sender = ObliviousTransferProtocol::initialize_sender();
    let sender_key = ObliviousTransferProtocol::sender_public_key(&sender);
    assert_ne!(sender_key.key, base);
    assert!(CompressedRistretto(sender_key.key).decompress().is_some());
    let other = ObliviousTransferProtocol::initialize_sender();
    assert_ne!(ObliviousTransferProtocol::sender_public_key(&other).key, sender_key.key);
    for bit in [0u8, 1u8] {
        let receiver = ObliviousTransferProtocol::initialize_receiver(bit, &sender_key);
        let receiver_key = ObliviousTransferProtocol::receiver_public_key(&receiver);
        assert_ne!(receiver_key.key, base);
        assert_ne!(receiver_key.key, sender_key.key);
        assert!(CompressedRistretto(receiver_key.key).decompress().is_some());
    }
}

#[test]
fn ciphertexts_are_masked() {
    let sender = ObliviousTransferProtocol::initialize_sender();
    let sender_key = ObliviousTransferProtocol::sender_public_key(&sender);
    let receiver = ObliviousTransferProtocol::initialize_receiver(0, &sender_key);
    let receiver_key = ObliviousTransferProtocol::receiver_public_key(&receiver);
    let (_, encrypted) = ObliviousTransferProtocol::sender_encrypt(sender, &receiver_key, M0, M1);
    assert_ne!(&encrypted.ciphertexts.0, M0);
    assert_ne!(&encrypted.ciphertexts.1, M1);
}

#[test]
fn key_is_the_first_half_of_sha512() {
    let g = RISTRETTO_BASEPOINT_POINT.compress().to_bytes();
    let digest = Sha512::digest(g);
    let key = hash_to_bytes(&g);
    assert_eq!(&key[..], &digest[0..32]);
    assert_ne!(key, g);
}

#[test]
fn xor_masks_and_unmasks() {
    let key = [0xa5u8; 32];
    let c = xor_bytes(M0, &key);
    assert_ne!(&c, M0);
    assert_eq!(c[0], M0[0] ^ 0xa5);
    assert_eq!(&xor_bytes(&c, &key), M0);
}

#[test]
fn keys_from_bytes_accept_only_points() {
    let sender = ObliviousTransferProtocol::initialize_sender();
    let key = ObliviousTransferProtocol::sender_public_key(&sender).key;
    let sender_key = SenderPublicKey::from_bytes(key).expect("a point");
    assert_eq!(sender_key.key, key);
    assert!(SenderPublicKey::from_bytes([0xffu8; 32]).is_none());
    assert!(ReceiverPublicKey::from_bytes([0xffu8; 32]).is_none());
    // a transfer over keys that went through bytes still delivers the chosen message
    let receiver = ObliviousTransferProtocol::initialize_receiver(1, &sender_key);
    let receiver_bytes = ObliviousTransferProtocol::receiver_public_key(&receiver).key;
    let receiver_key = ReceiverPublicKey::from_bytes(receiver_bytes).expect("a point");
    let (_, encrypted) = ObliviousTransferProtocol::sender_encrypt(sender, &receiver_key, M0, M1);
    let receiver = ObliviousTransferProtocol::receiver_advance(receiver);
    assert_eq!(&ObliviousTransferProtocol::receiver_decrypt(&receiver, &encrypted).decrypted, M1);
}
