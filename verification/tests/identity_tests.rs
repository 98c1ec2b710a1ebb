use ed25519_dalek::Signature;
use neuron_wire::identity::{
    entity_id_from_public_key, verify_packet_signature, verify_signature, NodeIdentity,
    AUTH_PREFIX_LENGTH, PUBLIC_KEY_LENGTH, SIGNATURE_LENGTH,
};
use sha2::{Digest, Sha256};

#[test]
fn test_identity_creation() {
    let id = NodeIdentity::new();
    let eid = id.entity_id();
    let pk = id.public_key_bytes();
    let derived = entity_id_from_public_key(&pk);
    assert_eq!(eid, derived, "EntityId must derive from public key");
}

#[test]
fn test_sign_and_verify() {
    let id = NodeIdentity::new();
    let message = b"hello world";
    let signature = Signature::from_bytes(&id.sign(message));
    assert!(
        id.public_key().verify_strict(message, &signature).is_ok(),
        "signature must verify"
    );
}

#[test]
fn test_sign_and_verify_bytes() {
    let id = NodeIdentity::new();
    let message = b"test packet data";
    let sig_bytes: [u8; SIGNATURE_LENGTH] = id.sign(message);
    let pk_bytes = id.public_key_bytes();

    let result = verify_signature(&pk_bytes, message, &sig_bytes);
    assert!(result.is_ok(), "verification via bytes must succeed");
}

#[test]
fn test_packet_signature() {
    let id = NodeIdentity::new();
    let body_hash: [u8; 32] = Sha256::digest(b"payload data").into();
    let sig_bytes: [u8; SIGNATURE_LENGTH] = id.sign_packet(42, 1_234_567_890, &body_hash);
    let pk_bytes = id.public_key_bytes();

    let result = verify_packet_signature(&pk_bytes, 42, 1_234_567_890, &body_hash, &sig_bytes);
    assert!(result.is_ok(), "packet signature must verify");

    let wrong = verify_packet_signature(&pk_bytes, 43, 1_234_567_890, &body_hash, &sig_bytes);
    assert!(wrong.is_err(), "wrong seq must fail verification");

    let wrong_hash: [u8; 32] = Sha256::digest(b"tampered").into();
    let wrong = verify_packet_signature(&pk_bytes, 42, 1_234_567_890, &wrong_hash, &sig_bytes);
    assert!(wrong.is_err(), "tampered hash must fail verification");
}

#[test]
fn test_deterministic_seed() {
    let seed = [0xABu8; 32];
    let id1 = NodeIdentity::from_seed(&seed);
    let id2 = NodeIdentity::from_seed(&seed);
    assert_eq!(id1.entity_id(), id2.entity_id(), "same seed must produce same identity");
    assert_eq!(
        id1.public_key_bytes(),
        id2.public_key_bytes(),
        "same seed must produce same public key"
    );
}

#[test]
fn test_sequence_number() {
    let mut id = NodeIdentity::new();
    assert_eq!(id.next_sequence(), 0);
    assert_eq!(id.next_sequence(), 1);
    assert_eq!(id.next_sequence(), 2);
    assert_eq!(id.next_sequence(), 3);
}

#[test]
fn test_identity_rotate() {
    let mut id = NodeIdentity::new();
    let old_eid = id.entity_id();
    let old_pk = id.public_key_bytes();

    let _old_vk = id.rotate();
    let new_pk = id.public_key_bytes();

    assert_ne!(old_eid, id.entity_id(), "rotation must change EntityId");
    assert_ne!(old_pk, new_pk, "rotation must change public key");
    assert_eq!(id.next_sequence(), 0, "rotation must reset sequence");
}

#[test]
fn rfc8032_first_test_vector() {
    let seed: [u8; 32] = [
        0x9d, 0x61, 0xb1, 0x9d, 0xef, 0xfd, 0x5a, 0x60, 0xba, 0x84, 0x4a, 0xf4, 0x92, 0xec,
        0x2c, 0xc4, 0x44, 0x49, 0xc5, 0x69, 0x7b, 0x32, 0x69, 0x19, 0x70, 0x3b, 0xac, 0x03,
        0x1c, 0xae, 0x7f, 0x60,
    ];
    let id = NodeIdentity::from_seed(&seed);
    let pk = id.public_key_bytes();
    assert_eq!(pk[0], 0xd7);
    assert_eq!(pk[31], 0x1a);
    assert_eq!(id.secret_key_bytes(), seed);
    let sig = id.sign(b"");
    assert_eq!(sig[0], 0xe5);
    assert_eq!(sig[63], 0x0b);
    let expected: [u8; 32] = Sha256::digest(pk).into();
    assert_eq!(id.entity_id().0, expected);
}

#[test]
fn keypair_bytes_must_match() {
    let id = NodeIdentity::from_seed(&[7u8; 32]);
    let mut kp = [0u8; 64];
    kp[..32].copy_from_slice(&id.secret_key_bytes());
    kp[32..].copy_from_slice(&id.public_key_bytes());
    let loaded = NodeIdentity::from_keypair_bytes(&kp).unwrap();
    assert_eq!(loaded.public_key_bytes(), id.public_key_bytes());
    assert_eq!(loaded.entity_id(), id.entity_id());
    kp[40] ^= 1;
    assert!(NodeIdentity::from_keypair_bytes(&kp).is_err());
}

#[test]
fn lengths() {
    assert_eq!(PUBLIC_KEY_LENGTH, 32);
    assert_eq!(SIGNATURE_LENGTH, 64);
    assert_eq!(AUTH_PREFIX_LENGTH, 96);
}
