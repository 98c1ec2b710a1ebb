//! Node identity: an Ed25519 keypair, the entity id derived from its
//! public key, packet signatures and the outbound sequence counter.
//!
//! The key arithmetic is the `ed25519-dalek` crate's; this module decides
//! what is signed and verified, and keeps the identity's parts in step:
//! the public key is the one derived from the secret key, and the entity
//! id is the SHA-256 digest of the public key.
//!
//! Signed packet prefix:
//! ```text
//! [0-31]   public_key: [u8; 32]
//! [32-95]  signature:  [u8; 64]  over (seq || timestamp || body_hash)
//! ```

use ed25519_dalek::{Signature, SignatureError, Signer, SigningKey, VerifyingKey};
use rand::rngs::OsRng;
use vstd::prelude::*;

use crate::components::EntityId;
use crate::digest::{sha256, spec_sha256};
use crate::wire::{le64, push_bytes, push_u64_le};

verus! {

/// Length of an Ed25519 public key in bytes.
pub const PUBLIC_KEY_LENGTH: usize = 32;

/// Length of an Ed25519 signature in bytes.
pub const SIGNATURE_LENGTH: usize = 64;

/// Length of the signed packet prefix: public key then signature.
pub const AUTH_PREFIX_LENGTH: usize = PUBLIC_KEY_LENGTH + SIGNATURE_LENGTH;

/// An Ed25519 public key, carried through unexamined.
#[verifier::external_type_specification]
#[verifier::external_body]
pub struct ExVerifyingKey(VerifyingKey);

/// The error `ed25519-dalek` reports for a refused key or signature.
#[verifier::external_type_specification]
#[verifier::external_body]
pub struct ExSignatureError(SignatureError);

/// The public key (compressed point, 32 bytes) that Ed25519 derives from a
/// 32-byte secret key.
pub uninterp spec fn spec_ed25519_public_key(secret: Seq<u8>) -> Seq<u8>;

/// The 64-byte Ed25519 signature of `msg` under a 32-byte secret key
/// (Ed25519 signing is deterministic).
pub uninterp spec fn spec_ed25519_sign(secret: Seq<u8>, msg: Seq<u8>) -> Seq<u8>;

/// Whether strict Ed25519 verification accepts `sig` over `msg` under the
/// public key bytes `public` (false also when those bytes are not a valid
/// curve point).
pub uninterp spec fn spec_ed25519_verify(public: Seq<u8>, msg: Seq<u8>, sig: Seq<u8>) -> bool;

/// The public key of a secret key, both as a key object and as bytes.
///
/// Trusted: builds `SigningKey::from_bytes(secret)`, takes its
/// `verifying_key()` and that key's `as_bytes()`. The claim is that the
/// bytes are a function of the secret alone (named
/// `spec_ed25519_public_key`); the key object is not described.
#[verifier::external_body]
fn public_key_of_secret(secret: &[u8; 32]) -> (r: (VerifyingKey, [u8; 32]))
    ensures
        r.1@ == spec_ed25519_public_key(secret@),
{
    let vk = SigningKey::from_bytes(secret).verifying_key();
    let bytes = *vk.as_bytes();
    (vk, bytes)
}

/// A fresh secret key from the operating system's entropy source.
///
/// Trusted: calls `SigningKey::generate(&mut OsRng)` and returns its
/// `to_bytes()`. Nothing is claimed of the bytes, which are random.
#[verifier::external_body]
fn random_secret() -> [u8; 32] {
    SigningKey::generate(&mut OsRng).to_bytes()
}

/// Check a 64-byte keypair (secret then public).
///
/// Trusted: calls `SigningKey::from_keypair_bytes`. The claim is that it
/// accepts the pair exactly when the public half equals the public key
/// derived from the secret half: the secret half always makes a signing
/// key (32 bytes), the public half is decompressed with
/// `VerifyingKey::from_bytes`, and the two keys are compared by their
/// compressed bytes; the derived key's bytes are the compression of a
/// curve point, which decompresses, so an equal public half is accepted
/// and any other is refused (by the comparison or the decompression).
#[verifier::external_body]
fn check_keypair_bytes(bytes: &[u8; 64]) -> (r: Result<(), SignatureError>)
    ensures
        r is Ok <==> bytes@.subrange(32, 64) == spec_ed25519_public_key(bytes@.subrange(0, 32)),
{
    match SigningKey::from_keypair_bytes(bytes) {
        Ok(_) => Ok(()),
        Err(e) => Err(e),
    }
}

/// Sign `msg` with a secret key.
///
/// Trusted: calls `SigningKey::from_bytes(secret).sign(msg)` (the
/// `Signer` trait) and returns the signature's `to_bytes()`. The claim is
/// that the signature is a function of the secret and the message alone
/// (named `spec_ed25519_sign`).
#[verifier::external_body]
fn ed25519_sign(secret: &[u8; 32], msg: &[u8]) -> (sig: [u8; 64])
    ensures
        sig@ == spec_ed25519_sign(secret@, msg@),
{
    SigningKey::from_bytes(secret).sign(msg).to_bytes()
}

/// Strict Ed25519 verification from raw bytes.
///
/// Trusted: decodes the key with `VerifyingKey::from_bytes` (an invalid
/// point is an error), the signature with `Signature::from_bytes`, and
/// calls `verify_strict`. The claim is that success is a function of the
/// three byte strings alone (named `spec_ed25519_verify`).
#[verifier::external_body]
fn ed25519_verify_strict(public: &[u8; 32], msg: &[u8], sig: &[u8; 64]) -> (r: Result<
    (),
    SignatureError,
>)
    ensures
        r is Ok <==> spec_ed25519_verify(public@, msg@, sig@),
{
    let vk = VerifyingKey::from_bytes(public)?;
    vk.verify_strict(msg, &Signature::from_bytes(sig))
}

/// The bytes a packet signature covers: the sequence number and the
/// timestamp (little-endian), then the body hash.
pub open spec fn packet_message(seq: u64, timestamp_ms: u64, body_hash: Seq<u8>) -> Seq<u8> {
    le64(seq) + le64(timestamp_ms) + body_hash
}

/// Build the signed bytes of a packet.
fn packet_bytes(seq: u64, timestamp_ms: u64, body_hash: &[u8; 32]) -> (data: Vec<u8>)
    ensures
        data@ == packet_message(seq, timestamp_ms, body_hash@),
{
    let mut data: Vec<u8> = Vec::new();
    push_u64_le(&mut data, seq);
    push_u64_le(&mut data, timestamp_ms);
    push_bytes(&mut data, body_hash.as_slice());
    data
}

/// A node's cryptographic identity.
pub struct NodeIdentity {
    secret: [u8; 32],
    verifying_key: VerifyingKey,
    public: [u8; 32],
    entity_id: EntityId,
    sequence_number: u64,
}

impl NodeIdentity {
    /// The secret key bytes.
    pub closed spec fn spec_secret(&self) -> Seq<u8> {
        self.secret@
    }

    /// The public key bytes.
    pub closed spec fn spec_public(&self) -> Seq<u8> {
        self.public@
    }

    /// The public key object.
    pub closed spec fn spec_verifying_key(&self) -> VerifyingKey {
        self.verifying_key
    }

    /// The entity id's bytes.
    pub closed spec fn spec_entity(&self) -> Seq<u8> {
        self.entity_id.0@
    }

    /// The next outbound sequence number.
    pub closed spec fn spec_sequence(&self) -> u64 {
        self.sequence_number
    }

    /// The identity's parts agree: the public key is derived from the
    /// secret key and the entity id is the SHA-256 digest of the public
    /// key.
    pub open spec fn wf(&self) -> bool {
        &&& self.spec_public() == spec_ed25519_public_key(self.spec_secret())
        &&& self.spec_entity() == spec_sha256(self.spec_public())
    }

    /// The identity of a secret key, with the sequence counter at 0.
    fn from_secret(secret: [u8; 32]) -> (id: Self)
        ensures
            id.wf(),
            id.spec_secret() == secret@,
            id.spec_sequence() == 0,
    {
        let (verifying_key, public) = public_key_of_secret(&secret);
        let entity_id = entity_id_from_public_key(&public);
        NodeIdentity { secret, verifying_key, public, entity_id, sequence_number: 0 }
    }

    /// A fresh identity with a random keypair.
    pub fn new() -> (id: Self)
        ensures
            id.wf(),
            id.spec_sequence() == 0,
    {
        Self::from_secret(random_secret())
    }

    /// The identity of a 32-byte seed (the Ed25519 secret key): the same
    /// seed always gives the same keys and entity id.
    pub fn from_seed(seed: &[u8; 32]) -> (id: Self)
        ensures
            id.wf(),
            id.spec_secret() == seed@,
            id.spec_public() == spec_ed25519_public_key(seed@),
            id.spec_entity() == spec_sha256(spec_ed25519_public_key(seed@)),
            id.spec_sequence() == 0,
    {
        Self::from_secret(*seed)
    }

    /// The identity of a persisted 64-byte keypair (secret then public); the
    /// pair is accepted exactly when its public half is the key derived from
    /// its secret half.
    pub fn from_keypair_bytes(bytes: &[u8; 64]) -> (r: Result<Self, SignatureError>)
        ensures
            r is Ok <==> bytes@.subrange(32, 64) == spec_ed25519_public_key(bytes@.subrange(0, 32)),
            r matches Ok(id) ==> {
                &&& id.wf()
                &&& id.spec_secret() == bytes@.subrange(0, 32)
                &&& id.spec_public() == bytes@.subrange(32, 64)
                &&& id.spec_sequence() == 0
            },
    {
        match check_keypair_bytes(bytes) {
            Ok(()) => {
                let mut secret: [u8; 32] = [0u8; 32];
                let mut i: usize = 0;
                while i < 32
                    invariant
                        i <= 32,
                        secret@.len() == 32,
                        forall|j: int| 0 <= j < i ==> secret@[j] == bytes@[j],
                    decreases 32 - i,
                {
                    secret[i] = bytes[i];
                    i = i + 1;
                }
                assert(secret@ =~= bytes@.subrange(0, 32));
                Ok(Self::from_secret(secret))
            },
            Err(e) => Err(e),
        }
    }

    /// The entity id: the SHA-256 digest of the public key.
    pub fn entity_id(&self) -> (e: EntityId)
        ensures
            e.0@ == self.spec_entity(),
            self.wf() ==> e.0@ == spec_sha256(self.spec_public()),
    {
        self.entity_id
    }

    /// The public key.
    pub fn public_key(&self) -> (k: &VerifyingKey)
        ensures
            *k == self.spec_verifying_key(),
    {
        &self.verifying_key
    }

    /// The public key bytes.
    pub fn public_key_bytes(&self) -> (b: [u8; 32])
        ensures
            b@ == self.spec_public(),
    {
        self.public
    }

    /// The secret key bytes.
    pub fn secret_key_bytes(&self) -> (b: [u8; 32])
        ensures
            b@ == self.spec_secret(),
    {
        self.secret
    }

    /// Sign a message with this identity's secret key.
    pub fn sign(&self, message: &[u8]) -> (sig: [u8; 64])
        ensures
            sig@ == spec_ed25519_sign(self.spec_secret(), message@),
    {
        ed25519_sign(&self.secret, message)
    }

    /// Sign a packet: the signature covers the sequence number, the
    /// timestamp and the body hash, binding it to one packet.
    pub fn sign_packet(&self, seq: u64, timestamp_ms: u64, body_hash: &[u8; 32]) -> (sig: [u8; 64])
        ensures
            sig@ == spec_ed25519_sign(
                self.spec_secret(),
                packet_message(seq, timestamp_ms, body_hash@),
            ),
    {
        let data = packet_bytes(seq, timestamp_ms, body_hash);
        self.sign(data.as_slice())
    }

    /// Take the next outbound sequence number and advance the counter.
    pub fn next_sequence(&mut self) -> (seq: u64)
        requires
            old(self).spec_sequence() < u64::MAX,
        ensures
            seq == old(self).spec_sequence(),
            final(self).spec_sequence() == old(self).spec_sequence() + 1,
            final(self).spec_secret() == old(self).spec_secret(),
            final(self).spec_public() == old(self).spec_public(),
            final(self).spec_entity() == old(self).spec_entity(),
            final(self).spec_verifying_key() == old(self).spec_verifying_key(),
    {
        let seq = self.sequence_number;
        self.sequence_number = seq + 1;
        seq
    }

    /// Replace the keypair by a fresh random one and restart the sequence
    /// counter; returns the old public key for certificate chains.
    pub fn rotate(&mut self) -> (old_key: VerifyingKey)
        ensures
            old_key == old(self).spec_verifying_key(),
            final(self).wf(),
            final(self).spec_sequence() == 0,
    {
        let old_key = self.verifying_key;
        *self = Self::from_secret(random_secret());
        old_key
    }
}

impl Default for NodeIdentity {
    fn default() -> (id: Self)
        ensures
            id.wf(),
            id.spec_sequence() == 0,
    {
        Self::new()
    }
}

/// Verify an Ed25519 signature (strictly) against a public key and a
/// message.
pub fn verify_signature(
    public_key: &[u8; 32],
    message: &[u8],
    signature: &[u8; 64],
) -> (r: Result<(), SignatureError>)
    ensures
        r is Ok <==> spec_ed25519_verify(public_key@, message@, signature@),
{
    ed25519_verify_strict(public_key, message, signature)
}

/// Verify a packet signature over the sequence number, the timestamp and
/// the body hash.
pub fn verify_packet_signature(
    public_key: &[u8; 32],
    seq: u64,
    timestamp_ms: u64,
    body_hash: &[u8; 32],
    signature: &[u8; 64],
) -> (r: Result<(), SignatureError>)
    ensures
        r is Ok <==> spec_ed25519_verify(
            public_key@,
            packet_message(seq, timestamp_ms, body_hash@),
            signature@,
        ),
{
    let data = packet_bytes(seq, timestamp_ms, body_hash);
    verify_signature(public_key, data.as_slice(), signature)
}

/// The entity id of a public key: its SHA-256 digest.
pub fn entity_id_from_public_key(public_key: &[u8; 32]) -> (e: EntityId)
    ensures
        e.0@ == spec_sha256(public_key@),
{
    EntityId(sha256(public_key.as_slice()))
}

} // verus!
