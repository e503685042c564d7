//! What the library takes from other crates and from the operating system.
//!
//! The contracts in this module are believed, not proved: each one says in its
//! comment which outside function stands behind it and what is claimed of it.

use ed25519_dalek::{Signature, Signer, SigningKey, Verifier, VerifyingKey};
use sha2::{Digest, Sha256};
use std::time::{Duration, SystemTime};
use uuid::Uuid;
use vstd::prelude::*;

verus! {

// ---------------------------------------------------------------------------
// Hashing
// ---------------------------------------------------------------------------

/// The SHA-256 digest of a byte sequence.
pub uninterp spec fn sha256(data: Seq<u8>) -> Seq<u8>;

/// `sha2::Sha256`: feeding all of `data` to a new hasher and finishing it gives
/// the SHA-256 digest of `data`, a function of `data` alone.
#[verifier::external_body]
pub(crate) fn sha256_digest(data: &Vec<u8>) -> (digest: [u8; 32])
    ensures
        digest@ == sha256(data@),
{
    let mut hasher = Sha256::new();
    hasher.update(data);
    hasher.finalize().into()
}

// ---------------------------------------------------------------------------
// Hexadecimal text
// ---------------------------------------------------------------------------

/// The lower-case hexadecimal digit of a value below sixteen.
pub open spec fn hex_digit(value: int) -> char {
    if value < 10 {
        (value + 48) as char
    } else {
        (value + 87) as char
    }
}

/// Two lower-case hexadecimal digits for each byte, the high half first.
pub open spec fn hex_text(data: Seq<u8>) -> Seq<char> {
    Seq::new(
        2 * data.len(),
        |i: int|
            if i % 2 == 0 {
                hex_digit(data[i / 2] as int / 16)
            } else {
                hex_digit(data[i / 2] as int % 16)
            },
    )
}

/// `hex::encode`: two lower-case digits for each byte, the high half first.
#[verifier::external_body]
pub(crate) fn hex_encode(data: &[u8; 32]) -> (text: String)
    ensures
        text@ == hex_text(data@),
{
    hex::encode(data)
}

// ---------------------------------------------------------------------------
// Identifiers
// ---------------------------------------------------------------------------

/// The sixteen bytes of an identifier, the most significant one first.
pub open spec fn id_bytes(id: u128) -> Seq<u8> {
    vstd::bytes::spec_u128_to_le_bytes(id).reverse()
}

/// The hyphenated form of an identifier: its 32 hexadecimal digits in groups of
/// 8, 4, 4, 4 and 12.
pub open spec fn id_text(id: u128) -> Seq<char> {
    let digits = hex_text(id_bytes(id));
    digits.subrange(0, 8) + seq!['-'] + digits.subrange(8, 12) + seq!['-'] + digits.subrange(12, 16)
        + seq!['-'] + digits.subrange(16, 20) + seq!['-'] + digits.subrange(20, 32)
}

/// `uuid::Uuid::into_bytes` on the identifier with the given value: its bytes
/// in big-endian order.
#[verifier::external_body]
pub(crate) fn id_to_bytes(id: u128) -> (bytes: [u8; 16])
    ensures
        bytes@ == id_bytes(id),
{
    Uuid::from_u128(id).into_bytes()
}

/// `uuid::Uuid`'s display form of the identifier with the given value: the
/// hyphenated lower-case form.
#[verifier::external_body]
pub(crate) fn id_to_text(id: u128) -> (text: String)
    ensures
        text@ == id_text(id),
{
    Uuid::from_u128(id).to_string()
}

/// Whether an identifier has the form of the time-ordered ones: its version field
/// says seven, and its variant field is the standard one.
pub open spec fn time_ordered(id: u128) -> bool {
    id_bytes(id)[6] as int / 16 == 7 && id_bytes(id)[8] as int / 64 == 2
}

/// `uuid::Uuid::now_v7`: a new identifier, made from the time, a counter and
/// random bits. Of every outcome it holds that the version field says seven and
/// that the variant field is the standard one. That no two calls agree is not
/// claimed: it rests on chance.
#[verifier::external_body]
pub(crate) fn fresh_id() -> (id: u128)
    ensures
        time_ordered(id),
{
    Uuid::now_v7().as_u128()
}

// ---------------------------------------------------------------------------
// Signatures
// ---------------------------------------------------------------------------

/// The Ed25519 public key of a secret key.
pub uninterp spec fn ed25519_public_key(secret: Seq<u8>) -> Seq<u8>;

/// The Ed25519 signature of a message under a secret key.
pub uninterp spec fn ed25519_signature(secret: Seq<u8>, message: Seq<u8>) -> Seq<u8>;

/// Whether a signature on a message is accepted under a public key. What is no
/// encoding of a public key accepts nothing.
pub uninterp spec fn ed25519_accepts(
    public: Seq<u8>,
    message: Seq<u8>,
    signature: Seq<u8>,
) -> bool;

/// `ed25519_dalek::SigningKey::verifying_key`: the public key that belongs to a
/// secret key.
#[verifier::external_body]
pub(crate) fn ed25519_public(secret: &[u8; 32]) -> (public: [u8; 32])
    ensures
        public@ == ed25519_public_key(secret@),
{
    SigningKey::from_bytes(secret).verifying_key().to_bytes()
}

/// `ed25519_dalek::SigningKey::sign`: the deterministic signature of 64 bytes,
/// which the public key that belongs to the secret key accepts.
#[verifier::external_body]
pub(crate) fn ed25519_sign(secret: &[u8; 32], message: &[u8; 32]) -> (signature: Vec<u8>)
    ensures
        signature@ == ed25519_signature(secret@, message@),
        signature@.len() == 64,
        ed25519_accepts(ed25519_public_key(secret@), message@, signature@),
{
    SigningKey::from_bytes(secret).sign(message).to_bytes().to_vec()
}

/// `ed25519_dalek::VerifyingKey::verify`, after the key and the signature were
/// decoded; a function of the three byte strings alone.
#[verifier::external_body]
pub(crate) fn ed25519_verify(
    public: &[u8; 32],
    message: &[u8; 32],
    signature: &Vec<u8>,
) -> (accepted: bool)
    requires
        signature@.len() == 64,
    ensures
        accepted == ed25519_accepts(public@, message@, signature@),
{
    match (VerifyingKey::from_bytes(public), Signature::from_slice(signature)) {
        (Ok(key), Ok(decoded)) => key.verify(message, &decoded).is_ok(),
        _ => false,
    }
}

// ---------------------------------------------------------------------------
// Time
// ---------------------------------------------------------------------------

/// A point in time of the system clock.
#[verifier::external_type_specification]
#[verifier::external_body]
pub struct ExSystemTime(std::time::SystemTime);

/// `std::time::SystemTime::now`: nothing is claimed of the time it gives.
pub assume_specification[ std::time::SystemTime::now ]() -> (now: SystemTime)
;

/// `std::time::Duration::as_millis`: the whole milliseconds of a duration. Of the
/// number nothing is claimed: it rests on the clock.
pub assume_specification[ std::time::Duration::as_millis ](duration: &Duration) -> (millis: u128)
;

/// `std::time::SystemTime::duration_since` the Unix epoch; nothing where the
/// time lies before it. Nothing is claimed of the duration.
#[verifier::external_body]
fn since_epoch(now: SystemTime) -> (elapsed: Option<Duration>) {
    now.duration_since(std::time::UNIX_EPOCH).ok()
}

/// The stamp of a time that lies some milliseconds after the Unix epoch: their
/// low 64 bits. A time before the epoch has the stamp zero.
pub fn stamp_of(elapsed: Option<u128>) -> (stamp: u64)
    ensures
        stamp == (match elapsed {
            Some(millis) => millis as u64,
            None => 0,
        }),
{
    match elapsed {
        Some(millis) => #[verifier::truncate]
        (millis as u64),
        None => 0,
    }
}

/// The stamp of the time on the system clock. Whatever the clock says, a caller
/// has to cope with it.
pub fn wall_clock_ms() -> (now: u64)
{
    let elapsed = match since_epoch(std::time::SystemTime::now()) {
        Some(duration) => Some(duration.as_millis()),
        None => None,
    };
    stamp_of(elapsed)
}

/// The stamp of the time on the system clock.
pub fn now_ms() -> (now: u64) {
    wall_clock_ms()
}

} // verus!
