//! The cryptographic primitives that the handshake and the frame codec rest
//! on, taken from `serde_encrypt` and `crypto_box`. Keys travel through the
//! library as plain bytes.

use vstd::prelude::*;
use serde_encrypt::key::key_pair::ReceiverKeyPair;
use serde_encrypt::encrypt::plain_message_shared_key::PlainMessageSharedKey;
use serde_encrypt::shared_key::SharedKey;
use serde_encrypt::traits::SerdeEncryptPublicKey;
use serde_encrypt::{AsSharedKey, EncryptedMessage, ReceiverCombinedKey, ReceiverKeyPairCore};
use serde_encrypt_core::encrypt::plain_message_shared_key::PlainMessageSharedKeyCore;
use serde_encrypt_core::key::key_pair::private_key::ReceiverPrivateKey;
use serde_encrypt_core::key::key_pair::public_key::SenderPublicKey;

verus! {

/// Length in bytes of a private key, a public key and a symmetric key.
pub const KEY_LEN: usize = 32;

/// Bytes that sealing adds to a payload: a 24-byte nonce and a 16-byte tag.
pub const SEAL_OVERHEAD: usize = 40;

/// What opening `sealed` under the symmetric key `key` gives: the plain bytes,
/// or `None` when the envelope does not authenticate under that key.
pub uninterp spec fn opened(key: Seq<u8>, sealed: Seq<u8>) -> Option<Seq<u8>>;

/// The X25519 public key of the private key `sk`.
pub uninterp spec fn public_of(sk: Seq<u8>) -> Seq<u8>;

/// What opening the envelope `sealed` gives, under the key that the private
/// key `sk` combines with the peer's public key `peer`: the 32 bytes of the
/// symmetric key sealed in it, or `None` when it does not open.
pub uninterp spec fn opened_shared(sk: Seq<u8>, peer: Seq<u8>, sealed: Seq<u8>) -> Option<Seq<u8>>;

/// Relies on `ReceiverKeyPairCore::generate`: the 32 bytes of the private
/// half of a fresh random X25519 key pair.
#[verifier::external_body]
pub(crate) fn generate_private_key() -> (r: Vec<u8>)
    ensures
        r@.len() == KEY_LEN,
{
    ReceiverKeyPair::generate().private_key().as_ref().to_bytes().to_vec()
}

/// Relies on `crypto_box::SecretKey::public_key`: the 32 bytes of the
/// public key of the private key `sk`.
#[verifier::external_body]
pub(crate) fn public_key_bytes(sk: &Vec<u8>) -> (r: Vec<u8>)
    requires
        sk@.len() == KEY_LEN,
    ensures
        r@ == public_of(sk@),
        r@.len() == KEY_LEN,
{
    let bytes: [u8; 32] = sk.as_slice().try_into().unwrap();
    crypto_box::SecretKey::from(bytes).public_key().as_bytes().to_vec()
}

/// Relies on `SerdeEncryptPublicKey::decrypt_owned` for `SharedKey`: opens the
/// symmetric key that a client sealed under the key combined from the client's
/// public key `peer` and the private key `sk`. Fails on a malformed or forged
/// envelope.
#[verifier::external_body]
pub(crate) fn open_shared_key(sk: &Vec<u8>, peer: &Vec<u8>, sealed: &Vec<u8>) -> (r: Option<Vec<u8>>)
    requires
        sk@.len() == KEY_LEN,
        peer@.len() == KEY_LEN,
    ensures
        r is Some <==> opened_shared(sk@, peer@, sealed@) is Some,
        r is Some ==> r->0@ == opened_shared(sk@, peer@, sealed@)->0 && r->0@.len() == KEY_LEN,
{
    let own: [u8; 32] = sk.as_slice().try_into().unwrap();
    let bytes: [u8; 32] = peer.as_slice().try_into().unwrap();
    let peer_key = SenderPublicKey::from(crypto_box::PublicKey::from(bytes));
    let private_key = ReceiverPrivateKey::from(crypto_box::SecretKey::from(own));
    let combined = ReceiverCombinedKey::new(&peer_key, &private_key);
    let message = EncryptedMessage::deserialize(sealed.clone()).ok()?;
    let key = SharedKey::decrypt_owned(&message, &combined).ok()?;
    Some(key.as_slice().to_vec())
}

/// Relies on `PlainMessageSharedKeyCore::encrypt` (XChaCha20-Poly1305 with a
/// random nonce) and `EncryptedMessage::serialize`: the nonce, then the
/// ciphertext with its tag, which opens under the same key to `plain`.
/// Encryption refuses only inputs of 64 * (2^32 - 1) bytes and more.
#[verifier::external_body]
pub(crate) fn seal(key: &Vec<u8>, plain: &Vec<u8>) -> (r: Option<Vec<u8>>)
    requires
        key@.len() == KEY_LEN,
    ensures
        plain@.len() <= u32::MAX ==> r is Some,
        r is Some ==> r->0@.len() == plain@.len() + SEAL_OVERHEAD,
        r is Some ==> opened(key@, r->0@) == Some(plain@),
{
    let bytes: [u8; 32] = key.as_slice().try_into().unwrap();
    let message = PlainMessageSharedKey::new(plain.clone()).encrypt(&SharedKey::new(bytes)).ok()?;
    Some(message.serialize())
}

/// Relies on `EncryptedMessage::deserialize` and
/// `PlainMessageSharedKeyCore::decrypt`: the authenticated plain bytes, or
/// `None` for an envelope that is too short or does not authenticate.
#[verifier::external_body]
pub(crate) fn open(key: &Vec<u8>, sealed: &Vec<u8>) -> (r: Option<Vec<u8>>)
    requires
        key@.len() == KEY_LEN,
    ensures
        r is Some <==> opened(key@, sealed@) is Some,
        r is Some ==> r->0@ == opened(key@, sealed@)->0,
{
    let bytes: [u8; 32] = key.as_slice().try_into().unwrap();
    let message = EncryptedMessage::deserialize(sealed.clone()).ok()?;
    let plain = PlainMessageSharedKey::decrypt(&message, &SharedKey::new(bytes)).ok()?;
    Some(plain.into_vec())
}

} // verus!
