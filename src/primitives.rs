//! The cryptographic primitives, each one call into an outside crate.
//!
//! What a primitive computes is given a name (`blake2s_of`, `seal_of`, ...);
//! the rest of the library is proved against those names.
use vstd::prelude::*;

verus! {

/// BLAKE2s-256 of a byte string.
pub uninterp spec fn blake2s_of(msg: Seq<u8>) -> Seq<u8>;

/// Keyed BLAKE2s with a 16-byte output.
pub uninterp spec fn blake2s_mac_of(key: Seq<u8>, msg: Seq<u8>) -> Seq<u8>;

/// HMAC over BLAKE2s-256.
pub uninterp spec fn hmac_of(key: Seq<u8>, msg: Seq<u8>) -> Seq<u8>;

/// The X25519 public key of a secret key.
pub uninterp spec fn x25519_public_of(sk: Seq<u8>) -> Seq<u8>;

/// The X25519 shared secret of a secret key and a public key.
pub uninterp spec fn x25519_of(sk: Seq<u8>, pk: Seq<u8>) -> Seq<u8>;

/// ChaCha20-Poly1305 sealing: the ciphertext followed by the 16-byte tag.
pub uninterp spec fn seal_of(key: Seq<u8>, nonce: Seq<u8>, aad: Seq<u8>, pt: Seq<u8>) -> Seq<u8>;

/// XChaCha20-Poly1305 sealing: the ciphertext followed by the 16-byte tag.
pub uninterp spec fn xseal_of(key: Seq<u8>, nonce: Seq<u8>, aad: Seq<u8>, pt: Seq<u8>) -> Seq<u8>;

/// The largest plaintext that the ChaCha20 ciphers accept is below this bound
/// (fewer than `u32::MAX` blocks of 64 bytes).
pub open spec fn aead_len_ok(n: nat) -> bool {
    n < 64 * 0xFFFF_FFFFnat
}

/// Relies on blake2's `Blake2s256` digest (`Digest::update` twice, then
/// `finalize`): the hash of `a` followed by `b`.
#[verifier::external_body]
pub(crate) fn blake2s(a: &[u8], b: &[u8]) -> (r: [u8; 32])
    ensures
        r@ == blake2s_of(a@ + b@),
{
    let mut d = <blake2::Blake2s256 as blake2::Digest>::new();
    blake2::Digest::update(&mut d, a);
    blake2::Digest::update(&mut d, b);
    blake2::Digest::finalize(d).into()
}

/// Relies on blake2's `Blake2sMac<U16>`: keyed BLAKE2s of `msg` with a
/// 16-byte output. Keys longer than 32 bytes are refused by the crate.
#[verifier::external_body]
pub(crate) fn blake2s_mac(key: &[u8], msg: &[u8]) -> (r: [u8; 16])
    requires
        key@.len() <= 32,
    ensures
        r@ == blake2s_mac_of(key@, msg@),
{
    let mut m = <blake2::Blake2sMac<blake2::digest::consts::U16> as blake2::digest::Mac>::new_from_slice(
        key,
    ).unwrap();
    blake2::digest::Mac::update(&mut m, msg);
    blake2::digest::Mac::finalize(m).into_bytes().into()
}

/// Relies on hmac's `SimpleHmac<Blake2s256>`: HMAC-BLAKE2s of `msg` under
/// `key`. `new_from_slice` accepts a key of any length.
#[verifier::external_body]
pub(crate) fn hmac_blake2s(key: &[u8], msg: &[u8]) -> (r: [u8; 32])
    ensures
        r@ == hmac_of(key@, msg@),
{
    let mut h = <hmac::SimpleHmac<blake2::Blake2s256> as hmac::Mac>::new_from_slice(key).unwrap();
    hmac::Mac::update(&mut h, msg);
    hmac::Mac::finalize(h).into_bytes().into()
}

/// Relies on x25519_dalek's `PublicKey::from(&StaticSecret)`.
#[verifier::external_body]
pub(crate) fn x25519_public(sk: &[u8; 32]) -> (r: [u8; 32])
    ensures
        r@ == x25519_public_of(sk@),
{
    x25519_dalek::PublicKey::from(&x25519_dalek::StaticSecret::from(*sk)).to_bytes()
}

/// Relies on x25519_dalek's `StaticSecret::diffie_hellman`.
#[verifier::external_body]
pub(crate) fn x25519(sk: &[u8; 32], pk: &[u8; 32]) -> (r: [u8; 32])
    ensures
        r@ == x25519_of(sk@, pk@),
{
    let secret = x25519_dalek::StaticSecret::from(*sk);
    secret.diffie_hellman(&x25519_dalek::PublicKey::from(*pk)).to_bytes()
}

/// Relies on chacha20poly1305's `Aead::encrypt` for `ChaCha20Poly1305`: the
/// ciphertext, as long as the plaintext, followed by the 16-byte tag. It
/// fails only on plaintexts of `u32::MAX` blocks or more.
#[verifier::external_body]
pub(crate) fn chacha_seal(key: &[u8; 32], nonce: &[u8; 12], aad: &[u8], pt: &[u8]) -> (r: Vec<u8>)
    requires
        aead_len_ok(pt@.len()),
    ensures
        r@ == seal_of(key@, nonce@, aad@, pt@),
        r@.len() == pt@.len() + 16,
{
    let c = <chacha20poly1305::ChaCha20Poly1305 as chacha20poly1305::KeyInit>::new(key.into());
    let payload = chacha20poly1305::aead::Payload { msg: pt, aad };
    chacha20poly1305::aead::Aead::encrypt(&c, nonce.into(), payload).unwrap()
}

/// Relies on chacha20poly1305's `Aead::decrypt` for `ChaCha20Poly1305`. The
/// cipher is deterministic and the tag is a function of the ciphertext, so
/// decryption succeeds exactly on the outputs of sealing, and then returns the
/// plaintext that was sealed.
#[verifier::external_body]
pub(crate) fn chacha_open(key: &[u8; 32], nonce: &[u8; 12], aad: &[u8], ct: &[u8]) -> (r: Option<Vec<u8>>)
    requires
        aead_len_ok(ct@.len()),
    ensures
        r.is_some() ==> seal_of(key@, nonce@, aad@, r.unwrap()@) == ct@,
        r.is_some() ==> r.unwrap()@.len() + 16 == ct@.len(),
        forall|pt: Seq<u8>| seal_of(key@, nonce@, aad@, pt) == ct@ ==> r.is_some() && r.unwrap()@ == pt,
{
    let c = <chacha20poly1305::ChaCha20Poly1305 as chacha20poly1305::KeyInit>::new(key.into());
    let payload = chacha20poly1305::aead::Payload { msg: ct, aad };
    chacha20poly1305::aead::Aead::decrypt(&c, nonce.into(), payload).ok()
}

/// Relies on chacha20poly1305's `Aead::encrypt` for `XChaCha20Poly1305`.
#[verifier::external_body]
pub(crate) fn xchacha_seal(key: &[u8; 32], nonce: &[u8; 24], aad: &[u8], pt: &[u8]) -> (r: Vec<u8>)
    requires
        aead_len_ok(pt@.len()),
    ensures
        r@ == xseal_of(key@, nonce@, aad@, pt@),
        r@.len() == pt@.len() + 16,
{
    let c = <chacha20poly1305::XChaCha20Poly1305 as chacha20poly1305::KeyInit>::new(key.into());
    let payload = chacha20poly1305::aead::Payload { msg: pt, aad };
    chacha20poly1305::aead::Aead::encrypt(&c, nonce.into(), payload).unwrap()
}

/// Relies on chacha20poly1305's `Aead::decrypt` for `XChaCha20Poly1305`,
/// which succeeds exactly on the outputs of sealing.
#[verifier::external_body]
pub(crate) fn xchacha_open(key: &[u8; 32], nonce: &[u8; 24], aad: &[u8], ct: &[u8]) -> (r: Option<Vec<u8>>)
    requires
        aead_len_ok(ct@.len()),
    ensures
        r.is_some() ==> xseal_of(key@, nonce@, aad@, r.unwrap()@) == ct@,
        r.is_some() ==> r.unwrap()@.len() + 16 == ct@.len(),
        forall|pt: Seq<u8>| xseal_of(key@, nonce@, aad@, pt) == ct@ ==> r.is_some() && r.unwrap()@ == pt,
{
    let c = <chacha20poly1305::XChaCha20Poly1305 as chacha20poly1305::KeyInit>::new(key.into());
    let payload = chacha20poly1305::aead::Payload { msg: ct, aad };
    chacha20poly1305::aead::Aead::decrypt(&c, nonce.into(), payload).ok()
}

/// Relies on subtle's `ConstantTimeEq` for byte slices: equality of two
/// authenticators without an early exit.
#[verifier::external_body]
pub(crate) fn ct_eq16(a: &[u8; 16], b: &[u8; 16]) -> (r: bool)
    ensures
        r == (a@ == b@),
{
    bool::from(subtle::ConstantTimeEq::ct_eq(&a[..], &b[..]))
}

/// Relies on zeroize's `Zeroize` for byte arrays: every byte is set to zero.
#[verifier::external_body]
pub(crate) fn scrub(k: &mut [u8; 32])
    ensures
        final(k)@ == Seq::new(32, |i: int| 0u8),
{
    zeroize::Zeroize::zeroize(k)
}

#[verifier::external_type_specification]
#[verifier::external_body]
pub struct ExStdRng(rand::rngs::StdRng);

/// Relies on rand's `RngCore::fill_bytes` for `StdRng`. Nothing is promised
/// of the bytes.
#[verifier::external_body]
pub(crate) fn random_bytes<const N: usize>(rng: &mut rand::rngs::StdRng) -> (r: [u8; N]) {
    let mut b = [0u8; N];
    rand::RngCore::fill_bytes(rng, &mut b);
    b
}

} // verus!
