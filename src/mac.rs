//! The MAC protection of handshake messages and the cookie subprotocol.
use vstd::prelude::*;
use crate::bytes::{concat, take_array};
use crate::messages::{
    init_mac1_input, init_mac2_input, resp_mac1_input, resp_mac2_input, CookieMessage,
    HandshakeInit, HandshakeResp,
};
use crate::primitives::{
    blake2s, blake2s_mac, blake2s_mac_of, blake2s_of, ct_eq16, random_bytes, xchacha_open,
    xchacha_seal, xseal_of,
};

verus! {

/// `"mac1----"`
pub const LABEL_MAC1: [u8; 8] = [109, 97, 99, 49, 45, 45, 45, 45];

/// `"cookie--"`
pub const LABEL_COOKIE: [u8; 8] = [99, 111, 111, 107, 105, 101, 45, 45];

/// Failures of the handshake cryptography.
#[derive(Clone, Copy, Debug, PartialEq, Eq, Structural)]
pub enum CryptoError {
    /// An AEAD ciphertext did not authenticate.
    DecryptionError,
    /// A mac1 or mac2 did not match.
    Rejected,
}

/// A 16-byte cookie: the MAC of a source address under the cookie secret.
#[derive(Clone, Copy, Debug)]
pub struct Cookie(pub [u8; 16]);

/// A 16-byte AEAD authentication tag.
#[derive(Clone, Copy, Debug)]
pub struct Tag(pub [u8; 16]);

/// An IP address as its octets.
#[derive(Clone, Copy, Debug)]
pub enum IpAddr {
    V4([u8; 4]),
    V6([u8; 16]),
}

/// A UDP endpoint: address and port.
#[derive(Clone, Copy, Debug)]
pub struct Endpoint {
    pub ip: IpAddr,
    pub port: u16,
}

/// The bytes a cookie authenticates: the address octets, then the port in
/// network byte order.
pub open spec fn endpoint_bytes(e: Endpoint) -> Seq<u8> {
    let ip = match e.ip {
        IpAddr::V4(a) => a@,
        IpAddr::V6(a) => a@,
    };
    ip + seq![(e.port / 256) as u8, (e.port % 256) as u8]
}

/// `H("mac1----" ‖ spk)`
pub open spec fn mac1_key_of(spk: Seq<u8>) -> Seq<u8> {
    blake2s_of(LABEL_MAC1@ + spk)
}

/// `H("cookie--" ‖ spk)`
pub open spec fn cookie_key_of(spk: Seq<u8>) -> Seq<u8> {
    blake2s_of(LABEL_COOKIE@ + spk)
}

/// The cookie a host with this secret gives the endpoint.
pub open spec fn cookie_of(secret: Seq<u8>, e: Endpoint) -> Seq<u8> {
    blake2s_mac_of(secret, endpoint_bytes(e))
}

/// The key under which messages to the holder of `spk` carry their mac1.
pub fn mac1_key(spk: &[u8; 32]) -> (r: [u8; 32])
    ensures
        r@ == mac1_key_of(spk@),
{
    blake2s(&LABEL_MAC1, spk)
}

/// The key under which cookie replies from the holder of `spk` are sealed.
pub fn cookie_key(spk: &[u8; 32]) -> (r: [u8; 32])
    ensures
        r@ == cookie_key_of(spk@),
{
    blake2s(&LABEL_COOKIE, spk)
}

/// The key of mac2 on messages from the holder of `spk`: the same labelled
/// hash as `cookie_key`.
pub fn mac2_key(spk: &[u8; 32]) -> (r: [u8; 32])
    ensures
        r@ == cookie_key_of(spk@),
{
    cookie_key(spk)
}

/// The encoding of an endpoint that cookies authenticate.
pub fn endpoint_to_bytes(e: &Endpoint) -> (r: Vec<u8>)
    ensures
        r@ == endpoint_bytes(*e),
{
    let port = [(e.port / 256) as u8, (e.port % 256) as u8];
    assert(port@ =~= seq![(e.port / 256) as u8, (e.port % 256) as u8]);
    match &e.ip {
        IpAddr::V4(a) => concat(a, &port),
        IpAddr::V6(a) => concat(a, &port),
    }
}

/// The host's cookie secret.
pub struct CookieState {
    pub key: [u8; 32],
}

impl CookieState {
    /// A cookie state with the given secret.
    pub fn new(key: [u8; 32]) -> (r: Self)
        ensures
            r.key == key,
    {
        CookieState { key }
    }

    /// Replaces the secret with fresh random bytes.
    pub fn generate(&mut self, rng: &mut rand::rngs::StdRng) {
        self.key = random_bytes(rng);
    }

    /// The cookie of an endpoint: `Mac(secret, ip ‖ port)`.
    pub fn new_cookie(&self, addr: &Endpoint) -> (r: Cookie)
        ensures
            r.0@ == cookie_of(self.key@, *addr),
    {
        let bytes = endpoint_to_bytes(addr);
        Cookie(blake2s_mac(&self.key, &bytes))
    }
}

/// Seals a cookie for a cookie reply: `XAEAD(key, nonce, aad, cookie)`.
pub fn encrypt_cookie(cookie: Cookie, key: &[u8; 32], nonce: &[u8; 24], aad: &[u8]) -> (r: [u8; 32])
    ensures
        r@ == xseal_of(key@, nonce@, aad@, cookie.0@),
{
    let sealed = xchacha_seal(key, nonce, aad, &cookie.0);
    take_array_all(&sealed)
}

/// The 32 bytes of a sealed cookie.
fn take_array_all(v: &Vec<u8>) -> (r: [u8; 32])
    requires
        v@.len() == 32,
    ensures
        r@ == v@,
{
    let r: [u8; 32] = take_array(v.as_slice(), 0);
    assert(v@.subrange(0, 32) =~= v@);
    r
}

/// Opens a sealed cookie. It succeeds exactly when `enc` is the sealing of a
/// cookie under `key`, `nonce` and `aad`, and returns that cookie.
pub fn decrypt_cookie(enc: &[u8; 32], key: &[u8; 32], nonce: &[u8; 24], aad: &[u8]) -> (r: Result<Cookie, CryptoError>)
    ensures
        r.is_ok() ==> xseal_of(key@, nonce@, aad@, r.unwrap().0@) == enc@,
        forall|c: Seq<u8>| xseal_of(key@, nonce@, aad@, c) == enc@ ==> r.is_ok() && r.unwrap().0@ == c,
        r.is_err() ==> r == Err::<Cookie, CryptoError>(CryptoError::DecryptionError),
{
    match xchacha_open(key, nonce, aad, enc) {
        Some(pt) => {
            let c: [u8; 16] = take_array(pt.as_slice(), 0);
            assert(pt@.subrange(0, 16) =~= pt@);
            Ok(Cookie(c))
        },
        None => Err(CryptoError::DecryptionError),
    }
}

/// Compares a received MAC with the MAC of `input` under `key`, in constant time.
pub fn verify_mac(key: &[u8], input: &[u8], mac: &[u8; 16]) -> (r: Result<(), CryptoError>)
    requires
        key@.len() <= 32,
    ensures
        r.is_ok() <==> mac@ == blake2s_mac_of(key@, input@),
        r.is_err() ==> r == Err::<(), CryptoError>(CryptoError::Rejected),
{
    let actual = blake2s_mac(key, input);
    if ct_eq16(&actual, mac) {
        Ok(())
    } else {
        Err(CryptoError::Rejected)
    }
}

/// What the MAC check of a handshake message decided.
#[derive(Clone, Copy, Debug)]
pub enum MacCheck {
    /// Go on with the handshake.
    Continue,
    /// The host is under load and mac2 did not match: answer with this cookie.
    SendCookie(Cookie),
}

/// The decision on a message with the given mac1 input, mac1 and mac2:
/// mac1 must match under `mac1_key`; under load, mac2 must also match under
/// the cookie of `addr`, else a cookie is owed.
pub open spec fn mac_check_ok(
    mac1_input: Seq<u8>,
    mac1: Seq<u8>,
    mac2: Seq<u8>,
    mac1_key: Seq<u8>,
    overload: bool,
    secret: Seq<u8>,
    addr: Endpoint,
    r: Result<MacCheck, CryptoError>,
) -> bool {
    if mac1 != blake2s_mac_of(mac1_key, mac1_input) {
        r == Err::<MacCheck, CryptoError>(CryptoError::Rejected)
    } else if !overload || mac2 == blake2s_mac_of(cookie_of(secret, addr), mac1_input + mac1) {
        r matches Ok(MacCheck::Continue)
    } else {
        r matches Ok(MacCheck::SendCookie(c)) && c.0@ == cookie_of(secret, addr)
    }
}

fn verify_macs(
    mac1_input: &[u8],
    mac1: &[u8; 16],
    mac2: &[u8; 16],
    mac1_key: &[u8; 32],
    overload: bool,
    cookie: &CookieState,
    addr: &Endpoint,
) -> (r: Result<MacCheck, CryptoError>)
    ensures
        mac_check_ok(mac1_input@, mac1@, mac2@, mac1_key@, overload, cookie.key@, *addr, r),
{
    verify_mac(mac1_key, mac1_input, mac1)?;
    if overload {
        let c = cookie.new_cookie(addr);
        let mac2_input = concat(mac1_input, mac1);
        if verify_mac(&c.0, &mac2_input, mac2).is_err() {
            return Ok(MacCheck::SendCookie(c));
        }
    }
    Ok(MacCheck::Continue)
}

impl HandshakeInit {
    /// Checks mac1 under `mac1_key`, in constant time.
    pub fn verify_mac1(&self, mac1_key: &[u8; 32]) -> (r: Result<(), CryptoError>)
        ensures
            r.is_ok() <==> self.mac1@ == blake2s_mac_of(mac1_key@, init_mac1_input(*self)),
            r.is_err() ==> r == Err::<(), CryptoError>(CryptoError::Rejected),
    {
        verify_mac(mac1_key, &self.mac1_input(), &self.mac1)
    }

    /// Checks mac2 under a cookie, in constant time.
    pub fn verify_mac2(&self, cookie: &Cookie) -> (r: Result<(), CryptoError>)
        ensures
            r.is_ok() <==> self.mac2@ == blake2s_mac_of(cookie.0@, init_mac2_input(*self)),
            r.is_err() ==> r == Err::<(), CryptoError>(CryptoError::Rejected),
    {
        verify_mac(&cookie.0, &self.mac2_input(), &self.mac2)
    }

    /// `Mac(mac1_key, bytes before mac1)`.
    pub fn compute_mac1(&self, mac1_key: &[u8; 32]) -> (r: [u8; 16])
        ensures
            r@ == blake2s_mac_of(mac1_key@, init_mac1_input(*self)),
    {
        blake2s_mac(mac1_key, &self.mac1_input())
    }

    /// `Mac(cookie, bytes before mac2)`.
    pub fn compute_mac2(&self, cookie: &Cookie) -> (r: [u8; 16])
        ensures
            r@ == blake2s_mac_of(cookie.0@, init_mac2_input(*self)),
    {
        blake2s_mac(&cookie.0, &self.mac2_input())
    }

    /// Checks mac1, then under load mac2 against the cookie of `addr`.
    pub fn verify(&self, mac1_key: &[u8; 32], overload: bool, cookie: &CookieState, addr: &Endpoint) -> (r: Result<MacCheck, CryptoError>)
        ensures
            mac_check_ok(init_mac1_input(*self), self.mac1@, self.mac2@, mac1_key@, overload, cookie.key@, *addr, r),
    {
        verify_macs(&self.mac1_input(), &self.mac1, &self.mac2, mac1_key, overload, cookie, addr)
    }
}

impl HandshakeResp {
    /// Checks mac1 under `mac1_key`, in constant time.
    pub fn verify_mac1(&self, mac1_key: &[u8; 32]) -> (r: Result<(), CryptoError>)
        ensures
            r.is_ok() <==> self.mac1@ == blake2s_mac_of(mac1_key@, resp_mac1_input(*self)),
            r.is_err() ==> r == Err::<(), CryptoError>(CryptoError::Rejected),
    {
        verify_mac(mac1_key, &self.mac1_input(), &self.mac1)
    }

    /// Checks mac2 under a cookie, in constant time.
    pub fn verify_mac2(&self, cookie: &Cookie) -> (r: Result<(), CryptoError>)
        ensures
            r.is_ok() <==> self.mac2@ == blake2s_mac_of(cookie.0@, resp_mac2_input(*self)),
            r.is_err() ==> r == Err::<(), CryptoError>(CryptoError::Rejected),
    {
        verify_mac(&cookie.0, &self.mac2_input(), &self.mac2)
    }

    /// `Mac(mac1_key, bytes before mac1)`.
    pub fn compute_mac1(&self, mac1_key: &[u8; 32]) -> (r: [u8; 16])
        ensures
            r@ == blake2s_mac_of(mac1_key@, resp_mac1_input(*self)),
    {
        blake2s_mac(mac1_key, &self.mac1_input())
    }

    /// `Mac(cookie, bytes before mac2)`.
    pub fn compute_mac2(&self, cookie: &Cookie) -> (r: [u8; 16])
        ensures
            r@ == blake2s_mac_of(cookie.0@, resp_mac2_input(*self)),
    {
        blake2s_mac(&cookie.0, &self.mac2_input())
    }

    /// Checks mac1, then under load mac2 against the cookie of `addr`.
    pub fn verify(&self, mac1_key: &[u8; 32], overload: bool, cookie: &CookieState, addr: &Endpoint) -> (r: Result<MacCheck, CryptoError>)
        ensures
            mac_check_ok(resp_mac1_input(*self), self.mac1@, self.mac2@, mac1_key@, overload, cookie.key@, *addr, r),
    {
        verify_macs(&self.mac1_input(), &self.mac1, &self.mac2, mac1_key, overload, cookie, addr)
    }
}

impl CookieMessage {
    /// The cookie reply to a message from `sender` whose mac1 was `mac1`: the
    /// cookie sealed under `cookie_key` with the given nonce and mac1 as
    /// associated data.
    pub fn new(receiver: u32, cookie: Cookie, cookie_key: &[u8; 32], nonce: [u8; 24], mac1: &[u8; 16]) -> (r: CookieMessage)
        ensures
            r.receiver == receiver,
            r.nonce == nonce,
            r.cookie@ == xseal_of(cookie_key@, nonce@, mac1@, cookie.0@),
    {
        let sealed = encrypt_cookie(cookie, cookie_key, &nonce, mac1);
        CookieMessage { receiver, nonce, cookie: sealed }
    }

    /// Opens the cookie of a reply to a message whose mac1 was `mac1`.
    pub fn open(&self, cookie_key: &[u8; 32], mac1: &[u8; 16]) -> (r: Result<Cookie, CryptoError>)
        ensures
            r.is_ok() ==> xseal_of(cookie_key@, self.nonce@, mac1@, r.unwrap().0@) == self.cookie@,
            forall|c: Seq<u8>| xseal_of(cookie_key@, self.nonce@, mac1@, c) == self.cookie@ ==> r.is_ok() && r.unwrap().0@ == c,
            r.is_err() ==> r == Err::<Cookie, CryptoError>(CryptoError::DecryptionError),
    {
        decrypt_cookie(&self.cookie, cookie_key, &self.nonce, mac1)
    }
}

} // verus!
