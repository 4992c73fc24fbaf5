//! The Noise IKpsk2 handshake messages, both roles.
//!
//! ```text
//! <- s
//! -> e, es, s, ss
//! <- e, ee, se, psk
//! ```
//! WireGuard mixes each ephemeral key into the chain as well as the hash.
use vstd::prelude::*;
use crate::bytes::take_array;
use crate::mac::{cookie_key, cookie_key_of, mac1_key, mac1_key_of, Cookie, CryptoError};
use crate::messages::{init_bytes, init_mac1_input, init_mac2_input, resp_mac1_input, resp_mac2_input, HandshakeInit, HandshakeResp};
use crate::noise::{zero_dh, HandshakeState, NoiseView};
use crate::primitives::{blake2s_mac_of, x25519_of, x25519_public, x25519_public_of};

verus! {

/// What a host knows of a remote peer.
pub struct StaticPeerConfig {
    /// The peer's static public key.
    pub key: [u8; 32],
    /// The pre-shared key, zero when there is none.
    pub preshared_key: [u8; 32],
    /// `mac1_key(key)`
    pub mac1_key: [u8; 32],
    /// `cookie_key(key)`
    pub cookie_key: [u8; 32],
}

/// The host's own static identity.
pub struct StaticInitiatorConfig {
    pub private_key: [u8; 32],
    /// The public key of `private_key`.
    pub public_key: [u8; 32],
    /// `mac1_key(public_key)`
    pub mac1_key: [u8; 32],
    /// `cookie_key(public_key)`
    pub cookie_key: [u8; 32],
}

impl StaticPeerConfig {
    /// The cached keys agree with the public key.
    pub open spec fn wf(&self) -> bool {
        &&& self.mac1_key@ == mac1_key_of(self.key@)
        &&& self.cookie_key@ == cookie_key_of(self.key@)
    }

    pub fn new(key: [u8; 32], preshared_key: Option<[u8; 32]>) -> (r: Self)
        ensures
            r.wf(),
            r.key == key,
            preshared_key.is_some() ==> r.preshared_key == preshared_key.unwrap(),
            preshared_key.is_none() ==> r.preshared_key@ == Seq::new(32, |i: int| 0u8),
    {
        let psk = match preshared_key {
            Some(k) => k,
            None => {
                let z = [0u8; 32];
                assert(z@ =~= Seq::new(32, |i: int| 0u8));
                z
            },
        };
        StaticPeerConfig { mac1_key: mac1_key(&key), cookie_key: cookie_key(&key), key, preshared_key: psk }
    }
}

impl StaticInitiatorConfig {
    /// The public key and the cached keys agree with the private key.
    pub open spec fn wf(&self) -> bool {
        &&& self.public_key@ == x25519_public_of(self.private_key@)
        &&& self.mac1_key@ == mac1_key_of(self.public_key@)
        &&& self.cookie_key@ == cookie_key_of(self.public_key@)
    }

    pub fn new(key: [u8; 32]) -> (r: Self)
        ensures
            r.wf(),
            r.private_key == key,
    {
        let public_key = x25519_public(&key);
        StaticInitiatorConfig {
            mac1_key: mac1_key(&public_key),
            cookie_key: cookie_key(&public_key),
            public_key,
            private_key: key,
        }
    }
}

/// An Init whose static key and timestamp have been decrypted.
#[derive(Clone, Copy, Debug)]
pub struct DecryptedHandshakeInit {
    pub sender: u32,
    pub ephemeral_key: [u8; 32],
    pub static_key: [u8; 32],
    pub timestamp: [u8; 12],
}

impl DecryptedHandshakeInit {
    /// The initiator's static public key.
    pub fn static_key(&self) -> (r: [u8; 32])
        ensures
            r == self.static_key,
    {
        self.static_key
    }

    /// The initiator's TAI64N timestamp.
    pub fn timestamp(&self) -> (r: [u8; 12])
        ensures
            r == self.timestamp,
    {
        self.timestamp
    }
}

/// The state after `<- s` and `-> e`, before `es`.
pub open spec fn init_before_es(s0: NoiseView, spk_r: Seq<u8>, epk_i: Seq<u8>) -> NoiseView {
    s0.mix_hash(spk_r).mix_chain(epk_i).mix_hash(epk_i)
}

/// The state in which the static key is sealed (after `es`).
pub open spec fn init_at_static(s0: NoiseView, spk_r: Seq<u8>, epk_i: Seq<u8>, dh_es: Seq<u8>) -> NoiseView {
    init_before_es(s0, spk_r, epk_i).mix_chain(dh_es)
}

/// The key that seals the static key.
pub open spec fn init_static_key(s0: NoiseView, spk_r: Seq<u8>, epk_i: Seq<u8>, dh_es: Seq<u8>) -> Seq<u8> {
    init_before_es(s0, spk_r, epk_i).key(dh_es)
}

/// The state after the sealed static key is hashed, before `ss`.
pub open spec fn init_before_ss(s0: NoiseView, spk_r: Seq<u8>, epk_i: Seq<u8>, dh_es: Seq<u8>, c_static: Seq<u8>) -> NoiseView {
    init_at_static(s0, spk_r, epk_i, dh_es).mix_hash(c_static)
}

/// The state in which the timestamp is sealed (after `ss`).
pub open spec fn init_at_timestamp(
    s0: NoiseView,
    spk_r: Seq<u8>,
    epk_i: Seq<u8>,
    dh_es: Seq<u8>,
    c_static: Seq<u8>,
    dh_ss: Seq<u8>,
) -> NoiseView {
    init_before_ss(s0, spk_r, epk_i, dh_es, c_static).mix_chain(dh_ss)
}

/// The key that seals the timestamp.
pub open spec fn init_timestamp_key(
    s0: NoiseView,
    spk_r: Seq<u8>,
    epk_i: Seq<u8>,
    dh_es: Seq<u8>,
    c_static: Seq<u8>,
    dh_ss: Seq<u8>,
) -> Seq<u8> {
    init_before_ss(s0, spk_r, epk_i, dh_es, c_static).key(dh_ss)
}

/// The state both sides hold after the Init.
pub open spec fn init_after(
    s0: NoiseView,
    spk_r: Seq<u8>,
    epk_i: Seq<u8>,
    dh_es: Seq<u8>,
    c_static: Seq<u8>,
    dh_ss: Seq<u8>,
    c_timestamp: Seq<u8>,
) -> NoiseView {
    init_at_timestamp(s0, spk_r, epk_i, dh_es, c_static, dh_ss).mix_hash(c_timestamp)
}

/// The state in which the Resp's empty payload is sealed (after `e, ee, se, psk`).
pub open spec fn resp_at_empty(s0: NoiseView, epk_r: Seq<u8>, dh_ee: Seq<u8>, dh_se: Seq<u8>, psk: Seq<u8>) -> NoiseView {
    s0.mix_chain(epk_r).mix_hash(epk_r).mix_chain(dh_ee).mix_chain(dh_se).mix_key_hash(psk)
}

/// The key that seals the Resp's empty payload.
pub open spec fn resp_empty_key(s0: NoiseView, epk_r: Seq<u8>, dh_ee: Seq<u8>, dh_se: Seq<u8>, psk: Seq<u8>) -> Seq<u8> {
    s0.mix_chain(epk_r).mix_hash(epk_r).mix_chain(dh_ee).mix_chain(dh_se).hash_key(psk)
}

/// The state both sides hold after the Resp.
pub open spec fn resp_after(s0: NoiseView, epk_r: Seq<u8>, dh_ee: Seq<u8>, dh_se: Seq<u8>, psk: Seq<u8>, c_empty: Seq<u8>) -> NoiseView {
    resp_at_empty(s0, epk_r, dh_ee, dh_se, psk).mix_hash(c_empty)
}

/// The Init with ephemeral key `epk`, sealed static key `c_static` and
/// sealed timestamp `c_ts`, processed by `receiver` from state `s0`, opens to
/// the static key `spk` and the timestamp `ts`.
pub open spec fn init_opens(
    s0: NoiseView,
    receiver: StaticInitiatorConfig,
    epk: Seq<u8>,
    c_static: Seq<u8>,
    c_ts: Seq<u8>,
    spk: Seq<u8>,
    ts: Seq<u8>,
) -> bool {
    let spk_r = receiver.public_key@;
    let dh_es = x25519_of(receiver.private_key@, epk);
    let dh_ss = x25519_of(receiver.private_key@, spk);
    &&& !zero_dh(receiver.private_key@, epk)
    &&& !zero_dh(receiver.private_key@, spk)
    &&& init_at_static(s0, spk_r, epk, dh_es).seal(init_static_key(s0, spk_r, epk, dh_es), spk) == c_static
    &&& init_at_timestamp(s0, spk_r, epk, dh_es, c_static, dh_ss).seal(
        init_timestamp_key(s0, spk_r, epk, dh_es, c_static, dh_ss),
        ts,
    ) == c_ts
}

/// The Resp with ephemeral key `epk_r` and sealed empty payload `c_empty`,
/// processed by `initiator` with ephemeral secret `esk_i`, pre-shared key
/// `psk` and state `s0`, authenticates.
pub open spec fn resp_opens(
    s0: NoiseView,
    initiator: StaticInitiatorConfig,
    esk_i: Seq<u8>,
    psk: Seq<u8>,
    epk_r: Seq<u8>,
    c_empty: Seq<u8>,
) -> bool {
    let dh_ee = x25519_of(esk_i, epk_r);
    let dh_se = x25519_of(initiator.private_key@, epk_r);
    &&& !zero_dh(esk_i, epk_r)
    &&& !zero_dh(initiator.private_key@, epk_r)
    &&& resp_at_empty(s0, epk_r, dh_ee, dh_se, psk).seal(resp_empty_key(s0, epk_r, dh_ee, dh_se, psk), seq![]) == c_empty
}

/// mac2 of a message: zero without a cookie, else the MAC under the cookie.
pub open spec fn mac2_of(cookie: Option<Cookie>, mac2_input: Seq<u8>) -> Seq<u8> {
    match cookie {
        Some(c) => blake2s_mac_of(c.0@, mac2_input),
        None => Seq::new(16, |i: int| 0u8),
    }
}

/// `m` is the Init that `initiator` builds for `peer` from handshake state
/// `s0` with ephemeral secret `esk_i`, timestamp `now`, sender index `sender`
/// and optional cookie, and `s1` the state it leaves.
pub open spec fn init_built(
    s0: NoiseView,
    initiator: StaticInitiatorConfig,
    peer: StaticPeerConfig,
    esk_i: Seq<u8>,
    now: Seq<u8>,
    sender: u32,
    cookie: Option<Cookie>,
    m: HandshakeInit,
    s1: NoiseView,
) -> bool {
    let epk_i = x25519_public_of(esk_i);
    let dh_es = x25519_of(esk_i, peer.key@);
    let dh_ss = x25519_of(initiator.private_key@, peer.key@);
    &&& m.sender == sender
    &&& m.ephemeral_key@ == epk_i
    &&& m.static_key@ == init_at_static(s0, peer.key@, epk_i, dh_es).seal(
        init_static_key(s0, peer.key@, epk_i, dh_es),
        initiator.public_key@,
    )
    &&& m.timestamp@ == init_at_timestamp(s0, peer.key@, epk_i, dh_es, m.static_key@, dh_ss).seal(
        init_timestamp_key(s0, peer.key@, epk_i, dh_es, m.static_key@, dh_ss),
        now,
    )
    &&& s1 == init_after(s0, peer.key@, epk_i, dh_es, m.static_key@, dh_ss, m.timestamp@)
    &&& m.mac1@ == blake2s_mac_of(peer.mac1_key@, init_mac1_input(m))
    &&& m.mac2@ == mac2_of(cookie, init_mac2_input(m))
}

/// mac1 is deterministic: two Inits built from equal handshake states with
/// identical inputs carry the same mac1, and indeed the same bytes.
pub proof fn lemma_mac1_deterministic(
    s0: NoiseView,
    initiator: StaticInitiatorConfig,
    peer: StaticPeerConfig,
    esk_i: Seq<u8>,
    now: Seq<u8>,
    sender: u32,
    cookie: Option<Cookie>,
    m1: HandshakeInit,
    s1: NoiseView,
    m2: HandshakeInit,
    s2: NoiseView,
)
    requires
        init_built(s0, initiator, peer, esk_i, now, sender, cookie, m1, s1),
        init_built(s0, initiator, peer, esk_i, now, sender, cookie, m2, s2),
    ensures
        m1.mac1@ == m2.mac1@,
        init_bytes(m1) == init_bytes(m2),
        s1 == s2,
{
    assert(init_mac1_input(m1) == init_mac1_input(m2));
}

/// Builds the Init of the initiator `initiator` to `peer`, with ephemeral
/// secret `esk_i`, timestamp `now` and sender index `sender`, and protects it
/// with mac1 and (given a cookie) mac2. Refused when either Diffie-Hellman
/// result is all zero.
pub fn encrypt_handshake_init(
    hs: &mut HandshakeState,
    initiator: &StaticInitiatorConfig,
    peer: &StaticPeerConfig,
    esk_i: &[u8; 32],
    now: &[u8; 12],
    sender: u32,
    cookie: Option<Cookie>,
) -> (r: Result<HandshakeInit, CryptoError>)
    ensures
        r.is_ok() <==> !zero_dh(esk_i@, peer.key@) && !zero_dh(initiator.private_key@, peer.key@),
        r.is_ok() ==> init_built(old(hs)@, *initiator, *peer, esk_i@, now@, sender, cookie, r.unwrap(), final(hs)@),
        r.is_err() ==> r == Err::<HandshakeInit, CryptoError>(CryptoError::Rejected),
{
    let epk_i = x25519_public(esk_i);
    hs.mix_hash(&peer.key);
    hs.mix_chain(&epk_i);
    hs.mix_hash(&epk_i);
    let k = match hs.mix_key_dh(esk_i, &peer.key) {
        Some(k) => k,
        None => return Err(CryptoError::Rejected),
    };
    let static_ct = hs.encrypt_and_hash(&k, &initiator.public_key);
    let k = match hs.mix_key_dh(&initiator.private_key, &peer.key) {
        Some(k) => k,
        None => {
            assert(!zero_dh(esk_i@, peer.key@));
            return Err(CryptoError::Rejected);
        },
    };
    let timestamp_ct = hs.encrypt_and_hash(&k, now);
    let mut msg = HandshakeInit {
        sender,
        ephemeral_key: epk_i,
        static_key: take_array(static_ct.as_slice(), 0),
        timestamp: take_array(timestamp_ct.as_slice(), 0),
        mac1: [0u8; 16],
        mac2: [0u8; 16],
    };
    assert(static_ct@.subrange(0, 48) =~= static_ct@);
    assert(timestamp_ct@.subrange(0, 28) =~= timestamp_ct@);
    msg.mac1 = msg.compute_mac1(&peer.mac1_key);
    match cookie {
        Some(c) => {
            msg.mac2 = msg.compute_mac2(&c);
        },
        None => {
            assert(msg.mac2@ =~= Seq::new(16, |i: int| 0u8));
        },
    }
    Ok(msg)
}

/// Processes an Init addressed to `receiver`: follows the initiator's steps
/// from the responder's side and opens the static key and the timestamp. It
/// succeeds exactly when both open, and then returns them.
pub fn decrypt_handshake_init(
    init: &HandshakeInit,
    hs: &mut HandshakeState,
    receiver: &StaticInitiatorConfig,
) -> (r: Result<DecryptedHandshakeInit, CryptoError>)
    ensures
        zero_dh(receiver.private_key@, init.ephemeral_key@) ==> r == Err::<DecryptedHandshakeInit, CryptoError>(
            CryptoError::Rejected,
        ),
        r.is_ok() ==> init_opens(
            old(hs)@,
            *receiver,
            init.ephemeral_key@,
            init.static_key@,
            init.timestamp@,
            r.unwrap().static_key@,
            r.unwrap().timestamp@,
        ),
        r.is_ok() ==> r.unwrap().sender == init.sender && r.unwrap().ephemeral_key == init.ephemeral_key,
        r.is_ok() ==> final(hs)@ == init_after(
            old(hs)@,
            receiver.public_key@,
            init.ephemeral_key@,
            x25519_of(receiver.private_key@, init.ephemeral_key@),
            init.static_key@,
            x25519_of(receiver.private_key@, r.unwrap().static_key@),
            init.timestamp@,
        ),
        forall|spk_i: Seq<u8>, ts: Seq<u8>|
            #[trigger] init_opens(old(hs)@, *receiver, init.ephemeral_key@, init.static_key@, init.timestamp@, spk_i, ts)
                ==> r.is_ok() && r.unwrap().static_key@ == spk_i && r.unwrap().timestamp@ == ts,
        r.is_err() ==> r == Err::<DecryptedHandshakeInit, CryptoError>(CryptoError::DecryptionError) || r
            == Err::<DecryptedHandshakeInit, CryptoError>(CryptoError::Rejected),
{
    hs.mix_hash(&receiver.public_key);
    hs.mix_chain(&init.ephemeral_key);
    hs.mix_hash(&init.ephemeral_key);
    let k = match hs.mix_key_dh(&receiver.private_key, &init.ephemeral_key) {
        Some(k) => k,
        None => return Err(CryptoError::Rejected),
    };
    let spk_i = match hs.decrypt_and_hash(&k, &init.static_key) {
        Some(p) => p,
        None => return Err(CryptoError::DecryptionError),
    };
    let static_key: [u8; 32] = take_array(spk_i.as_slice(), 0);
    assert(spk_i@.subrange(0, 32) =~= spk_i@);
    let k = match hs.mix_key_dh(&receiver.private_key, &static_key) {
        Some(k) => k,
        None => return Err(CryptoError::Rejected),
    };
    let ts = match hs.decrypt_and_hash(&k, &init.timestamp) {
        Some(t) => t,
        None => return Err(CryptoError::DecryptionError),
    };
    let timestamp: [u8; 12] = take_array(ts.as_slice(), 0);
    assert(ts@.subrange(0, 12) =~= ts@);
    Ok(DecryptedHandshakeInit { sender: init.sender, ephemeral_key: init.ephemeral_key, static_key, timestamp })
}

/// Builds the Resp to a decrypted Init, with ephemeral secret `esk_r` and
/// sender index `sender`, and protects it with mac1 and (given a cookie) mac2.
/// Refused when either Diffie-Hellman result is all zero.
pub fn encrypt_handshake_resp(
    hs: &mut HandshakeState,
    data: &DecryptedHandshakeInit,
    esk_r: &[u8; 32],
    peer: &StaticPeerConfig,
    sender: u32,
    cookie: Option<Cookie>,
) -> (r: Result<HandshakeResp, CryptoError>)
    ensures
        r.is_ok() <==> !zero_dh(esk_r@, data.ephemeral_key@) && !zero_dh(esk_r@, data.static_key@),
        r.is_err() ==> r == Err::<HandshakeResp, CryptoError>(CryptoError::Rejected),
        r.is_ok() ==> ({
            let m = r.unwrap();
            let epk_r = x25519_public_of(esk_r@);
            let dh_ee = x25519_of(esk_r@, data.ephemeral_key@);
            let dh_se = x25519_of(esk_r@, data.static_key@);
            let s0 = old(hs)@;
            let psk = peer.preshared_key@;
            &&& m.sender == sender
            &&& m.receiver == data.sender
            &&& m.ephemeral_key@ == epk_r
            &&& m.empty@ == resp_at_empty(s0, epk_r, dh_ee, dh_se, psk).seal(
                resp_empty_key(s0, epk_r, dh_ee, dh_se, psk),
                seq![],
            )
            &&& final(hs)@ == resp_after(s0, epk_r, dh_ee, dh_se, psk, m.empty@)
        }),
        r.is_ok() ==> r.unwrap().mac1@ == blake2s_mac_of(peer.mac1_key@, resp_mac1_input(r.unwrap())),
        r.is_ok() ==> r.unwrap().mac2@ == mac2_of(cookie, resp_mac2_input(r.unwrap())),
{
    let epk_r = x25519_public(esk_r);
    hs.mix_chain(&epk_r);
    hs.mix_hash(&epk_r);
    if !hs.mix_dh(esk_r, &data.ephemeral_key) {
        return Err(CryptoError::Rejected);
    }
    if !hs.mix_dh(esk_r, &data.static_key) {
        return Err(CryptoError::Rejected);
    }
    let k = hs.mix_key2(&peer.preshared_key);
    let empty: [u8; 0] = [];
    assert(empty@ =~= seq![]);
    let empty_ct = hs.encrypt_and_hash(&k, &empty);
    let mut msg = HandshakeResp {
        sender,
        receiver: data.sender,
        ephemeral_key: epk_r,
        empty: take_array(empty_ct.as_slice(), 0),
        mac1: [0u8; 16],
        mac2: [0u8; 16],
    };
    assert(empty_ct@.subrange(0, 16) =~= empty_ct@);
    msg.mac1 = msg.compute_mac1(&peer.mac1_key);
    match cookie {
        Some(c) => {
            msg.mac2 = msg.compute_mac2(&c);
        },
        None => {
            assert(msg.mac2@ =~= Seq::new(16, |i: int| 0u8));
        },
    }
    Ok(msg)
}

/// Processes the Resp to an Init that `initiator` sent to `peer` with
/// ephemeral secret `esk_i`. It succeeds exactly when the empty payload opens.
pub fn decrypt_handshake_resp(
    resp: &HandshakeResp,
    hs: &mut HandshakeState,
    initiator: &StaticInitiatorConfig,
    peer: &StaticPeerConfig,
    esk_i: &[u8; 32],
) -> (r: Result<(), CryptoError>)
    ensures
        ({
            let epk_r = resp.ephemeral_key@;
            let dh_ee = x25519_of(esk_i@, epk_r);
            let dh_se = x25519_of(initiator.private_key@, epk_r);
            let s0 = old(hs)@;
            let psk = peer.preshared_key@;
            &&& r.is_ok() <==> !zero_dh(esk_i@, epk_r) && !zero_dh(initiator.private_key@, epk_r) && resp_at_empty(s0, epk_r, dh_ee, dh_se, psk).seal(
                resp_empty_key(s0, epk_r, dh_ee, dh_se, psk),
                seq![],
            ) == resp.empty@
            &&& r.is_ok() ==> final(hs)@ == resp_after(s0, epk_r, dh_ee, dh_se, psk, resp.empty@)
            &&& zero_dh(esk_i@, epk_r) || zero_dh(initiator.private_key@, epk_r) ==> r == Err::<(), CryptoError>(CryptoError::Rejected)
        }),
        r.is_err() ==> r == Err::<(), CryptoError>(CryptoError::DecryptionError) || r == Err::<(), CryptoError>(
            CryptoError::Rejected,
        ),
{
    hs.mix_chain(&resp.ephemeral_key);
    hs.mix_hash(&resp.ephemeral_key);
    if !hs.mix_dh(esk_i, &resp.ephemeral_key) {
        return Err(CryptoError::Rejected);
    }
    if !hs.mix_dh(&initiator.private_key, &resp.ephemeral_key) {
        return Err(CryptoError::Rejected);
    }
    let k = hs.mix_key2(&peer.preshared_key);
    match hs.decrypt_and_hash(&k, &resp.empty) {
        Some(p) => {
            assert(p@ =~= seq![]);
            Ok(())
        },
        None => Err(CryptoError::DecryptionError),
    }
}

} // verus!
