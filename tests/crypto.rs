use blake2::Digest;
use rustyguard::handshake::{encrypt_handshake_init, StaticInitiatorConfig, StaticPeerConfig};
use rustyguard::mac::{cookie_key, decrypt_cookie, encrypt_cookie, mac1_key, Cookie, CookieState, CryptoError, Endpoint, IpAddr};
use rustyguard::messages::{
    CookieMessage, DataMessage, Error, HandshakeInit, HandshakeResp, COOKIE_LEN, INIT_LEN, RESP_LEN,
};
use rustyguard::noise::{hkdf, nonce, HandshakeState, CONSTRUCTION_HASH, IDENTIFIER_HASH};
use rustyguard::transport::{Role, Session};

fn hmac(key: &[u8], msg: &[u8]) -> [u8; 32] {
    let mut h = <hmac::SimpleHmac<blake2::Blake2s256> as hmac::Mac>::new_from_slice(key).unwrap();
    hmac::Mac::update(&mut h, msg);
    hmac::Mac::finalize(h).into_bytes().into()
}

#[test]
fn crypto_construction_identifier() {
    let c = blake2::Blake2s256::default()
        .chain_update(b"Noise_IKpsk2_25519_ChaChaPoly_BLAKE2s")
        .finalize();
    let h = blake2::Blake2s256::default()
        .chain_update(c)
        .chain_update(b"WireGuard v1 zx2c4 Jason@zx2c4.com")
        .finalize();

    assert_eq!(&*c, &CONSTRUCTION_HASH);
    assert_eq!(&*h, &IDENTIFIER_HASH);
}

#[test]
fn lib_construction_identifier() {
    let c = blake2::Blake2s256::default()
        .chain_update(b"Noise_IKpsk2_25519_ChaChaPoly_BLAKE2s")
        .finalize();
    let h = blake2::Blake2s256::default()
        .chain_update(c)
        .chain_update(b"WireGuard v1 zx2c4 Jason@zx2c4.com")
        .finalize();

    let hs = HandshakeState::new();
    assert_eq!(&*c, &hs.chain);
    assert_eq!(&*h, &hs.hash);
}

#[test]
fn test_size_align() {
    // each encoded message after its 4-byte type tag, and every length a
    // multiple of 4 so that the fields stay 4-byte aligned in an aligned buffer
    let init = HandshakeInit { sender: 1, ephemeral_key: [0; 32], static_key: [0; 48], timestamp: [0; 28], mac1: [0; 16], mac2: [0; 16] };
    assert_eq!(init.to_bytes().len() - 4, 144);
    assert_eq!(init.to_bytes().len() % 4, 0);

    let resp = HandshakeResp { sender: 1, receiver: 2, ephemeral_key: [0; 32], empty: [0; 16], mac1: [0; 16], mac2: [0; 16] };
    assert_eq!(resp.to_bytes().len() - 4, 88);
    assert_eq!(resp.to_bytes().len() % 4, 0);

    let cookie = CookieMessage { receiver: 1, nonce: [0; 24], cookie: [0; 32] };
    assert_eq!(cookie.to_bytes().len() - 4, 60);
    assert_eq!(cookie.to_bytes().len() % 4, 0);
    assert_eq!((INIT_LEN, RESP_LEN, COOKIE_LEN), (148, 92, 64));
}

#[test]
fn hkdf_rfc5869_case1_blake2s() {
    // RFC 5869 test case 1 inputs: salt 0x00..0x0c as the chaining key,
    // IKM 22 bytes of 0x0b.
    let mut salt = [0u8; 32];
    for (i, b) in salt.iter_mut().enumerate().take(13) {
        *b = i as u8;
    }
    let ikm = [0x0bu8; 22];
    let out = hkdf(&salt, &ikm, 3);
    assert_eq!(out.len(), 3);

    let t0 = hmac(&salt, &ikm);
    let t1 = hmac(&t0, &[1]);
    let mut m2 = t1.to_vec();
    m2.push(2);
    let t2 = hmac(&t0, &m2);
    let mut m3 = t2.to_vec();
    m3.push(3);
    let t3 = hmac(&t0, &m3);
    assert_eq!(out[0], t1);
    assert_eq!(out[1], t2);
    assert_eq!(out[2], t3);
    assert_ne!(out[0], out[1]);
}

#[test]
fn hkdf_zero_outputs_and_prefixes() {
    let key = [7u8; 32];
    assert!(hkdf(&key, b"x", 0).is_empty());
    let one = hkdf(&key, b"x", 1);
    let three = hkdf(&key, b"x", 3);
    assert_eq!(one[0], three[0]);
}

#[test]
fn nonce_layout() {
    let n = nonce(0x0102030405060708);
    assert_eq!(n, [0, 0, 0, 0, 8, 7, 6, 5, 4, 3, 2, 1]);
}

#[test]
fn mac_keys_are_labelled_hashes() {
    let spk = [9u8; 32];
    let expect_mac1 = blake2::Blake2s256::default().chain_update(b"mac1----").chain_update(spk).finalize();
    let expect_cookie = blake2::Blake2s256::default().chain_update(b"cookie--").chain_update(spk).finalize();
    assert_eq!(&mac1_key(&spk)[..], &expect_mac1[..]);
    assert_eq!(&cookie_key(&spk)[..], &expect_cookie[..]);
    assert_ne!(mac1_key(&spk), spk);
}

fn build_init(hs: &mut HandshakeState) -> HandshakeInit {
    let initiator = StaticInitiatorConfig::new([1; 32]);
    let responder = StaticInitiatorConfig::new([2; 32]);
    let peer = StaticPeerConfig::new(responder.public_key, None);
    let now = [0x40, 0, 0, 0, 0, 0, 0, 0, 0, 0, 0, 0];
    encrypt_handshake_init(hs, &initiator, &peer, &[0x11; 32], &now, 7, None).unwrap()
}

#[test]
fn mac1_deterministic_across_states() {
    let mut a = HandshakeState::new();
    let mut b = HandshakeState::new();
    let m1 = build_init(&mut a);
    let m2 = build_init(&mut b);
    assert_eq!(m1.mac1, m2.mac1);
    assert_eq!(m1.to_bytes(), m2.to_bytes());
    assert_ne!(m1.mac1, [0u8; 16]);
    assert_eq!(m1.mac2, [0u8; 16]);
}

#[test]
fn init_codec_round_trip() {
    let mut hs = HandshakeState::new();
    let m = build_init(&mut hs);
    let bytes = m.to_bytes();
    assert_eq!(bytes.len(), 148);
    let back = HandshakeInit::parse(&bytes).unwrap();
    assert_eq!(back.to_bytes(), bytes);
    assert_eq!(back.sender, 7);
}

#[test]
fn codecs_reject_bad_lengths_and_tags() {
    assert_eq!(HandshakeInit::parse(&[1u8; 147]).err(), Some(Error::Malformed));
    let mut wrong = vec![0u8; 148];
    wrong[0] = 2;
    assert_eq!(HandshakeInit::parse(&wrong).err(), Some(Error::Malformed));
    assert_eq!(HandshakeResp::parse(&[2u8; 91]).err(), Some(Error::Malformed));
    assert_eq!(CookieMessage::parse(&[4u8; 65]).err(), Some(Error::Malformed));
    let mut data = vec![0u8; 31];
    data[0] = 3;
    assert_eq!(DataMessage::parse(&data).err(), Some(Error::Malformed));
    let mut data = vec![0u8; 40];
    data[0] = 3;
    assert_eq!(DataMessage::parse(&data).err(), Some(Error::Malformed));
    let mut data = vec![0u8; 32];
    data[0] = 3;
    data[4] = 9;
    data[8] = 5;
    let d = DataMessage::parse(&data).unwrap();
    assert_eq!(d.receiver, 9);
    assert_eq!(d.counter, 5);
    assert_eq!(d.payload.len(), 16);
    assert_eq!(d.to_bytes(), data);
}

#[test]
fn resp_and_cookie_codec_round_trip() {
    let r = HandshakeResp { sender: 1, receiver: 0x01020304, ephemeral_key: [5; 32], empty: [6; 16], mac1: [7; 16], mac2: [8; 16] };
    let b = r.to_bytes();
    assert_eq!(&b[..12], &[2, 0, 0, 0, 1, 0, 0, 0, 4, 3, 2, 1]);
    assert_eq!(HandshakeResp::parse(&b).unwrap().to_bytes(), b);
    let c = CookieMessage { receiver: 3, nonce: [1; 24], cookie: [2; 32] };
    let b = c.to_bytes();
    assert_eq!(b.len(), 64);
    assert_eq!(b[0], 4);
    assert_eq!(CookieMessage::parse(&b).unwrap().to_bytes(), b);
}

#[test]
fn cookie_seal_and_open() {
    let key = [3u8; 32];
    let nonce = [4u8; 24];
    let aad = [5u8; 16];
    let sealed = encrypt_cookie(Cookie([6; 16]), &key, &nonce, &aad);
    assert_ne!(&sealed[..16], &[6u8; 16]);
    let opened = decrypt_cookie(&sealed, &key, &nonce, &aad).unwrap();
    assert_eq!(opened.0, [6; 16]);
    let bad = decrypt_cookie(&sealed, &key, &nonce, &[0u8; 16]);
    assert_eq!(bad.err(), Some(CryptoError::DecryptionError));
}

#[test]
fn cookie_depends_on_endpoint() {
    let state = CookieState::new([1; 32]);
    let a = Endpoint { ip: IpAddr::V4([10, 0, 0, 1]), port: 51820 };
    let b = Endpoint { ip: IpAddr::V4([10, 0, 0, 1]), port: 51821 };
    let c = Endpoint { ip: IpAddr::V6([0; 16]), port: 51820 };
    let ca = state.new_cookie(&a).0;
    assert_eq!(ca, state.new_cookie(&a).0);
    assert_ne!(ca, state.new_cookie(&b).0);
    assert_ne!(ca, state.new_cookie(&c).0);
}

#[test]
fn encrypt_then_decrypt_recovers_and_other_counter_fails() {
    let mut a = Session::from_split(1, 2, [1; 32], [2; 32], Role::Initiator, 0);
    let mut b = Session::from_split(2, 1, [1; 32], [2; 32], Role::Responder, 0);
    let m = a.encrypt(b"attack at dawn", 0).unwrap();
    assert_eq!(m.counter, 0);
    assert_eq!(m.receiver, 2);
    assert_eq!(m.payload.len(), 32);
    let mut moved = m.clone();
    moved.counter = 1;
    assert_eq!(b.decrypt(&moved, 0).err(), Some(Error::BadTag));
    let pt = b.decrypt(&m, 0).unwrap();
    assert_eq!(&pt[..14], b"attack at dawn");
    assert_eq!(&pt[14..], &[0, 0]);
    assert_eq!(b.decrypt(&m, 0).err(), Some(Error::Replay));
}

#[test]
fn tx_counter_strictly_increasing() {
    let mut a = Session::from_split(1, 2, [1; 32], [2; 32], Role::Initiator, 0);
    let c0 = a.encrypt(b"", 1).unwrap().counter;
    let c1 = a.encrypt(b"x", 1).unwrap().counter;
    let c2 = a.encrypt(b"yy", 1).unwrap().counter;
    assert!(c0 < c1 && c1 < c2);
    assert_eq!((c0, c1, c2), (0, 1, 2));
    assert_eq!(a.tx_counter, 3);
}

#[test]
fn send_refused_after_reject_limits() {
    let mut a = Session::from_split(1, 2, [1; 32], [2; 32], Role::Initiator, 100);
    assert!(a.encrypt(b"x", 279).is_some());
    assert!(a.encrypt(b"x", 280).is_none());
    a.tx_counter = rustyguard::transport::REJECT_AFTER_MESSAGES;
    assert!(a.encrypt(b"x", 101).is_none());
    assert_eq!(a.tx_counter, rustyguard::transport::REJECT_AFTER_MESSAGES);
}

#[test]
fn expired_session_refuses_data() {
    let mut a = Session::from_split(1, 2, [1; 32], [2; 32], Role::Initiator, 0);
    let mut b = Session::from_split(2, 1, [1; 32], [2; 32], Role::Responder, 0);
    let m = a.encrypt(b"x", 0).unwrap();
    assert_eq!(b.decrypt(&m, 180).err(), Some(Error::UnknownSession));
    assert!(b.decrypt(&m, 179).is_ok());
}
