use rand::SeedableRng;
use rustyguard::handshake::{
    decrypt_handshake_init, decrypt_handshake_resp, encrypt_handshake_init, encrypt_handshake_resp,
    StaticInitiatorConfig, StaticPeerConfig,
};
use rustyguard::mac::{Endpoint, IpAddr, MacCheck, CookieState};
use rustyguard::messages::{Error, HandshakeInit, HandshakeResp};
use rustyguard::noise::HandshakeState;
use rustyguard::sessions::{retry_interval, Intent, Message, PeerConfig, Sessions};
use rustyguard::transport::{Role, Session};

fn tai(secs: u64) -> [u8; 12] {
    let label = 0x4000_0000_0000_0000u64 + secs;
    let mut t = [0u8; 12];
    t[..8].copy_from_slice(&label.to_be_bytes());
    t
}

fn endpoint(last: u8, port: u16) -> Endpoint {
    Endpoint { ip: IpAddr::V4([192, 0, 2, last]), port }
}

fn same_endpoint(a: &Option<Endpoint>, b: &Endpoint) -> bool {
    match a {
        Some(Endpoint { ip: IpAddr::V4(x), port }) => match b.ip {
            IpAddr::V4(y) => *x == y && *port == b.port,
            IpAddr::V6(_) => false,
        },
        Some(Endpoint { ip: IpAddr::V6(x), port }) => match b.ip {
            IpAddr::V6(y) => *x == y && *port == b.port,
            IpAddr::V4(_) => false,
        },
        None => false,
    }
}

fn public(sk: [u8; 32]) -> [u8; 32] {
    x25519_dalek::PublicKey::from(&x25519_dalek::StaticSecret::from(sk)).to_bytes()
}

/// An initiator host (peer 0 = the responder) and a responder host (peer 0 =
/// the initiator).
fn pair(rng: &mut rand::rngs::StdRng) -> (Sessions, Sessions) {
    let sk_i = [0x01; 32];
    let sk_r = [0x02; 32];
    let i = Sessions::new(
        sk_i,
        vec![PeerConfig { key: public(sk_r), preshared_key: None, endpoint: Some(endpoint(2, 51820)), keepalive: None }],
        &tai(0),
        rng,
    );
    let r = Sessions::new(
        sk_r,
        vec![PeerConfig { key: public(sk_i), preshared_key: None, endpoint: None, keepalive: None }],
        &tai(0),
        rng,
    );
    (i, r)
}

/// Runs a full handshake through the engines; returns the Init that was used.
fn handshake(i: &mut Sessions, r: &mut Sessions, now: u64, from: &Endpoint, rng: &mut rand::rngs::StdRng) -> Vec<u8> {
    let init = i.initiate(0, &tai(now), rng).unwrap();
    let resp = match r.recv_message(from, &init, &tai(now), rng) {
        Ok(Message::Response(bytes, _)) => bytes,
        _ => panic!("no response"),
    };
    assert_eq!(resp.len(), 92);
    match i.recv_message(&endpoint(2, 51820), &resp, &tai(now), rng) {
        Ok(Message::HandshakeComplete(0)) => {},
        _ => panic!("handshake did not complete"),
    }
    init
}

fn send(i: &mut Sessions, payload: &[u8], now: u64, rng: &mut rand::rngs::StdRng) -> Vec<u8> {
    match i.send_message(0, payload, &tai(now), rng) {
        Ok(Intent::Datagram { bytes, .. }) => bytes,
        _ => panic!("expected a datagram"),
    }
}

#[test]
fn full_handshake_initiator_and_responder() {
    let sk_i = [0x01; 32];
    let sk_r = [0x02; 32];
    let initiator = StaticInitiatorConfig::new(sk_i);
    let responder = StaticInitiatorConfig::new(sk_r);
    let peer_r = StaticPeerConfig::new(responder.public_key, Some([0; 32]));
    let peer_i = StaticPeerConfig::new(initiator.public_key, None);
    let esk_i = [0x11; 32];
    let esk_r = [0x12; 32];
    let now: [u8; 12] = [0x40, 0, 0, 0, 0, 0, 0, 0, 0, 0, 0, 0];

    let mut hs_i = HandshakeState::new();
    let init = encrypt_handshake_init(&mut hs_i, &initiator, &peer_r, &esk_i, &now, 1, None).unwrap();
    let init_bytes = init.to_bytes();
    assert_eq!(init_bytes.len(), 148);
    assert_eq!(&init_bytes[..4], &[1, 0, 0, 0]);

    let received = HandshakeInit::parse(&init_bytes).unwrap();
    let cookies = CookieState::new([9; 32]);
    let from = endpoint(1, 1000);
    assert!(matches!(received.verify(&responder.mac1_key, false, &cookies, &from), Ok(MacCheck::Continue)));
    let mut hs_r = HandshakeState::new();
    let data = decrypt_handshake_init(&received, &mut hs_r, &responder).unwrap();
    assert_eq!(data.static_key(), initiator.public_key);
    assert_eq!(data.timestamp(), now);
    assert_eq!(data.sender, 1);

    let resp = encrypt_handshake_resp(&mut hs_r, &data, &esk_r, &peer_i, 2, None).unwrap();
    let resp_bytes = resp.to_bytes();
    assert_eq!(resp_bytes.len(), 92);
    assert_eq!(&resp_bytes[..4], &[2, 0, 0, 0]);

    let resp = HandshakeResp::parse(&resp_bytes).unwrap();
    assert_eq!(resp.receiver, 1);
    assert!(decrypt_handshake_resp(&resp, &mut hs_i, &initiator, &peer_r, &esk_i).is_ok());
    assert_eq!(hs_i.hash, hs_r.hash);
    assert_eq!(hs_i.chain, hs_r.chain);

    let (i1, i2) = hs_i.split();
    let (r1, r2) = hs_r.split();
    assert_eq!((i1, i2), (r1, r2));
    assert_ne!(i1, i2);
    assert_eq!(hs_i.chain, [0; 32]);
    let si = Session::from_split(1, 2, i1, i2, Role::Initiator, 0);
    let sr = Session::from_split(2, 1, r1, r2, Role::Responder, 0);
    assert_eq!(si.tx_key, sr.rx_key);
    assert_eq!(si.rx_key, sr.tx_key);
}

#[test]
fn wrong_responder_key_fails_to_decrypt() {
    let initiator = StaticInitiatorConfig::new([1; 32]);
    let responder = StaticInitiatorConfig::new([2; 32]);
    let other = StaticInitiatorConfig::new([3; 32]);
    let peer_r = StaticPeerConfig::new(responder.public_key, None);
    let mut hs = HandshakeState::new();
    let init = encrypt_handshake_init(&mut hs, &initiator, &peer_r, &[0x11; 32], &tai(0), 1, None).unwrap();
    let mut hs_o = HandshakeState::new();
    assert!(decrypt_handshake_init(&init, &mut hs_o, &other).is_err());
    let cookies = CookieState::new([0; 32]);
    assert!(init.verify(&other.mac1_key, false, &cookies, &endpoint(1, 1)).is_err());
}

#[test]
fn cookie_reply_under_load() {
    let mut rng = rand::rngs::StdRng::seed_from_u64(1);
    let (mut i, mut r) = pair(&mut rng);
    r.set_under_load(true);
    let from = endpoint(1, 4000);
    let init = i.initiate(0, &tai(10), &mut rng).unwrap();
    assert_eq!(&init[132..148], &[0u8; 16]);
    let cookie_msg = match r.recv_message(&from, &init, &tai(10), &mut rng) {
        Ok(Message::Response(bytes, _)) => bytes,
        _ => panic!("expected a cookie reply"),
    };
    assert_eq!(cookie_msg.len(), 64);
    assert_eq!(cookie_msg[0], 4);
    assert!(r.peers[0].last_timestamp.is_none());
    assert!(matches!(i.recv_message(&endpoint(2, 51820), &cookie_msg, &tai(10), &mut rng), Ok(Message::Noop)));
    assert!(i.peers[0].cookie.is_some());
    let retry = i.initiate(0, &tai(11), &mut rng).unwrap();
    assert_ne!(&retry[132..148], &[0u8; 16]);
    match r.recv_message(&from, &retry, &tai(11), &mut rng) {
        Ok(Message::Response(bytes, _)) => assert_eq!(bytes.len(), 92),
        _ => panic!("retried Init not accepted"),
    }
}

#[test]
fn data_replay_rejected() {
    let mut rng = rand::rngs::StdRng::seed_from_u64(2);
    let (mut i, mut r) = pair(&mut rng);
    let from = endpoint(1, 4000);
    handshake(&mut i, &mut r, 5, &from, &mut rng);
    let data = send(&mut i, b"hello", 5, &mut rng);
    match r.recv_message(&from, &data, &tai(5), &mut rng) {
        Ok(Message::Read(0, pt)) => {
            assert_eq!(pt.len(), 16);
            assert_eq!(&pt[..5], b"hello");
        },
        _ => panic!("data not delivered"),
    }
    let highest: Vec<u64> = r.live.iter().filter_map(|e| e.session.as_ref().map(|s| s.rx_window.highest())).collect();
    let again = r.recv_message(&from, &data, &tai(5), &mut rng);
    assert_eq!(again.err(), Some(Error::Replay));
    let after: Vec<u64> = r.live.iter().filter_map(|e| e.session.as_ref().map(|s| s.rx_window.highest())).collect();
    assert_eq!(highest, after);
}

#[test]
fn init_timestamp_replay_rejected() {
    let mut rng = rand::rngs::StdRng::seed_from_u64(3);
    let (mut i, mut r) = pair(&mut rng);
    let from = endpoint(1, 4000);
    let first = handshake(&mut i, &mut r, 5, &from, &mut rng);
    let replay = r.recv_message(&from, &first, &tai(6), &mut rng);
    assert_eq!(replay.err(), Some(Error::Replay));
    // a newer handshake is accepted, after which both older Inits are replays
    let second = handshake(&mut i, &mut r, 7, &from, &mut rng);
    assert_eq!(r.recv_message(&from, &first, &tai(8), &mut rng).err(), Some(Error::Replay));
    assert_eq!(r.recv_message(&from, &second, &tai(8), &mut rng).err(), Some(Error::Replay));
}

#[test]
fn rekey_on_counter() {
    let mut rng = rand::rngs::StdRng::seed_from_u64(4);
    let (mut i, mut r) = pair(&mut rng);
    let from = endpoint(1, 4000);
    handshake(&mut i, &mut r, 5, &from, &mut rng);
    for e in i.live.iter_mut() {
        if let Some(s) = e.session.as_mut() {
            s.tx_counter = 1u64 << 60;
        }
    }
    match i.send_message(0, b"payload", &tai(6), &mut rng) {
        Ok(Intent::NeedsHandshake { init, data, .. }) => {
            assert_eq!(init.len(), 148);
            assert_eq!(&init[..4], &[1, 0, 0, 0]);
            let data = data.expect("the old session still carries data");
            assert_eq!(&data[8..16], &(1u64 << 60).to_le_bytes());
            assert!(matches!(r.recv_message(&from, &data, &tai(6), &mut rng), Ok(Message::Read(0, _))));
        },
        _ => panic!("expected a handshake request"),
    }
}

#[test]
fn roaming_updates_endpoint_only_on_authenticated_data() {
    let mut rng = rand::rngs::StdRng::seed_from_u64(5);
    let (mut i, mut r) = pair(&mut rng);
    let a = endpoint(1, 4000);
    let b = endpoint(7, 5000);
    let c = endpoint(9, 6000);
    handshake(&mut i, &mut r, 5, &a, &mut rng);
    assert!(same_endpoint(&r.peers[0].endpoint, &a));
    let data = send(&mut i, b"from b", 5, &mut rng);
    assert!(r.recv_message(&b, &data, &tai(5), &mut rng).is_ok());
    assert!(same_endpoint(&r.peers[0].endpoint, &b));
    let mut forged = send(&mut i, b"from c", 5, &mut rng);
    let last = forged.len() - 1;
    forged[last] ^= 1;
    assert_eq!(r.recv_message(&c, &forged, &tai(5), &mut rng).err(), Some(Error::BadTag));
    assert!(same_endpoint(&r.peers[0].endpoint, &b));
}

#[test]
fn unknown_session_and_malformed() {
    let mut rng = rand::rngs::StdRng::seed_from_u64(6);
    let (_, mut r) = pair(&mut rng);
    let from = endpoint(1, 1);
    let mut data = vec![0u8; 32];
    data[0] = 3;
    assert_eq!(r.recv_message(&from, &data, &tai(1), &mut rng).err(), Some(Error::UnknownSession));
    assert_eq!(r.recv_message(&from, &[1, 0, 0], &tai(1), &mut rng).err(), Some(Error::Malformed));
    assert_eq!(r.recv_message(&from, &[9, 0, 0, 0], &tai(1), &mut rng).err(), Some(Error::Malformed));
    assert_eq!(r.recv_message(&from, &[1u8; 148], &tai(1), &mut rng).err(), Some(Error::Malformed));
    let mut bad_mac = vec![0u8; 148];
    bad_mac[0] = 1;
    assert_eq!(r.recv_message(&from, &bad_mac, &tai(1), &mut rng).err(), Some(Error::Rejected));
}

#[test]
fn unknown_peer_rejected() {
    let mut rng = rand::rngs::StdRng::seed_from_u64(7);
    let (_, mut r) = pair(&mut rng);
    let stranger = StaticInitiatorConfig::new([5; 32]);
    let peer_r = StaticPeerConfig::new(public([2; 32]), None);
    let mut hs = HandshakeState::new();
    let init = encrypt_handshake_init(&mut hs, &stranger, &peer_r, &[0x13; 32], &tai(1), 3, None).unwrap();
    assert_eq!(r.recv_message(&endpoint(1, 1), &init.to_bytes(), &tai(1), &mut rng).err(), Some(Error::UnknownPeer));
    assert_eq!(r.initiate(5, &tai(1), &mut rng).err(), Some(Error::UnknownPeer));
}

#[test]
fn live_indices_stay_distinct_under_churn() {
    let mut rng = rand::rngs::StdRng::seed_from_u64(8);
    let (mut i, mut r) = pair(&mut rng);
    let from = endpoint(1, 4000);
    for round in 0..150u64 {
        handshake(&mut i, &mut r, 10 + round, &from, &mut rng);
        let data = send(&mut i, b"x", 10 + round, &mut rng);
        assert!(r.recv_message(&from, &data, &tai(10 + round), &mut rng).is_ok());
        for host in [&i, &r] {
            let mut seen: Vec<u32> = host.live.iter().map(|e| e.index).collect();
            let n = seen.len();
            seen.sort();
            seen.dedup();
            assert_eq!(seen.len(), n);
            assert!(n <= 4);
        }
    }
}

#[test]
fn tick_retires_and_keeps_alive() {
    let mut rng = rand::rngs::StdRng::seed_from_u64(9);
    let sk_i = [0x01; 32];
    let sk_r = [0x02; 32];
    let mut i = Sessions::new(
        sk_i,
        vec![PeerConfig { key: public(sk_r), preshared_key: None, endpoint: Some(endpoint(2, 51820)), keepalive: Some(10) }],
        &tai(0),
        &mut rng,
    );
    let mut r = Sessions::new(
        sk_r,
        vec![PeerConfig { key: public(sk_i), preshared_key: None, endpoint: None, keepalive: None }],
        &tai(0),
        &mut rng,
    );
    let from = endpoint(1, 4000);
    handshake(&mut i, &mut r, 0, &from, &mut rng);
    assert!(i.tick(&tai(5), &mut rng).is_empty());
    let out = i.tick(&tai(10), &mut rng);
    assert_eq!(out.len(), 1);
    assert_eq!(out[0].bytes.len(), 32);
    assert!(matches!(r.recv_message(&from, &out[0].bytes, &tai(10), &mut rng), Ok(Message::Noop)));
    // no duplicate for the same deadline
    assert!(i.tick(&tai(10), &mut rng).is_empty());
    // past REKEY_AFTER_TIME the initiator starts a new handshake
    let out = i.tick(&tai(120), &mut rng);
    assert!(out.iter().any(|o| o.bytes.len() == 148));
    // past REJECT_AFTER_TIME the old session is retired
    i.tick(&tai(400), &mut rng);
    assert!(i.live.iter().all(|e| e.session.is_none()));
    // the cookie secret rotates
    assert_eq!(i.cookie_created, 0x4000_0000_0000_0000 + 400);
}

#[test]
fn all_zero_shared_secret_refused() {
    let initiator = StaticInitiatorConfig::new([1; 32]);
    // the all-zero u-coordinate is a low-order point: every shared secret with it is zero
    let low_order = StaticPeerConfig::new([0; 32], None);
    let mut hs = HandshakeState::new();
    let r = encrypt_handshake_init(&mut hs, &initiator, &low_order, &[0x11; 32], &tai(0), 1, None);
    assert_eq!(r.err(), Some(rustyguard::mac::CryptoError::Rejected));
    assert!(rustyguard::noise::dh(&[0x11; 32], &[0; 32]).is_none());
    assert!(rustyguard::noise::dh(&[0x11; 32], &initiator.public_key).is_some());
}

#[test]
fn rekey_requested_on_old_session_receive() {
    let mut rng = rand::rngs::StdRng::seed_from_u64(10);
    let (mut i, mut r) = pair(&mut rng);
    let from = endpoint(1, 4000);
    handshake(&mut i, &mut r, 0, &from, &mut rng);
    let first = send(&mut i, b"promote", 0, &mut rng);
    assert!(r.recv_message(&from, &first, &tai(0), &mut rng).is_ok());
    let back = match r.send_message(0, b"late reply", &tai(170), &mut rng) {
        Ok(Intent::Datagram { bytes, .. }) => bytes,
        _ => panic!("responder could not send"),
    };
    assert!(!i.peers[0].rekey_wanted);
    assert!(matches!(i.recv_message(&endpoint(2, 51820), &back, &tai(170), &mut rng), Ok(Message::Read(0, _))));
    assert!(i.peers[0].rekey_wanted);
    let out = i.tick(&tai(170), &mut rng);
    assert!(out.iter().any(|o| o.bytes.len() == 148));
    assert!(!i.peers[0].rekey_wanted);
}

#[test]
fn all_zero_plaintext_is_keepalive() {
    let mut rng = rand::rngs::StdRng::seed_from_u64(11);
    let (mut i, mut r) = pair(&mut rng);
    let from = endpoint(1, 4000);
    handshake(&mut i, &mut r, 0, &from, &mut rng);
    let zeros = send(&mut i, &[0u8; 16], 0, &mut rng);
    assert!(matches!(r.recv_message(&from, &zeros, &tai(0), &mut rng), Ok(Message::Noop)));
    let data = send(&mut i, &[0, 0, 1], 0, &mut rng);
    assert!(matches!(r.recv_message(&from, &data, &tai(0), &mut rng), Ok(Message::Read(0, _))));
}

#[test]
fn init_retries_back_off_exponentially() {
    assert_eq!(retry_interval(0), 5);
    assert_eq!(retry_interval(1), 10);
    assert_eq!(retry_interval(2), 20);
    assert_eq!(retry_interval(3), 40);
    assert_eq!(retry_interval(9), 80);
    let mut rng = rand::rngs::StdRng::seed_from_u64(12);
    let (mut i, _) = pair(&mut rng);
    i.initiate(0, &tai(0), &mut rng).unwrap();
    assert!(i.tick(&tai(4), &mut rng).is_empty());
    assert_eq!(i.tick(&tai(5), &mut rng).len(), 1);
    // the second retry waits twice as long
    assert!(i.tick(&tai(14), &mut rng).is_empty());
    assert_eq!(i.tick(&tai(15), &mut rng).len(), 1);
    assert!(i.tick(&tai(34), &mut rng).is_empty());
    assert_eq!(i.tick(&tai(35), &mut rng).len(), 1);
    // past REKEY_ATTEMPT_TIME the attempt is abandoned
    assert!(i.tick(&tai(90), &mut rng).is_empty());
    assert!(i.peers[0].handshake.is_none());
    assert!(i.live.is_empty());
}
