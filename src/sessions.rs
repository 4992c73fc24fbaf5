//! The session engine: the peer registry, the table of live indices, and the
//! sans-I/O entry points `recv_message`, `send_message` and `tick`.
use vstd::prelude::*;
use crate::bytes::{decode_u32, le_bytes_u32, le_bytes_u64, le_u32, le_u64};
use crate::handshake::{
    decrypt_handshake_init, decrypt_handshake_resp, encrypt_handshake_init,
    encrypt_handshake_resp, init_built, init_opens, resp_after, resp_opens, resp_at_empty, resp_empty_key,
    DecryptedHandshakeInit, StaticInitiatorConfig, StaticPeerConfig,
};
use crate::mac::{cookie_of, Cookie, CookieState, CryptoError, Endpoint, MacCheck};
use crate::messages::{
    data_len_ok, init_bytes, init_mac1_input, init_mac2_input, message_type, resp_mac1_input, resp_mac2_input, type_of, COOKIE_LEN, INIT_LEN, RESP_LEN, CookieMessage, DataMessage, Error, HandshakeInit, HandshakeResp,
    MSG_COOKIE, MSG_DATA, MSG_FIRST, MSG_SECOND,
};
use crate::noise::HandshakeState;
use crate::noise::{hkdf_block, nonce_of, zero_dh, NoiseView, CONSTRUCTION_HASH, IDENTIFIER_HASH};
use crate::primitives::{aead_len_ok, blake2s_mac_of, xseal_of, random_bytes, seal_of, x25519_of, x25519_public_of};
use crate::timestamp::{is_after, secs, tai_secs, ts_after, ts_fresh};
use crate::transport::{
    elapsed, padded, send_counter, Role, Session, COOKIE_SECRET_TTL, REJECT_AFTER_TIME, REKEY_ATTEMPT_TIME, REKEY_TIMEOUT,
};

verus! {

/// A remote peer as the caller configures it.
pub struct PeerConfig {
    pub key: [u8; 32],
    pub preshared_key: Option<[u8; 32]>,
    pub endpoint: Option<Endpoint>,
    /// Persistent-keepalive interval in seconds.
    pub keepalive: Option<u64>,
}

/// A handshake this host initiated, waiting for its response.
pub struct InitiatorHandshake {
    pub state: HandshakeState,
    pub esk: [u8; 32],
    pub local_index: u32,
    /// When the first Init of this attempt went out (seconds).
    pub started: u64,
    /// When the latest Init went out (seconds).
    pub sent: u64,
    /// The mac1 of the latest Init, the associated data of a cookie reply.
    pub mac1: [u8; 16],
    /// How many Inits of this attempt went out before the latest.
    pub attempts: u32,
}

/// The state of one peer.
pub struct Peer {
    pub config: StaticPeerConfig,
    /// The last endpoint a packet from the peer authenticated from.
    pub endpoint: Option<Endpoint>,
    pub keepalive: Option<u64>,
    /// The latest accepted handshake timestamp.
    pub last_timestamp: Option<[u8; 12]>,
    pub handshake: Option<InitiatorHandshake>,
    /// The latest cookie from the peer, and when it came (seconds).
    pub cookie: Option<(Cookie, u64)>,
    /// Session slots, by local index.
    pub previous: Option<u32>,
    pub current: Option<u32>,
    pub next: Option<u32>,
    /// When a message last went to the peer (seconds).
    pub last_sent: u64,
    /// A received packet asked the initiator for a new handshake.
    pub rekey_wanted: bool,
}

/// An entry of the table of live local indices: a session, or (with no
/// session) the sender index of a pending handshake.
pub struct LiveIndex {
    pub index: u32,
    pub peer: usize,
    pub session: Option<Session>,
}

/// What a received datagram produced.
pub enum Message {
    /// Nothing for the caller (a keepalive, a stored cookie).
    Noop,
    /// The handshake with this peer completed.
    HandshakeComplete(usize),
    /// A decrypted payload from this peer.
    Read(usize, Vec<u8>),
    /// A reply to send to the endpoint (a Resp or a Cookie reply).
    Response(Vec<u8>, Endpoint),
}

/// What sending a payload produced.
pub enum Intent {
    /// A handshake must run: the Init to send, and the data message if the
    /// current session could still carry it.
    NeedsHandshake { init: Vec<u8>, dst: Option<Endpoint>, data: Option<Vec<u8>> },
    /// The data message.
    Datagram { bytes: Vec<u8>, dst: Option<Endpoint> },
}

/// A maintenance message that `tick` asks to send.
pub struct Outbound {
    pub bytes: Vec<u8>,
    pub dst: Option<Endpoint>,
}

/// The engine.
pub struct Sessions {
    pub identity: StaticInitiatorConfig,
    pub peers: Vec<Peer>,
    pub live: Vec<LiveIndex>,
    pub cookie: CookieState,
    /// When the cookie secret was last generated (seconds).
    pub cookie_created: u64,
    /// Set by the driver when the host is under load.
    pub under_load: bool,
}

/// A peer's latest accepted timestamp as bytes.
pub open spec fn ts_view(t: Option<[u8; 12]>) -> Option<Seq<u8>> {
    match t {
        Some(a) => Some(a@),
        None => None,
    }
}

/// Between two states of the engine, every peer's latest accepted handshake
/// timestamp either stays or moves to a strictly later one.
pub open spec fn timestamps_advance(before: &Sessions, after: &Sessions) -> bool {
    &&& after.peers.len() == before.peers.len()
    &&& forall|p: int|
        0 <= p < before.peers.len() ==> #[trigger] after.peers[p].last_timestamp == before.peers[p].last_timestamp
            || (after.peers[p].last_timestamp.is_some() && ts_fresh(
            ts_view(before.peers[p].last_timestamp),
            after.peers[p].last_timestamp.unwrap()@,
        ))
}

/// Two states of the engine hold the same values.
pub open spec fn same_state(a: &Sessions, b: &Sessions) -> bool {
    &&& a.identity == b.identity
    &&& a.peers@ == b.peers@
    &&& a.live@ == b.live@
    &&& a.cookie == b.cookie
    &&& a.cookie_created == b.cookie_created
    &&& a.under_load == b.under_load
}

proof fn lemma_type_tag(t: u32, b: Seq<u8>)
    requires
        b.len() >= 4,
        b.subrange(0, 4) == crate::bytes::le_bytes_u32(t),
    ensures
        type_of(b) == t,
{
    assert(b[0] == b.subrange(0, 4)[0] && b[1] == b.subrange(0, 4)[1] && b[2] == b.subrange(0, 4)[2] && b[3] == b.subrange(0, 4)[3]);
}

/// Between two states of the engine, no peer's latest accepted timestamp
/// changes.
pub open spec fn timestamps_kept(before: &Sessions, after: &Sessions) -> bool {
    &&& after.peers.len() == before.peers.len()
    &&& forall|p: int|
        0 <= p < before.peers.len() ==> #[trigger] after.peers[p].last_timestamp == before.peers[p].last_timestamp
}

proof fn lemma_kept_trans(a: &Sessions, b: &Sessions, c: &Sessions)
    requires
        timestamps_kept(a, b),
        timestamps_kept(b, c),
    ensures
        timestamps_kept(a, c),
{
    assert forall|p: int| 0 <= p < a.peers.len() implies #[trigger] c.peers[p].last_timestamp == a.peers[p].last_timestamp by {
        assert(b.peers[p].last_timestamp == a.peers[p].last_timestamp);
    }
}

/// Whether two keys are equal (public data: variable time).
fn keys_equal(a: &[u8; 32], b: &[u8; 32]) -> (r: bool)
    ensures
        r == (a@ == b@),
{
    let mut i: usize = 0;
    while i < 32
        invariant
            i <= 32,
            forall|j: int| 0 <= j < i ==> a@[j] == b@[j],
        decreases 32 - i,
    {
        if a[i] != b[i] {
            return false;
        }
        i += 1;
    }
    assert(a@ =~= b@);
    true
}

impl Sessions {
    /// The engine's invariant: the configurations agree with their keys,
    /// every live entry names a peer, and no two live entries share a local
    /// index.
    pub open spec fn wf(&self) -> bool {
        &&& self.identity.wf()
        &&& forall|p: int| 0 <= p < self.peers.len() ==> (#[trigger] self.peers[p]).config.wf()
        &&& forall|i: int| 0 <= i < self.live.len() ==> (#[trigger] self.live[i]).peer < self.peers.len()
        &&& self.indices_distinct()
    }

    /// No two live entries share a local index.
    pub open spec fn indices_distinct(&self) -> bool {
        forall|i: int, j: int|
            0 <= i < self.live.len() && 0 <= j < self.live.len() && i != j ==> #[trigger] self.live[i].index
                != #[trigger] self.live[j].index
    }

    /// Whether `index` is a live local index.
    pub open spec fn is_live(&self, index: u32) -> bool {
        exists|i: int| 0 <= i < self.live.len() && #[trigger] self.live[i].index == index
    }

    /// The position of the live entry with this index.
    pub open spec fn pos_of(&self, x: u32) -> int {
        choose|i: int| 0 <= i < self.live.len() && self.live[i].index == x
    }

    /// The live entry with this index.
    pub open spec fn entry(&self, x: u32) -> LiveIndex {
        self.live[self.pos_of(x)]
    }

    /// Whether `x` is the live index of a session.
    pub open spec fn has_session(&self, x: u32) -> bool {
        self.is_live(x) && self.entry(x).session.is_some()
    }

    /// The session under live index `x`.
    pub open spec fn session(&self, x: u32) -> Session {
        self.entry(x).session.unwrap()
    }

    /// Whether `p` is the first peer registered under `key`.
    pub open spec fn first_peer(&self, p: int, key: Seq<u8>) -> bool {
        &&& 0 <= p < self.peers.len()
        &&& self.peers[p].config.key@ == key
        &&& forall|q: int| 0 <= q < p ==> self.peers[q].config.key@ != key
    }

    /// No two concurrent live sessions (or pending handshakes) on the host
    /// share a local index.
    pub proof fn lemma_unique_local_index(&self, i: int, j: int)
        requires
            self.wf(),
            0 <= i < self.live.len(),
            0 <= j < self.live.len(),
            i != j,
        ensures
            self.live[i].index != self.live[j].index,
    {
    }

    /// An engine for the host with static secret `private_key` and the given
    /// peers, with a fresh cookie secret.
    pub fn new(private_key: [u8; 32], peers: Vec<PeerConfig>, now: &[u8; 12], rng: &mut rand::rngs::StdRng) -> (r: Sessions)
        ensures
            r.wf(),
            r.peers.len() == peers.len(),
            forall|p: int| 0 <= p < peers.len() ==> r.peers[p].config.key == #[trigger] peers[p].key,
            r.live.len() == 0,
            r.identity.private_key == private_key,
            !r.under_load,
    {
        let identity = StaticInitiatorConfig::new(private_key);
        let mut list: Vec<Peer> = Vec::new();
        let mut i: usize = 0;
        while i < peers.len()
            invariant
                i <= peers.len(),
                list.len() == i,
                forall|p: int| 0 <= p < i ==> (#[trigger] list[p]).config.wf() && list[p].config.key == peers[p].key,
            decreases peers.len() - i,
        {
            let c = &peers[i];
            list.push(Peer {
                config: StaticPeerConfig::new(c.key, c.preshared_key),
                endpoint: c.endpoint,
                keepalive: c.keepalive,
                last_timestamp: None,
                handshake: None,
                cookie: None,
                previous: None,
                current: None,
                next: None,
                last_sent: 0,
                rekey_wanted: false,
            });
            i += 1;
        }
        let mut cookie = CookieState::new([0u8; 32]);
        cookie.generate(rng);
        Sessions { identity, peers: list, live: Vec::new(), cookie, cookie_created: secs(now), under_load: false }
    }

    /// Sets whether the host considers itself under load.
    pub fn set_under_load(&mut self, under_load: bool)
        requires
            old(self).wf(),
        ensures
            final(self).wf(),
            final(self).under_load == under_load,
            final(self).peers == old(self).peers,
            final(self).live == old(self).live,
    {
        self.under_load = under_load;
    }

    /// Whether the host considers itself under load.
    pub fn overloaded(&self) -> (r: bool)
        ensures
            r == self.under_load,
    {
        self.under_load
    }

    /// The position of the live entry with this index.
    pub fn find_live(&self, index: u32) -> (r: Option<usize>)
        ensures
            r.is_some() ==> r.unwrap() < self.live.len() && self.live[r.unwrap() as int].index == index,
            r.is_none() ==> !self.is_live(index),
    {
        let mut i: usize = 0;
        while i < self.live.len()
            invariant
                i <= self.live.len(),
                forall|j: int| 0 <= j < i ==> self.live[j].index != index,
            decreases self.live.len() - i,
        {
            if self.live[i].index == index {
                return Some(i);
            }
            i += 1;
        }
        None
    }

    /// The peer with this static public key.
    pub fn find_peer(&self, key: &[u8; 32]) -> (r: Option<usize>)
        ensures
            r.is_some() ==> r.unwrap() < self.peers.len() && self.peers[r.unwrap() as int].config.key@ == key@,
            r.is_some() ==> forall|q: int| 0 <= q < r.unwrap() ==> self.peers[q].config.key@ != key@,
            r.is_none() ==> forall|p: int| 0 <= p < self.peers.len() ==> self.peers[p].config.key@ != key@,
    {
        let mut i: usize = 0;
        while i < self.peers.len()
            invariant
                i <= self.peers.len(),
                forall|j: int| 0 <= j < i ==> self.peers[j].config.key@ != key@,
            decreases self.peers.len() - i,
        {
            if keys_equal(&self.peers[i].config.key, key) {
                return Some(i);
            }
            i += 1;
        }
        None
    }

    /// Draws a random local index that is not live; after a few collisions
    /// in a row it gives up.
    fn alloc_index(&self, rng: &mut rand::rngs::StdRng) -> (r: Option<u32>)
        ensures
            r.is_some() ==> !self.is_live(r.unwrap()),
    {
        let mut tries: usize = 0;
        while tries < 8
            decreases 8 - tries,
        {
            let b: [u8; 4] = random_bytes(rng);
            let index = decode_u32(&b);
            if self.find_live(index).is_none() {
                return Some(index);
            }
            tries += 1;
        }
        None
    }


    /// Removes the live entry with this index, if any; a removed session's
    /// keys are scrubbed before it is dropped.
    fn remove_live(&mut self, index: u32)
        requires
            old(self).wf(),
        ensures
            final(self).wf(),
            !final(self).is_live(index),
            live_step(&*old(self), &*final(self), set![index]),
            counters_kept(&*old(self), &*final(self)),
            forall|y: u32| final(self).is_live(y) ==> old(self).is_live(y),
            final(self).peers == old(self).peers,
            final(self).identity == old(self).identity,
            final(self).cookie == old(self).cookie,
            final(self).cookie_created == old(self).cookie_created,
            final(self).under_load == old(self).under_load,
    {
        match self.find_live(index) {
            Some(p) => {
                let ghost old_live = self.live@;
                let mut gone = self.live.remove(p);
                match &mut gone.session {
                    Some(s) => s.scrub_keys(),
                    None => {},
                }
                assert forall|i: int| 0 <= i < self.live.len() implies self.live[i] == (if i < p { old_live[i] } else { old_live[i + 1] }) by {}
                assert(self.wf());
                assert forall|y: u32| y != index implies (self.is_live(y) <==> old(self).is_live(y)) && (self.is_live(y) ==> self.entry(y) == old(self).entry(y)) by {
                    if old(self).is_live(y) {
                        let k = choose|k: int| 0 <= k < old_live.len() && #[trigger] old_live[k].index == y;
                        lemma_pos(&*old(self), k);
                        if k < p {
                            assert(self.live[k].index == y);
                            lemma_pos(&*self, k);
                        } else {
                            assert(k != p);
                            assert(self.live[k - 1].index == y);
                            lemma_pos(&*self, k - 1);
                        }
                    }
                    if self.is_live(y) {
                        let k = choose|k: int| 0 <= k < self.live.len() && #[trigger] self.live[k].index == y;
                        if k < p {
                            assert(old_live[k].index == y);
                        } else {
                            assert(old_live[k + 1].index == y);
                        }
                    }
                }
                assert(!self.is_live(index)) by {
                    if self.is_live(index) {
                        let k = choose|k: int| 0 <= k < self.live.len() && #[trigger] self.live[k].index == index;
                        if k < p {
                            assert(old_live[k].index == index);
                        } else {
                            assert(old_live[k + 1].index == index);
                        }
                    }
                }
            },
            None => {
                proof {
                    lemma_same_live(&*old(self), &*self);
                }
            },
        }
        proof {
            lemma_counters_from_step(&*old(self), &*self, set![index]);
        }
    }

    /// Adds a live entry with an index that is not live.
    fn insert_live(&mut self, entry: LiveIndex)
        requires
            old(self).wf(),
            !old(self).is_live(entry.index),
            entry.peer < old(self).peers.len(),
        ensures
            final(self).wf(),
            live_step(&*old(self), &*final(self), set![entry.index]),
            final(self).is_live(entry.index),
            final(self).entry(entry.index) == entry,
            final(self).peers == old(self).peers,
            final(self).identity == old(self).identity,
            final(self).cookie == old(self).cookie,
            final(self).cookie_created == old(self).cookie_created,
            final(self).under_load == old(self).under_load,
    {
        let ghost idx = entry.index;
        let ghost e = entry;
        let ghost old_live = self.live@;
        self.live.push(entry);
        assert(self.live[old_live.len() as int] == e);
        assert forall|i: int| 0 <= i < old_live.len() implies self.live[i] == old_live[i] by {}
        assert(self.indices_distinct()) by {
            assert forall|i: int| 0 <= i < old_live.len() implies self.live[i].index != idx by {
                if old_live[i].index == idx {
                    assert(old(self).is_live(idx));
                }
            }
        }
        proof {
            lemma_pos(&*self, old_live.len() as int);
        }
        assert forall|y: u32| y != idx implies (self.is_live(y) <==> old(self).is_live(y)) && (self.is_live(y) ==> self.entry(y) == old(self).entry(y)) by {
            if old(self).is_live(y) {
                let k = choose|k: int| 0 <= k < old_live.len() && #[trigger] old_live[k].index == y;
                lemma_pos(&*old(self), k);
                assert(self.live[k].index == y);
                lemma_pos(&*self, k);
            }
            if self.is_live(y) {
                let k = choose|k: int| 0 <= k < self.live.len() && #[trigger] self.live[k].index == y;
                assert(k < old_live.len());
                assert(old_live[k].index == y);
            }
        }
    }


    /// Handles a Data message: finds the session by receiver index, opens the
    /// payload through the session's replay window, and on success records
    /// the source as the peer's endpoint and promotes a `next` session. An
    /// all-zero plaintext is a keepalive and is not delivered.
    pub fn recv_data(&mut self, src: &Endpoint, buf: &[u8], now: &[u8; 12]) -> (r: Result<Message, Error>)
        requires
            old(self).wf(),
        ensures
            final(self).wf(),
            timestamps_kept(&*old(self), &*final(self)),
            counters_kept(&*old(self), &*final(self)),
            r.is_err() ==> same_state(&*old(self), &*final(self)),
            data_outcome(*old(self), *final(self), *src, buf@, now@, r),
    {
        let msg = DataMessage::parse(buf)?;
        if msg.payload.len() / 64 >= 0xFFFF_FFFF {
            return Err(Error::Malformed);
        }
        let ghost x = data_receiver(buf@);
        let ghost c = data_counter(buf@);
        assert(msg.receiver == x && msg.counter == c);
        let pos = match self.find_live(msg.receiver) {
            Some(pos) => pos,
            None => return Err(Error::UnknownSession),
        };
        proof {
            lemma_pos(&*self, pos as int);
        }
        if self.live[pos].session.is_none() {
            return Err(Error::UnknownSession);
        }
        let now_s = secs(now);
        let ghost before = *self;
        let mut entry = self.live.remove(pos);
        let (res, rekey) = match &mut entry.session {
            Some(s) => (s.decrypt(&msg, now_s), s.needs_rekey_on_recv(now_s, msg.counter)),
            None => (Err(Error::UnknownSession), false),
        };
        let ghost e2 = entry;
        self.live.insert(pos, entry);
        assert(self.live@ =~= before.live@.update(pos as int, e2));
        let payload = match res {
            Ok(pt) => pt,
            Err(e) => {
                assert(self.live@ =~= before.live@);
                return Err(e);
            },
        };
        proof {
            lemma_update_step(&before, &*self, pos as int, e2);
        }
        let peer = self.live[pos].peer;
        let ghost mid = *self;
        self.peers[peer].endpoint = Some(*src);
        if rekey {
            self.peers[peer].rekey_wanted = true;
        }
        proof {
            lemma_same_live(&mid, &*self);
            lemma_counters_from_step(&mid, &*self, Set::empty());
        }
        let ghost mid2 = *self;
        let is_next = match self.peers[peer].next {
            Some(n) => n == msg.receiver,
            None => false,
        };
        if is_next {
            self.promote_next(peer, msg.receiver);
        } else {
            proof {
                lemma_same_live(&mid2, &*self);
                lemma_counters_from_step(&mid2, &*self, Set::empty());
            }
        }
        proof {
            lemma_counters_from_step(&before, &mid, set![x]);
            lemma_counters_trans(&before, &mid, &mid2);
            lemma_counters_trans(&before, &mid2, &*self);
        }
        if is_all_zero(&payload) {
            Ok(Message::Noop)
        } else {
            Ok(Message::Read(peer, payload))
        }
    }

    /// Moves the peer's `next` session to `current` and `current` to
    /// `previous`; the displaced `previous` is retired when it is the peer's
    /// own entry and not `keep`.
    fn promote_next(&mut self, peer: usize, keep: u32)
        requires
            old(self).wf(),
            peer < old(self).peers.len(),
        ensures
            final(self).wf(),
            timestamps_kept(&*old(self), &*final(self)),
            counters_kept(&*old(self), &*final(self)),
            forall|q: int| 0 <= q < old(self).peers.len() ==> #[trigger] final(self).peers[q].endpoint == old(self).peers[q].endpoint,
            old(self).is_live(keep) ==> final(self).is_live(keep) && final(self).entry(keep) == old(self).entry(keep),
            final(self).identity == old(self).identity,
            final(self).cookie == old(self).cookie,
            final(self).cookie_created == old(self).cookie_created,
            final(self).under_load == old(self).under_load,
    {
        match self.peers[peer].previous {
            Some(i) => {
                if i != keep {
                    self.remove_own(peer, i);
                } else {
                    proof {
                        lemma_same_live(&*old(self), &*self);
                        lemma_counters_from_step(&*old(self), &*self, Set::empty());
                    }
                }
            },
            None => {
                proof {
                    lemma_same_live(&*old(self), &*self);
                    lemma_counters_from_step(&*old(self), &*self, Set::empty());
                }
            },
        }
        let ghost mid = *self;
        let current = self.peers[peer].current;
        let next = self.peers[peer].next;
        self.peers[peer].previous = current;
        self.peers[peer].current = next;
        self.peers[peer].next = None;
        proof {
            lemma_same_live(&mid, &*self);
            lemma_counters_from_step(&mid, &*self, Set::empty());
            lemma_counters_trans(&*old(self), &mid, &*self);
        }
    }

    /// Removes the live entry `index` if it belongs to `peer`.
    fn remove_own(&mut self, peer: usize, index: u32)
        requires
            old(self).wf(),
        ensures
            final(self).wf(),
            live_step(&*old(self), &*final(self), set![index]),
            counters_kept(&*old(self), &*final(self)),
            old(self).is_live(index) && old(self).entry(index).peer == peer ==> !final(self).is_live(index),
            forall|y: u32| final(self).is_live(y) ==> old(self).is_live(y),
            forall|y: u32| #[trigger] old(self).is_live(y) && old(self).entry(y).peer != peer ==> final(self).is_live(y)
                && final(self).entry(y) == old(self).entry(y),
            final(self).peers == old(self).peers,
            final(self).identity == old(self).identity,
            final(self).cookie == old(self).cookie,
            final(self).cookie_created == old(self).cookie_created,
            final(self).under_load == old(self).under_load,
    {
        match self.find_live(index) {
            Some(pos) => {
                proof {
                    lemma_pos(&*self, pos as int);
                }
                if self.live[pos].peer == peer {
                    self.remove_live(index);
                } else {
                    proof {
                        lemma_same_live(&*old(self), &*self);
                        lemma_counters_from_step(&*old(self), &*self, Set::empty());
                    }
                }
            },
            None => {
                proof {
                    lemma_same_live(&*old(self), &*self);
                    lemma_counters_from_step(&*old(self), &*self, Set::empty());
                }
            },
        }
    }

    /// The peer's cookie while it is fresh (younger than the cookie TTL).
    fn peer_cookie(&self, peer: usize, now_s: u64) -> (r: Option<Cookie>)
        requires
            peer < self.peers.len(),
        ensures
            r == fresh_cookie(self.peers[peer as int], now_s),
    {
        match self.peers[peer].cookie {
            Some((c, t)) => {
                if now_s >= t && now_s - t < COOKIE_SECRET_TTL {
                    Some(c)
                } else {
                    None
                }
            },
            None => None,
        }
    }

    /// The cookie reply to a handshake message from `receiver` that failed
    /// mac2 under load.
    fn cookie_reply(&self, receiver: u32, cookie: Cookie, mac1: &[u8; 16], src: &Endpoint, rng: &mut rand::rngs::StdRng) -> (r: Message)
        ensures
            r matches Message::Response(bytes, dst) && dst == *src && bytes@.len() == 64 && type_of(bytes@) == MSG_COOKIE
                && bytes@.subrange(4, 8) == le_bytes_u32(receiver),
    {
        let nonce: [u8; 24] = random_bytes(rng);
        let reply = CookieMessage::new(receiver, cookie, &self.identity.cookie_key, nonce, mac1);
        let bytes = reply.to_bytes();
        proof {
            assert(bytes@.subrange(0, 4) =~= le_bytes_u32(MSG_COOKIE));
            assert(bytes@.subrange(4, 8) =~= le_bytes_u32(receiver));
            lemma_type_tag(MSG_COOKIE, bytes@);
        }
        Message::Response(bytes, *src)
    }

    /// The responder's second half, given the drawn local index and
    /// ephemeral secret: builds the Resp to a decrypted Init from `peer`,
    /// splits the keys into a Responder session under `index` in the peer's
    /// `next` slot, and records the Init's timestamp and the source endpoint.
    /// Refused (nothing changed) when either Diffie-Hellman result is zero.
    pub fn respond(
        &mut self,
        peer: usize,
        data: &DecryptedHandshakeInit,
        hs: HandshakeState,
        src: &Endpoint,
        index: u32,
        esk: &[u8; 32],
        now_s: u64,
    ) -> (r: Result<Vec<u8>, Error>)
        requires
            old(self).wf(),
            peer < old(self).peers.len(),
            !old(self).is_live(index),
        ensures
            final(self).wf(),
            counters_kept(&*old(self), &*final(self)),
            final(self).peers.len() == old(self).peers.len(),
            forall|q: int| 0 <= q < old(self).peers.len() && q != peer ==> #[trigger] final(self).peers[q].last_timestamp
                == old(self).peers[q].last_timestamp,
            r.is_ok() <==> !zero_dh(esk@, data.ephemeral_key@) && !zero_dh(esk@, data.static_key@),
            r.is_err() ==> r == Err::<Vec<u8>, Error>(Error::Rejected) && same_state(&*old(self), &*final(self)),
            r.is_ok() ==> responded(*old(self), *final(self), peer, *data, hs@, *src, index, esk@, now_s, r.unwrap()@),
    {
        let now_cookie = self.peer_cookie(peer, now_s);
        let mut hs = hs;
        let ghost s0 = hs@;
        let m = match encrypt_handshake_resp(&mut hs, data, esk, &self.peers[peer].config, index, now_cookie) {
            Ok(m) => m,
            Err(_) => return Err(Error::Rejected),
        };
        let (k1, k2) = hs.split();
        let session = Session::from_split(index, data.sender, k1, k2, Role::Responder, now_s);
        let ghost s_new = session;
        let ghost before = *self;
        match self.peers[peer].next {
            Some(i) => self.remove_own(peer, i),
            None => {
                proof {
                    lemma_same_live(&before, &*self);
                    lemma_counters_from_step(&before, &*self, Set::empty());
                }
            },
        }
        let ghost mid = *self;
        self.insert_live(LiveIndex { index, peer, session: Some(session) });
        let ghost mid2 = *self;
        self.peers[peer].next = Some(index);
        self.peers[peer].last_timestamp = Some(data.timestamp);
        self.peers[peer].endpoint = Some(*src);
        let bytes = m.to_bytes();
        proof {
            lemma_counters_from_step(&mid, &mid2, set![index]);
            lemma_counters_trans(&before, &mid, &mid2);
            lemma_same_live(&mid2, &*self);
            lemma_counters_from_step(&mid2, &*self, Set::empty());
            lemma_counters_trans(&before, &mid2, &*self);
            assert(bytes@.subrange(0, 4) =~= le_bytes_u32(MSG_SECOND));
            lemma_type_tag(MSG_SECOND, bytes@);
            assert(bytes@.subrange(4, 8) =~= le_bytes_u32(index));
            assert(bytes@.subrange(8, 12) =~= le_bytes_u32(data.sender));
            assert(bytes@.subrange(12, 44) =~= m.ephemeral_key@);
            assert(bytes@.subrange(44, 60) =~= m.empty@);
            assert(bytes@.subrange(0, 60) =~= resp_mac1_input(m));
            assert(bytes@.subrange(60, 76) =~= m.mac1@);
        }
        Ok(bytes)
    }

    /// Handles an Init: checks the MACs (answering with a cookie reply when
    /// the host is under load and mac2 fails), runs the responder's half of
    /// the handshake, enforces timestamp monotonicity, and on success
    /// installs the new session in the peer's `next` slot and answers with
    /// the Resp.
    pub fn recv_init(&mut self, src: &Endpoint, buf: &[u8], now: &[u8; 12], rng: &mut rand::rngs::StdRng) -> (r: Result<Message, Error>)
        requires
            old(self).wf(),
        ensures
            final(self).wf(),
            timestamps_advance(&*old(self), &*final(self)),
            counters_kept(&*old(self), &*final(self)),
            r.is_err() ==> same_state(&*old(self), &*final(self)),
            init_outcome(*old(self), *final(self), *src, buf@, now@, r),
    {
        let init = HandshakeInit::parse(buf)?;
        proof {
            assert(buf@.subrange(0, 116) =~= init_mac1_input(init));
            assert(buf@.subrange(116, 132) =~= init.mac1@);
            assert(buf@.subrange(0, 132) =~= init_mac2_input(init));
            assert(buf@.subrange(132, 148) =~= init.mac2@);
            assert(buf@.subrange(4, 8) =~= le_bytes_u32(init.sender));
            assert(buf@.subrange(8, 40) =~= init.ephemeral_key@);
            assert(buf@.subrange(40, 88) =~= init.static_key@);
            assert(buf@.subrange(88, 116) =~= init.timestamp@);
        }
        match init.verify(&self.identity.mac1_key, self.under_load, &self.cookie, src) {
            Err(_) => return Err(Error::Rejected),
            Ok(MacCheck::SendCookie(c)) => return Ok(self.cookie_reply(init.sender, c, &init.mac1, src, rng)),
            Ok(MacCheck::Continue) => {},
        }
        self.handshake_init(src, &init, now, rng)
    }

    /// The responder's handling of an Init whose MACs passed.
    #[verifier::rlimit(50)]
    fn handshake_init(&mut self, src: &Endpoint, init: &HandshakeInit, now: &[u8; 12], rng: &mut rand::rngs::StdRng) -> (r: Result<Message, Error>)
        requires
            old(self).wf(),
        ensures
            final(self).wf(),
            timestamps_advance(&*old(self), &*final(self)),
            counters_kept(&*old(self), &*final(self)),
            r.is_err() ==> same_state(&*old(self), &*final(self)),
            init_continued(*old(self), *final(self), *src, *init, r),
    {
        let ghost id = self.identity;
        let ghost epk = init.ephemeral_key@;
        let ghost cs = init.static_key@;
        let ghost ct = init.timestamp@;
        let mut hs = HandshakeState::new();
        assert(hs@ == initial_view());
        let data = match decrypt_handshake_init(&init, &mut hs, &self.identity) {
            Ok(d) => d,
            Err(e) => {
                assert forall|spk: Seq<u8>, ts: Seq<u8>| !init_opens(initial_view(), id, epk, cs, ct, spk, ts) by {
                    if init_opens(initial_view(), id, epk, cs, ct, spk, ts) {
                        assert(init_opens(initial_view(), *(&self.identity), init.ephemeral_key@, init.static_key@, init.timestamp@, spk, ts));
                    }
                }
                return match e {
                    CryptoError::Rejected => Err(Error::Rejected),
                    CryptoError::DecryptionError => Err(Error::BadTag),
                };
            },
        };
        let ghost spk0 = data.static_key@;
        let ghost ts0 = data.timestamp@;
        assert(init_opens(initial_view(), id, epk, cs, ct, spk0, ts0));
        assert forall|spk: Seq<u8>, ts: Seq<u8>| #[trigger] init_opens(initial_view(), id, epk, cs, ct, spk, ts) implies spk
            == spk0 && ts == ts0 by {}
        let peer = match self.find_peer(&data.static_key) {
            Some(p) => p,
            None => {
                assert forall|spk: Seq<u8>, ts: Seq<u8>, p: int| #[trigger] init_opens(initial_view(), id, epk, cs, ct, spk, ts)
                    implies !(#[trigger] self.first_peer(p, spk)) by {
                    if self.first_peer(p, spk) {
                        assert(self.peers[p].config.key@ != spk0);
                    }
                }
                return Err(Error::UnknownPeer);
            },
        };
        assert(self.first_peer(peer as int, spk0));
        assert forall|spk: Seq<u8>, ts: Seq<u8>, p: int| #[trigger] init_opens(initial_view(), id, epk, cs, ct, spk, ts)
            && #[trigger] self.first_peer(p, spk) implies p == peer && ts == ts0 by {
            lemma_first_peer_unique(&*self, p, peer as int, spk0);
        }
        match self.peers[peer].last_timestamp {
            Some(last) => {
                if !is_after(&data.timestamp, &last) {
                    return Err(Error::Replay);
                }
            },
            None => {},
        }
        let index = match self.alloc_index(rng) {
            Some(i) => i,
            None => return Err(Error::RateLimited),
        };
        let esk: [u8; 32] = random_bytes(rng);
        let bytes = self.respond(peer, &data, hs, src, index, &esk, secs(now))?;
        proof {
            crate::bytes::lemma_le_u32_of_bytes(init.sender);
        }
        Ok(Message::Response(bytes, *src))
    }

    /// Handles a Resp to a pending handshake: checks the MACs, runs the
    /// initiator's second half, and on success makes the new session the
    /// peer's `current` one.
    pub fn recv_resp(&mut self, src: &Endpoint, buf: &[u8], now: &[u8; 12], rng: &mut rand::rngs::StdRng) -> (r: Result<Message, Error>)
        requires
            old(self).wf(),
        ensures
            final(self).wf(),
            timestamps_kept(&*old(self), &*final(self)),
            counters_kept(&*old(self), &*final(self)),
            r.is_err() ==> same_state(&*old(self), &*final(self)),
            resp_outcome(*old(self), *final(self), *src, buf@, now@, r),
    {
        let resp = HandshakeResp::parse(buf)?;
        proof {
            assert(buf@.subrange(0, 60) =~= resp_mac1_input(resp));
            assert(buf@.subrange(60, 76) =~= resp.mac1@);
            assert(buf@.subrange(0, 76) =~= resp_mac2_input(resp));
            assert(buf@.subrange(76, 92) =~= resp.mac2@);
            assert(buf@.subrange(4, 8) =~= le_bytes_u32(resp.sender));
            assert(buf@.subrange(8, 12) =~= le_bytes_u32(resp.receiver));
            assert(buf@.subrange(12, 44) =~= resp.ephemeral_key@);
            assert(buf@.subrange(44, 60) =~= resp.empty@);
            crate::bytes::lemma_le_u32_of_bytes(resp.receiver);
            crate::bytes::lemma_le_u32_of_bytes(resp.sender);
        }
        match resp.verify(&self.identity.mac1_key, self.under_load, &self.cookie, src) {
            Err(_) => return Err(Error::Rejected),
            Ok(MacCheck::SendCookie(c)) => return Ok(self.cookie_reply(resp.sender, c, &resp.mac1, src, rng)),
            Ok(MacCheck::Continue) => {},
        }
        let x = resp.receiver;
        let pos = match self.find_live(x) {
            Some(pos) => pos,
            None => return Err(Error::UnknownSession),
        };
        proof {
            lemma_pos(&*self, pos as int);
        }
        if self.live[pos].session.is_some() {
            return Err(Error::UnknownSession);
        }
        let peer = self.live[pos].peer;
        let (mut hs, esk) = match &self.peers[peer].handshake {
            Some(h) => {
                if h.local_index != x {
                    return Err(Error::UnknownSession);
                }
                (HandshakeState { hash: h.state.hash, chain: h.state.chain }, h.esk)
            },
            None => return Err(Error::UnknownSession),
        };
        match decrypt_handshake_resp(&resp, &mut hs, &self.identity, &self.peers[peer].config, &esk) {
            Ok(()) => {},
            Err(CryptoError::Rejected) => return Err(Error::Rejected),
            Err(CryptoError::DecryptionError) => return Err(Error::BadTag),
        }
        let (k1, k2) = hs.split();
        let session = Session::from_split(x, resp.sender, k1, k2, Role::Initiator, secs(now));
        let ghost before = *self;
        match self.peers[peer].previous {
            Some(i) => {
                if i != x {
                    self.remove_own(peer, i);
                } else {
                    proof {
                        lemma_same_live(&before, &*self);
                        lemma_counters_from_step(&before, &*self, Set::empty());
                    }
                }
            },
            None => {
                proof {
                    lemma_same_live(&before, &*self);
                    lemma_counters_from_step(&before, &*self, Set::empty());
                }
            },
        }
        let ghost m1 = *self;
        self.remove_live(x);
        let ghost m2 = *self;
        self.insert_live(LiveIndex { index: x, peer, session: Some(session) });
        let ghost m3 = *self;
        let current = self.peers[peer].current;
        self.peers[peer].previous = current;
        self.peers[peer].current = Some(x);
        self.peers[peer].handshake = None;
        self.peers[peer].endpoint = Some(*src);
        proof {
            lemma_counters_trans(&before, &m1, &m2);
            lemma_counters_from_step(&m2, &m3, set![x]);
            lemma_counters_trans(&before, &m2, &m3);
            lemma_same_live(&m3, &*self);
            lemma_counters_from_step(&m3, &*self, Set::empty());
            lemma_counters_trans(&before, &m3, &*self);
        }
        Ok(Message::HandshakeComplete(peer))
    }

    /// Handles a Cookie reply to a pending handshake: opens the cookie with
    /// the peer's cookie key and the mac1 of the Init it answers, and stores
    /// it for the next Init's mac2. No state machine advances.
    pub fn recv_cookie(&mut self, buf: &[u8], now: &[u8; 12]) -> (r: Result<Message, Error>)
        requires
            old(self).wf(),
        ensures
            final(self).wf(),
            timestamps_kept(&*old(self), &*final(self)),
            counters_kept(&*old(self), &*final(self)),
            r.is_err() ==> same_state(&*old(self), &*final(self)),
            final(self).live@ == old(self).live@,
            cookie_outcome(*old(self), *final(self), buf@, now@, r),
    {
        let msg = CookieMessage::parse(buf)?;
        proof {
            assert(buf@.subrange(4, 8) =~= le_bytes_u32(msg.receiver));
            assert(buf@.subrange(8, 32) =~= msg.nonce@);
            assert(buf@.subrange(32, 64) =~= msg.cookie@);
            crate::bytes::lemma_le_u32_of_bytes(msg.receiver);
        }
        let x = msg.receiver;
        let pos = match self.find_live(x) {
            Some(pos) => pos,
            None => return Err(Error::UnknownSession),
        };
        proof {
            lemma_pos(&*self, pos as int);
        }
        if self.live[pos].session.is_some() {
            return Err(Error::UnknownSession);
        }
        let peer = self.live[pos].peer;
        let mac1 = match &self.peers[peer].handshake {
            Some(h) => {
                if h.local_index != x {
                    return Err(Error::UnknownSession);
                }
                h.mac1
            },
            None => return Err(Error::UnknownSession),
        };
        let c = match msg.open(&self.peers[peer].config.cookie_key, &mac1) {
            Ok(c) => c,
            Err(_) => return Err(Error::BadTag),
        };
        let ghost before = *self;
        self.peers[peer].cookie = Some((c, secs(now)));
        proof {
            lemma_same_live(&before, &*self);
            lemma_counters_from_step(&before, &*self, Set::empty());
        }
        Ok(Message::Noop)
    }

    /// Builds an Init to a peer with the given sender index and ephemeral
    /// secret, protected with mac1 and, while the peer's cookie is fresh,
    /// mac2, and makes it the peer's pending handshake. A previous attempt's
    /// index is retired; the attempt's start time is kept and its count goes
    /// up. Refused (nothing changed) when either shared secret is zero.
    pub fn initiate_with(&mut self, peer: usize, now: &[u8; 12], index: u32, esk: &[u8; 32]) -> (r: Result<HandshakeInit, Error>)
        requires
            old(self).wf(),
            peer < old(self).peers.len(),
            !old(self).is_live(index),
        ensures
            final(self).wf(),
            timestamps_kept(&*old(self), &*final(self)),
            sessions_kept(&*old(self), &*final(self)),
            counters_kept(&*old(self), &*final(self)),
            others_kept(&*old(self), &*final(self), peer as int),
            final(self).cookie_created == old(self).cookie_created,
            r.is_ok() <==> !zero_dh(esk@, old(self).peers[peer as int].config.key@) && !zero_dh(
                old(self).identity.private_key@,
                old(self).peers[peer as int].config.key@,
            ),
            r.is_err() ==> r == Err::<HandshakeInit, Error>(Error::Rejected) && same_state(&*old(self), &*final(self)),
            r.is_ok() ==> initiated(*old(self), *final(self), peer as int, now@, index, esk@, r.unwrap()),
    {
        let now_s = secs(now);
        let cookie = self.peer_cookie(peer, now_s);
        let mut hs = HandshakeState::new();
        assert(hs@ == initial_view());
        let init = match encrypt_handshake_init(&mut hs, &self.identity, &self.peers[peer].config, esk, now, index, cookie) {
            Ok(m) => m,
            Err(_) => return Err(Error::Rejected),
        };
        let ghost before = *self;
        let (started, attempts) = match &self.peers[peer].handshake {
            Some(h) => {
                let prev = h.local_index;
                let started = h.started;
                let attempts = if h.attempts < 16 { h.attempts + 1 } else { 16 };
                self.remove_pending(peer, prev);
                (started, attempts)
            },
            None => {
                proof {
                    lemma_same_live(&before, &*self);
                    lemma_counters_from_step(&before, &*self, Set::empty());
                }
                (now_s, 0)
            },
        };
        let ghost m1 = *self;
        self.insert_live(LiveIndex { index, peer, session: None });
        let ghost m2 = *self;
        self.peers[peer].handshake = Some(
            InitiatorHandshake { state: hs, esk: *esk, local_index: index, started, sent: now_s, mac1: init.mac1, attempts },
        );
        self.peers[peer].last_sent = now_s;
        proof {
            lemma_counters_from_step(&m1, &m2, set![index]);
            lemma_counters_trans(&before, &m1, &m2);
            lemma_same_live(&m2, &*self);
            lemma_counters_from_step(&m2, &*self, Set::empty());
            lemma_counters_trans(&before, &m2, &*self);
            assert forall|y: u32| #[trigger] before.has_session(y) implies self.has_session(y) && self.entry(y) == before.entry(y) by {
                assert(m1.has_session(y) && m1.entry(y) == before.entry(y));
                assert(y != index);
            }
        }
        Ok(init)
    }

    /// Starts (or restarts) a handshake with a peer, drawing its sender
    /// index and ephemeral secret; returns the Init's bytes.
    pub fn initiate(&mut self, peer: usize, now: &[u8; 12], rng: &mut rand::rngs::StdRng) -> (r: Result<Vec<u8>, Error>)
        requires
            old(self).wf(),
        ensures
            final(self).wf(),
            timestamps_kept(&*old(self), &*final(self)),
            sessions_kept(&*old(self), &*final(self)),
            counters_kept(&*old(self), &*final(self)),
            peer < old(self).peers.len() ==> others_kept(&*old(self), &*final(self), peer as int),
            final(self).peers.len() == old(self).peers.len(),
            final(self).cookie_created == old(self).cookie_created,
            peer >= old(self).peers.len() <==> r == Err::<Vec<u8>, Error>(Error::UnknownPeer),
            r.is_err() ==> same_state(&*old(self), &*final(self)),
            r.is_err() ==> r == Err::<Vec<u8>, Error>(Error::UnknownPeer) || r == Err::<Vec<u8>, Error>(Error::RateLimited)
                || r == Err::<Vec<u8>, Error>(Error::Rejected),
            r.is_ok() ==> r.unwrap()@.len() == INIT_LEN && type_of(r.unwrap()@) == MSG_FIRST,
            r.is_ok() ==> exists|m: HandshakeInit|
                init_bytes(m) == r.unwrap()@ && #[trigger] initiated(
                    *old(self),
                    *final(self),
                    peer as int,
                    now@,
                    final(self).peers[peer as int].handshake.unwrap().local_index,
                    final(self).peers[peer as int].handshake.unwrap().esk@,
                    m,
                ),
    {
        if peer >= self.peers.len() {
            return Err(Error::UnknownPeer);
        }
        let index = match self.alloc_index(rng) {
            Some(i) => i,
            None => return Err(Error::RateLimited),
        };
        let esk: [u8; 32] = random_bytes(rng);
        let init = self.initiate_with(peer, now, index, &esk)?;
        let bytes = init.to_bytes();
        proof {
            assert(bytes@.subrange(0, 4) =~= crate::bytes::le_bytes_u32(MSG_FIRST));
            lemma_type_tag(MSG_FIRST, bytes@);
            assert(initiated(*old(self), *self, peer as int, now@, index, esk@, init));
        }
        Ok(bytes)
    }

    /// Removes the live entry `index` if it is a pending handshake of `peer`.
    fn remove_pending(&mut self, peer: usize, index: u32)
        requires
            old(self).wf(),
        ensures
            final(self).wf(),
            live_step(&*old(self), &*final(self), set![index]),
            counters_kept(&*old(self), &*final(self)),
            sessions_kept(&*old(self), &*final(self)),
            forall|y: u32| final(self).is_live(y) ==> old(self).is_live(y),
            final(self).peers == old(self).peers,
            final(self).identity == old(self).identity,
            final(self).cookie == old(self).cookie,
            final(self).cookie_created == old(self).cookie_created,
            final(self).under_load == old(self).under_load,
    {
        match self.find_live(index) {
            Some(pos) => {
                proof {
                    lemma_pos(&*self, pos as int);
                }
                if self.live[pos].peer == peer && self.live[pos].session.is_none() {
                    self.remove_live(index);
                } else {
                    proof {
                        lemma_same_live(&*old(self), &*self);
                        lemma_counters_from_step(&*old(self), &*self, Set::empty());
                    }
                }
            },
            None => {
                proof {
                    lemma_same_live(&*old(self), &*self);
                    lemma_counters_from_step(&*old(self), &*self, Set::empty());
                }
            },
        }
    }

    /// Encrypts a payload on the peer's current session, if it is the peer's
    /// own and may still send; also says whether the session asks for a
    /// rekey.
    fn encrypt_current(&mut self, peer: usize, payload: &[u8], now_s: u64) -> (r: Option<(Vec<u8>, bool)>)
        requires
            old(self).wf(),
            peer < old(self).peers.len(),
            aead_len_ok(payload@.len() + 16),
        ensures
            final(self).wf(),
            final(self).peers@ == old(self).peers@,
            forall|y: u32| final(self).is_live(y) <==> old(self).is_live(y),
            live_step(&*old(self), &*final(self), slot_set(old(self).peers[peer as int].current)),
            forall|y: u32| #[trigger] old(self).has_session(y) ==> final(self).has_session(y),
            forall|y: u32| old(self).is_live(y) && old(self).entry(y).peer != peer ==> #[trigger] final(self).entry(y) == old(self).entry(y),
            final(self).identity == old(self).identity,
            final(self).cookie == old(self).cookie,
            final(self).cookie_created == old(self).cookie_created,
            final(self).under_load == old(self).under_load,
            can_send(*old(self), peer as int, now_s) ==> {
                let x = old(self).peers[peer as int].current.unwrap();
                let s = old(self).session(x);
                &&& r.is_some()
                &&& r.unwrap().0@ == sent_bytes(s, payload@)
                &&& r.unwrap().1 == s.needs_rekey_on_send_spec(now_s)
                &&& final(self).has_session(x)
                &&& final(self).entry(x).peer == peer
                &&& final(self).session(x).tx_counter == s.tx_counter + 1
                &&& final(self).session(x).tx_key == s.tx_key
                &&& final(self).session(x).rx_key == s.rx_key
                &&& final(self).session(x).remote_index == s.remote_index
                &&& final(self).session(x).created_at == s.created_at
            },
    {
        let index = match self.peers[peer].current {
            Some(i) => i,
            None => {
                proof {
                    lemma_same_live(&*old(self), &*self);
                }
                return None;
            },
        };
        let pos = match self.find_live(index) {
            Some(pos) => pos,
            None => {
                proof {
                    lemma_same_live(&*old(self), &*self);
                }
                return None;
            },
        };
        proof {
            lemma_pos(&*self, pos as int);
        }
        if self.live[pos].peer != peer {
            proof {
                lemma_same_live(&*old(self), &*self);
            }
            return None;
        }
        let ghost before = *self;
        let mut entry = self.live.remove(pos);
        let res = match &mut entry.session {
            Some(s) => {
                let rekey = s.needs_rekey_on_send(now_s);
                match s.encrypt(payload, now_s) {
                    Some(m) => Some((m.to_bytes(), rekey)),
                    None => None,
                }
            },
            None => None,
        };
        let ghost e2 = entry;
        self.live.insert(pos, entry);
        assert(self.live@ =~= before.live@.update(pos as int, e2));
        proof {
            lemma_update_step(&before, &*self, pos as int, e2);
        }
        res
    }

    /// Sends a payload to a peer. With a current session that may still
    /// send, the result is the Data message, together with a fresh Init when
    /// the session crossed a rekey threshold. Without one, a handshake starts
    /// and the result carries its Init.
    pub fn send_message(&mut self, peer: usize, payload: &[u8], now: &[u8; 12], rng: &mut rand::rngs::StdRng) -> (r: Result<Intent, Error>)
        requires
            old(self).wf(),
            aead_len_ok(payload@.len() + 16),
        ensures
            final(self).wf(),
            timestamps_advance(&*old(self), &*final(self)),
            peer >= old(self).peers.len() <==> r == Err::<Intent, Error>(Error::UnknownPeer),
            peer < old(self).peers.len() ==> r.is_ok() || r == Err::<Intent, Error>(Error::RateLimited) || r == Err::<
                Intent,
                Error,
            >(Error::Rejected),
            peer < old(self).peers.len() && can_send(*old(self), peer as int, now_secs(now@)) ==> {
                let x = old(self).peers[peer as int].current.unwrap();
                let s = old(self).session(x);
                &&& (r matches Ok(Intent::Datagram { bytes, .. }) && bytes@ == sent_bytes(s, payload@)) || (r matches Ok(
                    Intent::NeedsHandshake { data: Some(bytes), .. },
                ) && bytes@ == sent_bytes(s, payload@))
                &&& final(self).has_session(x)
                &&& final(self).session(x).tx_counter == s.tx_counter + 1
            },
    {
        if peer >= self.peers.len() {
            return Err(Error::UnknownPeer);
        }
        let now_s = secs(now);
        assert(now_s == now_secs(now@));
        let dst = self.peers[peer].endpoint;
        let ghost before = *self;
        let ghost x = before.peers[peer as int].current.unwrap();
        match self.encrypt_current(peer, payload, now_s) {
            Some((bytes, rekey)) => {
                let ghost m1 = *self;
                self.peers[peer].last_sent = now_s;
                proof {
                    lemma_same_live(&m1, &*self);
                    if can_send(before, peer as int, now_s) {
                        assert(m1.has_session(x));
                        assert(self.is_live(x));
                        assert(self.entry(x) == m1.entry(x));
                        assert(self.has_session(x));
                    }
                }
                if rekey && self.peers[peer].handshake.is_none() {
                    match self.initiate(peer, now, rng) {
                        Ok(init) => Ok(Intent::NeedsHandshake { init, dst, data: Some(bytes) }),
                        Err(_) => Ok(Intent::Datagram { bytes, dst }),
                    }
                } else {
                    Ok(Intent::Datagram { bytes, dst })
                }
            },
            None => {
                match self.initiate(peer, now, rng) {
                    Ok(init) => Ok(Intent::NeedsHandshake { init, dst, data: None }),
                    Err(e) => Err(e),
                }
            },
        }
    }

    /// Whether the live session with this index is gone or past
    /// REJECT_AFTER_TIME.
    fn slot_expired(&self, index: u32, now_s: u64) -> (r: bool) {
        match self.find_live(index) {
            Some(pos) => match &self.live[pos].session {
                Some(s) => s.is_expired(now_s),
                None => true,
            },
            None => true,
        }
    }

    /// Whether the peer's current session asks the initiator for a rekey.
    fn current_needs_rekey(&self, peer: usize, now_s: u64) -> (r: bool)
        requires
            peer < self.peers.len(),
    {
        match self.peers[peer].current {
            Some(index) => match self.find_live(index) {
                Some(pos) => match &self.live[pos].session {
                    Some(s) => s.needs_rekey_on_send(now_s),
                    None => false,
                },
                None => false,
            },
            None => false,
        }
    }

    /// Clears the peer's session slots whose sessions are gone or past
    /// REJECT_AFTER_TIME, retiring the peer's own ones.
    fn retire_expired(&mut self, peer: usize, now_s: u64)
        requires
            old(self).wf(),
            peer < old(self).peers.len(),
        ensures
            final(self).wf(),
            timestamps_kept(&*old(self), &*final(self)),
            others_kept(&*old(self), &*final(self), peer as int),
            final(self).peers[peer as int].handshake == old(self).peers[peer as int].handshake,
            final(self).cookie_created == old(self).cookie_created,
            forall|y: u32| #[trigger] old(self).has_session(y) && old(self).entry(y).peer != peer ==> final(self).has_session(y)
                && final(self).entry(y) == old(self).entry(y),
    {
        let slots = [self.peers[peer].previous, self.peers[peer].current, self.peers[peer].next];
        let mut k: usize = 0;
        while k < 3
            invariant
                self.wf(),
                peer < self.peers.len(),
                timestamps_kept(&*old(self), &*self),
                others_kept(&*old(self), &*self, peer as int),
                self.peers[peer as int].handshake == old(self).peers[peer as int].handshake,
                self.cookie_created == old(self).cookie_created,
                forall|y: u32| #[trigger] old(self).has_session(y) && old(self).entry(y).peer != peer ==> self.has_session(y)
                    && self.entry(y) == old(self).entry(y),
            decreases 3 - k,
        {
            match slots[k] {
                Some(i) => {
                    if self.slot_expired(i, now_s) {
                        let ghost before = *self;
                        self.remove_own(peer, i);
                        let ghost mid = *self;
                        if k == 0 {
                            self.peers[peer].previous = None;
                        } else if k == 1 {
                            self.peers[peer].current = None;
                        } else {
                            self.peers[peer].next = None;
                        }
                        proof {
                            lemma_same_live(&mid, &*self);
                            assert forall|y: u32| #[trigger] old(self).has_session(y) && old(self).entry(y).peer != peer implies self.has_session(y)
                                && self.entry(y) == old(self).entry(y) by {
                                assert(before.has_session(y) && before.entry(y).peer != peer);
                                assert(mid.is_live(y) && mid.entry(y) == before.entry(y));
                            }
                        }
                    }
                },
                None => {},
            }
            k += 1;
        }
    }

    /// A peer's handshake timers: abandon an attempt past
    /// REKEY_ATTEMPT_TIME, resend its Init when the retry interval (doubling
    /// from REKEY_TIMEOUT with each attempt) has passed, or start a rekey when
    /// the current session crosses a threshold or a received packet asked
    /// for one.
    fn tick_handshake(&mut self, p: usize, now: &[u8; 12], now_s: u64, rng: &mut rand::rngs::StdRng, out: &mut Vec<Outbound>)
        requires
            old(self).wf(),
            p < old(self).peers.len(),
            now_s == now_secs(now@),
        ensures
            final(self).wf(),
            timestamps_kept(&*old(self), &*final(self)),
            sessions_kept(&*old(self), &*final(self)),
            others_kept(&*old(self), &*final(self), p as int),
            final(self).cookie_created == old(self).cookie_created,
            final(self).peers[p as int].current == old(self).peers[p as int].current,
            final(self).peers[p as int].keepalive == old(self).peers[p as int].keepalive,
            final(out)@.len() >= old(out)@.len(),
            forall|j: int| 0 <= j < old(out)@.len() ==> final(out)@[j] == old(out)@[j],
            abandoned(*old(self), p as int, now_s) ==> final(self).peers[p as int].handshake.is_none(),
    {
        let pending = match &self.peers[p].handshake {
            Some(h) => Some((h.started, h.sent, h.local_index, h.attempts)),
            None => None,
        };
        match pending {
            Some((started, sent, index, attempts)) => {
                if now_s >= started && now_s - started >= REKEY_ATTEMPT_TIME {
                    self.remove_pending(p, index);
                    let ghost mid = *self;
                    self.peers[p].handshake = None;
                    proof {
                        lemma_same_live(&mid, &*self);
                    }
                } else if now_s < sent || now_s - sent >= retry_interval(attempts) {
                    match self.initiate(p, now, rng) {
                        Ok(init) => out.push(Outbound { bytes: init, dst: self.peers[p].endpoint }),
                        Err(_) => {},
                    }
                }
            },
            None => {
                if self.peers[p].rekey_wanted || self.current_needs_rekey(p, now_s) {
                    match self.initiate(p, now, rng) {
                        Ok(init) => {
                            out.push(Outbound { bytes: init, dst: self.peers[p].endpoint });
                            let ghost mid = *self;
                            self.peers[p].rekey_wanted = false;
                            proof {
                                lemma_same_live(&mid, &*self);
                            }
                        },
                        Err(_) => {},
                    }
                }
            },
        }
    }

    /// A peer's keepalive: when the persistent-keepalive interval has passed
    /// since `last_sent`, an empty Data message on the current session.
    fn tick_keepalive(&mut self, p: usize, now_s: u64, last_sent: u64, out: &mut Vec<Outbound>)
        requires
            old(self).wf(),
            p < old(self).peers.len(),
        ensures
            final(self).wf(),
            timestamps_kept(&*old(self), &*final(self)),
            others_kept(&*old(self), &*final(self), p as int),
            final(self).peers[p as int].handshake == old(self).peers[p as int].handshake,
            final(self).cookie_created == old(self).cookie_created,
            forall|y: u32| #[trigger] old(self).has_session(y) && old(self).entry(y).peer != p ==> final(self).has_session(y)
                && final(self).entry(y) == old(self).entry(y),
            final(out)@.len() >= old(out)@.len(),
            forall|j: int| 0 <= j < old(out)@.len() ==> final(out)@[j] == old(out)@[j],
            keepalive_due(*old(self), p as int, now_s, last_sent) ==> exists|j: int|
                0 <= j < final(out)@.len() && #[trigger] final(out)@[j].bytes@ == sent_bytes(
                    old(self).session(old(self).peers[p as int].current.unwrap()),
                    seq![],
                ),
    {
        match self.peers[p].keepalive {
            Some(k) => {
                if now_s < last_sent || now_s - last_sent >= k {
                    let empty: [u8; 0] = [];
                    assert(empty@ =~= seq![]);
                    match self.encrypt_current(p, &empty, now_s) {
                        Some((bytes, _)) => {
                            let ghost j = out@.len() as int;
                            out.push(Outbound { bytes, dst: self.peers[p].endpoint });
                            assert(out@[j].bytes@ == bytes@);
                            let ghost mid = *self;
                            self.peers[p].last_sent = now_s;
                            proof {
                                lemma_same_live(&mid, &*self);
                            }
                        },
                        None => {},
                    }
                } else {
                    proof {
                        lemma_same_live(&*old(self), &*self);
                    }
                }
            },
            None => {
                proof {
                    lemma_same_live(&*old(self), &*self);
                }
            },
        }
    }

    /// Retires every live session past REJECT_AFTER_TIME.
    fn retire_all(&mut self, now_s: u64)
        requires
            old(self).wf(),
        ensures
            final(self).wf(),
            final(self).peers == old(self).peers,
            final(self).cookie_created == old(self).cookie_created,
            forall|y: u32| #[trigger] final(self).has_session(y) ==> elapsed(now_s, final(self).session(y).created_at) < REJECT_AFTER_TIME,
    {
        let mut i: usize = 0;
        while i < self.live.len()
            invariant
                self.wf(),
                i <= self.live.len(),
                self.peers == old(self).peers,
                self.cookie_created == old(self).cookie_created,
                forall|j: int| 0 <= j < i ==> !expired_entry(#[trigger] self.live[j], now_s),
            decreases self.live.len() - i,
        {
            let expired = match &self.live[i].session {
                Some(s) => s.is_expired(now_s),
                None => false,
            };
            if expired {
                let ghost old_live = self.live@;
                let mut gone = self.live.remove(i);
                match &mut gone.session {
                    Some(s) => s.scrub_keys(),
                    None => {},
                }
                assert forall|j: int| 0 <= j < self.live.len() implies self.live[j] == (if j < i { old_live[j] } else { old_live[j + 1] }) by {}
            } else {
                i += 1;
            }
        }
        assert forall|y: u32| #[trigger] self.has_session(y) implies elapsed(now_s, self.session(y).created_at) < REJECT_AFTER_TIME by {
            let k = self.pos_of(y);
            assert(!expired_entry(self.live[k], now_s));
        }
    }

    /// Periodic maintenance, in priority order: rotate the cookie secret;
    /// per peer, abandon a handshake past REKEY_ATTEMPT_TIME or resend its
    /// Init when its retry interval has passed, else start a rekey when the
    /// current session crosses a threshold; send a keepalive when the
    /// persistent-keepalive interval has passed since the last send; retire
    /// expired sessions. Returns the messages to send.
    pub fn tick(&mut self, now: &[u8; 12], rng: &mut rand::rngs::StdRng) -> (r: Vec<Outbound>)
        requires
            old(self).wf(),
        ensures
            final(self).wf(),
            timestamps_advance(&*old(self), &*final(self)),
            elapsed(now_secs(now@), old(self).cookie_created) >= COOKIE_SECRET_TTL ==> final(self).cookie_created
                == now_secs(now@),
            forall|y: u32| #[trigger] final(self).has_session(y) ==> elapsed(now_secs(now@), final(self).session(y).created_at)
                < REJECT_AFTER_TIME,
            forall|p: int| 0 <= p < old(self).peers.len() && #[trigger] abandoned(*old(self), p, now_secs(now@)) ==> final(self).peers[p].handshake.is_none(),
            forall|p: int|
                0 <= p < old(self).peers.len() && #[trigger] keepalive_due(*old(self), p, now_secs(now@), old(self).peers[p].last_sent)
                    ==> exists|j: int|
                    0 <= j < r@.len() && r@[j].bytes@ == sent_bytes(old(self).session(old(self).peers[p].current.unwrap()), seq![]),
    {
        let now_s = secs(now);
        let mut out: Vec<Outbound> = Vec::new();
        if now_s >= self.cookie_created && now_s - self.cookie_created >= COOKIE_SECRET_TTL {
            self.cookie.generate(rng);
            self.cookie_created = now_s;
        }
        let ghost start = *self;
        let ghost created = self.cookie_created;
        let mut p: usize = 0;
        while p < self.peers.len()
            invariant
                self.wf(),
                timestamps_kept(&*old(self), &*self),
                p <= self.peers.len(),
                self.peers.len() == old(self).peers.len(),
                self.cookie_created == created,
                now_s == now_secs(now@),
                forall|q: int| p <= q < self.peers.len() ==> #[trigger] self.peers[q] == old(self).peers[q],
                forall|y: u32|
                    #[trigger] old(self).has_session(y) && old(self).entry(y).peer >= p ==> self.has_session(y) && self.entry(y)
                        == old(self).entry(y),
                forall|q: int| 0 <= q < p && #[trigger] abandoned(*old(self), q, now_s) ==> self.peers[q].handshake.is_none(),
                forall|q: int|
                    0 <= q < p && #[trigger] keepalive_due(*old(self), q, now_s, old(self).peers[q].last_sent) ==> exists|j: int|
                        0 <= j < out@.len() && out@[j].bytes@ == sent_bytes(old(self).session(old(self).peers[q].current.unwrap()), seq![]),
            decreases self.peers.len() - p,
        {
            let last_sent = self.peers[p].last_sent;
            let ghost s0 = *self;
            let ghost o0 = out@;
            self.tick_handshake(p, now, now_s, rng, &mut out);
            let ghost s1 = *self;
            let ghost o1 = out@;
            self.tick_keepalive(p, now_s, last_sent, &mut out);
            let ghost s2 = *self;
            let ghost o2 = out@;
            self.retire_expired(p, now_s);
            proof {
                lemma_kept_trans(&*old(self), &s0, &s1);
                lemma_kept_trans(&*old(self), &s1, &s2);
                lemma_kept_trans(&*old(self), &s2, &*self);
                assert forall|q: int| p + 1 <= q < self.peers.len() implies #[trigger] self.peers[q] == old(self).peers[q] by {
                    assert(s0.peers[q] == old(self).peers[q]);
                }
                assert forall|y: u32| #[trigger] old(self).has_session(y) && old(self).entry(y).peer >= p + 1 implies self.has_session(y)
                    && self.entry(y) == old(self).entry(y) by {
                    assert(s0.has_session(y) && s0.entry(y) == old(self).entry(y));
                    assert(s1.has_session(y) && s1.entry(y) == old(self).entry(y));
                    assert(s2.has_session(y) && s2.entry(y) == old(self).entry(y));
                }
                assert forall|q: int| 0 <= q < p + 1 && #[trigger] abandoned(*old(self), q, now_s) implies self.peers[q].handshake.is_none() by {
                    if q < p {
                        assert(s0.peers[q].handshake.is_none());
                        assert(s1.peers[q] == s0.peers[q]);
                        assert(s2.peers[q] == s1.peers[q]);
                    } else {
                        assert(s0.peers[q] == old(self).peers[q]);
                        assert(abandoned(s0, q, now_s));
                    }
                }
                assert forall|q: int|
                    0 <= q < p + 1 && #[trigger] keepalive_due(*old(self), q, now_s, old(self).peers[q].last_sent) implies exists|j: int|
                        0 <= j < out@.len() && out@[j].bytes@ == sent_bytes(old(self).session(old(self).peers[q].current.unwrap()), seq![]) by {
                    if q < p {
                        let j = choose|j: int| 0 <= j < o0.len() && o0[j].bytes@ == sent_bytes(old(self).session(old(self).peers[q].current.unwrap()), seq![]);
                        assert(out@[j] == o0[j]);
                    } else {
                        let x = old(self).peers[q].current.unwrap();
                        assert(s0.peers[q] == old(self).peers[q]);
                        assert(s0.has_session(x) && s0.entry(x) == old(self).entry(x));
                        assert(s1.has_session(x) && s1.entry(x) == s0.entry(x));
                        assert(keepalive_due(s1, q, now_s, last_sent));
                        let j = choose|j: int| 0 <= j < o2.len() && #[trigger] o2[j].bytes@ == sent_bytes(s1.session(s1.peers[q].current.unwrap()), seq![]);
                        assert(out@[j] == o2[j]);
                    }
                }
            }
            p += 1;
        }
        let ghost before_sweep = *self;
        self.retire_all(now_s);
        proof {
            assert forall|q: int| 0 <= q < old(self).peers.len() && #[trigger] abandoned(*old(self), q, now_s) implies self.peers[q].handshake.is_none() by {
                assert(before_sweep.peers[q].handshake.is_none());
            }
        }
        out
    }

    /// Handles a datagram of any kind, by its type tag: an Init, a Resp, a
    /// Data message or a Cookie reply, each as its handler states.
    pub fn recv_message(&mut self, src: &Endpoint, buf: &[u8], now: &[u8; 12], rng: &mut rand::rngs::StdRng) -> (r: Result<Message, Error>)
        requires
            old(self).wf(),
        ensures
            final(self).wf(),
            timestamps_advance(&*old(self), &*final(self)),
            counters_kept(&*old(self), &*final(self)),
            r.is_err() ==> same_state(&*old(self), &*final(self)),
            buf@.len() < 4 ==> r == Err::<Message, Error>(Error::Malformed),
            buf@.len() >= 4 && !(1 <= type_of(buf@) <= 4) ==> r == Err::<Message, Error>(Error::Malformed),
            buf@.len() >= 4 && type_of(buf@) == MSG_FIRST ==> init_outcome(*old(self), *final(self), *src, buf@, now@, r),
            buf@.len() >= 4 && type_of(buf@) == MSG_SECOND ==> resp_outcome(*old(self), *final(self), *src, buf@, now@, r),
            buf@.len() >= 4 && type_of(buf@) == MSG_DATA ==> data_outcome(*old(self), *final(self), *src, buf@, now@, r),
            buf@.len() >= 4 && type_of(buf@) == MSG_COOKIE ==> cookie_outcome(*old(self), *final(self), buf@, now@, r),
    {
        match message_type(buf) {
            Some(t) => {
                if t == MSG_FIRST {
                    self.recv_init(src, buf, now, rng)
                } else if t == MSG_SECOND {
                    self.recv_resp(src, buf, now, rng)
                } else if t == MSG_DATA {
                    self.recv_data(src, buf, now)
                } else if t == MSG_COOKIE {
                    self.recv_cookie(buf, now)
                } else {
                    Err(Error::Malformed)
                }
            },
            None => Err(Error::Malformed),
        }
    }
}

/// Between two states, every index outside `changed` is live in both or in
/// neither, and where live holds the same entry.
pub open spec fn live_step(before: &Sessions, after: &Sessions, changed: Set<u32>) -> bool {
    forall|y: u32|
        #![trigger after.is_live(y)]
        #![trigger before.is_live(y)]
        !changed.contains(y) ==> (after.is_live(y) <==> before.is_live(y)) && (after.is_live(y) ==> after.entry(y)
            == before.entry(y))
}

/// The session under `x` after is either the one before, with the same send
/// counter, or a new one whose counter starts at zero.
pub open spec fn fresh_or_same(before: &Sessions, after: &Sessions, x: u32) -> bool {
    after.has_session(x) ==> after.session(x).tx_counter == 0 || (before.has_session(x) && after.session(x).tx_counter
        == before.session(x).tx_counter)
}

/// No live session's send counter moves, except that new sessions start at
/// zero.
pub open spec fn counters_kept(before: &Sessions, after: &Sessions) -> bool {
    forall|x: u32| #[trigger] fresh_or_same(before, after, x)
}

proof fn lemma_first_peer_unique(s: &Sessions, p: int, q: int, key: Seq<u8>)
    requires
        s.first_peer(p, key),
        s.first_peer(q, key),
    ensures
        p == q,
{
}

proof fn lemma_pos(s: &Sessions, i: int)
    requires
        s.indices_distinct(),
        0 <= i < s.live.len(),
    ensures
        s.is_live(s.live[i].index),
        s.pos_of(s.live[i].index) == i,
        s.entry(s.live[i].index) == s.live[i],
{
    let x = s.live[i].index;
    assert(s.is_live(x));
    let j = s.pos_of(x);
    assert(0 <= j < s.live.len() && s.live[j].index == x);
}

proof fn lemma_same_live(a: &Sessions, b: &Sessions)
    requires
        a.live@ == b.live@,
    ensures
        live_step(a, b, Set::empty()),
        forall|y: u32| b.is_live(y) ==> #[trigger] b.entry(y) == a.entry(y),
{
    assert forall|y: u32| (b.is_live(y) <==> a.is_live(y)) && (b.is_live(y) ==> #[trigger] b.entry(y) == a.entry(y)) by {
        if a.is_live(y) {
            let k = choose|k: int| 0 <= k < a.live.len() && #[trigger] a.live[k].index == y;
            assert(b.live[k].index == y);
        }
        if b.is_live(y) {
            let k = choose|k: int| 0 <= k < b.live.len() && #[trigger] b.live[k].index == y;
            assert(a.live[k].index == y);
            assert(a.pos_of(y) == b.pos_of(y));
        }
    }
}

proof fn lemma_update_step(a: &Sessions, b: &Sessions, pos: int, e: LiveIndex)
    requires
        a.indices_distinct(),
        0 <= pos < a.live.len(),
        b.live@ == a.live@.update(pos, e),
        e.index == a.live[pos].index,
    ensures
        b.indices_distinct(),
        live_step(a, b, set![e.index]),
        b.is_live(e.index),
        b.entry(e.index) == e,
        forall|i: int| 0 <= i < b.live.len() ==> b.live[i].index == a.live[i].index,
{
    assert forall|i: int| 0 <= i < b.live.len() implies b.live[i].index == a.live[i].index by {}
    assert(b.indices_distinct());
    lemma_pos(b, pos);
    assert forall|y: u32| y != e.index implies (b.is_live(y) <==> a.is_live(y)) && (b.is_live(y) ==> b.entry(y) == a.entry(y)) by {
        if a.is_live(y) {
            let k = choose|k: int| 0 <= k < a.live.len() && #[trigger] a.live[k].index == y;
            assert(b.live[k].index == y);
            lemma_pos(a, k);
            lemma_pos(b, k);
        }
        if b.is_live(y) {
            let k = choose|k: int| 0 <= k < b.live.len() && #[trigger] b.live[k].index == y;
            assert(a.live[k].index == y);
        }
    }
}

proof fn lemma_counters_from_step(a: &Sessions, b: &Sessions, changed: Set<u32>)
    requires
        live_step(a, b, changed),
        forall|y: u32| changed.contains(y) ==> !b.is_live(y) || fresh_or_same(a, b, y),
    ensures
        counters_kept(a, b),
{
    assert forall|x: u32| #[trigger] fresh_or_same(a, b, x) by {
        if !changed.contains(x) && b.is_live(x) {
            assert(b.entry(x) == a.entry(x));
        }
    }
}

proof fn lemma_counters_trans(a: &Sessions, b: &Sessions, c: &Sessions)
    requires
        counters_kept(a, b),
        counters_kept(b, c),
    ensures
        counters_kept(a, c),
{
    assert forall|x: u32| #[trigger] fresh_or_same(a, c, x) by {
        assert(fresh_or_same(a, b, x));
        assert(fresh_or_same(b, c, x));
    }
}

/// The seconds of a TAI64N timestamp, as the engine's clock.
pub open spec fn now_secs(now: Seq<u8>) -> u64 {
    tai_secs(now) as u64
}

/// Every byte is zero.
pub open spec fn zeros(p: Seq<u8>) -> bool {
    forall|i: int| 0 <= i < p.len() ==> p[i] == 0
}

/// Whether every byte is zero.
pub fn is_all_zero(v: &Vec<u8>) -> (r: bool)
    ensures
        r == zeros(v@),
{
    let mut i: usize = 0;
    while i < v.len()
        invariant
            i <= v@.len(),
            forall|j: int| 0 <= j < i ==> v@[j] == 0,
        decreases v@.len() - i,
    {
        if v[i] != 0 {
            return false;
        }
        i += 1;
    }
    true
}

/// A well-formed Data message whose payload the cipher accepts.
pub open spec fn is_data(b: Seq<u8>) -> bool {
    b.len() >= 4 && type_of(b) == MSG_DATA && data_len_ok(b.len()) && aead_len_ok((b.len() - 16) as nat)
}

/// The receiver index of a Data message.
pub open spec fn data_receiver(b: Seq<u8>) -> u32 {
    le_u32(b.subrange(4, 8)) as u32
}

/// The counter of a Data message.
pub open spec fn data_counter(b: Seq<u8>) -> u64 {
    le_u64(b.subrange(8, 16)) as u64
}

/// The encrypted payload of a Data message.
pub open spec fn data_payload(b: Seq<u8>) -> Seq<u8> {
    b.subrange(16, b.len() as int)
}

/// What accepting the Data message with counter `c` and plaintext `pt` on
/// the session under `x` does.
pub open spec fn data_accepted(before: Sessions, after: Sessions, src: Endpoint, x: u32, c: u64, pt: Seq<u8>, r: Result<Message, Error>) -> bool {
    let s = before.session(x);
    let p = before.entry(x).peer;
    &&& zeros(pt) ==> (r matches Ok(Message::Noop))
    &&& !zeros(pt) ==> (r matches Ok(Message::Read(q, v)) && q == p && v@ == pt)
    &&& after.peers[p as int].endpoint == Some(src)
    &&& after.has_session(x)
    &&& after.session(x).rx_window@ == s.rx_window@.record(c as int)
    &&& after.session(x).tx_counter == s.tx_counter
    &&& after.session(x).tx_key == s.tx_key
    &&& after.session(x).rx_key == s.rx_key
    &&& after.session(x).created_at == s.created_at
}

/// The outcome of receiving the bytes `b` as a Data message.
pub open spec fn data_outcome(before: Sessions, after: Sessions, src: Endpoint, b: Seq<u8>, now: Seq<u8>, r: Result<Message, Error>) -> bool {
    let x = data_receiver(b);
    let c = data_counter(b);
    let ct = data_payload(b);
    let s = before.session(x);
    let live = is_data(b) && before.has_session(x);
    let expired = elapsed(now_secs(now), s.created_at) >= REJECT_AFTER_TIME;
    let fresh = s.rx_window@.accepts(c as int);
    &&& !is_data(b) ==> r == Err::<Message, Error>(Error::Malformed)
    &&& is_data(b) && !before.has_session(x) ==> r == Err::<Message, Error>(Error::UnknownSession)
    &&& live && expired ==> r == Err::<Message, Error>(Error::UnknownSession)
    &&& live && !expired && !fresh ==> r == Err::<Message, Error>(Error::Replay)
    &&& live && !expired && fresh && !(exists|pt: Seq<u8>| seal_of(s.rx_key@, nonce_of(c), seq![], pt) == ct) ==> r
        == Err::<Message, Error>(Error::BadTag)
    &&& forall|pt: Seq<u8>|
        live && !expired && fresh && #[trigger] seal_of(s.rx_key@, nonce_of(c), seq![], pt) == ct ==> data_accepted(
            before,
            after,
            src,
            x,
            c,
            pt,
            r,
        )
}


/// The peer's cookie if it is younger than the cookie TTL.
pub open spec fn fresh_cookie(p: Peer, now_s: u64) -> Option<Cookie> {
    match p.cookie {
        Some((c, t)) => if now_s >= t && now_s - t < COOKIE_SECRET_TTL {
            Some(c)
        } else {
            None
        },
        None => None,
    }
}

/// The handshake state every handshake starts from.
pub open spec fn initial_view() -> NoiseView {
    NoiseView { chain: CONSTRUCTION_HASH@, hash: IDENTIFIER_HASH@ }
}

/// What answering a decrypted Init from `peer` with index `index` and
/// ephemeral secret `esk` from handshake state `s0` produced: the Resp bytes
/// and the installed session.
pub open spec fn responded(
    before: Sessions,
    after: Sessions,
    peer: usize,
    data: DecryptedHandshakeInit,
    s0: NoiseView,
    src: Endpoint,
    index: u32,
    esk: Seq<u8>,
    now_s: u64,
    bytes: Seq<u8>,
) -> bool {
    let epk_r = x25519_public_of(esk);
    let dh_ee = x25519_of(esk, data.ephemeral_key@);
    let dh_se = x25519_of(esk, data.static_key@);
    let psk = before.peers[peer as int].config.preshared_key@;
    let c_empty = resp_at_empty(s0, epk_r, dh_ee, dh_se, psk).seal(resp_empty_key(s0, epk_r, dh_ee, dh_se, psk), seq![]);
    let s2 = resp_after(s0, epk_r, dh_ee, dh_se, psk, c_empty);
    let s = after.session(index);
    &&& bytes.len() == RESP_LEN
    &&& type_of(bytes) == MSG_SECOND
    &&& bytes.subrange(4, 8) == le_bytes_u32(index)
    &&& bytes.subrange(8, 12) == le_bytes_u32(data.sender)
    &&& bytes.subrange(12, 44) == epk_r
    &&& bytes.subrange(44, 60) == c_empty
    &&& bytes.subrange(60, 76) == blake2s_mac_of(before.peers[peer as int].config.mac1_key@, bytes.subrange(0, 60))
    &&& after.peers[peer as int].next == Some(index)
    &&& after.peers[peer as int].endpoint == Some(src)
    &&& after.peers[peer as int].last_timestamp == Some(data.timestamp)
    &&& after.has_session(index)
    &&& after.entry(index).peer == peer
    &&& s.local_index == index
    &&& s.remote_index == data.sender
    &&& s.role == Role::Responder
    &&& s.tx_counter == 0
    &&& s.created_at == now_s
    &&& s.rx_key@ == hkdf_block(s2.chain, seq![], 1)
    &&& s.tx_key@ == hkdf_block(s2.chain, seq![], 2)
}

/// A well-formed Init.
pub open spec fn is_init(b: Seq<u8>) -> bool {
    b.len() == INIT_LEN && type_of(b) == MSG_FIRST
}

/// The Init's mac1 matches under `key`.
pub open spec fn init_mac1_ok(b: Seq<u8>, key: Seq<u8>) -> bool {
    b.subrange(116, 132) == blake2s_mac_of(key, b.subrange(0, 116))
}

/// The Init's mac2 matches under the cookie `c`.
pub open spec fn init_mac2_ok(b: Seq<u8>, c: Seq<u8>) -> bool {
    b.subrange(132, 148) == blake2s_mac_of(c, b.subrange(0, 132))
}

/// The answer to a handshake message that failed mac2 under load: a cookie
/// reply to the source whose receiver is the message's sender, with the
/// state unchanged.
pub open spec fn cookie_replied(before: Sessions, after: Sessions, src: Endpoint, b: Seq<u8>, r: Result<Message, Error>) -> bool {
    &&& r matches Ok(Message::Response(bytes, dst)) && dst == src && bytes@.len() == COOKIE_LEN && type_of(bytes@)
        == MSG_COOKIE && bytes@.subrange(4, 8) == b.subrange(4, 8)
    &&& same_state(&before, &after)
}

/// The outcome of receiving the bytes `b` as an Init.
pub open spec fn init_outcome(before: Sessions, after: Sessions, src: Endpoint, b: Seq<u8>, now: Seq<u8>, r: Result<Message, Error>) -> bool {
    let id = before.identity;
    let mac1_ok = init_mac1_ok(b, id.mac1_key@);
    let mac2_ok = init_mac2_ok(b, cookie_of(before.cookie.key@, src));
    let pass = is_init(b) && mac1_ok && (!before.under_load || mac2_ok);
    let epk = b.subrange(8, 40);
    let c_static = b.subrange(40, 88);
    let c_ts = b.subrange(88, 116);
    &&& !is_init(b) ==> r == Err::<Message, Error>(Error::Malformed)
    &&& is_init(b) && !mac1_ok ==> r == Err::<Message, Error>(Error::Rejected)
    &&& is_init(b) && mac1_ok && before.under_load && !mac2_ok ==> cookie_replied(before, after, src, b, r)
    &&& pass ==> init_decided(before, after, src, epk, c_static, c_ts, b.subrange(4, 8), r)
}

/// The outcome of an Init whose MACs passed, with ephemeral key `epk`,
/// sealed static key `c_static`, sealed timestamp `c_ts` and sender bytes
/// `sender`.
pub open spec fn init_decided(
    before: Sessions,
    after: Sessions,
    src: Endpoint,
    epk: Seq<u8>,
    c_static: Seq<u8>,
    c_ts: Seq<u8>,
    sender: Seq<u8>,
    r: Result<Message, Error>,
) -> bool {
    let id = before.identity;
    &&& (forall|spk: Seq<u8>, ts: Seq<u8>| !init_opens(initial_view(), id, epk, c_static, c_ts, spk, ts)) ==> r
        == Err::<Message, Error>(Error::BadTag) || r == Err::<Message, Error>(Error::Rejected)
    &&& forall|spk: Seq<u8>, ts: Seq<u8>|
        #[trigger] init_opens(initial_view(), id, epk, c_static, c_ts, spk, ts) && (forall|q: int|
            0 <= q < before.peers.len() ==> before.peers[q].config.key@ != spk) ==> r == Err::<Message, Error>(
            Error::UnknownPeer,
        )
    &&& forall|spk: Seq<u8>, ts: Seq<u8>, p: int|
        #[trigger] init_opens(initial_view(), id, epk, c_static, c_ts, spk, ts) && #[trigger] before.first_peer(p, spk)
            && !ts_fresh(ts_view(before.peers[p].last_timestamp), ts) ==> r == Err::<Message, Error>(Error::Replay)
    &&& forall|spk: Seq<u8>, ts: Seq<u8>, p: int|
        #[trigger] init_opens(initial_view(), id, epk, c_static, c_ts, spk, ts) && #[trigger] before.first_peer(p, spk)
            && ts_fresh(ts_view(before.peers[p].last_timestamp), ts) ==> init_accepted(before, after, src, sender, p, ts, r)
}

/// The outcome of the responder's handling of a parsed Init whose MACs passed.
pub open spec fn init_continued(before: Sessions, after: Sessions, src: Endpoint, m: HandshakeInit, r: Result<Message, Error>) -> bool {
    init_decided(before, after, src, m.ephemeral_key@, m.static_key@, m.timestamp@, le_bytes_u32(m.sender), r)
}

/// What accepting an Init from peer `p` with timestamp `ts` does. Success
/// is owed but for the random draws: a local index that keeps colliding
/// (`RateLimited`) or an ephemeral key with a zero shared secret (`Rejected`).
pub open spec fn init_accepted(before: Sessions, after: Sessions, src: Endpoint, sender: Seq<u8>, p: int, ts: Seq<u8>, r: Result<Message, Error>) -> bool {
    &&& r.is_ok() || r == Err::<Message, Error>(Error::RateLimited) || r == Err::<Message, Error>(Error::Rejected)
    &&& r.is_ok() ==> {
        &&& r matches Ok(Message::Response(bytes, dst)) && dst == src && bytes@.len() == RESP_LEN && type_of(bytes@) == MSG_SECOND
            && bytes@.subrange(8, 12) == sender
        &&& after.peers[p].last_timestamp.is_some() && after.peers[p].last_timestamp.unwrap()@ == ts
        &&& after.peers[p].endpoint == Some(src)
        &&& after.peers[p].next.is_some()
        &&& after.has_session(after.peers[p].next.unwrap())
        &&& after.entry(after.peers[p].next.unwrap()).peer == p
        &&& after.session(after.peers[p].next.unwrap()).tx_counter == 0
        &&& after.session(after.peers[p].next.unwrap()).role == Role::Responder
        &&& after.session(after.peers[p].next.unwrap()).remote_index == le_u32(sender)
    }
}


/// A handshake this host initiated waits under index `x`.
pub open spec fn pending(s: Sessions, x: u32) -> bool {
    &&& s.is_live(x)
    &&& s.entry(x).session.is_none()
    &&& s.peers[s.entry(x).peer as int].handshake.is_some()
    &&& s.peers[s.entry(x).peer as int].handshake.unwrap().local_index == x
}

/// A well-formed Resp.
pub open spec fn is_resp(b: Seq<u8>) -> bool {
    b.len() == RESP_LEN && type_of(b) == MSG_SECOND
}

/// The outcome of receiving the bytes `b` as a Resp.
pub open spec fn resp_outcome(before: Sessions, after: Sessions, src: Endpoint, b: Seq<u8>, now: Seq<u8>, r: Result<Message, Error>) -> bool {
    let id = before.identity;
    let mac1_ok = b.subrange(60, 76) == blake2s_mac_of(id.mac1_key@, b.subrange(0, 60));
    let mac2_ok = b.subrange(76, 92) == blake2s_mac_of(cookie_of(before.cookie.key@, src), b.subrange(0, 76));
    let pass = is_resp(b) && mac1_ok && (!before.under_load || mac2_ok);
    let x = le_u32(b.subrange(8, 12)) as u32;
    let p = before.entry(x).peer;
    let h = before.peers[p as int].handshake.unwrap();
    let psk = before.peers[p as int].config.preshared_key@;
    let epk = b.subrange(12, 44);
    let c_empty = b.subrange(44, 60);
    let opens = resp_opens(h.state@, id, h.esk@, psk, epk, c_empty);
    let s2 = resp_after(h.state@, epk, x25519_of(h.esk@, epk), x25519_of(id.private_key@, epk), psk, c_empty);
    &&& !is_resp(b) ==> r == Err::<Message, Error>(Error::Malformed)
    &&& is_resp(b) && !mac1_ok ==> r == Err::<Message, Error>(Error::Rejected)
    &&& is_resp(b) && mac1_ok && before.under_load && !mac2_ok ==> cookie_replied(before, after, src, b, r)
    &&& pass && !pending(before, x) ==> r == Err::<Message, Error>(Error::UnknownSession)
    &&& pass && pending(before, x) && !opens ==> r == Err::<Message, Error>(Error::BadTag) || r == Err::<Message, Error>(
        Error::Rejected,
    )
    &&& pass && pending(before, x) && opens ==> {
        &&& r == Ok::<Message, Error>(Message::HandshakeComplete(p))
        &&& after.peers[p as int].current == Some(x)
        &&& after.peers[p as int].handshake.is_none()
        &&& after.peers[p as int].endpoint == Some(src)
        &&& after.has_session(x)
        &&& after.entry(x).peer == p
        &&& after.session(x).role == Role::Initiator
        &&& after.session(x).tx_counter == 0
        &&& after.session(x).local_index == x
        &&& after.session(x).remote_index == le_u32(b.subrange(4, 8))
        &&& after.session(x).created_at == now_secs(now)
        &&& after.session(x).tx_key@ == hkdf_block(s2.chain, seq![], 1)
        &&& after.session(x).rx_key@ == hkdf_block(s2.chain, seq![], 2)
    }
    &&& r.is_ok() ==> (r matches Ok(Message::HandshakeComplete(_)) || r matches Ok(Message::Response(_, _)))
}

/// The outcome of receiving the bytes `b` as a Cookie reply.
pub open spec fn cookie_outcome(before: Sessions, after: Sessions, b: Seq<u8>, now: Seq<u8>, r: Result<Message, Error>) -> bool {
    let is_cookie = b.len() == COOKIE_LEN && type_of(b) == MSG_COOKIE;
    let x = le_u32(b.subrange(4, 8)) as u32;
    let p = before.entry(x).peer;
    let h = before.peers[p as int].handshake.unwrap();
    let key = before.peers[p as int].config.cookie_key@;
    let nonce = b.subrange(8, 32);
    let sealed = b.subrange(32, 64);
    &&& !is_cookie ==> r == Err::<Message, Error>(Error::Malformed)
    &&& is_cookie && !pending(before, x) ==> r == Err::<Message, Error>(Error::UnknownSession)
    &&& is_cookie && pending(before, x) && !(exists|c: Seq<u8>| xseal_of(key, nonce, h.mac1@, c) == sealed) ==> r
        == Err::<Message, Error>(Error::BadTag)
    &&& forall|c: Seq<u8>|
        is_cookie && pending(before, x) && #[trigger] xseal_of(key, nonce, h.mac1@, c) == sealed ==> {
            &&& r matches Ok(Message::Noop)
            &&& after.peers[p as int].cookie.is_some()
            &&& after.peers[p as int].cookie.unwrap().0.0@ == c
            &&& after.peers[p as int].cookie.unwrap().1 == now_secs(now)
        }
    &&& r.is_ok() ==> (r matches Ok(Message::Noop))
}


/// Every session that is live before is live after, unchanged.
pub open spec fn sessions_kept(before: &Sessions, after: &Sessions) -> bool {
    forall|y: u32| #[trigger] before.has_session(y) ==> after.has_session(y) && after.entry(y) == before.entry(y)
}

/// Every peer but `p` is unchanged.
pub open spec fn others_kept(before: &Sessions, after: &Sessions, p: int) -> bool {
    &&& after.peers.len() == before.peers.len()
    &&& forall|q: int| 0 <= q < before.peers.len() && q != p ==> #[trigger] after.peers[q] == before.peers[q]
}

/// The set holding the slot's index, if any.
pub open spec fn slot_set(o: Option<u32>) -> Set<u32> {
    match o {
        Some(i) => set![i],
        None => Set::empty(),
    }
}

/// `m` is the Init that starting a handshake with peer `p` under index
/// `index` and ephemeral secret `esk` built, and the peer now waits for its
/// response.
pub open spec fn initiated(before: Sessions, after: Sessions, p: int, now: Seq<u8>, index: u32, esk: Seq<u8>, m: HandshakeInit) -> bool {
    let h = after.peers[p].handshake.unwrap();
    &&& after.peers[p].handshake.is_some()
    &&& h.local_index == index
    &&& h.esk@ == esk
    &&& h.mac1 == m.mac1
    &&& h.sent == now_secs(now)
    &&& init_built(
        initial_view(),
        before.identity,
        before.peers[p].config,
        esk,
        now,
        index,
        fresh_cookie(before.peers[p], now_secs(now)),
        m,
        h.state@,
    )
    &&& after.is_live(index)
    &&& after.entry(index).peer == p
    &&& after.entry(index).session.is_none()
    &&& after.peers[p].current == before.peers[p].current
    &&& after.peers[p].keepalive == before.peers[p].keepalive
    &&& after.peers[p].endpoint == before.peers[p].endpoint
    &&& after.peers[p].last_timestamp == before.peers[p].last_timestamp
    &&& after.peers[p].last_sent == now_secs(now)
}

/// Peer `p` has a current session of its own that may still send at `now_s`.
pub open spec fn can_send(s: Sessions, p: int, now_s: u64) -> bool {
    let x = s.peers[p].current.unwrap();
    &&& s.peers[p].current.is_some()
    &&& s.has_session(x)
    &&& s.entry(x).peer == p
    &&& send_counter(s.session(x).tx_counter, elapsed(now_s, s.session(x).created_at)) is Some
}

/// The Data message that session `s` sends for `payload` with its next counter.
pub open spec fn sent_bytes(s: Session, payload: Seq<u8>) -> Seq<u8> {
    le_bytes_u32(MSG_DATA) + le_bytes_u32(s.remote_index) + le_bytes_u64(s.tx_counter) + seal_of(
        s.tx_key@,
        nonce_of(s.tx_counter),
        seq![],
        padded(payload),
    )
}


/// The retry interval after `attempts` resent Inits: REKEY_TIMEOUT,
/// doubling with each attempt up to sixteen times it.
pub open spec fn retry_interval_spec(attempts: u32) -> int {
    if attempts == 0 {
        REKEY_TIMEOUT as int
    } else if attempts == 1 {
        2 * REKEY_TIMEOUT
    } else if attempts == 2 {
        4 * REKEY_TIMEOUT
    } else if attempts == 3 {
        8 * REKEY_TIMEOUT
    } else {
        16 * REKEY_TIMEOUT
    }
}

/// The retry interval after `attempts` resent Inits.
pub fn retry_interval(attempts: u32) -> (r: u64)
    ensures
        r == retry_interval_spec(attempts),
{
    if attempts == 0 {
        REKEY_TIMEOUT
    } else if attempts == 1 {
        2 * REKEY_TIMEOUT
    } else if attempts == 2 {
        4 * REKEY_TIMEOUT
    } else if attempts == 3 {
        8 * REKEY_TIMEOUT
    } else {
        16 * REKEY_TIMEOUT
    }
}

/// A live entry holds a session past REJECT_AFTER_TIME.
pub open spec fn expired_entry(e: LiveIndex, now_s: u64) -> bool {
    e.session.is_some() && elapsed(now_s, e.session.unwrap().created_at) >= REJECT_AFTER_TIME
}

/// Peer `p`'s pending handshake is older than REKEY_ATTEMPT_TIME.
pub open spec fn abandoned(s: Sessions, p: int, now_s: u64) -> bool {
    s.peers[p].handshake.is_some() && now_s >= s.peers[p].handshake.unwrap().started && now_s
        - s.peers[p].handshake.unwrap().started >= REKEY_ATTEMPT_TIME
}

/// Peer `p` has a persistent keepalive whose interval has passed since
/// `last_sent`, and a current session that may send.
pub open spec fn keepalive_due(s: Sessions, p: int, now_s: u64, last_sent: u64) -> bool {
    &&& s.peers[p].keepalive.is_some()
    &&& (now_s < last_sent || now_s - last_sent >= s.peers[p].keepalive.unwrap())
    &&& can_send(s, p, now_s)
}


/// Timestamp monotonicity on the engine: an Init from a registered peer
/// whose timestamp is not after the peer's latest accepted one (so any Init
/// accepted before) gives `Replay`, even with valid MACs; and an accepted
/// Init makes its own timestamp the peer's latest.
pub proof fn lemma_init_replay_rejected(
    before: Sessions,
    after: Sessions,
    src: Endpoint,
    b: Seq<u8>,
    now: Seq<u8>,
    r: Result<Message, Error>,
    spk: Seq<u8>,
    ts: Seq<u8>,
    p: int,
)
    requires
        init_outcome(before, after, src, b, now, r),
        is_init(b),
        init_mac1_ok(b, before.identity.mac1_key@),
        !before.under_load || init_mac2_ok(b, cookie_of(before.cookie.key@, src)),
        init_opens(initial_view(), before.identity, b.subrange(8, 40), b.subrange(40, 88), b.subrange(88, 116), spk, ts),
        before.first_peer(p, spk),
    ensures
        before.peers[p].last_timestamp.is_some() && !ts_after(ts, before.peers[p].last_timestamp.unwrap()@) ==> r
            == Err::<Message, Error>(Error::Replay),
        r.is_ok() ==> after.peers[p].last_timestamp.is_some() && after.peers[p].last_timestamp.unwrap()@ == ts
            && !ts_after(ts, after.peers[p].last_timestamp.unwrap()@),
{
}


/// The replay window on the engine: a Data message accepted on the session
/// under `x` leaves every counter that session holds as accepted, the new
/// one included, within 2047 of its highest accepted counter.
pub proof fn lemma_data_window_bounded(
    before: Sessions,
    after: Sessions,
    src: Endpoint,
    b: Seq<u8>,
    now: Seq<u8>,
    r: Result<Message, Error>,
    pt: Seq<u8>,
)
    requires
        data_outcome(before, after, src, b, now, r),
        is_data(b),
        before.has_session(data_receiver(b)),
        elapsed(now_secs(now), before.session(data_receiver(b)).created_at) < REJECT_AFTER_TIME,
        before.session(data_receiver(b)).rx_window@.accepts(data_counter(b) as int),
        seal_of(before.session(data_receiver(b)).rx_key@, nonce_of(data_counter(b)), seq![], pt) == data_payload(b),
    ensures
        r.is_ok(),
        after.has_session(data_receiver(b)),
        after.session(data_receiver(b)).rx_window@.bounded(),
        after.session(data_receiver(b)).rx_window@.marked.contains(data_counter(b) as int),
{
    let x = data_receiver(b);
    before.session(x).rx_window.lemma_view_bounded();
    crate::replay::lemma_record_bounded(before.session(x).rx_window@, data_counter(b) as int);
    assert(data_accepted(before, after, src, x, data_counter(b), pt, r));
}

} // verus!
