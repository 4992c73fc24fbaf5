//! Transport sessions: per-direction keys, the send counter, and the
//! receive window.
use vstd::prelude::*;
use crate::bytes::extend;
use crate::messages::{DataMessage, Error};
use crate::noise::{nonce, nonce_of};
use crate::primitives::{aead_len_ok, chacha_open, chacha_seal, scrub, seal_of};
use crate::replay::{ReplayWindow, WindowModel};

verus! {

pub const REKEY_AFTER_MESSAGES: u64 = 1152921504606846976;
pub const REJECT_AFTER_MESSAGES: u64 = 18446744073709543424;
pub const REKEY_AFTER_TIME: u64 = 120;
pub const REKEY_AFTER_TIME_RECV: u64 = 165;
pub const REJECT_AFTER_TIME: u64 = 180;
pub const REKEY_ATTEMPT_TIME: u64 = 90;
pub const REKEY_TIMEOUT: u64 = 5;
pub const KEEPALIVE_TIMEOUT: u64 = 10;
pub const COOKIE_SECRET_TTL: u64 = 120;

/// Which side of the handshake a session came from.
#[derive(Clone, Copy, Debug, PartialEq, Eq, Structural)]
pub enum Role {
    Initiator,
    Responder,
}

/// `now - since`, or 0 when the clock reads earlier than `since`.
pub open spec fn elapsed(now: u64, since: u64) -> int {
    if now >= since { now - since } else { 0 }
}

/// The number of zero bytes that pad `n` bytes to a multiple of 16.
pub open spec fn pad_len(n: nat) -> nat {
    if n % 16 == 0 { 0 } else { (16 - n % 16) as nat }
}

/// A payload padded with zeros to a multiple of 16 bytes.
pub open spec fn padded(p: Seq<u8>) -> Seq<u8> {
    p + Seq::new(pad_len(p.len()), |i: int| 0u8)
}

/// The counter the next send uses, if the session may still send: not past
/// REJECT_AFTER_TIME and below REJECT_AFTER_MESSAGES.
pub open spec fn send_counter(tx_counter: u64, age: int) -> Option<u64> {
    if age >= REJECT_AFTER_TIME || tx_counter >= REJECT_AFTER_MESSAGES {
        None
    } else {
        Some(tx_counter)
    }
}

/// The counters that a run of sends uses, one per send that was not refused,
/// starting from `tx_counter`; `ages[i]` is the session's age at send `i`.
pub open spec fn sent_counters(tx_counter: u64, ages: Seq<int>) -> Seq<u64>
    decreases ages.len(),
{
    if ages.len() == 0 {
        seq![]
    } else {
        let prev = sent_counters(tx_counter, ages.drop_last());
        let next = next_counter(tx_counter, ages.drop_last());
        match send_counter(next, ages.last()) {
            Some(n) => prev.push(n),
            None => prev,
        }
    }
}

/// The send counter after a run of sends.
pub open spec fn next_counter(tx_counter: u64, ages: Seq<int>) -> u64
    decreases ages.len(),
{
    if ages.len() == 0 {
        tx_counter
    } else {
        let next = next_counter(tx_counter, ages.drop_last());
        match send_counter(next, ages.last()) {
            Some(n) => (n + 1) as u64,
            None => next,
        }
    }
}

/// Within a session the counters that sends use are strictly increasing
/// (so none repeats), and each is below REJECT_AFTER_MESSAGES.
pub proof fn lemma_tx_counter_increasing(tx_counter: u64, ages: Seq<int>)
    ensures
        forall|i: int, j: int|
            0 <= i < j < sent_counters(tx_counter, ages).len() ==> sent_counters(tx_counter, ages)[i]
                < sent_counters(tx_counter, ages)[j],
        forall|i: int|
            0 <= i < sent_counters(tx_counter, ages).len() ==> sent_counters(tx_counter, ages)[i]
                < next_counter(tx_counter, ages) && #[trigger] sent_counters(tx_counter, ages)[i]
                < REJECT_AFTER_MESSAGES,
        next_counter(tx_counter, ages) >= tx_counter,
    decreases ages.len(),
{
    if ages.len() > 0 {
        let init = ages.drop_last();
        lemma_tx_counter_increasing(tx_counter, init);
        let prev = sent_counters(tx_counter, init);
        let next = next_counter(tx_counter, init);
        let cur = sent_counters(tx_counter, ages);
        match send_counter(next, ages.last()) {
            Some(n) => {
                assert(cur == prev.push(n));
                assert(next_counter(tx_counter, ages) == n + 1);
                assert forall|i: int, j: int| 0 <= i < j < cur.len() implies cur[i] < cur[j] by {
                    if j < prev.len() {
                        assert(cur[i] == prev[i] && cur[j] == prev[j]);
                    } else {
                        assert(cur[i] == prev[i]);
                    }
                }
                assert forall|i: int| 0 <= i < cur.len() implies cur[i] < next_counter(tx_counter, ages) && #[trigger] cur[i]
                    < REJECT_AFTER_MESSAGES by {
                    if i < prev.len() {
                        assert(cur[i] == prev[i]);
                    }
                }
            },
            None => {
                assert(cur == prev);
            },
        }
    }
}

/// A transport session.
pub struct Session {
    pub local_index: u32,
    pub remote_index: u32,
    pub tx_key: [u8; 32],
    pub rx_key: [u8; 32],
    /// The counter the next send uses.
    pub tx_counter: u64,
    pub rx_window: ReplayWindow,
    /// When the session was established, in seconds of the caller's clock.
    pub created_at: u64,
    pub role: Role,
}

impl Session {
    /// The session made from the two keys of `Split()`: the initiator sends
    /// with the first, the responder with the second.
    pub fn from_split(local_index: u32, remote_index: u32, k1: [u8; 32], k2: [u8; 32], role: Role, now: u64) -> (r: Session)
        ensures
            r.local_index == local_index,
            r.remote_index == remote_index,
            role == Role::Initiator ==> r.tx_key == k1 && r.rx_key == k2,
            role == Role::Responder ==> r.tx_key == k2 && r.rx_key == k1,
            r.tx_counter == 0,
            r.rx_window@.highest == 0,
            r.rx_window@.marked == Set::<int>::empty(),
            r.created_at == now,
            r.role == role,
    {
        let (tx_key, rx_key) = match role {
            Role::Initiator => (k1, k2),
            Role::Responder => (k2, k1),
        };
        Session { local_index, remote_index, tx_key, rx_key, tx_counter: 0, rx_window: ReplayWindow::new(), created_at: now, role }
    }

    /// Scrubs both transport keys.
    pub fn scrub_keys(&mut self)
        ensures
            final(self).tx_key@ == Seq::new(32, |i: int| 0u8),
            final(self).rx_key@ == Seq::new(32, |i: int| 0u8),
            final(self).local_index == old(self).local_index,
    {
        scrub(&mut self.tx_key);
        scrub(&mut self.rx_key);
    }

    /// The session's age in seconds at `now`.
    pub fn age(&self, now: u64) -> (r: u64)
        ensures
            r == elapsed(now, self.created_at),
    {
        if now >= self.created_at { now - self.created_at } else { 0 }
    }

    /// Whether the session is past REJECT_AFTER_TIME.
    pub fn is_expired(&self, now: u64) -> (r: bool)
        ensures
            r == (elapsed(now, self.created_at) >= REJECT_AFTER_TIME),
    {
        self.age(now) >= REJECT_AFTER_TIME
    }

    /// Whether the initiator should start a new handshake before sending.
    pub open spec fn needs_rekey_on_send_spec(&self, now: u64) -> bool {
        self.role == Role::Initiator && (elapsed(now, self.created_at) >= REKEY_AFTER_TIME || self.tx_counter
            >= REKEY_AFTER_MESSAGES)
    }

    /// Whether the initiator should start a new handshake before sending:
    /// the session is older than REKEY_AFTER_TIME or has sent
    /// REKEY_AFTER_MESSAGES messages.
    pub fn needs_rekey_on_send(&self, now: u64) -> (r: bool)
        ensures
            r == self.needs_rekey_on_send_spec(now),
    {
        match self.role {
            Role::Initiator => self.age(now) >= REKEY_AFTER_TIME || self.tx_counter >= REKEY_AFTER_MESSAGES,
            Role::Responder => false,
        }
    }

    /// Whether the initiator should start a new handshake after receiving
    /// counter `counter`: the session is older than REKEY_AFTER_TIME_RECV or
    /// the peer's counter is past REKEY_AFTER_MESSAGES.
    pub fn needs_rekey_on_recv(&self, now: u64, counter: u64) -> (r: bool)
        ensures
            r == (self.role == Role::Initiator && (elapsed(now, self.created_at) >= REKEY_AFTER_TIME_RECV
                || counter > REKEY_AFTER_MESSAGES)),
    {
        match self.role {
            Role::Initiator => self.age(now) >= REKEY_AFTER_TIME_RECV || counter > REKEY_AFTER_MESSAGES,
            Role::Responder => false,
        }
    }

    /// Encrypts a payload: pads it with zeros to a multiple of 16, takes the
    /// next counter and seals under the send key with no associated data.
    /// Refused (None, nothing changed) when the session is expired or the
    /// counter has reached REJECT_AFTER_MESSAGES.
    pub fn encrypt(&mut self, payload: &[u8], now: u64) -> (r: Option<DataMessage>)
        requires
            aead_len_ok(payload@.len() + 16),
        ensures
            send_counter(old(self).tx_counter, elapsed(now, old(self).created_at)) is None ==> r is None
                && *final(self) == *old(self),
            send_counter(old(self).tx_counter, elapsed(now, old(self).created_at)) is Some ==> r is Some && {
                let m = r.unwrap();
                &&& m.receiver == old(self).remote_index
                &&& m.counter == old(self).tx_counter
                &&& m.payload@ == seal_of(old(self).tx_key@, nonce_of(m.counter), seq![], padded(payload@))
                &&& final(self).tx_counter == old(self).tx_counter + 1
                &&& final(self).local_index == old(self).local_index
                &&& final(self).remote_index == old(self).remote_index
                &&& final(self).tx_key == old(self).tx_key
                &&& final(self).rx_key == old(self).rx_key
                &&& final(self).rx_window == old(self).rx_window
                &&& final(self).created_at == old(self).created_at
                &&& final(self).role == old(self).role
            },
    {
        if self.is_expired(now) || self.tx_counter >= REJECT_AFTER_MESSAGES {
            return None;
        }
        let n = self.tx_counter;
        self.tx_counter = n + 1;
        let mut buf: Vec<u8> = Vec::new();
        extend(&mut buf, payload);
        let pad = if payload.len() % 16 == 0 { 0 } else { 16 - payload.len() % 16 };
        let mut i: usize = 0;
        while i < pad
            invariant
                pad == pad_len(payload@.len()),
                i <= pad,
                buf@ == payload@ + Seq::new(i as nat, |j: int| 0u8),
            decreases pad - i,
        {
            buf.push(0u8);
            i += 1;
            assert(buf@ =~= payload@ + Seq::new(i as nat, |j: int| 0u8));
        }
        let empty: [u8; 0] = [];
        assert(empty@ =~= seq![]);
        let ct = chacha_seal(&self.tx_key, &nonce(n), &empty, &buf);
        Some(DataMessage { receiver: self.remote_index, counter: n, payload: ct })
    }

    /// Decrypts a Data message addressed to this session. Expired sessions
    /// refuse it (`UnknownSession`); a counter the window refuses gives
    /// `Replay`; a payload that does not open gives `BadTag`. Only on success
    /// does the window record the counter.
    pub fn decrypt(&mut self, msg: &DataMessage, now: u64) -> (r: Result<Vec<u8>, Error>)
        requires
            aead_len_ok(msg.payload@.len()),
        ensures
            ({
                let expired = elapsed(now, old(self).created_at) >= REJECT_AFTER_TIME;
                let fresh = old(self).rx_window@.accepts(msg.counter as int);
                let opens = exists|pt: Seq<u8>| seal_of(old(self).rx_key@, nonce_of(msg.counter), seq![], pt) == msg.payload@;
                &&& expired ==> r == Err::<Vec<u8>, Error>(Error::UnknownSession)
                &&& !expired && !fresh ==> r == Err::<Vec<u8>, Error>(Error::Replay)
                &&& !expired && fresh && !opens ==> r == Err::<Vec<u8>, Error>(Error::BadTag)
                &&& r.is_ok() <==> !expired && fresh && opens
                &&& r.is_ok() ==> seal_of(old(self).rx_key@, nonce_of(msg.counter), seq![], r.unwrap()@) == msg.payload@
                &&& forall|pt: Seq<u8>|
                    !expired && fresh && seal_of(old(self).rx_key@, nonce_of(msg.counter), seq![], pt) == msg.payload@
                        ==> r.is_ok() && r.unwrap()@ == pt
                &&& r.is_ok() ==> final(self).rx_window@ == old(self).rx_window@.record(msg.counter as int)
                &&& r.is_err() ==> final(self).rx_window@ == old(self).rx_window@
            }),
            r.is_err() ==> *final(self) == *old(self),
            final(self).local_index == old(self).local_index,
            final(self).remote_index == old(self).remote_index,
            final(self).tx_key == old(self).tx_key,
            final(self).rx_key == old(self).rx_key,
            final(self).tx_counter == old(self).tx_counter,
            final(self).created_at == old(self).created_at,
            final(self).role == old(self).role,
    {
        if self.is_expired(now) {
            return Err(Error::UnknownSession);
        }
        if !self.rx_window.check(msg.counter) {
            return Err(Error::Replay);
        }
        let empty: [u8; 0] = [];
        assert(empty@ =~= seq![]);
        match chacha_open(&self.rx_key, &nonce(msg.counter), &empty, msg.payload.as_slice()) {
            Some(pt) => {
                self.rx_window.mark(msg.counter);
                Ok(pt)
            },
            None => Err(Error::BadTag),
        }
    }
}

} // verus!
