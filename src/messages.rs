//! Fixed-layout, little-endian codecs of the four message kinds.
use vstd::prelude::*;
use crate::bytes::{
    decode_u32_at, decode_u64_at, encode_u32, encode_u64, extend, le_bytes_u32, le_bytes_u64,
    le_u32, le_u64, take_array,
};

verus! {

pub const MSG_FIRST: u32 = 1;
pub const MSG_SECOND: u32 = 2;
pub const MSG_DATA: u32 = 3;
pub const MSG_COOKIE: u32 = 4;

pub const INIT_LEN: usize = 148;
pub const RESP_LEN: usize = 92;
pub const COOKIE_LEN: usize = 64;
pub const DATA_HEADER_LEN: usize = 16;
pub const DATA_MIN_LEN: usize = 32;

/// The error kinds the core reports.
#[derive(Clone, Copy, Debug, PartialEq, Eq, Structural)]
pub enum Error {
    /// Length, alignment or type-tag failure.
    Malformed,
    /// The buffer does not start on a 4-byte boundary.
    Unaligned,
    /// mac1 or mac2 failed.
    Rejected,
    /// An Init decrypted to a static key that is not registered.
    UnknownPeer,
    /// A Data message names a receiver index that is not live.
    UnknownSession,
    /// A timestamp regression or a replay-window rejection.
    Replay,
    /// AEAD authentication failed.
    BadTag,
    /// Handshakes for this peer are flooding.
    RateLimited,
}

/// The type tag of a message whose first four bytes are `buf[0..4]`.
pub open spec fn type_of(buf: Seq<u8>) -> nat {
    le_u32(buf)
}

/// Handshake initiation (type 1).
#[derive(Clone, Copy, Debug)]
pub struct HandshakeInit {
    pub sender: u32,
    pub ephemeral_key: [u8; 32],
    pub static_key: [u8; 48],
    pub timestamp: [u8; 28],
    pub mac1: [u8; 16],
    pub mac2: [u8; 16],
}

/// Handshake response (type 2).
#[derive(Clone, Copy, Debug)]
pub struct HandshakeResp {
    pub sender: u32,
    pub receiver: u32,
    pub ephemeral_key: [u8; 32],
    pub empty: [u8; 16],
    pub mac1: [u8; 16],
    pub mac2: [u8; 16],
}

/// Cookie reply (type 4).
#[derive(Clone, Copy, Debug)]
pub struct CookieMessage {
    pub receiver: u32,
    pub nonce: [u8; 24],
    pub cookie: [u8; 32],
}

/// Transport data (type 3).
#[derive(Clone, Debug)]
pub struct DataMessage {
    pub receiver: u32,
    pub counter: u64,
    pub payload: Vec<u8>,
}

/// The bytes of an Init before its mac1.
pub open spec fn init_mac1_input(m: HandshakeInit) -> Seq<u8> {
    le_bytes_u32(MSG_FIRST) + le_bytes_u32(m.sender) + m.ephemeral_key@ + m.static_key@
        + m.timestamp@
}

/// The bytes of an Init before its mac2.
pub open spec fn init_mac2_input(m: HandshakeInit) -> Seq<u8> {
    init_mac1_input(m) + m.mac1@
}

/// The wire form of an Init.
pub open spec fn init_bytes(m: HandshakeInit) -> Seq<u8> {
    init_mac2_input(m) + m.mac2@
}

/// The bytes of a Resp before its mac1.
pub open spec fn resp_mac1_input(m: HandshakeResp) -> Seq<u8> {
    le_bytes_u32(MSG_SECOND) + le_bytes_u32(m.sender) + le_bytes_u32(m.receiver)
        + m.ephemeral_key@ + m.empty@
}

/// The bytes of a Resp before its mac2.
pub open spec fn resp_mac2_input(m: HandshakeResp) -> Seq<u8> {
    resp_mac1_input(m) + m.mac1@
}

/// The wire form of a Resp.
pub open spec fn resp_bytes(m: HandshakeResp) -> Seq<u8> {
    resp_mac2_input(m) + m.mac2@
}

/// The wire form of a Cookie reply.
pub open spec fn cookie_bytes(m: CookieMessage) -> Seq<u8> {
    le_bytes_u32(MSG_COOKIE) + le_bytes_u32(m.receiver) + m.nonce@ + m.cookie@
}

/// The wire form of a Data message.
pub open spec fn data_bytes(m: DataMessage) -> Seq<u8> {
    le_bytes_u32(MSG_DATA) + le_bytes_u32(m.receiver) + le_bytes_u64(m.counter) + m.payload@
}

/// The size rule of Data messages: at least 32 bytes, and a payload of a
/// multiple of 16 bytes followed by the 16-byte tag.
pub open spec fn data_len_ok(n: nat) -> bool {
    n >= DATA_MIN_LEN && n % 16 == 0
}

proof fn lemma_le_u32_inj(b: Seq<u8>)
    requires
        b.len() == 4,
    ensures
        le_u32(b) <= u32::MAX,
        le_bytes_u32(le_u32(b) as u32) == b,
{
    let b0 = b[0] as u32;
    let b1 = b[1] as u32;
    let b2 = b[2] as u32;
    let b3 = b[3] as u32;
    assert(b0 < 256 && b1 < 256 && b2 < 256 && b3 < 256);
    let n: u32 = (b0 + 256 * b1 + 65536 * b2 + 16777216 * b3) as u32;
    assert(n % 256 == b0 && (n / 256) % 256 == b1 && (n / 65536) % 256 == b2 && (n / 16777216) % 256 == b3) by (bit_vector)
        requires
            b0 < 256 && b1 < 256 && b2 < 256 && b3 < 256,
            n == b0 + 256 * b1 + 65536 * b2 + 16777216 * b3,
    ;
    assert(le_bytes_u32(n) =~= b);
}

proof fn lemma_le_u64_inj(b: Seq<u8>)
    requires
        b.len() == 8,
    ensures
        le_u64(b) <= u64::MAX,
        le_bytes_u64(le_u64(b) as u64) == b,
{
    lemma_le_u32_inj(b.subrange(0, 4));
    lemma_le_u32_inj(b.subrange(4, 8));
    assert(le_u32(b) == le_u32(b.subrange(0, 4)));
    let n = le_u64(b) as u64;
    assert((n % 0x1_0000_0000) == le_u32(b));
    assert((n / 0x1_0000_0000) == le_u32(b.subrange(4, 8)));
    assert(le_bytes_u64(n) =~= b.subrange(0, 4) + b.subrange(4, 8));
    assert(b.subrange(0, 4) + b.subrange(4, 8) =~= b);
}

/// Reads the type tag of a message, if it has four bytes.
pub fn message_type(buf: &[u8]) -> (r: Option<u32>)
    ensures
        r.is_some() <==> buf@.len() >= 4,
        r.is_some() ==> r.unwrap() as nat == type_of(buf@),
{
    if buf.len() < 4 {
        None
    } else {
        let t = decode_u32_at(buf, 0);
        assert(buf@.subrange(0, 4) =~= seq![buf@[0], buf@[1], buf@[2], buf@[3]]);
        Some(t)
    }
}

impl HandshakeInit {
    /// The bytes before mac1.
    pub fn mac1_input(&self) -> (r: Vec<u8>)
        ensures
            r@ == init_mac1_input(*self),
    {
        let mut r: Vec<u8> = Vec::new();
        extend(&mut r, &encode_u32(MSG_FIRST));
        extend(&mut r, &encode_u32(self.sender));
        extend(&mut r, &self.ephemeral_key);
        extend(&mut r, &self.static_key);
        extend(&mut r, &self.timestamp);
        assert(r@ =~= init_mac1_input(*self));
        r
    }

    /// The bytes before mac2.
    pub fn mac2_input(&self) -> (r: Vec<u8>)
        ensures
            r@ == init_mac2_input(*self),
    {
        let mut r = self.mac1_input();
        extend(&mut r, &self.mac1);
        r
    }

    /// The 148 bytes of the message.
    pub fn to_bytes(&self) -> (r: Vec<u8>)
        ensures
            r@ == init_bytes(*self),
            r@.len() == INIT_LEN,
    {
        let mut r = self.mac2_input();
        extend(&mut r, &self.mac2);
        r
    }

    /// Decodes an Init: exactly 148 bytes with type tag 1.
    pub fn parse(buf: &[u8]) -> (r: Result<HandshakeInit, Error>)
        ensures
            r.is_ok() <==> buf@.len() == INIT_LEN && type_of(buf@) == MSG_FIRST,
            r.is_ok() ==> init_bytes(r.unwrap()) == buf@,
            r.is_err() ==> r == Err::<HandshakeInit, Error>(Error::Malformed),
    {
        if buf.len() != INIT_LEN {
            return Err(Error::Malformed);
        }
        let t = decode_u32_at(buf, 0);
        assert(buf@.subrange(0, 4) =~= seq![buf@[0], buf@[1], buf@[2], buf@[3]]);
        if t != MSG_FIRST {
            return Err(Error::Malformed);
        }
        let sender = decode_u32_at(buf, 4);
        let m = HandshakeInit {
            sender,
            ephemeral_key: take_array(buf, 8),
            static_key: take_array(buf, 40),
            timestamp: take_array(buf, 88),
            mac1: take_array(buf, 116),
            mac2: take_array(buf, 132),
        };
        proof {
            lemma_le_u32_inj(buf@.subrange(0, 4));
            lemma_le_u32_inj(buf@.subrange(4, 8));
            assert(init_bytes(m) =~= buf@);
        }
        Ok(m)
    }
}

impl HandshakeResp {
    /// The bytes before mac1.
    pub fn mac1_input(&self) -> (r: Vec<u8>)
        ensures
            r@ == resp_mac1_input(*self),
    {
        let mut r: Vec<u8> = Vec::new();
        extend(&mut r, &encode_u32(MSG_SECOND));
        extend(&mut r, &encode_u32(self.sender));
        extend(&mut r, &encode_u32(self.receiver));
        extend(&mut r, &self.ephemeral_key);
        extend(&mut r, &self.empty);
        assert(r@ =~= resp_mac1_input(*self));
        r
    }

    /// The bytes before mac2.
    pub fn mac2_input(&self) -> (r: Vec<u8>)
        ensures
            r@ == resp_mac2_input(*self),
    {
        let mut r = self.mac1_input();
        extend(&mut r, &self.mac1);
        r
    }

    /// The 92 bytes of the message.
    pub fn to_bytes(&self) -> (r: Vec<u8>)
        ensures
            r@ == resp_bytes(*self),
            r@.len() == RESP_LEN,
    {
        let mut r = self.mac2_input();
        extend(&mut r, &self.mac2);
        r
    }

    /// Decodes a Resp: exactly 92 bytes with type tag 2.
    pub fn parse(buf: &[u8]) -> (r: Result<HandshakeResp, Error>)
        ensures
            r.is_ok() <==> buf@.len() == RESP_LEN && type_of(buf@) == MSG_SECOND,
            r.is_ok() ==> resp_bytes(r.unwrap()) == buf@,
            r.is_err() ==> r == Err::<HandshakeResp, Error>(Error::Malformed),
    {
        if buf.len() != RESP_LEN {
            return Err(Error::Malformed);
        }
        let t = decode_u32_at(buf, 0);
        assert(buf@.subrange(0, 4) =~= seq![buf@[0], buf@[1], buf@[2], buf@[3]]);
        if t != MSG_SECOND {
            return Err(Error::Malformed);
        }
        let m = HandshakeResp {
            sender: decode_u32_at(buf, 4),
            receiver: decode_u32_at(buf, 8),
            ephemeral_key: take_array(buf, 12),
            empty: take_array(buf, 44),
            mac1: take_array(buf, 60),
            mac2: take_array(buf, 76),
        };
        proof {
            lemma_le_u32_inj(buf@.subrange(0, 4));
            lemma_le_u32_inj(buf@.subrange(4, 8));
            lemma_le_u32_inj(buf@.subrange(8, 12));
            assert(resp_bytes(m) =~= buf@);
        }
        Ok(m)
    }
}

impl CookieMessage {
    /// The 64 bytes of the message.
    pub fn to_bytes(&self) -> (r: Vec<u8>)
        ensures
            r@ == cookie_bytes(*self),
            r@.len() == COOKIE_LEN,
    {
        let mut r: Vec<u8> = Vec::new();
        extend(&mut r, &encode_u32(MSG_COOKIE));
        extend(&mut r, &encode_u32(self.receiver));
        extend(&mut r, &self.nonce);
        extend(&mut r, &self.cookie);
        assert(r@ =~= cookie_bytes(*self));
        r
    }

    /// Decodes a Cookie reply: exactly 64 bytes with type tag 4.
    pub fn parse(buf: &[u8]) -> (r: Result<CookieMessage, Error>)
        ensures
            r.is_ok() <==> buf@.len() == COOKIE_LEN && type_of(buf@) == MSG_COOKIE,
            r.is_ok() ==> cookie_bytes(r.unwrap()) == buf@,
            r.is_err() ==> r == Err::<CookieMessage, Error>(Error::Malformed),
    {
        if buf.len() != COOKIE_LEN {
            return Err(Error::Malformed);
        }
        let t = decode_u32_at(buf, 0);
        assert(buf@.subrange(0, 4) =~= seq![buf@[0], buf@[1], buf@[2], buf@[3]]);
        if t != MSG_COOKIE {
            return Err(Error::Malformed);
        }
        let m = CookieMessage {
            receiver: decode_u32_at(buf, 4),
            nonce: take_array(buf, 8),
            cookie: take_array(buf, 32),
        };
        proof {
            lemma_le_u32_inj(buf@.subrange(0, 4));
            lemma_le_u32_inj(buf@.subrange(4, 8));
            assert(cookie_bytes(m) =~= buf@);
        }
        Ok(m)
    }
}

impl DataMessage {
    /// The bytes of the message.
    pub fn to_bytes(&self) -> (r: Vec<u8>)
        ensures
            r@ == data_bytes(*self),
    {
        let mut r: Vec<u8> = Vec::new();
        extend(&mut r, &encode_u32(MSG_DATA));
        extend(&mut r, &encode_u32(self.receiver));
        extend(&mut r, &encode_u64(self.counter));
        extend(&mut r, self.payload.as_slice());
        assert(r@ =~= data_bytes(*self));
        r
    }

    /// Decodes a Data message: type tag 3, at least 32 bytes, and an
    /// encrypted payload of a multiple of 16 bytes plus the tag.
    pub fn parse(buf: &[u8]) -> (r: Result<DataMessage, Error>)
        ensures
            r.is_ok() <==> data_len_ok(buf@.len()) && type_of(buf@) == MSG_DATA,
            r.is_ok() ==> data_bytes(r.unwrap()) == buf@,
            r.is_ok() ==> r.unwrap().receiver as nat == le_u32(buf@.subrange(4, 8)),
            r.is_ok() ==> r.unwrap().counter as nat == le_u64(buf@.subrange(8, 16)),
            r.is_ok() ==> r.unwrap().payload@ == buf@.subrange(16, buf@.len() as int),
            r.is_err() ==> r == Err::<DataMessage, Error>(Error::Malformed),
    {
        if buf.len() < DATA_MIN_LEN || buf.len() % 16 != 0 {
            return Err(Error::Malformed);
        }
        let t = decode_u32_at(buf, 0);
        assert(buf@.subrange(0, 4) =~= seq![buf@[0], buf@[1], buf@[2], buf@[3]]);
        if t != MSG_DATA {
            return Err(Error::Malformed);
        }
        let receiver = decode_u32_at(buf, 4);
        let counter = decode_u64_at(buf, 8);
        let mut payload: Vec<u8> = Vec::new();
        let mut i: usize = DATA_HEADER_LEN;
        while i < buf.len()
            invariant
                DATA_HEADER_LEN <= i <= buf@.len(),
                payload@ == buf@.subrange(DATA_HEADER_LEN as int, i as int),
            decreases buf@.len() - i,
        {
            payload.push(buf[i]);
            i += 1;
            assert(payload@ =~= buf@.subrange(DATA_HEADER_LEN as int, i as int));
        }
        let m = DataMessage { receiver, counter, payload };
        proof {
            lemma_le_u32_inj(buf@.subrange(0, 4));
            lemma_le_u32_inj(buf@.subrange(4, 8));
            lemma_le_u64_inj(buf@.subrange(8, 16));
            assert(data_bytes(m) =~= buf@);
        }
        Ok(m)
    }
}

} // verus!
