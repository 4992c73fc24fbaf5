//! The Noise IKpsk2 symmetric state: the (chain, hash) pair and its mixing steps.
use vstd::prelude::*;
use crate::bytes::{concat, encode_u64, le_bytes_u64};
use crate::primitives::{
    aead_len_ok, blake2s, blake2s_of, chacha_open, chacha_seal, hmac_blake2s, hmac_of, scrub,
    seal_of, x25519, x25519_of,
};

verus! {

/// `Hash("Noise_IKpsk2_25519_ChaChaPoly_BLAKE2s")`: the initial chaining key.
pub const CONSTRUCTION_HASH: [u8; 32] = [
    96, 226, 109, 174, 243, 39, 239, 192, 46, 195, 53, 226, 160, 37, 210, 208, 22, 235, 66, 6,
    248, 114, 119, 245, 45, 56, 209, 152, 139, 120, 205, 54,
];

/// `Hash(CONSTRUCTION_HASH ‖ "WireGuard v1 zx2c4 Jason@zx2c4.com")`: the initial hash.
pub const IDENTIFIER_HASH: [u8; 32] = [
    34, 17, 179, 97, 8, 26, 197, 102, 105, 18, 67, 219, 69, 138, 213, 50, 45, 156, 108, 102, 34,
    147, 232, 183, 14, 225, 156, 101, 186, 7, 158, 243,
];

/// The `i`-th 32-byte output (from 1) of HKDF over HMAC-BLAKE2s:
/// `T0 = Hmac(key, input)`, `T1 = Hmac(T0, 0x01)`, `Ti = Hmac(T0, Ti-1 ‖ i)`.
pub open spec fn hkdf_block(key: Seq<u8>, input: Seq<u8>, i: nat) -> Seq<u8>
    decreases i,
{
    let t0 = hmac_of(key, input);
    if i <= 1 {
        hmac_of(t0, seq![1u8])
    } else {
        hmac_of(t0, hkdf_block(key, input, (i - 1) as nat) + seq![i as u8])
    }
}

/// The AEAD nonce for a counter: four zero bytes, then the counter in little-endian order.
pub open spec fn nonce_of(counter: u64) -> Seq<u8> {
    seq![0u8, 0u8, 0u8, 0u8] + le_bytes_u64(counter)
}

/// `MixHash`: the hash after absorbing `b`.
pub open spec fn mixed_hash(hash: Seq<u8>, b: Seq<u8>) -> Seq<u8> {
    blake2s_of(hash + b)
}

/// The (chain, hash) pair as values.
pub struct NoiseView {
    pub chain: Seq<u8>,
    pub hash: Seq<u8>,
}

impl NoiseView {
    /// `MixHash(b)`.
    pub open spec fn mix_hash(self, b: Seq<u8>) -> NoiseView {
        NoiseView { chain: self.chain, hash: mixed_hash(self.hash, b) }
    }

    /// `MixChain(b)`; `MixDh` is this step on the shared secret.
    pub open spec fn mix_chain(self, b: Seq<u8>) -> NoiseView {
        NoiseView { chain: hkdf_block(self.chain, b, 1), hash: self.hash }
    }

    /// The key that `MixKeyDh` returns when it mixes `b` into the chain.
    pub open spec fn key(self, b: Seq<u8>) -> Seq<u8> {
        hkdf_block(self.chain, b, 2)
    }

    /// The state after `MixKeyHash(b)`.
    pub open spec fn mix_key_hash(self, b: Seq<u8>) -> NoiseView {
        NoiseView { chain: hkdf_block(self.chain, b, 1), hash: mixed_hash(self.hash, hkdf_block(self.chain, b, 2)) }
    }

    /// The key that `MixKeyHash(b)` returns.
    pub open spec fn hash_key(self, b: Seq<u8>) -> Seq<u8> {
        hkdf_block(self.chain, b, 3)
    }

    /// The ciphertext of encrypt-and-hash of `pt` under `k` in this state.
    pub open spec fn seal(self, k: Seq<u8>, pt: Seq<u8>) -> Seq<u8> {
        seal_of(k, nonce_of(0), self.hash, pt)
    }
}

/// Whether the X25519 output of `sk` and `pk` is all zero (a low-order
/// point); such a shared secret is refused.
pub open spec fn zero_dh(sk: Seq<u8>, pk: Seq<u8>) -> bool {
    x25519_of(sk, pk) == Seq::new(32, |i: int| 0u8)
}

/// Whether every byte is zero, without an early exit.
pub fn all_zero(v: &[u8; 32]) -> (r: bool)
    ensures
        r == (v@ == Seq::new(32, |i: int| 0u8)),
{
    let mut acc: u8 = 0;
    let mut i: usize = 0;
    while i < 32
        invariant
            i <= 32,
            (acc == 0) == (forall|j: int| 0 <= j < i ==> v@[j] == 0),
        decreases 32 - i,
    {
        let b = v[i];
        assert((acc | b) == 0 <==> (acc == 0 && b == 0)) by (bit_vector);
        acc = acc | b;
        i += 1;
    }
    if acc == 0 {
        assert(v@ =~= Seq::new(32, |i: int| 0u8));
    } else {
        assert(v@ != Seq::new(32, |i: int| 0u8)) by {
            let j = choose|j: int| 0 <= j < 32 && v@[j] != 0;
            assert(Seq::new(32, |i: int| 0u8)[j] == 0);
        }
    }
    acc == 0
}

/// X25519 of `sk` and `pk`, refusing an all-zero result.
pub fn dh(sk: &[u8; 32], pk: &[u8; 32]) -> (r: Option<[u8; 32]>)
    ensures
        r.is_none() <==> zero_dh(sk@, pk@),
        r.is_some() ==> r.unwrap()@ == x25519_of(sk@, pk@),
{
    let v = x25519(sk, pk);
    if all_zero(&v) {
        None
    } else {
        Some(v)
    }
}

/// The 12-byte AEAD nonce `0⁴ ‖ LE64(counter)`.
pub fn nonce(counter: u64) -> (r: [u8; 12])
    ensures
        r@ == nonce_of(counter),
{
    let c = encode_u64(counter);
    let r = [0u8, 0, 0, 0, c[0], c[1], c[2], c[3], c[4], c[5], c[6], c[7]];
    assert(r@ =~= nonce_of(counter));
    r
}

/// The first `n` outputs of HKDF over HMAC-BLAKE2s with the given key and input.
pub fn hkdf(key: &[u8; 32], input: &[u8], n: usize) -> (r: Vec<[u8; 32]>)
    requires
        n <= 255,
    ensures
        r@.len() == n,
        forall|i: int| 0 <= i < n ==> r@[i]@ == hkdf_block(key@, input@, (i + 1) as nat),
{
    let mut out: Vec<[u8; 32]> = Vec::new();
    if n == 0 {
        return out;
    }
    let t0 = hmac_blake2s(key, input);
    let mut ti = hmac_blake2s(&t0, &[1u8]);
    assert(seq![1u8] =~= [1u8]@);
    out.push(ti);
    let mut i: usize = 1;
    while i < n
        invariant
            1 <= i <= n,
            n <= 255,
            t0@ == hmac_of(key@, input@),
            ti@ == hkdf_block(key@, input@, i as nat),
            out@.len() == i,
            forall|j: int| 0 <= j < i ==> out@[j]@ == hkdf_block(key@, input@, (j + 1) as nat),
        decreases n - i,
    {
        let counter = [(i + 1) as u8];
        let msg = concat(&ti, &counter);
        assert(counter@ =~= seq![(i + 1) as u8]);
        ti = hmac_blake2s(&t0, &msg);
        i += 1;
        out.push(ti);
    }
    out
}

/// The handshake's symmetric state. Each step replaces the pair as the
/// Noise protocol framework (with WireGuard's chain-mix extension) prescribes.
pub struct HandshakeState {
    pub hash: [u8; 32],
    pub chain: [u8; 32],
}

impl Default for HandshakeState {
    fn default() -> (r: Self)
        ensures
            r.chain@ == CONSTRUCTION_HASH@,
            r.hash@ == IDENTIFIER_HASH@,
    {
        HandshakeState::new()
    }
}

impl View for HandshakeState {
    type V = NoiseView;

    open spec fn view(&self) -> NoiseView {
        NoiseView { chain: self.chain@, hash: self.hash@ }
    }
}

impl HandshakeState {
    /// The state every handshake starts from.
    pub fn new() -> (r: Self)
        ensures
            r.chain@ == CONSTRUCTION_HASH@,
            r.hash@ == IDENTIFIER_HASH@,
    {
        HandshakeState { hash: IDENTIFIER_HASH, chain: CONSTRUCTION_HASH }
    }

    /// `MixChain(b)`: `chain := Hkdf1(chain, b)`.
    pub fn mix_chain(&mut self, b: &[u8])
        ensures
            final(self).chain@ == hkdf_block(old(self).chain@, b@, 1),
            final(self).hash == old(self).hash,
    {
        let out = hkdf(&self.chain, b, 1);
        self.chain = out[0];
    }

    /// `MixDh(sk, pk)`: `chain := Hkdf1(chain, DH(sk, pk))`. Refused (false,
    /// nothing changed) when the shared secret is all zero.
    pub fn mix_dh(&mut self, sk: &[u8; 32], pk: &[u8; 32]) -> (ok: bool)
        ensures
            ok == !zero_dh(sk@, pk@),
            ok ==> final(self).chain@ == hkdf_block(old(self).chain@, x25519_of(sk@, pk@), 1),
            !ok ==> final(self).chain == old(self).chain,
            final(self).hash == old(self).hash,
    {
        match dh(sk, pk) {
            Some(prk) => {
                self.mix_chain(&prk);
                true
            },
            None => false,
        }
    }

    /// `MixKeyDh(sk, pk)`: `(chain, k) := Hkdf2(chain, DH(sk, pk))`; returns
    /// `k`. Refused (None, nothing changed) when the shared secret is all zero.
    pub fn mix_key_dh(&mut self, sk: &[u8; 32], pk: &[u8; 32]) -> (k: Option<[u8; 32]>)
        ensures
            k.is_none() <==> zero_dh(sk@, pk@),
            k.is_some() ==> final(self).chain@ == hkdf_block(old(self).chain@, x25519_of(sk@, pk@), 1),
            k.is_some() ==> k.unwrap()@ == hkdf_block(old(self).chain@, x25519_of(sk@, pk@), 2),
            k.is_none() ==> final(self).chain == old(self).chain,
            final(self).hash == old(self).hash,
    {
        let prk = match dh(sk, pk) {
            Some(v) => v,
            None => return None,
        };
        let out = hkdf(&self.chain, &prk, 2);
        self.chain = out[0];
        Some(out[1])
    }

    /// `MixKeyHash(b)`: `(chain, t, k) := Hkdf3(chain, b)`, then `MixHash(t)`;
    /// returns `k`.
    pub fn mix_key2(&mut self, b: &[u8]) -> (k: [u8; 32])
        ensures
            final(self).chain@ == hkdf_block(old(self).chain@, b@, 1),
            final(self).hash@ == mixed_hash(old(self).hash@, hkdf_block(old(self).chain@, b@, 2)),
            k@ == hkdf_block(old(self).chain@, b@, 3),
    {
        let out = hkdf(&self.chain, b, 3);
        self.chain = out[0];
        self.mix_hash(&out[1]);
        out[2]
    }

    /// `MixHash(b)`: `hash := Hash(hash ‖ b)`.
    pub fn mix_hash(&mut self, b: &[u8])
        ensures
            final(self).hash@ == mixed_hash(old(self).hash@, b@),
            final(self).chain == old(self).chain,
    {
        self.hash = blake2s(&self.hash, b);
    }

    /// `Split()`: `(k1, k2) := Hkdf2(chain, ∅)`; the state is then scrubbed.
    pub fn split(&mut self) -> (r: ([u8; 32], [u8; 32]))
        ensures
            r.0@ == hkdf_block(old(self).chain@, seq![], 1),
            r.1@ == hkdf_block(old(self).chain@, seq![], 2),
            final(self).chain@ == Seq::new(32, |i: int| 0u8),
            final(self).hash@ == Seq::new(32, |i: int| 0u8),
    {
        let empty: [u8; 0] = [];
        let out = hkdf(&self.chain, &empty, 2);
        assert(empty@ =~= seq![]);
        scrub(&mut self.chain);
        scrub(&mut self.hash);
        (out[0], out[1])
    }

    /// Encrypt-and-hash: seals `pt` under `key` with counter 0 and the current
    /// hash as associated data, then mixes the ciphertext into the hash.
    pub fn encrypt_and_hash(&mut self, key: &[u8; 32], pt: &[u8]) -> (ct: Vec<u8>)
        requires
            aead_len_ok(pt@.len()),
        ensures
            ct@ == seal_of(key@, nonce_of(0), old(self).hash@, pt@),
            ct@.len() == pt@.len() + 16,
            final(self).hash@ == mixed_hash(old(self).hash@, ct@),
            final(self).chain == old(self).chain,
    {
        let n = nonce(0);
        let ct = chacha_seal(key, &n, &self.hash, pt);
        self.mix_hash(&ct);
        ct
    }

    /// Decrypt-and-hash: the hash absorbs `ct` whatever happens; the result is
    /// the plaintext that seals to `ct` under `key`, counter 0 and the hash
    /// as it was, if there is one.
    pub fn decrypt_and_hash(&mut self, key: &[u8; 32], ct: &[u8]) -> (r: Option<Vec<u8>>)
        requires
            aead_len_ok(ct@.len()),
        ensures
            r.is_some() ==> seal_of(key@, nonce_of(0), old(self).hash@, r.unwrap()@) == ct@,
            r.is_some() ==> r.unwrap()@.len() + 16 == ct@.len(),
            forall|pt: Seq<u8>|
                seal_of(key@, nonce_of(0), old(self).hash@, pt) == ct@ ==> r.is_some()
                    && r.unwrap()@ == pt,
            final(self).hash@ == mixed_hash(old(self).hash@, ct@),
            final(self).chain == old(self).chain,
    {
        let n = nonce(0);
        let aad = self.hash;
        self.mix_hash(ct);
        chacha_open(key, &n, &aad, ct)
    }
}

} // verus!
