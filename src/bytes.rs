use vstd::prelude::*;

verus! {

/// The unsigned integer that the bytes `b[0..4]` encode in little-endian order.
pub open spec fn le_u32(b: Seq<u8>) -> nat
    recommends
        b.len() >= 4,
{
    b[0] as nat + 256 * (b[1] as nat) + 65536 * (b[2] as nat) + 16777216 * (b[3] as nat)
}

/// The four little-endian bytes of `n`.
pub open spec fn le_bytes_u32(n: u32) -> Seq<u8> {
    seq![
        (n % 256) as u8,
        ((n / 256) % 256) as u8,
        ((n / 65536) % 256) as u8,
        ((n / 16777216) % 256) as u8,
    ]
}

/// A 32-bit integer stored in little-endian byte order, as it stands on the wire.
#[derive(Clone, Copy, Debug, Default)]
pub struct LEU32(pub [u8; 4]);

impl LEU32 {
    pub open spec fn value(self) -> nat {
        le_u32(self.0@)
    }

    /// The integer that the stored bytes encode.
    pub fn get(self) -> (r: u32)
        ensures
            r as nat == self.value(),
    {
        decode_u32(&self.0)
    }

    /// Stores `n` in little-endian order.
    pub fn new(n: u32) -> (r: Self)
        ensures
            r.0@ == le_bytes_u32(n),
            r.value() == n,
    {
        LEU32(encode_u32(n))
    }
}

/// Decoding the four bytes of `n` gives `n` back.
pub proof fn lemma_le_u32_of_bytes(n: u32)
    ensures
        le_u32(le_bytes_u32(n)) == n,
{
    let r = seq![(n % 256) as u8, ((n / 256) % 256) as u8, ((n / 65536) % 256) as u8, ((n / 16777216) % 256) as u8];
    assert(r == le_bytes_u32(n));
}

/// Reads a little-endian `u32` from four bytes.
pub fn decode_u32(b: &[u8; 4]) -> (r: u32)
    ensures
        r as nat == le_u32(b@),
{
    b[0] as u32 + 256 * (b[1] as u32) + 65536 * (b[2] as u32) + 16777216 * (b[3] as u32)
}

/// Writes `n` as four little-endian bytes.
pub fn encode_u32(n: u32) -> (r: [u8; 4])
    ensures
        r@ == le_bytes_u32(n),
        le_u32(r@) == n,
{
    let r = [(n % 256) as u8, ((n / 256) % 256) as u8, ((n / 65536) % 256) as u8, ((n / 16777216) % 256) as u8];
    assert(r@ =~= le_bytes_u32(n));
    r
}

/// The unsigned integer that the bytes `b[0..8]` encode in little-endian order.
pub open spec fn le_u64(b: Seq<u8>) -> nat
    recommends
        b.len() >= 8,
{
    le_u32(b) + 0x1_0000_0000 * le_u32(b.subrange(4, 8))
}

/// The eight little-endian bytes of `n`.
pub open spec fn le_bytes_u64(n: u64) -> Seq<u8> {
    le_bytes_u32((n % 0x1_0000_0000) as u32) + le_bytes_u32((n / 0x1_0000_0000) as u32)
}

/// Writes `n` as eight little-endian bytes.
pub fn encode_u64(n: u64) -> (r: [u8; 8])
    ensures
        r@ == le_bytes_u64(n),
        le_u64(r@) == n,
{
    let lo = encode_u32((n % 0x1_0000_0000) as u32);
    let hi = encode_u32((n / 0x1_0000_0000) as u32);
    let r = [lo[0], lo[1], lo[2], lo[3], hi[0], hi[1], hi[2], hi[3]];
    assert(r@ =~= lo@ + hi@);
    assert(r@.subrange(4, 8) =~= hi@);
    r
}

/// Reads a little-endian `u64` from the bytes `b[at..at + 8]`.
pub fn decode_u64_at(b: &[u8], at: usize) -> (r: u64)
    requires
        at + 8 <= b@.len(),
    ensures
        r as nat == le_u64(b@.subrange(at as int, at + 8)),
{
    let lo = decode_u32(&[b[at], b[at + 1], b[at + 2], b[at + 3]]);
    let hi = decode_u32(&[b[at + 4], b[at + 5], b[at + 6], b[at + 7]]);
    let ghost s = b@.subrange(at as int, at + 8);
    assert(s.subrange(4, 8) =~= seq![b[at + 4], b[at + 5], b[at + 6], b[at + 7]]);
    lo as u64 + 0x1_0000_0000 * (hi as u64)
}

/// Reads a little-endian `u32` from the bytes `b[at..at + 4]`.
pub fn decode_u32_at(b: &[u8], at: usize) -> (r: u32)
    requires
        at + 4 <= b@.len(),
    ensures
        r as nat == le_u32(b@.subrange(at as int, at + 4)),
{
    decode_u32(&[b[at], b[at + 1], b[at + 2], b[at + 3]])
}

/// Copies `b` after the bytes of `out`.
pub fn extend(out: &mut Vec<u8>, b: &[u8])
    ensures
        final(out)@ == old(out)@ + b@,
{
    let mut i: usize = 0;
    while i < b.len()
        invariant
            i <= b@.len(),
            out@ == old(out)@ + b@.subrange(0, i as int),
        decreases b@.len() - i,
    {
        out.push(b[i]);
        i += 1;
        assert(out@ =~= old(out)@ + b@.subrange(0, i as int));
    }
    assert(b@.subrange(0, i as int) =~= b@);
}

/// The bytes of `a` followed by those of `b`.
pub fn concat(a: &[u8], b: &[u8]) -> (r: Vec<u8>)
    ensures
        r@ == a@ + b@,
{
    let mut r: Vec<u8> = Vec::new();
    extend(&mut r, a);
    assert(r@ =~= a@);
    extend(&mut r, b);
    r
}

/// Copies the bytes `b[from..from + N]` into an array.
pub fn take_array<const N: usize>(b: &[u8], from: usize) -> (r: [u8; N])
    requires
        from + N <= b@.len(),
    ensures
        r@ == b@.subrange(from as int, from + N),
{
    let mut r = [0u8; N];
    let len = b.len();
    let mut i: usize = 0;
    while i < N
        invariant
            from + N <= b@.len(),
            len == b@.len(),
            i <= N,
            r@.len() == N,
            forall|j: int| 0 <= j < i ==> r@[j] == b@[from + j],
        decreases N - i,
    {
        assert(from + i < len);
        r[i] = b[from + i];
        i += 1;
    }
    assert(r@ =~= b@.subrange(from as int, from + N));
    r
}

} // verus!
