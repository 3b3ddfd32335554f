use vstd::prelude::*;

verus! {

/// The mask that selects bit position `k` of a byte, position 0 being the
/// least significant bit.
pub open spec fn bit_mask(k: int) -> u8 {
    1u8 << (k as u8)
}

/// Whether bit `i` of `bytes` is set: bit `i` lives in byte `i / 8`, at
/// position `i % 8` counted from the least significant bit.
pub open spec fn bit_at(bytes: Seq<u8>, i: int) -> bool {
    bytes[i / 8] & bit_mask(i % 8) != 0
}

/// `bytes` with bit `i` toggled.
pub open spec fn flipped(bytes: Seq<u8>, i: int) -> Seq<u8> {
    bytes.update(i / 8, bytes[i / 8] ^ bit_mask(i % 8))
}

/// `bytes` cut to `len` bytes, or extended to `len` bytes with zeros.
pub open spec fn resize_spec(bytes: Seq<u8>, len: int) -> Seq<u8> {
    Seq::new(len as nat, |i: int| if i < bytes.len() { bytes[i] } else { 0u8 })
}

/// Read access to the first `bit_len` bits of a byte slice.
pub struct BitSlice<'a> {
    /// The bytes that hold the bits.
    pub bytes: &'a [u8],
    /// How many bits may be read; never more than the slice holds.
    pub bit_len: usize,
}

impl<'a> BitSlice<'a> {
    /// The readable bits lie within the slice.
    pub open spec fn wf(&self) -> bool {
        self.bit_len <= self.bytes@.len() * 8
    }

    /// A view of the first `bit_len` bits of `bytes`.
    pub fn new(bytes: &'a [u8], bit_len: usize) -> (r: BitSlice<'a>)
        requires
            bit_len <= bytes@.len() * 8,
        ensures
            r.wf(),
            r.bytes@ == bytes@,
            r.bit_len == bit_len,
    {
        BitSlice { bytes, bit_len }
    }

    /// Whether bit `bit_index` is set.
    pub fn get(&self, bit_index: usize) -> (r: bool)
        requires
            self.wf(),
            bit_index < self.bit_len,
        ensures
            r == bit_at(self.bytes@, bit_index as int),
    {
        let byte = self.bytes[bit_index / 8];
        let mask: u8 = 1u8 << ((bit_index % 8) as u8);
        byte & mask != 0
    }
}

/// Toggles bit `bit_index` of `bytes`; fails, leaving `bytes` as it was, when
/// the index lies past the last bit.
pub fn flip_bit(bytes: &mut Vec<u8>, bit_index: usize) -> (r: Result<(), ()>)
    ensures
        bit_index < old(bytes)@.len() * 8 ==> r is Ok && final(bytes)@ == flipped(
            old(bytes)@,
            bit_index as int,
        ),
        bit_index >= old(bytes)@.len() * 8 ==> r is Err && final(bytes)@ == old(bytes)@,
{
    let byte_index = bit_index / 8;
    if byte_index >= bytes.len() {
        return Err(());
    }
    let mask: u8 = 1u8 << ((bit_index % 8) as u8);
    let byte = bytes[byte_index];
    bytes.set(byte_index, byte ^ mask);
    Ok(())
}

/// A copy of `bytes` cut or zero-extended to exactly `len` bytes.
pub fn resized(bytes: &[u8], len: usize) -> (r: Vec<u8>)
    ensures
        r@ == resize_spec(bytes@, len as int),
{
    let mut out: Vec<u8> = Vec::with_capacity(len);
    let mut i: usize = 0;
    while i < len
        invariant
            i <= len,
            out@ == resize_spec(bytes@, i as int),
        decreases len - i,
    {
        if i < bytes.len() {
            out.push(bytes[i]);
        } else {
            out.push(0u8);
        }
        i += 1;
        assert(out@ =~= resize_spec(bytes@, i as int));
    }
    out
}

proof fn lemma_flip_byte(b: u8, k: u8, j: u8)
    by (bit_vector)
    requires
        k < 8,
        j < 8,
    ensures
        ((b ^ (1u8 << k)) & (1u8 << j) != 0) == (if j == k {
            b & (1u8 << j) == 0
        } else {
            b & (1u8 << j) != 0
        }),
{
}

/// Toggling bit `p` changes bit `p` and no other.
pub proof fn lemma_flipped_bit(bytes: Seq<u8>, p: int, q: int)
    requires
        0 <= p < bytes.len() * 8,
        0 <= q < bytes.len() * 8,
    ensures
        flipped(bytes, p).len() == bytes.len(),
        bit_at(flipped(bytes, p), q) == (bit_at(bytes, q) != (p == q)),
{
    if q / 8 == p / 8 {
        lemma_flip_byte(bytes[p / 8], (p % 8) as u8, (q % 8) as u8);
    }
}

proof fn lemma_xor_byte(a: u8, b: u8, j: u8)
    by (bit_vector)
    requires
        j < 8,
    ensures
        ((a ^ b) & (1u8 << j) != 0) == ((a & (1u8 << j) != 0) != (b & (1u8 << j) != 0)),
{
}

/// A bit of a byte-wise exclusive or is the exclusive or of the two bits.
pub proof fn lemma_xor_bit(a: Seq<u8>, b: Seq<u8>, x: Seq<u8>, q: int)
    requires
        a.len() == b.len(),
        x.len() == a.len(),
        forall|i: int| 0 <= i < x.len() ==> x[i] == a[i] ^ b[i],
        0 <= q < x.len() * 8,
    ensures
        bit_at(x, q) == (bit_at(a, q) != bit_at(b, q)),
{
    lemma_xor_byte(a[q / 8], b[q / 8], (q % 8) as u8);
}

proof fn lemma_byte_from_bits(a: u8, b: u8)
    by (bit_vector)
    requires
        (a & (1u8 << 0u8) != 0) == (b & (1u8 << 0u8) != 0),
        (a & (1u8 << 1u8) != 0) == (b & (1u8 << 1u8) != 0),
        (a & (1u8 << 2u8) != 0) == (b & (1u8 << 2u8) != 0),
        (a & (1u8 << 3u8) != 0) == (b & (1u8 << 3u8) != 0),
        (a & (1u8 << 4u8) != 0) == (b & (1u8 << 4u8) != 0),
        (a & (1u8 << 5u8) != 0) == (b & (1u8 << 5u8) != 0),
        (a & (1u8 << 6u8) != 0) == (b & (1u8 << 6u8) != 0),
        (a & (1u8 << 7u8) != 0) == (b & (1u8 << 7u8) != 0),
    ensures
        a == b,
{
}

/// Two byte sequences of one length that agree on every bit are equal.
pub proof fn lemma_bits_ext(a: Seq<u8>, b: Seq<u8>)
    requires
        a.len() == b.len(),
        forall|q: int| 0 <= q < a.len() * 8 ==> bit_at(a, q) == bit_at(b, q),
    ensures
        a == b,
{
    assert forall|i: int| 0 <= i < a.len() implies a[i] == b[i] by {
        assert(bit_at(a, 8 * i + 0) == bit_at(b, 8 * i + 0));
        assert(bit_at(a, 8 * i + 1) == bit_at(b, 8 * i + 1));
        assert(bit_at(a, 8 * i + 2) == bit_at(b, 8 * i + 2));
        assert(bit_at(a, 8 * i + 3) == bit_at(b, 8 * i + 3));
        assert(bit_at(a, 8 * i + 4) == bit_at(b, 8 * i + 4));
        assert(bit_at(a, 8 * i + 5) == bit_at(b, 8 * i + 5));
        assert(bit_at(a, 8 * i + 6) == bit_at(b, 8 * i + 6));
        assert(bit_at(a, 8 * i + 7) == bit_at(b, 8 * i + 7));
        lemma_byte_from_bits(a[i], b[i]);
    }
    assert(a =~= b);
}

} // verus!
