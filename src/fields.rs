use vstd::prelude::*;

verus! {

/// The four bytes of `v`, most significant first.
pub open spec fn be_bytes(v: u32) -> Seq<u8> {
    seq![(v >> 24u32) as u8, (v >> 16u32) as u8, (v >> 8u32) as u8, v as u8]
}

/// The 32-bit value whose big-endian bytes are `b0 b1 b2 b3`.
pub open spec fn be_value(b0: u8, b1: u8, b2: u8, b3: u8) -> u32 {
    ((b0 as u32) << 24u32) | ((b1 as u32) << 16u32) | ((b2 as u32) << 8u32) | (b3 as u32)
}

/// The concatenation of the big-endian forms of the values of `f`.
pub open spec fn encode_fields(f: Seq<u32>) -> Seq<u8> {
    Seq::new(4 * f.len(), |j: int| be_bytes(f[j / 4])[j % 4])
}

/// The `k`-th big-endian 32-bit field of `enc`.
pub open spec fn field(enc: Seq<u8>, k: int) -> u32 {
    be_value(enc[4 * k], enc[4 * k + 1], enc[4 * k + 2], enc[4 * k + 3])
}

/// Every whole 32-bit field of `enc`, in order.
pub open spec fn fields(enc: Seq<u8>) -> Seq<u32> {
    Seq::new(enc.len() / 4, |k: int| field(enc, k))
}

proof fn lemma_be_value_of_bytes(v: u32)
    by (bit_vector)
    ensures
        be_value((v >> 24u32) as u8, (v >> 16u32) as u8, (v >> 8u32) as u8, v as u8) == v,
{
}

/// Reading back the fields of an encoding gives the values encoded.
pub proof fn lemma_fields_of_encoding(f: Seq<u32>)
    ensures
        fields(encode_fields(f)) == f,
{
    let e = encode_fields(f);
    assert forall|k: int| 0 <= k < f.len() implies fields(e)[k] == f[k] by {
        assert((4 * k) / 4 == k && (4 * k + 1) / 4 == k && (4 * k + 2) / 4 == k && (4 * k + 3) / 4
            == k);
        assert((4 * k) % 4 == 0 && (4 * k + 1) % 4 == 1 && (4 * k + 2) % 4 == 2 && (4 * k + 3) % 4
            == 3);
        lemma_be_value_of_bytes(f[k]);
    }
    assert(fields(e) =~= f);
}

/// Encoding one more value appends its four bytes.
pub proof fn lemma_encoding_push(f: Seq<u32>, v: u32)
    ensures
        encode_fields(f.push(v)) == encode_fields(f) + be_bytes(v),
{
    let a = encode_fields(f.push(v));
    let b = encode_fields(f) + be_bytes(v);
    assert forall|j: int| 0 <= j < a.len() implies a[j] == b[j] by {
        if j < 4 * f.len() {
            assert(j / 4 < f.len());
        } else {
            assert(j / 4 == f.len());
            assert(j % 4 == j - 4 * f.len());
        }
    }
    assert(a =~= b);
}

/// The four big-endian bytes of `*i`, which must fit in 32 bits.
pub fn integer_to_bytes(i: &usize) -> (r: Vec<u8>)
    requires
        *i <= u32::MAX,
    ensures
        r@ == be_bytes(*i as u32),
{
    let v = *i as u32;
    let mut r: Vec<u8> = Vec::with_capacity(4);
    r.push((v >> 24u32) as u8);
    r.push((v >> 16u32) as u8);
    r.push((v >> 8u32) as u8);
    r.push(v as u8);
    assert(r@ =~= be_bytes(v));
    r
}

/// Reads field `k` of `enc`.
pub fn read_field(enc: &[u8], k: usize) -> (r: u32)
    requires
        4 * k + 4 <= enc@.len(),
    ensures
        r == field(enc@, k as int),
{
    let n: usize = enc.len();
    assert(4 * k + 4 <= n);
    let at: usize = 4 * k;
    ((enc[at] as u32) << 24u32) | ((enc[at + 1] as u32) << 16u32) | ((enc[at + 2] as u32) << 8u32)
        | (enc[at + 3] as u32)
}

} // verus!
