use vstd::prelude::*;

use crate::bits::{bit_at, lemma_bits_ext, lemma_flipped_bit, lemma_xor_bit, resize_spec};
use crate::codec::{
    apply_flips, diff_spec, gaps, last_or_zero, lemma_set_bits_below, patch_spec, running_sums,
    set_bits, strictly_increasing, walk, xor_diff, PatchError, LENGTH_LIMIT,
};
use crate::fields::{be_bytes, encode_fields, field, fields, lemma_encoding_push, lemma_fields_of_encoding};

verus! {

/// Summing up the gaps of an ascending sequence of 32-bit indices gives the
/// sequence back, and so does walking them under any bound above its elements.
proof fn lemma_gaps_sum_back(s: Seq<int>, bit_len: int)
    requires
        strictly_increasing(s),
        forall|k: int| 0 <= k < s.len() ==> 0 <= #[trigger] s[k] < bit_len,
        bit_len <= u32::MAX + 1,
    ensures
        running_sums(gaps(s)) == s,
        walk(gaps(s), bit_len) == Ok::<Seq<int>, PatchError>(s),
    decreases s.len(),
{
    if s.len() > 0 {
        let t = s.drop_last();
        assert(gaps(s).drop_last() =~= gaps(t));
        lemma_gaps_sum_back(t, bit_len);
        assert(last_or_zero(t) + gaps(s).last() == s.last());
        assert(t.push(s.last()) =~= s);
    }
}

/// Toggling the bits at distinct indices flips exactly those bits.
proof fn lemma_apply_flips_bits(b: Seq<u8>, idx: Seq<int>)
    requires
        strictly_increasing(idx),
        forall|k: int| 0 <= k < idx.len() ==> 0 <= #[trigger] idx[k] < b.len() * 8,
    ensures
        apply_flips(b, idx).len() == b.len(),
        forall|q: int|
            0 <= q < b.len() * 8 ==> #[trigger] bit_at(apply_flips(b, idx), q) == (bit_at(b, q)
                != idx.contains(q)),
    decreases idx.len(),
{
    if idx.len() > 0 {
        let t = idx.drop_last();
        lemma_apply_flips_bits(b, t);
        let inner = apply_flips(b, t);
        assert forall|q: int| 0 <= q < b.len() * 8 implies #[trigger] bit_at(
            apply_flips(b, idx),
            q,
        ) == (bit_at(b, q) != idx.contains(q)) by {
            lemma_flipped_bit(inner, idx.last(), q);
            if t.contains(q) {
                let k = choose|k: int| 0 <= k < t.len() && t[k] == q;
                assert(idx[k] == q);
            }
            if idx.contains(q) && q != idx.last() {
                let k = choose|k: int| 0 <= k < idx.len() && idx[k] == q;
                assert(t[k] == q);
            }
            if q == idx.last() {
                assert(idx[idx.len() - 1] == q);
                if t.contains(q) {
                    let k = choose|k: int| 0 <= k < t.len() && t[k] == q;
                    assert(idx[k] < idx[idx.len() - 1]);
                }
            }
        }
        lemma_flipped_bit(inner, idx.last(), 0);
    }
}

/// The fields of a difference encoding: the target length, then the gaps
/// between the set bits of the xor of the two buffers.
proof fn lemma_diff_fields(left: Seq<u8>, right: Seq<u8>)
    requires
        right.len() < LENGTH_LIMIT,
    ensures
        fields(diff_spec(left, right)) == seq![right.len() as u32] + gaps(
            set_bits(xor_diff(left, right)),
        ),
        diff_spec(left, right).len() == 4 * fields(diff_spec(left, right)).len(),
        field(diff_spec(left, right), 0) == right.len(),
        fields(diff_spec(left, right)).drop_first() == gaps(set_bits(xor_diff(left, right))),
{
    let f = seq![right.len() as u32] + gaps(set_bits(xor_diff(left, right)));
    lemma_fields_of_encoding(f);
    assert(fields(diff_spec(left, right))[0] == field(diff_spec(left, right), 0));
    assert(f.drop_first() =~= gaps(set_bits(xor_diff(left, right))));
}

/// Patching `left` with the difference from `left` to `right` rebuilds
/// `right`, for every `left` and `right` below `LENGTH_LIMIT` bytes.
pub proof fn lemma_round_trip(left: Seq<u8>, right: Seq<u8>)
    requires
        left.len() < LENGTH_LIMIT,
        right.len() < LENGTH_LIMIT,
    ensures
        patch_spec(left, diff_spec(left, right)) == Ok::<Seq<u8>, PatchError>(right),
{
    let n = right.len() as int;
    let x = xor_diff(left, right);
    let s = set_bits(x);
    let base = resize_spec(left, n);
    lemma_diff_fields(left, right);
    lemma_set_bits_below(x, 8 * x.len());
    lemma_gaps_sum_back(s, 8 * n);
    lemma_apply_flips_bits(base, s);
    let patched = apply_flips(base, s);
    assert forall|q: int| 0 <= q < patched.len() * 8 implies bit_at(patched, q) == bit_at(
        right,
        q,
    ) by {
        lemma_xor_bit(base, right, x, q);
    }
    lemma_bits_ext(patched, right);
}

/// Two equal buffers differ nowhere: their difference is the length field
/// alone, and patching with it gives the buffer back.
pub proof fn lemma_identical_buffers(b: Seq<u8>)
    requires
        b.len() < LENGTH_LIMIT,
    ensures
        diff_spec(b, b) == be_bytes(b.len() as u32),
        patch_spec(b, diff_spec(b, b)) == Ok::<Seq<u8>, PatchError>(b),
{
    let x = xor_diff(b, b);
    assert forall|i: int| 0 <= i < x.len() implies x[i] == 0 by {
        let v = b[i];
        assert(v ^ v == 0) by (bit_vector);
    }
    lemma_set_bits_below(x, 8 * x.len());
    let s = set_bits(x);
    if s.len() > 0 {
        let q = s[0];
        assert(s.contains(q));
        assert(bit_at(x, q));
        assert(0 <= q / 8 < x.len());
        let z = x[q / 8];
        assert(z == 0);
        let m = (q % 8) as u8;
        assert(z == 0 ==> z & (1u8 << m) == 0) by (bit_vector);
        assert(false);
    }
    assert(gaps(s) =~= Seq::<u32>::empty());
    assert(seq![b.len() as u32] + gaps(s) =~= Seq::<u32>::empty().push(b.len() as u32));
    lemma_encoding_push(Seq::<u32>::empty(), b.len() as u32);
    assert(encode_fields(Seq::<u32>::empty()) + be_bytes(b.len() as u32) =~= be_bytes(
        b.len() as u32,
    ));
    lemma_round_trip(b, b);
}

/// The first field of a difference encoding is the length of the target.
pub proof fn lemma_length_prefix(left: Seq<u8>, right: Seq<u8>)
    requires
        right.len() < LENGTH_LIMIT,
    ensures
        diff_spec(left, right).len() >= 4,
        field(diff_spec(left, right), 0) == right.len(),
{
    lemma_diff_fields(left, right);
}

/// Summing up the gaps of a difference encoding gives strictly increasing bit
/// indices of the target, which are exactly the bits where the two buffers
/// differ.
pub proof fn lemma_gaps_ascending(left: Seq<u8>, right: Seq<u8>)
    requires
        right.len() < LENGTH_LIMIT,
    ensures
        strictly_increasing(running_sums(fields(diff_spec(left, right)).drop_first())),
        forall|k: int|
            0 <= k < running_sums(fields(diff_spec(left, right)).drop_first()).len() ==> 0
                <= #[trigger] running_sums(fields(diff_spec(left, right)).drop_first())[k] < 8
                * right.len(),
        running_sums(fields(diff_spec(left, right)).drop_first()) == set_bits(
            xor_diff(left, right),
        ),
{
    let x = xor_diff(left, right);
    lemma_diff_fields(left, right);
    lemma_set_bits_below(x, 8 * x.len());
    lemma_gaps_sum_back(set_bits(x), 8 * right.len() as int);
}

} // verus!
