use vstd::prelude::*;

use crate::bits::{bit_at, flip_bit, flipped, resize_spec, resized, BitSlice};
use crate::fields::{
    be_bytes, encode_fields, field, fields, integer_to_bytes, lemma_encoding_push, read_field,
};

verus! {

/// Exclusive bound on the length of every buffer the codec handles: each bit
/// index of a shorter buffer, and its length, fit in a 32-bit field.
pub const LENGTH_LIMIT: usize = 0x2000_0000;

/// Why a patch could not be applied.
#[derive(Debug, Clone, Copy, PartialEq, Eq, Structural)]
pub enum PatchError {
    /// The source buffer, or the target length the patch declares, is not
    /// below `LENGTH_LIMIT`.
    InputTooLarge,
    /// The patch is empty or its length is not a multiple of four.
    MalformedEncoding,
    /// Adding up the gaps overflows a 32-bit bit index.
    IndexOverflow,
    /// A bit index lies past the last bit of the target buffer.
    IndexOutOfRange,
}

/// `right` xor-ed byte by byte with `left` cut or zero-extended to the length
/// of `right`.
pub open spec fn xor_diff(left: Seq<u8>, right: Seq<u8>) -> Seq<u8> {
    Seq::new(right.len(), |i: int| resize_spec(left, right.len() as int)[i] ^ right[i])
}

/// The indices below `n` of the set bits of `x`, in ascending order.
pub open spec fn set_bits_below(x: Seq<u8>, n: nat) -> Seq<int>
    decreases n,
{
    if n == 0 {
        Seq::empty()
    } else {
        let s = set_bits_below(x, (n - 1) as nat);
        if bit_at(x, n - 1) {
            s.push(n - 1)
        } else {
            s
        }
    }
}

/// The indices of all set bits of `x`, in ascending order.
pub open spec fn set_bits(x: Seq<u8>) -> Seq<int> {
    set_bits_below(x, 8 * x.len())
}

/// The last element of `s`, or zero when `s` is empty.
pub open spec fn last_or_zero(s: Seq<int>) -> int {
    if s.len() == 0 {
        0
    } else {
        s.last()
    }
}

/// For each index of `s`, its distance from the index before it; the first
/// is measured from zero.
pub open spec fn gaps(s: Seq<int>) -> Seq<u32> {
    Seq::new(s.len(), |k: int| (s[k] - (if k == 0 { 0 } else { s[k - 1] })) as u32)
}

/// The running totals of the gaps `g`: the bit indices they lead to.
pub open spec fn running_sums(g: Seq<u32>) -> Seq<int>
    decreases g.len(),
{
    if g.len() == 0 {
        Seq::empty()
    } else {
        let ps = running_sums(g.drop_last());
        ps.push(last_or_zero(ps) + g.last())
    }
}

/// The encoded difference from `left` to `right`: the length of `right`, then
/// the gaps between the set bits of their xor.
pub open spec fn diff_spec(left: Seq<u8>, right: Seq<u8>) -> Seq<u8> {
    encode_fields(seq![right.len() as u32] + gaps(set_bits(xor_diff(left, right))))
}

/// Whether `s` is strictly increasing.
pub open spec fn strictly_increasing(s: Seq<int>) -> bool {
    forall|i: int, j: int| 0 <= i < j < s.len() ==> s[i] < s[j]
}

/// The set bits below `n` are ascending, below `n`, and exactly the set bits.
pub proof fn lemma_set_bits_below(x: Seq<u8>, n: nat)
    ensures
        strictly_increasing(set_bits_below(x, n)),
        forall|k: int|
            0 <= k < set_bits_below(x, n).len() ==> 0 <= #[trigger] set_bits_below(x, n)[k] < n,
        forall|p: int|
            set_bits_below(x, n).contains(p) <==> 0 <= p < n && bit_at(x, p),
    decreases n,
{
    if n > 0 {
        lemma_set_bits_below(x, (n - 1) as nat);
        let s = set_bits_below(x, (n - 1) as nat);
        if bit_at(x, n - 1) {
            assert forall|p: int|
                s.push(n - 1).contains(p) <==> 0 <= p < n && bit_at(x, p) by {
                if p == n - 1 {
                    assert(s.push(n - 1)[s.len() as int] == p);
                }
                if s.push(n - 1).contains(p) && p != n - 1 {
                    let k = choose|k: int| 0 <= k < s.len() + 1 && #[trigger] s.push(n - 1)[k] == p;
                    assert(s[k] == p);
                }
                if s.contains(p) {
                    let k = choose|k: int| 0 <= k < s.len() && s[k] == p;
                    assert(s.push(n - 1)[k] == p);
                }
            }
        }
    }
}

/// The difference encoding of `left` and `right`, whose length must be below
/// `LENGTH_LIMIT`.
pub fn diff(left: &[u8], right: &[u8]) -> (r: Vec<u8>)
    requires
        right@.len() < LENGTH_LIMIT,
    ensures
        r@ == diff_spec(left@, right@),
{
    let n: usize = right.len();
    let base = resized(left, n);
    let mut xored: Vec<u8> = Vec::with_capacity(n);
    let mut i: usize = 0;
    while i < n
        invariant
            i <= n,
            n == right@.len(),
            base@ == resize_spec(left@, n as int),
            xored@ == xor_diff(left@, right@).subrange(0, i as int),
        decreases n - i,
    {
        xored.push(base[i] ^ right[i]);
        i += 1;
        assert(xored@ =~= xor_diff(left@, right@).subrange(0, i as int));
    }
    assert(xored@ =~= xor_diff(left@, right@));
    let ghost x = xored@;
    let mut out = integer_to_bytes(&n);
    assert(out@ =~= encode_fields(seq![n as u32])) by {
        assert(encode_fields(seq![n as u32]) =~= encode_fields(Seq::<u32>::empty()) + be_bytes(
            n as u32,
        )) by {
            lemma_encoding_push(Seq::<u32>::empty(), n as u32);
            assert(Seq::<u32>::empty().push(n as u32) =~= seq![n as u32]);
        }
    }
    let set_bits = BitSlice::new(xored.as_slice(), n * 8);
    let mut previous_set_index: usize = 0;
    let mut index: usize = 0;
    while index < set_bits.bit_len
        invariant
            set_bits.wf(),
            set_bits.bytes@ == x,
            set_bits.bit_len == 8 * x.len(),
            x.len() == n,
            n < LENGTH_LIMIT,
            index <= set_bits.bit_len,
            out@ == encode_fields(seq![n as u32] + gaps(set_bits_below(x, index as nat))),
            previous_set_index == last_or_zero(set_bits_below(x, index as nat)),
        decreases set_bits.bit_len - index,
    {
        let ghost s = set_bits_below(x, index as nat);
        proof {
            lemma_set_bits_below(x, index as nat);
        }
        if set_bits.get(index) {
            let gap: usize = index - previous_set_index;
            let mut bytes = integer_to_bytes(&gap);
            proof {
                let f = seq![n as u32] + gaps(s);
                lemma_encoding_push(f, gap as u32);
                assert(gaps(s.push(index as int)) =~= gaps(s).push(gap as u32));
                assert(f.push(gap as u32) =~= seq![n as u32] + gaps(s.push(index as int)));
            }
            out.append(&mut bytes);
            previous_set_index = index;
        }
        index += 1;
    }
    out
}

/// `bytes` with the bits at the indices of `idx` toggled, one after another.
pub open spec fn apply_flips(bytes: Seq<u8>, idx: Seq<int>) -> Seq<u8>
    decreases idx.len(),
{
    if idx.len() == 0 {
        bytes
    } else {
        flipped(apply_flips(bytes, idx.drop_last()), idx.last())
    }
}

/// Adds up the gaps `g` one by one into bit indices, stopping at the first
/// sum that overflows 32 bits or is not below `bit_len`.
pub open spec fn walk(g: Seq<u32>, bit_len: int) -> Result<Seq<int>, PatchError>
    decreases g.len(),
{
    if g.len() == 0 {
        Ok(Seq::empty())
    } else {
        match walk(g.drop_last(), bit_len) {
            Ok(ps) => {
                let p = last_or_zero(ps) + g.last();
                if p > u32::MAX {
                    Err(PatchError::IndexOverflow)
                } else if p >= bit_len {
                    Err(PatchError::IndexOutOfRange)
                } else {
                    Ok(ps.push(p))
                }
            },
            Err(e) => Err(e),
        }
    }
}

/// What applying the patch `enc` to `left` gives.
pub open spec fn patch_spec(left: Seq<u8>, enc: Seq<u8>) -> Result<Seq<u8>, PatchError> {
    if left.len() >= LENGTH_LIMIT {
        Err(PatchError::InputTooLarge)
    } else if enc.len() % 4 != 0 || enc.len() == 0 {
        Err(PatchError::MalformedEncoding)
    } else if field(enc, 0) >= LENGTH_LIMIT {
        Err(PatchError::InputTooLarge)
    } else {
        let target_len = field(enc, 0) as int;
        match walk(fields(enc).drop_first(), 8 * target_len) {
            Ok(ps) => Ok(apply_flips(resize_spec(left, target_len), ps)),
            Err(e) => Err(e),
        }
    }
}

/// Once a prefix of the gaps fails, the whole sequence fails the same way.
pub proof fn lemma_walk_error_persists(g: Seq<u32>, m: int, bit_len: int)
    requires
        0 <= m <= g.len(),
        walk(g.subrange(0, m), bit_len) is Err,
    ensures
        walk(g, bit_len) == walk(g.subrange(0, m), bit_len),
    decreases g.len(),
{
    if m == g.len() {
        assert(g.subrange(0, m) =~= g);
    } else {
        assert(g.drop_last().subrange(0, m) =~= g.subrange(0, m));
        lemma_walk_error_persists(g.drop_last(), m, bit_len);
    }
}

/// Applies the patch `encoded` to `left`, giving the buffer it was made for.
pub fn patch(left: &[u8], encoded: &[u8]) -> (r: Result<Vec<u8>, PatchError>)
    ensures
        match r {
            Ok(v) => patch_spec(left@, encoded@) == Ok::<Seq<u8>, PatchError>(v@),
            Err(e) => patch_spec(left@, encoded@) == Err::<Seq<u8>, PatchError>(e),
        },
{
    if left.len() >= LENGTH_LIMIT {
        return Err(PatchError::InputTooLarge);
    }
    if encoded.len() % 4 != 0 || encoded.len() == 0 {
        return Err(PatchError::MalformedEncoding);
    }
    let right_len = read_field(encoded, 0);
    if right_len as usize >= LENGTH_LIMIT {
        return Err(PatchError::InputTooLarge);
    }
    let mut right = resized(left, right_len as usize);
    let n_fields: usize = encoded.len() / 4;
    let ghost g = fields(encoded@).drop_first();
    let ghost bit_len = 8 * right_len as int;
    let ghost mut ps: Seq<int> = Seq::empty();
    let mut current_bit_index: u32 = 0;
    let mut k: usize = 1;
    assert(g.subrange(0, 0) =~= Seq::<u32>::empty());
    while k < n_fields
        invariant
            1 <= k <= n_fields,
            n_fields == encoded@.len() / 4,
            g == fields(encoded@).drop_first(),
            bit_len == 8 * right_len as int,
            right_len < LENGTH_LIMIT,
            right_len == field(encoded@, 0),
            left@.len() < LENGTH_LIMIT,
            encoded@.len() % 4 == 0,
            encoded@.len() > 0,
            walk(g.subrange(0, k - 1), bit_len) == Ok::<Seq<int>, PatchError>(ps),
            current_bit_index == last_or_zero(ps),
            right@ == apply_flips(resize_spec(left@, right_len as int), ps),
            right@.len() == right_len,
        decreases n_fields - k,
    {
        let gap = read_field(encoded, k);
        let ghost h = g.subrange(0, k as int);
        assert(h.drop_last() =~= g.subrange(0, k - 1));
        assert(h.last() == gap);
        assert(h.len() > 0);
        let next = match current_bit_index.checked_add(gap) {
            Some(v) => v,
            None => {
                proof {
                    assert(walk(h, bit_len) == Err::<Seq<int>, PatchError>(
                        PatchError::IndexOverflow,
                    ));
                    lemma_walk_error_persists(g, k as int, bit_len);
                }
                return Err(PatchError::IndexOverflow);
            },
        };
        match flip_bit(&mut right, next as usize) {
            Ok(()) => {},
            Err(()) => {
                proof {
                    assert(walk(h, bit_len) == Err::<Seq<int>, PatchError>(
                        PatchError::IndexOutOfRange,
                    ));
                    lemma_walk_error_persists(g, k as int, bit_len);
                }
                return Err(PatchError::IndexOutOfRange);
            },
        }
        proof {
            assert(ps.push(next as int).drop_last() =~= ps);
            ps = ps.push(next as int);
        }
        current_bit_index = next;
        k += 1;
    }
    assert(g.subrange(0, k - 1) =~= g);
    Ok(right)
}

} // verus!
