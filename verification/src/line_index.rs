//! Line-offset indexing: one byte offset per line terminator, ascending,
//! with a binary-search byte-offset-to-line lookup and the little-endian
//! byte form in which the table is stored.

use vstd::prelude::*;
use crate::codec::{enc_u32, dec_u32, push_u32, read_u32};

verus! {

/// Byte offsets of every `\n` in `content`, in ascending order.
pub open spec fn newline_offsets(content: Seq<u8>) -> Seq<u32>
    decreases content.len(),
{
    if content.len() == 0 {
        Seq::empty()
    } else {
        let prefix = newline_offsets(content.drop_last());
        if content.last() == 10u8 {
            prefix.push((content.len() - 1) as u32)
        } else {
            prefix
        }
    }
}

/// The line-offset table of any content is strictly increasing and every
/// entry is below the content length.
pub proof fn lemma_newline_offsets_increasing(content: Seq<u8>)
    requires
        content.len() <= u32::MAX,
    ensures
        forall|i: int, j: int|
            0 <= i < j < newline_offsets(content).len()
                ==> newline_offsets(content)[i] < newline_offsets(content)[j],
        forall|i: int|
            0 <= i < newline_offsets(content).len()
                ==> newline_offsets(content)[i] < content.len(),
    decreases content.len(),
{
    if content.len() > 0 {
        lemma_newline_offsets_increasing(content.drop_last());
        let pre = newline_offsets(content.drop_last());
        assert(content.drop_last().len() == content.len() - 1);
        if content.last() == 10u8 {
            assert(newline_offsets(content) == pre.push((content.len() - 1) as u32));
        } else {
            assert(newline_offsets(content) == pre);
        }
    }
}

/// Every entry of the table marks a `\n` byte.
pub proof fn lemma_newline_offsets_mark_newlines(content: Seq<u8>)
    requires
        content.len() <= u32::MAX,
    ensures
        forall|i: int|
            0 <= i < newline_offsets(content).len()
                ==> content[newline_offsets(content)[i] as int] == 10u8,
    decreases content.len(),
{
    if content.len() > 0 {
        lemma_newline_offsets_mark_newlines(content.drop_last());
        let pre = newline_offsets(content.drop_last());
        if content.last() == 10u8 {
            assert(newline_offsets(content) == pre.push((content.len() - 1) as u32));
        } else {
            assert(newline_offsets(content) == pre);
        }
        assert forall|i: int|
            0 <= i < newline_offsets(content).len() implies
            content[newline_offsets(content)[i] as int] == 10u8 by {
            lemma_newline_offsets_increasing(content.drop_last());
            if i < pre.len() {
                assert(newline_offsets(content)[i] == pre[i]);
                assert(content.drop_last()[pre[i] as int] == 10u8);
                assert(content.drop_last()[pre[i] as int] == content[pre[i] as int]);
            } else {
                assert(newline_offsets(content)[i] == content.len() - 1);
            }
        }
    }
}

/// Scan `content` once and collect the offset of every line terminator.
/// Contents of 2^32 bytes or more are refused rather than truncated.
pub fn compute_line_offsets(content: &Vec<u8>) -> (r: Option<Vec<u32>>)
    ensures
        match r {
            Some(v) => content@.len() <= u32::MAX && v@ == newline_offsets(content@),
            None => content@.len() > u32::MAX,
        },
{
    if content.len() > u32::MAX as usize {
        return None;
    }
    let mut out: Vec<u32> = Vec::new();
    let mut i: usize = 0;
    while i < content.len()
        invariant
            i <= content.len(),
            content@.len() <= u32::MAX,
            out@ == newline_offsets(content@.take(i as int)),
        decreases content.len() - i,
    {
        proof {
            assert(content@.take(i + 1).drop_last() =~= content@.take(i as int));
            assert(content@.take(i + 1).last() == content@[i as int]);
        }
        if content[i] == 10u8 {
            out.push(i as u32);
        }
        i = i + 1;
    }
    proof {
        assert(content@.take(content@.len() as int) =~= content@);
    }
    Some(out)
}

/// A table is sorted when it is strictly increasing.
pub open spec fn offsets_sorted(offsets: Seq<u32>) -> bool {
    forall|i: int, j: int| 0 <= i < j < offsets.len() ==> offsets[i] < offsets[j]
}

/// Binary search for the smallest index whose offset is at least `o`:
/// the logical line that the byte offset `o` falls on. `None` when every
/// line terminator lies before `o`.
pub fn line_for_offset(offsets: &Vec<u32>, o: u32) -> (r: Option<usize>)
    requires
        offsets_sorted(offsets@),
    ensures
        match r {
            Some(i) => i < offsets@.len() && offsets@[i as int] >= o
                && forall|j: int| 0 <= j < i ==> offsets@[j] < o,
            None => forall|j: int| 0 <= j < offsets@.len() ==> offsets@[j] < o,
        },
{
    let mut lo: usize = 0;
    let mut hi: usize = offsets.len();
    while lo < hi
        invariant
            lo <= hi <= offsets@.len(),
            offsets_sorted(offsets@),
            forall|j: int| 0 <= j < lo ==> offsets@[j] < o,
            forall|j: int| hi <= j < offsets@.len() ==> offsets@[j] >= o,
        decreases hi - lo,
    {
        let mid: usize = lo + (hi - lo) / 2;
        if offsets[mid] >= o {
            hi = mid;
        } else {
            lo = mid + 1;
        }
    }
    if lo < offsets.len() {
        Some(lo)
    } else {
        None
    }
}

/// The stored byte form of a table: each offset as four little-endian bytes.
pub open spec fn offsets_bytes(offsets: Seq<u32>) -> Seq<u8>
    decreases offsets.len(),
{
    if offsets.len() == 0 {
        Seq::empty()
    } else {
        offsets_bytes(offsets.drop_last()) + enc_u32(offsets.last())
    }
}

pub proof fn lemma_offsets_bytes_len(offsets: Seq<u32>)
    ensures
        offsets_bytes(offsets).len() == 4 * offsets.len(),
    decreases offsets.len(),
{
    if offsets.len() > 0 {
        lemma_offsets_bytes_len(offsets.drop_last());
    }
}

/// Encode a table in its stored byte form.
pub fn encode_offsets(offsets: &Vec<u32>) -> (r: Vec<u8>)
    ensures
        r@ == offsets_bytes(offsets@),
{
    let mut out: Vec<u8> = Vec::new();
    let mut i: usize = 0;
    while i < offsets.len()
        invariant
            i <= offsets.len(),
            out@ == offsets_bytes(offsets@.take(i as int)),
        decreases offsets.len() - i,
    {
        proof {
            assert(offsets@.take(i + 1).drop_last() =~= offsets@.take(i as int));
            assert(offsets@.take(i + 1).last() == offsets@[i as int]);
        }
        push_u32(&mut out, offsets[i]);
        i = i + 1;
    }
    proof {
        assert(offsets@.take(offsets@.len() as int) =~= offsets@);
    }
    out
}

/// The table held in a stored byte string: the i-th offset sits at byte 4*i.
pub open spec fn decoded_offsets(b: Seq<u8>) -> Seq<u32> {
    Seq::new(b.len() as nat / 4, |i: int| dec_u32(b, 4 * i))
}

/// Decode a stored table. A byte string whose length is not a multiple of
/// four is malformed and refused.
pub fn decode_offsets(b: &Vec<u8>) -> (r: Option<Vec<u32>>)
    ensures
        match r {
            Some(v) => b@.len() % 4 == 0 && v@ == decoded_offsets(b@),
            None => b@.len() % 4 != 0,
        },
{
    let blen: usize = b.len();
    if blen % 4 != 0 {
        return None;
    }
    let n: usize = blen / 4;
    let mut out: Vec<u32> = Vec::new();
    let mut i: usize = 0;
    let mut pos: usize = 0;
    while i < n
        invariant
            i <= n,
            pos == 4 * i,
            n == b@.len() / 4,
            b@.len() % 4 == 0,
            blen == b@.len(),
            4 * n <= blen,
            out@.len() == i,
            forall|j: int| 0 <= j < i ==> out@[j] == dec_u32(b@, 4 * j),
        decreases n - i,
    {
        out.push(read_u32(b, pos));
        pos = pos + 4;
        i = i + 1;
    }
    proof {
        assert(out@ =~= decoded_offsets(b@));
    }
    Some(out)
}

/// Round trip: decoding an encoded table gives the table back.
pub proof fn lemma_offsets_round_trip(offsets: Seq<u32>)
    ensures
        decoded_offsets(offsets_bytes(offsets)) == offsets,
    decreases offsets.len(),
{
    lemma_offsets_bytes_len(offsets);
    if offsets.len() == 0 {
        assert(decoded_offsets(offsets_bytes(offsets)) =~= offsets);
    } else {
        let pre = offsets.drop_last();
        lemma_offsets_round_trip(pre);
        lemma_offsets_bytes_len(pre);
        let b = offsets_bytes(offsets);
        let bp = offsets_bytes(pre);
        assert forall|i: int| 0 <= i < offsets.len() implies
            decoded_offsets(b)[i] == offsets[i] by {
            if i < pre.len() {
                crate::codec::lemma_dec_u32_prefix(bp, b, 4 * i);
                assert(decoded_offsets(bp)[i] == dec_u32(bp, 4 * i));
            } else {
                assert(b.subrange(4 * i, 4 * i + 4) =~= enc_u32(offsets.last()));
                crate::codec::lemma_dec_of_enc_u32(b, 4 * i, offsets.last());
            }
        }
        assert(decoded_offsets(offsets_bytes(offsets)) =~= offsets);
    }
}

} // verus!
