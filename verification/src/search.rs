//! Literal text search over one stored document: candidate ranking belongs
//! to the index engine; here each line is re-derived from the line-offset
//! table and tested for a literal, case-sensitive substring match, with a
//! seven-line context window around every hit.

use vstd::prelude::*;
use crate::line_index::{
    newline_offsets, decoded_offsets, decode_offsets, compute_line_offsets,
    lemma_newline_offsets_increasing,
};

verus! {

/// One search hit: the line (0-indexed), the byte column of the first
/// match in that line, and the surrounding lines joined as context.
#[derive(Debug)]
pub struct SearchResult {
    pub path: String,
    pub line_number: usize,
    pub column: usize,
    pub context: String,
}

/// The characters that stand for a byte string once it is decoded as text.
pub uninterp spec fn utf8_str_of(bytes: Seq<u8>) -> Seq<char>;

/// Relies on String::from_utf8_lossy: the result depends on the bytes
/// alone, and is total on arbitrary bytes.
#[verifier::external_body]
fn bytes_to_string(b: &Vec<u8>) -> (r: String)
    ensures
        r@ == utf8_str_of(b@),
{
    String::from_utf8_lossy(b.as_slice()).into_owned()
}

/// Start of line `k`: byte 0, or one past the previous terminator.
pub open spec fn line_start(offsets: Seq<u32>, k: int) -> int {
    if k == 0 {
        0
    } else {
        offsets[k - 1] + 1
    }
}

/// The bytes of line `k`, terminator excluded.
pub open spec fn line_bytes(content: Seq<u8>, offsets: Seq<u32>, k: int) -> Seq<u8> {
    content.subrange(line_start(offsets, k), offsets[k] as int)
}

pub open spec fn match_at(line: Seq<u8>, q: Seq<u8>, j: int) -> bool {
    0 <= j && j + q.len() <= line.len() && line.subrange(j, j + q.len() as int) == q
}

/// The first position of `q` in `line` at or after `j`.
pub open spec fn first_match_from(line: Seq<u8>, q: Seq<u8>, j: int) -> Option<int>
    decreases line.len() + 1 - j,
{
    if j < 0 || j + q.len() > line.len() {
        None
    } else if match_at(line, q, j) {
        Some(j)
    } else {
        first_match_from(line, q, j + 1)
    }
}

pub open spec fn first_match(line: Seq<u8>, q: Seq<u8>) -> Option<int> {
    first_match_from(line, q, 0)
}

pub open spec fn line_matches(content: Seq<u8>, offsets: Seq<u32>, q: Seq<u8>, k: int) -> bool {
    first_match(line_bytes(content, offsets, k), q) is Some
}

/// The matching line numbers below `k`, ascending.
pub open spec fn matching_lines_upto(content: Seq<u8>, offsets: Seq<u32>, q: Seq<u8>, k: int) -> Seq<
    int,
>
    decreases k,
{
    if k <= 0 {
        Seq::empty()
    } else {
        matching_lines_upto(content, offsets, q, k - 1) + if line_matches(
            content,
            offsets,
            q,
            k - 1,
        ) {
            seq![k - 1]
        } else {
            Seq::empty()
        }
    }
}

/// Context window bounds: three lines either side, clipped.
pub open spec fn ctx_lo(k: int) -> int {
    if k >= 3 {
        k - 3
    } else {
        0
    }
}

pub open spec fn ctx_hi(k: int, n: int) -> int {
    if k + 3 < n {
        k + 3
    } else {
        n - 1
    }
}

/// Lines `lo..=hi` joined with one newline between them.
pub open spec fn joined_lines(content: Seq<u8>, offsets: Seq<u32>, lo: int, hi: int) -> Seq<u8>
    decreases hi - lo,
{
    if hi < lo {
        Seq::empty()
    } else if hi == lo {
        line_bytes(content, offsets, lo)
    } else {
        joined_lines(content, offsets, lo, hi - 1) + seq![10u8] + line_bytes(content, offsets, hi)
    }
}

fn copy_bytes_range(content: &Vec<u8>, s: usize, e: usize) -> (r: Vec<u8>)
    requires
        s <= e <= content@.len(),
    ensures
        r@ == content@.subrange(s as int, e as int),
{
    let mut out: Vec<u8> = Vec::new();
    let mut k: usize = s;
    while k < e
        invariant
            s <= k <= e <= content@.len(),
            out@ =~= content@.subrange(s as int, k as int),
        decreases e - k,
    {
        out.push(content[k]);
        k = k + 1;
    }
    proof {
        assert(out@ =~= content@.subrange(s as int, e as int));
    }
    out
}

/// Literal substring search, leftmost match.
fn find_in(line: &Vec<u8>, q: &Vec<u8>) -> (r: Option<usize>)
    requires
        line@.len() <= u32::MAX,
    ensures
        match r {
            Some(j) => first_match(line@, q@) == Some(j as int),
            None => first_match(line@, q@) is None,
        },
{
    if q.len() > line.len() {
        return None;
    }
    let qlen: usize = q.len();
    if qlen == 0 {
        proof {
            assert(line@.subrange(0, 0) =~= q@);
            assert(match_at(line@, q@, 0));
        }
        return Some(0);
    }
    let mut j: usize = 0;
    while j <= line.len() - qlen
        invariant
            1 <= qlen,
            qlen == q@.len(),
            qlen <= line@.len(),
            line@.len() <= u32::MAX,
            j <= line@.len() - qlen + 1,
            first_match(line@, q@) == first_match_from(line@, q@, j as int),
        decreases line@.len() + 1 - j,
    {
        let eq = crate::scope_graph::range_text_eq(
            line,
            j as u32,
            (j + qlen) as u32,
            q,
            0,
            qlen as u32,
        );
        proof {
            assert(q@.subrange(0, qlen as int) =~= q@);
        }
        if eq {
            proof {
                assert(match_at(line@, q@, j as int));
            }
            return Some(j);
        }
        proof {
            assert(!match_at(line@, q@, j as int));
            assert(j < line@.len() - q@.len() + 1);
        }
        j = j + 1;
    }
    None
}

/// Search one document's content for a literal query, producing one result
/// per matching line: the line number, the byte column of the first match,
/// and the 7-line window around the line as context.
#[verifier::rlimit(100)]
#[verifier::loop_isolation(false)]
pub fn search_lines(path: &Vec<u8>, content: &Vec<u8>, offsets: &Vec<u32>, query: &Vec<u8>) -> (r:
    Vec<SearchResult>)
    requires
        content@.len() <= u32::MAX,
        offsets@ == newline_offsets(content@),
    ensures
        r@.len() == matching_lines_upto(content@, offsets@, query@, offsets@.len() as int).len(),
        forall|j: int| 0 <= j < r@.len() ==> {
            let k = matching_lines_upto(content@, offsets@, query@, offsets@.len() as int)[j];
            &&& (#[trigger] r@[j]).line_number == k
            &&& Some(r@[j].column as int) == first_match(line_bytes(content@, offsets@, k), query@)
            &&& r@[j].path@ == utf8_str_of(path@)
            &&& r@[j].context@ == utf8_str_of(
                joined_lines(content@, offsets@, ctx_lo(k), ctx_hi(k, offsets@.len() as int)),
            )
        },
{
    proof {
        lemma_newline_offsets_increasing(content@);
    }
    let n: usize = offsets.len();
    let mut out: Vec<SearchResult> = Vec::new();
    let mut k: usize = 0;
    while k < n
        invariant
            k <= n,
            out@.len() == matching_lines_upto(content@, offsets@, query@, k as int).len(),
            forall|j: int| 0 <= j < out@.len() ==> {
                let m = matching_lines_upto(content@, offsets@, query@, k as int)[j];
                &&& (#[trigger] out@[j]).line_number == m
                &&& Some(out@[j].column as int) == first_match(
                    line_bytes(content@, offsets@, m),
                    query@,
                )
                &&& out@[j].path@ == utf8_str_of(path@)
                &&& out@[j].context@ == utf8_str_of(
                    joined_lines(content@, offsets@, ctx_lo(m), ctx_hi(m, offsets@.len() as int)),
                )
            },
        decreases n - k,
    {
        let ls: usize = if k == 0 {
            0
        } else {
            offsets[k - 1] as usize + 1
        };
        let le: usize = offsets[k] as usize;
        proof {
            assert(ls <= le <= content@.len());
        }
        let line = copy_bytes_range(content, ls, le);
        proof {
            assert(line@ == line_bytes(content@, offsets@, k as int));
        }
        match find_in(&line, query) {
            Some(col) => {
                let lo: usize = if k >= 3 {
                    k - 3
                } else {
                    0
                };
                let hi: usize = if n - k > 3 {
                    k + 3
                } else {
                    n - 1
                };
                let mut ctx: Vec<u8> = Vec::new();
                let mut t: usize = lo;
                while t <= hi
                    invariant
                        lo <= t <= hi + 1,
                        hi < n,
                        t > lo ==> ctx@ == joined_lines(content@, offsets@, lo as int, t - 1),
                        t == lo ==> ctx@ == Seq::<u8>::empty(),
                    decreases hi + 1 - t,
                {
                    if t > lo {
                        ctx.push(10u8);
                    }
                    let ts: usize = if t == 0 {
                        0
                    } else {
                        offsets[t - 1] as usize + 1
                    };
                    let te: usize = offsets[t] as usize;
                    proof {
                        assert(ts <= te <= content@.len());
                    }
                    let lb = copy_bytes_range(content, ts, te);
                    let ghost chead = ctx@;
                    let mut x: usize = 0;
                    while x < lb.len()
                        invariant
                            x <= lb@.len(),
                            ctx@ == chead + lb@.take(x as int),
                        decreases lb@.len() - x,
                    {
                        proof {
                            assert(lb@.take(x + 1) =~= lb@.take(x as int).push(lb@[x as int]));
                        }
                        ctx.push(lb[x]);
                        x = x + 1;
                    }
                    proof {
                        assert(lb@.take(lb@.len() as int) =~= lb@);
                        assert(lb@ == line_bytes(content@, offsets@, t as int));
                        if t == lo {
                            assert(ctx@ =~= joined_lines(content@, offsets@, lo as int, t as int));
                        } else {
                            assert(ctx@ =~= joined_lines(content@, offsets@, lo as int, t as int));
                        }
                    }
                    t = t + 1;
                }
                proof {
                    assert(ctx@ == joined_lines(
                        content@,
                        offsets@,
                        ctx_lo(k as int),
                        ctx_hi(k as int, offsets@.len() as int),
                    ));
                    assert(matching_lines_upto(content@, offsets@, query@, k + 1)
                        =~= matching_lines_upto(content@, offsets@, query@, k as int) + seq![
                        k as int,
                    ]);
                }
                let res = SearchResult {
                    path: bytes_to_string(path),
                    line_number: k,
                    column: col,
                    context: bytes_to_string(&ctx),
                };
                out.push(res);
            },
            None => {
                proof {
                    assert(matching_lines_upto(content@, offsets@, query@, k + 1)
                        =~= matching_lines_upto(content@, offsets@, query@, k as int));
                }
            },
        }
        k = k + 1;
    }
    out
}

/// Search a document as its raw stored fields arrive from the index: the
/// line table is decoded and validated against the content first; a
/// malformed document yields `None` and is skipped by the caller.
pub fn search_stored_document(
    path: &Vec<u8>,
    content: &Vec<u8>,
    line_bytes_field: &Vec<u8>,
    query: &Vec<u8>,
) -> (r: Option<Vec<SearchResult>>)
    ensures
        match r {
            Some(v) => {
                let offs = newline_offsets(content@);
                &&& content@.len() <= u32::MAX
                &&& decoded_offsets(line_bytes_field@) == offs
                &&& v@.len() == matching_lines_upto(content@, offs, query@, offs.len() as int).len()
                &&& forall|j: int| 0 <= j < v@.len() ==> {
                    let k = matching_lines_upto(content@, offs, query@, offs.len() as int)[j];
                    &&& (#[trigger] v@[j]).line_number == k
                    &&& Some(v@[j].column as int) == first_match(
                        line_bytes(content@, offs, k),
                        query@,
                    )
                    &&& v@[j].path@ == utf8_str_of(path@)
                    &&& v@[j].context@ == utf8_str_of(
                        joined_lines(content@, offs, ctx_lo(k), ctx_hi(k, offs.len() as int)),
                    )
                }
            },
            None => content@.len() > u32::MAX || line_bytes_field@.len() % 4 != 0
                || decoded_offsets(line_bytes_field@) != newline_offsets(content@),
        },
{
    let offsets = match compute_line_offsets(content) {
        Some(v) => v,
        None => {
            return None;
        },
    };
    let stored = match decode_offsets(line_bytes_field) {
        Some(v) => v,
        None => {
            return None;
        },
    };
    if offsets.len() != stored.len() {
        proof {
            assert(offsets@.len() != stored@.len());
        }
        return None;
    }
    let mut k: usize = 0;
    while k < offsets.len()
        invariant
            k <= offsets@.len(),
            offsets@.len() == stored@.len(),
            stored@ == decoded_offsets(line_bytes_field@),
            offsets@ == newline_offsets(content@),
            forall|x: int| 0 <= x < k ==> offsets@[x] == stored@[x],
        decreases offsets@.len() - k,
    {
        if offsets[k] != stored[k] {
            proof {
                assert(offsets@ != stored@);
            }
            return None;
        }
        k = k + 1;
    }
    proof {
        assert(offsets@ =~= stored@);
    }
    Some(search_lines(path, content, &offsets, query))
}

} // verus!
