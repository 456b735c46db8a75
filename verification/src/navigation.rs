//! Token resolution: a query-time anchor (file and byte range) is resolved
//! against that file's scope graph first — collecting every occurrence that
//! shares the anchored occurrence's binding id — and falls back to a
//! cross-file textual match on the symbol's name across every loaded
//! document of the language.

use vstd::prelude::*;
use crate::scope_graph::{Occurrence, SymbolLocations, occ_text, range_text_eq, graph_wf, is_definition};
use crate::document::{ContentDocument, doc_wf};

verus! {

/// A query anchor: the file and the byte range under the cursor.
#[derive(Debug)]
pub struct Token {
    pub relative_path: Vec<u8>,
    pub start_byte: u32,
    pub end_byte: u32,
}

/// One file's related occurrences, grouped.
#[derive(Debug)]
pub struct FileSymbols {
    pub path: Vec<u8>,
    pub occurrences: Vec<Occurrence>,
}

/// Why a resolution call fails.
#[derive(Clone, Copy, Debug, PartialEq, Eq, Structural)]
pub enum NavError {
    NotFound,
    AmbiguousToken,
}

/// The occurrences a document's graph records, in source order.
pub open spec fn doc_occs(d: ContentDocument) -> Seq<Occurrence> {
    match d.symbol_locations {
        SymbolLocations::Empty => Seq::empty(),
        SymbolLocations::Graph(g) => g.occurrences@,
    }
}

pub open spec fn occ_contains(o: Occurrence, s: u32, e: u32) -> bool {
    o.start <= s && e <= o.end
}

pub open spec fn occ_overlaps(o: Occurrence, s: u32, e: u32) -> bool {
    o.start < e && s < o.end
}

/// First document whose path equals `path`, from `i` on.
pub open spec fn find_doc(docs: Seq<ContentDocument>, path: Seq<u8>, i: int) -> Option<int>
    decreases docs.len() - i,
{
    if i < 0 || i >= docs.len() {
        None
    } else if docs[i].relative_path@ == path {
        Some(i)
    } else {
        find_doc(docs, path, i + 1)
    }
}

/// First occurrence satisfying containment, from `i` on.
pub open spec fn find_containing(occs: Seq<Occurrence>, s: u32, e: u32, i: int) -> Option<int>
    decreases occs.len() - i,
{
    if i < 0 || i >= occs.len() {
        None
    } else if occ_contains(occs[i], s, e) {
        Some(i)
    } else {
        find_containing(occs, s, e, i + 1)
    }
}

/// First occurrence overlapping the range, from `i` on.
pub open spec fn find_overlapping(occs: Seq<Occurrence>, s: u32, e: u32, i: int) -> Option<int>
    decreases occs.len() - i,
{
    if i < 0 || i >= occs.len() {
        None
    } else if occ_overlaps(occs[i], s, e) {
        Some(i)
    } else {
        find_overlapping(occs, s, e, i + 1)
    }
}

/// The occurrences with binding id `b`, in source order.
pub open spec fn with_binding(occs: Seq<Occurrence>, b: u32) -> Seq<Occurrence>
    decreases occs.len(),
{
    if occs.len() == 0 {
        Seq::empty()
    } else {
        with_binding(occs.drop_last(), b) + if occs.last().binding == b {
            seq![occs.last()]
        } else {
            Seq::empty()
        }
    }
}

/// The occurrences whose text equals `text`, in source order.
pub open spec fn with_text(occs: Seq<Occurrence>, content: Seq<u8>, text: Seq<u8>) -> Seq<
    Occurrence,
>
    decreases occs.len(),
{
    if occs.len() == 0 {
        Seq::empty()
    } else {
        with_text(occs.drop_last(), content, text) + if occ_text(content, occs.last()) == text {
            seq![occs.last()]
        } else {
            Seq::empty()
        }
    }
}

/// The other documents holding at least one occurrence of `text`, in load
/// order, up to `k`.
pub open spec fn cross_docs(docs: Seq<ContentDocument>, src: int, text: Seq<u8>, k: int) -> Seq<int>
    decreases k,
{
    if k <= 0 {
        Seq::empty()
    } else {
        cross_docs(docs, src, text, k - 1) + if k - 1 != src && with_text(
            doc_occs(docs[k - 1]),
            docs[k - 1].content@,
            text,
        ).len() > 0 {
            seq![k - 1]
        } else {
            Seq::empty()
        }
    }
}

proof fn lemma_order_trans(occs: Seq<Occurrence>, a: int, b: int)
    requires
        forall|i: int| 0 <= i < occs.len() ==> (#[trigger] occs[i]).start <= occs[i].end,
        forall|i: int| #![trigger occs[i].end] 0 <= i < occs.len() - 1 ==> occs[i].end <= occs[i
            + 1].start,
        0 <= a < b < occs.len(),
    ensures
        occs[a].end <= occs[b].start,
    decreases b - a,
{
    assert(occs[a].end <= occs[a + 1].start);
    if a + 1 < b {
        lemma_order_trans(occs, a + 1, b);
    }
}

proof fn lemma_find_containing_from(occs: Seq<Occurrence>, s: u32, e: u32, i: int, ci: int)
    requires
        0 <= i <= ci < occs.len(),
        occ_contains(occs[ci], s, e),
        forall|j: int| i <= j < ci ==> !occ_contains(#[trigger] occs[j], s, e),
    ensures
        find_containing(occs, s, e, i) == Some(ci),
    decreases ci - i,
{
    if i < ci {
        lemma_find_containing_from(occs, s, e, i + 1, ci);
    }
}

proof fn lemma_with_binding_members(occs: Seq<Occurrence>, b: u32)
    ensures
        forall|x: int| 0 <= x < with_binding(occs, b).len() ==> exists|i: int| 0 <= i
            < occs.len() && (#[trigger] with_binding(occs, b)[x]) == occs[i],
    decreases occs.len(),
{
    if occs.len() > 0 {
        let pre = occs.drop_last();
        let wbp = with_binding(pre, b);
        let wb = with_binding(occs, b);
        lemma_with_binding_members(pre, b);
        assert forall|x: int| 0 <= x < wb.len() implies exists|i: int| 0 <= i < occs.len() && (
        #[trigger] wb[x]) == occs[i] by {
            if x < wbp.len() {
                let i = choose|i: int| 0 <= i < pre.len() && (#[trigger] wbp[x]) == pre[i];
                assert(wb[x] == pre[i]);
                assert(pre[i] == occs[i]);
            } else {
                assert(wb[x] == occs[occs.len() - 1]);
            }
        }
    }
}

proof fn lemma_with_binding_props(occs: Seq<Occurrence>, b: u32)
    ensures
        forall|x: int| 0 <= x < with_binding(occs, b).len() ==> (#[trigger] with_binding(
            occs,
            b,
        )[x]).binding == b,
        forall|x: int| 0 <= x < with_binding(occs, b).len() ==> exists|i: int| 0 <= i
            < occs.len() && (#[trigger] with_binding(occs, b)[x]) == occs[i],
        forall|i: int| 0 <= i < occs.len() && (#[trigger] occs[i]).binding == b ==> with_binding(
            occs,
            b,
        ).contains(occs[i]),
    decreases occs.len(),
{
    if occs.len() > 0 {
        let pre = occs.drop_last();
        let wbp = with_binding(pre, b);
        let wb = with_binding(occs, b);
        lemma_with_binding_props(pre, b);
        assert(forall|i: int| 0 <= i < pre.len() ==> pre[i] == #[trigger] occs[i]);
        assert forall|x: int| 0 <= x < wb.len() implies exists|i: int| 0 <= i < occs.len() && (
        #[trigger] wb[x]) == occs[i] by {
            if x < wbp.len() {
                let i = choose|i: int| 0 <= i < pre.len() && (#[trigger] wbp[x]) == pre[i];
                assert(wb[x] == occs[i]);
            } else {
                assert(wb[x] == occs[occs.len() - 1]);
            }
        }
        assert forall|i: int| 0 <= i < occs.len() && (#[trigger] occs[i]).binding
            == b implies wb.contains(occs[i]) by {
            if i < pre.len() {
                assert(wbp.contains(pre[i]));
                let x = choose|x: int| 0 <= x < wbp.len() && wbp[x] == pre[i];
                assert(wb[x] == occs[i]);
            } else {
                assert(wb[wb.len() - 1] == occs[i]);
            }
        }
    }
}

#[verifier::rlimit(100)]
#[verifier::spinoff_prover]
proof fn lemma_with_binding_ascending(occs: Seq<Occurrence>, b: u32)
    requires
        forall|i: int| 0 <= i < occs.len() ==> (#[trigger] occs[i]).start <= occs[i].end,
        forall|i: int| #![trigger occs[i].end] 0 <= i < occs.len() - 1 ==> occs[i].end <= occs[i
            + 1].start,
    ensures
        forall|x: int| 0 <= x < with_binding(occs, b).len() - 1 ==> (#[trigger] with_binding(
            occs,
            b,
        )[x]).end <= with_binding(occs, b)[x + 1].start,
    decreases occs.len(),
{
    if occs.len() > 0 {
        let pre = occs.drop_last();
        let wbp = with_binding(pre, b);
        let wb = with_binding(occs, b);
        assert(forall|i: int| 0 <= i < pre.len() ==> pre[i] == #[trigger] occs[i]);
        lemma_with_binding_ascending(pre, b);
        lemma_with_binding_members(pre, b);
        assert forall|x: int| 0 <= x < wb.len() - 1 implies (#[trigger] wb[x]).end <= wb[x
            + 1].start by {
            if x + 1 < wbp.len() {
                assert(wbp[x].end <= wbp[x + 1].start);
            } else {
                assert(x + 1 == wbp.len() && wb.len() == wbp.len() + 1);
                let i = choose|i: int| 0 <= i < pre.len() && (#[trigger] wbp[x]) == pre[i];
                assert(wb[x] == occs[i]);
                assert(wb[x + 1] == occs[occs.len() - 1]);
                lemma_order_trans(occs, i, occs.len() - 1);
            }
        }
    }
}

/// The law behind resolving a definition: with a well-ordered occurrence
/// list, anchoring exactly a recorded definition's (non-empty) byte range
/// hits that definition and no other, and the group of its binding id —
/// what `token_info` returns for the source file — holds the definition
/// and every occurrence sharing the id, once each, in ascending byte
/// order.
#[verifier::rlimit(100)]
pub proof fn lemma_definition_anchor_group(occs: Seq<Occurrence>, ci: int, s: u32, e: u32)
    requires
        forall|i: int| 0 <= i < occs.len() ==> (#[trigger] occs[i]).start <= occs[i].end,
        forall|i: int| #![trigger occs[i].end] 0 <= i < occs.len() - 1 ==> occs[i].end <= occs[i
            + 1].start,
        0 <= ci < occs.len(),
        is_definition(occs[ci]),
        occs[ci].start == s,
        occs[ci].end == e,
        s < e,
    ensures
        find_containing(occs, s, e, 0) == Some(ci),
        with_binding(occs, occs[ci].binding).contains(occs[ci]),
        forall|i: int| 0 <= i < occs.len() && (#[trigger] occs[i]).binding == occs[ci].binding
            ==> with_binding(occs, occs[ci].binding).contains(occs[i]),
        forall|x: int| 0 <= x < with_binding(occs, occs[ci].binding).len() ==> (
        #[trigger] with_binding(occs, occs[ci].binding)[x]).binding == occs[ci].binding,
        forall|x: int| 0 <= x < with_binding(occs, occs[ci].binding).len() - 1 ==> (
        #[trigger] with_binding(occs, occs[ci].binding)[x]).end <= with_binding(
            occs,
            occs[ci].binding,
        )[x + 1].start,
{
    assert forall|j: int| 0 <= j < ci implies !occ_contains(#[trigger] occs[j], s, e) by {
        lemma_order_trans(occs, j, ci);
    }
    lemma_find_containing_from(occs, s, e, 0, ci);
    lemma_with_binding_props(occs, occs[ci].binding);
    lemma_with_binding_ascending(occs, occs[ci].binding);
    let wb = with_binding(occs, occs[ci].binding);
    assert forall|x: int| 0 <= x < wb.len() - 1 implies (#[trigger] wb[x]).end <= wb[x
        + 1].start by {
        assert((with_binding(occs, occs[ci].binding)[x]).end <= with_binding(
            occs,
            occs[ci].binding,
        )[x + 1].start);
    }
}

fn collect_with_binding(occs: &Vec<Occurrence>, b: u32) -> (r: Vec<Occurrence>)
    ensures
        r@ == with_binding(occs@, b),
{
    let mut out: Vec<Occurrence> = Vec::new();
    let mut i: usize = 0;
    while i < occs.len()
        invariant
            i <= occs@.len(),
            out@ == with_binding(occs@.take(i as int), b),
        decreases occs@.len() - i,
    {
        proof {
            assert(occs@.take(i + 1).drop_last() =~= occs@.take(i as int));
            assert(occs@.take(i + 1).last() == occs@[i as int]);
        }
        if occs[i].binding == b {
            out.push(occs[i]);
            proof {
                assert(out@ =~= with_binding(occs@.take(i + 1), b));
            }
        }
        i = i + 1;
    }
    proof {
        assert(occs@.take(occs@.len() as int) =~= occs@);
    }
    out
}

fn collect_with_text(
    occs: &Vec<Occurrence>,
    content: &Vec<u8>,
    src_content: &Vec<u8>,
    ts: u32,
    te: u32,
) -> (r: Vec<Occurrence>)
    requires
        ts <= te <= src_content@.len(),
        forall|j: int| 0 <= j < occs@.len() ==> (#[trigger] occs@[j]).start <= occs@[j].end
            <= content@.len(),
    ensures
        r@ == with_text(occs@, content@, src_content@.subrange(ts as int, te as int)),
{
    let ghost text = src_content@.subrange(ts as int, te as int);
    let mut out: Vec<Occurrence> = Vec::new();
    let mut i: usize = 0;
    while i < occs.len()
        invariant
            i <= occs@.len(),
            ts <= te <= src_content@.len(),
            forall|j: int| 0 <= j < occs@.len() ==> (#[trigger] occs@[j]).start <= occs@[j].end
                <= content@.len(),
            out@ == with_text(occs@.take(i as int), content@, text),
            text == src_content@.subrange(ts as int, te as int),
        decreases occs@.len() - i,
    {
        proof {
            assert(occs@.take(i + 1).drop_last() =~= occs@.take(i as int));
            assert(occs@.take(i + 1).last() == occs@[i as int]);
        }
        let o = occs[i];
        if range_text_eq(content, o.start, o.end, src_content, ts, te) {
            out.push(o);
            proof {
                assert(out@ =~= with_text(occs@.take(i + 1), content@, text));
            }
        }
        i = i + 1;
    }
    proof {
        assert(occs@.take(occs@.len() as int) =~= occs@);
    }
    out
}

fn clone_bytes(v: &Vec<u8>) -> (r: Vec<u8>)
    ensures
        r@ == v@,
{
    let mut out: Vec<u8> = Vec::new();
    let mut i: usize = 0;
    while i < v.len()
        invariant
            i <= v@.len(),
            out@ =~= v@.take(i as int),
        decreases v@.len() - i,
    {
        out.push(v[i]);
        i = i + 1;
    }
    proof {
        assert(out@ =~= v@);
    }
    out
}

/// Resolve a token against the loaded documents of one language. The
/// source document's entry comes first; in the textual fallback it is
/// followed by one entry per other document holding the symbol's name, in
/// load order.
#[verifier::rlimit(100)]
#[verifier::loop_isolation(false)]
pub fn token_info(docs: &Vec<ContentDocument>, token: &Token) -> (r: Result<
    Vec<FileSymbols>,
    NavError,
>)
    requires
        forall|d: int| 0 <= d < docs@.len() ==> doc_wf(#[trigger] docs@[d]),
    ensures
        match r {
            Err(e) => {
                ||| (e == NavError::NotFound && find_doc(docs@, token.relative_path@, 0) is None)
                ||| (e == NavError::AmbiguousToken && {
                    let si = find_doc(docs@, token.relative_path@, 0);
                    &&& si is Some
                    &&& find_containing(
                        doc_occs(docs@[si->0]),
                        token.start_byte,
                        token.end_byte,
                        0,
                    ) is None
                    &&& find_overlapping(
                        doc_occs(docs@[si->0]),
                        token.start_byte,
                        token.end_byte,
                        0,
                    ) is None
                })
            },
            Ok(v) => {
                let si = find_doc(docs@, token.relative_path@, 0);
                &&& si is Some
                &&& v@.len() >= 1
                &&& v@[0].path@ == token.relative_path@
                &&& match find_containing(
                    doc_occs(docs@[si->0]),
                    token.start_byte,
                    token.end_byte,
                    0,
                ) {
                    Some(ci) => v@.len() == 1 && v@[0].occurrences@ == with_binding(
                        doc_occs(docs@[si->0]),
                        doc_occs(docs@[si->0])[ci].binding,
                    ),
                    None => {
                        let oi = find_overlapping(
                            doc_occs(docs@[si->0]),
                            token.start_byte,
                            token.end_byte,
                            0,
                        );
                        let text = occ_text(docs@[si->0].content@, doc_occs(docs@[si->0])[oi->0]);
                        &&& oi is Some
                        &&& v@[0].occurrences@ == with_text(
                            doc_occs(docs@[si->0]),
                            docs@[si->0].content@,
                            text,
                        )
                        &&& v@.len() == 1 + cross_docs(docs@, si->0, text, docs@.len() as int).len()
                        &&& forall|j: int| 1 <= j < v@.len() ==> {
                            let d = cross_docs(docs@, si->0, text, docs@.len() as int)[j - 1];
                            &&& (#[trigger] v@[j]).path@ == docs@[d].relative_path@
                            &&& v@[j].occurrences@ == with_text(
                                doc_occs(docs@[d]),
                                docs@[d].content@,
                                text,
                            )
                        }
                    },
                }
            },
        },
{
    // locate the source document
    let n: usize = docs.len();
    let mut si: usize = 0;
    let mut found: bool = false;
    while si < n && !found
        invariant
            si <= n,
            !found ==> find_doc(docs@, token.relative_path@, 0) == find_doc(
                docs@,
                token.relative_path@,
                si as int,
            ),
            found ==> si < n && find_doc(docs@, token.relative_path@, 0) == Some(si as int),
        decreases n - si, (if found { 0int } else { 1int }),
    {
        if crate::document::paths_eq(&docs[si].relative_path, &token.relative_path) {
            found = true;
        } else {
            si = si + 1;
        }
    }
    if !found {
        return Err(NavError::NotFound);
    }
    let src = &docs[si];
    let s = token.start_byte;
    let e = token.end_byte;
    match &src.symbol_locations {
        SymbolLocations::Empty => {
            proof {
                assert(doc_occs(docs@[si as int]) =~= Seq::<Occurrence>::empty());
            }
            Err(NavError::AmbiguousToken)
        },
        SymbolLocations::Graph(g) => {
            proof {
                assert(doc_occs(docs@[si as int]) == g.occurrences@);
                assert(graph_wf(*g, src.content@));
            }
            // local pass: an occurrence containing the anchored range
            let mut ci: usize = 0;
            let mut cfound: bool = false;
            while ci < g.occurrences.len() && !cfound
                invariant
                    ci <= g.occurrences@.len(),
                    !cfound ==> find_containing(g.occurrences@, s, e, 0) == find_containing(
                        g.occurrences@,
                        s,
                        e,
                        ci as int,
                    ),
                    cfound ==> ci < g.occurrences@.len() && find_containing(g.occurrences@, s, e, 0)
                        == Some(ci as int),
                decreases g.occurrences@.len() - ci, (if cfound { 0int } else { 1int }),
            {
                let o = g.occurrences[ci];
                if o.start <= s && e <= o.end {
                    cfound = true;
                } else {
                    ci = ci + 1;
                }
            }
            if cfound {
                let b = g.occurrences[ci].binding;
                let occs = collect_with_binding(&g.occurrences, b);
                let entry = FileSymbols {
                    path: clone_bytes(&token.relative_path),
                    occurrences: occs,
                };
                let mut v: Vec<FileSymbols> = Vec::new();
                v.push(entry);
                return Ok(v);
            }
            // fallback: the text under any overlapping occurrence
            let mut oi: usize = 0;
            let mut ofound: bool = false;
            while oi < g.occurrences.len() && !ofound
                invariant
                    oi <= g.occurrences@.len(),
                    !ofound ==> find_overlapping(g.occurrences@, s, e, 0) == find_overlapping(
                        g.occurrences@,
                        s,
                        e,
                        oi as int,
                    ),
                    ofound ==> oi < g.occurrences@.len() && find_overlapping(
                        g.occurrences@,
                        s,
                        e,
                        0,
                    ) == Some(oi as int),
                decreases g.occurrences@.len() - oi, (if ofound { 0int } else { 1int }),
            {
                let o = g.occurrences[oi];
                if o.start < e && s < o.end {
                    ofound = true;
                } else {
                    oi = oi + 1;
                }
            }
            if !ofound {
                return Err(NavError::AmbiguousToken);
            }
            let anchor = g.occurrences[oi];
            let ghost text = occ_text(src.content@, g.occurrences@[oi as int]);
            let occs0 = collect_with_text(
                &g.occurrences,
                &src.content,
                &src.content,
                anchor.start,
                anchor.end,
            );
            let mut v: Vec<FileSymbols> = Vec::new();
            v.push(FileSymbols { path: clone_bytes(&token.relative_path), occurrences: occs0 });
            let mut d: usize = 0;
            while d < n
                invariant
                    d <= n,
                    v@.len() == 1 + cross_docs(docs@, si as int, text, d as int).len(),
                    v@[0].path@ == token.relative_path@,
                    v@[0].occurrences@ == with_text(
                        doc_occs(docs@[si as int]),
                        docs@[si as int].content@,
                        text,
                    ),
                    forall|j: int| 1 <= j < v@.len() ==> {
                        let dd = cross_docs(docs@, si as int, text, d as int)[j - 1];
                        &&& (#[trigger] v@[j]).path@ == docs@[dd].relative_path@
                        &&& v@[j].occurrences@ == with_text(
                            doc_occs(docs@[dd]),
                            docs@[dd].content@,
                            text,
                        )
                    },
                decreases n - d,
            {
                if d != si {
                    let dd = &docs[d];
                    match &dd.symbol_locations {
                        SymbolLocations::Empty => {
                            proof {
                                assert(doc_occs(docs@[d as int]) =~= Seq::<Occurrence>::empty());
                                assert(with_text(doc_occs(docs@[d as int]), docs@[d as int].content@, text).len() == 0);
                            }
                        },
                        SymbolLocations::Graph(gd) => {
                            proof {
                                assert(graph_wf(*gd, dd.content@));
                            }
                            let m = collect_with_text(
                                &gd.occurrences,
                                &dd.content,
                                &src.content,
                                anchor.start,
                                anchor.end,
                            );
                            if m.len() > 0 {
                                v.push(FileSymbols {
                                    path: clone_bytes(&dd.relative_path),
                                    occurrences: m,
                                });
                            }
                        },
                    }
                }
                d = d + 1;
            }
            Ok(v)
        },
    }
}

} // verus!
