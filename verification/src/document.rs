//! Documents as the index stores them: assembly of one file into its
//! stored fields, and validated decoding of stored fields back into a
//! queryable document.

use vstd::prelude::*;
use crate::lang::{spec_language_for_path, language_for_path};
use crate::line_index::{
    newline_offsets, offsets_bytes, compute_line_offsets, encode_offsets, decode_offsets,
    decoded_offsets,
};
use crate::codec::{
    symbols_words, symbols_model, dec_symbols_words, encodable, encode_symbols_words,
    decode_symbols_words,
};
use crate::scope_graph::{
    Scope, Occurrence, SymbolLocations, ScopeGraph, graph_wf, scopes_wf, occs_wf, occ_wf,
    occ_text, range_text_eq,
};
use crate::syntax::boundary_ok;
use crate::builder::{build_scope_graph, BuildError, scopes_match_tree, occs_match_tree};
use crate::line_index::{lemma_offsets_round_trip, lemma_offsets_bytes_len};
use crate::codec::lemma_symbols_words_round_trip;
use crate::scope_graph::bindings_assigned;
use crate::syntax::{SyntaxTree, LanguageProfile, tree_valid};

verus! {

/// A document as navigation and search read it back from storage.
pub struct ContentDocument {
    pub relative_path: Vec<u8>,
    pub lang: Vec<u8>,
    pub content: Vec<u8>,
    pub line_end_indices: Vec<u32>,
    pub symbol_locations: SymbolLocations,
}

/// A loaded document is well formed: the line table is exactly the
/// content's newline offsets, and a present graph is well formed against
/// the content.
pub open spec fn doc_wf(d: ContentDocument) -> bool {
    &&& d.content@.len() <= u32::MAX
    &&& d.line_end_indices@ == newline_offsets(d.content@)
    &&& match d.symbol_locations {
        SymbolLocations::Empty => true,
        SymbolLocations::Graph(g) => graph_wf(g, d.content@),
    }
}

/// One file's stored fields, ready for the index engine.
pub struct IndexedDocument {
    pub path: Vec<u8>,
    pub lang: Vec<u8>,
    pub content: Vec<u8>,
    pub symbols: Vec<u8>,
    pub symbol_locations: Vec<u8>,
    pub line_end_indices: Vec<u8>,
}

/// Check a stored scope tree.
pub fn check_scopes_wf(scopes: &Vec<Scope>, content_len: u32) -> (r: bool)
    ensures
        r == scopes_wf(scopes@, content_len as int),
{
    let n: usize = scopes.len();
    if n == 0 || n > u32::MAX as usize {
        return false;
    }
    let root = scopes[0];
    if !(root.parent == 0 && root.start == 0 && root.end == content_len) {
        return false;
    }
    let mut i: usize = 1;
    while i < n
        invariant
            1 <= i <= n,
            n == scopes@.len(),
            forall|k: int| #![auto] 1 <= k < i ==> scopes@[k].parent < k
                && scopes@[scopes@[k].parent as int].start <= scopes@[k].start && scopes@[k].start
                <= scopes@[k].end && scopes@[k].end <= scopes@[scopes@[k].parent as int].end,
        decreases n - i,
    {
        let sc = scopes[i];
        let pi: usize = sc.parent as usize;
        if pi >= i {
            return false;
        }
        let ps = scopes[pi];
        if !(ps.start <= sc.start && sc.start <= sc.end && sc.end <= ps.end) {
            return false;
        }
        i = i + 1;
    }
    true
}

/// Check a stored occurrence list against its scopes and content.
#[verifier::rlimit(100)]
pub fn check_occs_wf(
occs: &Vec<Occurrence>, scopes: &Vec<Scope>, content: &Vec<u8>) -> (r: bool)
    requires
        content@.len() <= u32::MAX,
    ensures
        r == occs_wf(occs@, scopes@, content@),
{
    let n: usize = occs.len();
    if n > u32::MAX as usize {
        return false;
    }
    let mut i: usize = 0;
    while i < n
        invariant
            i <= n,
            n == occs@.len(),
            content@.len() <= u32::MAX,
            forall|k: int| 0 <= k < i ==> occ_wf(#[trigger] occs@[k], scopes@, content@),
            forall|k: int| 0 <= k < i - 1 ==> (#[trigger] occs@[k]).end <= occs@[k + 1].start,
        decreases n - i,
    {
        let o = occs[i];
        if (o.scope as usize) >= scopes.len() {
            return false;
        }
        if !(o.start <= o.end && (o.end as usize) <= content.len()) {
            return false;
        }
        if !boundary_ok(content, o.start) || !boundary_ok(content, o.end) {
            return false;
        }
        let sc = scopes[o.scope as usize];
        if !(sc.start <= o.start && o.end <= sc.end) {
            return false;
        }
        if i > 0 {
            if occs[i - 1].end > o.start {
                return false;
            }
        }
        i = i + 1;
    }
    true
}

/// Deduplicated occurrence texts, in first-appearance order.
pub open spec fn dedup_texts(ts: Seq<Seq<u8>>) -> Seq<Seq<u8>>
    decreases ts.len(),
{
    if ts.len() == 0 {
        Seq::empty()
    } else {
        let pre = dedup_texts(ts.drop_last());
        if pre.contains(ts.last()) {
            pre
        } else {
            pre.push(ts.last())
        }
    }
}

/// The texts, joined with one newline between entries.
pub open spec fn joined_texts(ts: Seq<Seq<u8>>) -> Seq<u8>
    decreases ts.len(),
{
    if ts.len() == 0 {
        Seq::empty()
    } else if ts.len() == 1 {
        ts[0]
    } else {
        joined_texts(ts.drop_last()) + seq![10u8] + ts.last()
    }
}

pub open spec fn occ_texts(occs: Seq<Occurrence>, content: Seq<u8>) -> Seq<Seq<u8>> {
    Seq::new(occs.len(), |i: int| occ_text(content, occs[i]))
}

pub open spec fn symbols_field(sl: SymbolLocations, content: Seq<u8>) -> Seq<u8> {
    match sl {
        SymbolLocations::Empty => Seq::empty(),
        SymbolLocations::Graph(g) => joined_texts(dedup_texts(occ_texts(g.occurrences@, content))),
    }
}

fn copy_range(content: &Vec<u8>, s: u32, e: u32) -> (r: Vec<u8>)
    requires
        s <= e <= content@.len(),
    ensures
        r@ == content@.subrange(s as int, e as int),
{
    let mut out: Vec<u8> = Vec::new();
    let mut k: u32 = s;
    while k < e
        invariant
            s <= k <= e <= content@.len(),
            out@ =~= content@.subrange(s as int, k as int),
        decreases e - k,
    {
        out.push(content[k as usize]);
        k = k + 1;
    }
    proof {
        assert(out@ =~= content@.subrange(s as int, e as int));
    }
    out
}

pub fn paths_eq(a: &Vec<u8>, b: &Vec<u8>) -> (r: bool)
    ensures
        r == (a@ == b@),
{
    if a.len() != b.len() {
        proof {
            assert(a@.len() != b@.len());
        }
        return false;
    }
    let mut k: usize = 0;
    while k < a.len()
        invariant
            k <= a@.len(),
            a@.len() == b@.len(),
            forall|x: int| 0 <= x < k ==> a@[x] == b@[x],
        decreases a@.len() - k,
    {
        if a[k] != b[k] {
            return false;
        }
        k = k + 1;
    }
    proof {
        assert(a@ =~= b@);
    }
    true
}

/// The deduplicated, newline-joined symbol text of a graph's occurrences.
fn symbols_text(sl: &SymbolLocations, content: &Vec<u8>) -> (r: Vec<u8>)
    requires
        match *sl {
            SymbolLocations::Empty => true,
            SymbolLocations::Graph(g) => graph_wf(g, content@),
        },
    ensures
        r@ == symbols_field(*sl, content@),
{
    match sl {
        SymbolLocations::Empty => Vec::new(),
        SymbolLocations::Graph(g) => {
            let mut uniq: Vec<Vec<u8>> = Vec::new();
            let mut i: usize = 0;
            while i < g.occurrences.len()
                invariant
                    i <= g.occurrences@.len(),
                    graph_wf(*g, content@),
                    uniq@.len() == dedup_texts(occ_texts(g.occurrences@, content@).take(
                        i as int,
                    )).len(),
                    forall|m: int| 0 <= m < uniq@.len() ==> (#[trigger] uniq@[m])@ == dedup_texts(
                        occ_texts(g.occurrences@, content@).take(i as int),
                    )[m],
                decreases g.occurrences@.len() - i,
            {
                let ghost ts = occ_texts(g.occurrences@, content@);
                proof {
                    assert(ts.take(i + 1).drop_last() =~= ts.take(i as int));
                    assert(ts.take(i + 1).last() == occ_text(content@, g.occurrences@[i as int]));
                }
                let o = g.occurrences[i];
                proof {
                    assert(occ_wf(g.occurrences@[i as int], g.scopes@, content@));
                }
                let t = copy_range(content, o.start, o.end);
                let mut seen: bool = false;
                let mut m: usize = 0;
                while m < uniq.len()
                    invariant
                        m <= uniq@.len(),
                        t@ == occ_text(content@, g.occurrences@[i as int]),
                        !seen ==> forall|x: int| 0 <= x < m ==> (#[trigger] uniq@[x])@ != t@,
                        seen ==> exists|x: int| 0 <= x < uniq@.len() && (#[trigger] uniq@[x])@
                            == t@,
                    ensures
                        seen ==> exists|x: int| 0 <= x < uniq@.len() && (#[trigger] uniq@[x])@
                            == t@,
                        !seen ==> forall|x: int| 0 <= x < uniq@.len() ==> (#[trigger] uniq@[x])@
                            != t@,
                    decreases uniq@.len() - m,
                {
                    if paths_eq(&uniq[m], &t) {
                        seen = true;
                        proof {
                            assert((uniq@[m as int])@ == t@);
                        }
                        break;
                    }
                    m = m + 1;
                }
                let ghost pre = dedup_texts(occ_texts(g.occurrences@, content@).take(i as int));
                proof {
                    if seen {
                        let x = choose|x: int| 0 <= x < uniq@.len() && (#[trigger] uniq@[x])@
                            == t@;
                        assert(pre[x] == t@);
                        assert(pre.contains(t@));
                    } else {
                        assert forall|x: int| 0 <= x < pre.len() implies pre[x] != t@ by {
                            assert((uniq@[x])@ == pre[x]);
                        }
                        assert(!pre.contains(t@));
                    }
                }
                if !seen {
                    uniq.push(t);
                }
                i = i + 1;
            }
            proof {
                assert(occ_texts(g.occurrences@, content@).take(g.occurrences@.len() as int)
                    =~= occ_texts(g.occurrences@, content@));
            }
            let mut out: Vec<u8> = Vec::new();
            let ghost du = dedup_texts(occ_texts(g.occurrences@, content@));
            let mut m: usize = 0;
            while m < uniq.len()
                invariant
                    m <= uniq@.len(),
                    uniq@.len() == du.len(),
                    forall|x: int| 0 <= x < du.len() ==> (#[trigger] uniq@[x])@ == du[x],
                    out@ == joined_texts(du.take(m as int)),
                decreases uniq@.len() - m,
            {
                proof {
                    assert(du.take(m + 1).drop_last() =~= du.take(m as int));
                    assert(du.take(m + 1).last() == du[m as int]);
                    if m > 0 {
                        assert(du.take(m + 1).len() > 1);
                    }
                }
                if m > 0 {
                    out.push(10u8);
                }
                let entry = &uniq[m];
                let mut k: usize = 0;
                let ghost out_head = out@;
                while k < entry.len()
                    invariant
                        k <= entry@.len(),
                        out@ == out_head + entry@.take(k as int),
                    decreases entry@.len() - k,
                {
                    proof {
                        assert(entry@.take(k + 1) =~= entry@.take(k as int).push(
                            entry@[k as int],
                        ));
                    }
                    out.push(entry[k]);
                    k = k + 1;
                }
                proof {
                    assert(entry@.take(entry@.len() as int) =~= entry@);
                    if m == 0 {
                        assert(joined_texts(du.take(1)) =~= du[0]);
                        assert(out@ =~= joined_texts(du.take(m + 1)));
                    } else {
                        assert(out@ =~= joined_texts(du.take(m + 1)));
                    }
                }
                m = m + 1;
            }
            proof {
                assert(du.take(du.len() as int) =~= du);
            }
            out
        },
    }
}

/// Assemble one file into its stored fields. `decoded` is `None` when the
/// raw bytes were not valid text: such a file is skipped, as is one whose
/// extension the classifier does not know, and one of 2^32 bytes or more.
/// A parse failure (no tree, or an invalid one) degrades to the empty
/// symbol information; the file is still indexed.
pub fn assemble_document(
    path: Vec<u8>,
    decoded: Option<Vec<u8>>,
    tree: Option<&SyntaxTree>,
    profile: &LanguageProfile,
) -> (r: Option<IndexedDocument>)
    ensures
        match r {
            Some(d) => {
                &&& decoded is Some
                &&& spec_language_for_path(path@) is Some
                &&& d.content@ == decoded->0@
                &&& d.content@.len() <= u32::MAX
                &&& d.path@ == path@
                &&& d.lang@ == spec_language_for_path(path@)->0
                &&& d.line_end_indices@ == offsets_bytes(newline_offsets(d.content@))
                &&& exists|sl: SymbolLocations| {
                    &&& d.symbol_locations@ == offsets_bytes(symbols_words(#[trigger] symbols_model(
                        sl,
                    )))
                    &&& d.symbols@ == symbols_field(sl, d.content@)
                    &&& match sl {
                        SymbolLocations::Empty => true,
                        SymbolLocations::Graph(g) => {
                            &&& graph_wf(g, d.content@)
                            &&& bindings_assigned(g, d.content@)
                            &&& (tree matches Some(t) ==> scopes_match_tree(
                                g.scopes@,
                                t.nodes@,
                                *profile,
                            ) && occs_match_tree(g.occurrences@, t.nodes@, *profile))
                        },
                    }
                    &&& (match tree {
                        Some(t) => tree_valid(*t, *profile, d.content@) == (sl is Graph),
                        None => sl is Empty,
                    })
                }
            },
            None => decoded is None || spec_language_for_path(path@) is None || decoded->0@.len()
                > u32::MAX,
        },
{
    let content = match decoded {
        Some(c) => c,
        None => {
            return None;
        },
    };
    let lang = match language_for_path(&path) {
        Some(l) => l,
        None => {
            return None;
        },
    };
    let offsets = match compute_line_offsets(&content) {
        Some(v) => v,
        None => {
            return None;
        },
    };
    let sl: SymbolLocations = match tree {
        Some(t) => match build_scope_graph(t, profile, &content) {
            Ok(g) => SymbolLocations::Graph(g),
            Err(_) => SymbolLocations::Empty,
        },
        None => SymbolLocations::Empty,
    };
    let symbols = symbols_text(&sl, &content);
    proof {
        assert(encodable(sl));
    }
    let sym_words = encode_symbols_words(&sl);
    let sym_bytes = encode_offsets(&sym_words);
    let line_bytes = encode_offsets(&offsets);
    Some(IndexedDocument {
        path: path,
        lang: lang,
        content: content,
        symbols: symbols,
        symbol_locations: sym_bytes,
        line_end_indices: line_bytes,
    })
}

/// What one document's stored symbol bytes hold: `None` when the field is
/// absent, undecodable, or decodes to a graph that breaks well-formedness
/// against the content — such a document is skipped; `Some(None)` for a
/// stored empty value; `Some(Some(..))` for a kept graph.
pub open spec fn stored_symbols_model(sym_bytes: Seq<u8>, content: Seq<u8>) -> Option<
    Option<(Seq<Scope>, Seq<Occurrence>)>,
> {
    if sym_bytes.len() % 4 != 0 {
        None
    } else {
        match dec_symbols_words(decoded_offsets(sym_bytes)) {
            None => None,
            Some(m) => match m {
                None => Some(None),
                Some((ss, os)) => if scopes_wf(ss, content.len() as int) && occs_wf(
                    os,
                    ss,
                    content,
                ) {
                    Some(Some((ss, os)))
                } else {
                    None
                },
            },
        }
    }
}

/// Round trip at document level: the symbol bytes that assembly stores for
/// a well-formed value decode back to exactly that value — same scopes,
/// same occurrence list, same binding ids.
pub proof fn lemma_document_symbols_round_trip(sl: SymbolLocations, content: Seq<u8>)
    requires
        match sl {
            SymbolLocations::Empty => true,
            SymbolLocations::Graph(g) => graph_wf(g, content),
        },
    ensures
        stored_symbols_model(offsets_bytes(symbols_words(symbols_model(sl))), content) == Some(
            symbols_model(sl),
        ),
{
    let w = symbols_words(symbols_model(sl));
    lemma_offsets_bytes_len(w);
    lemma_offsets_round_trip(w);
    lemma_symbols_words_round_trip(symbols_model(sl));
}

/// Decode one document's stored fields, validating everything: the line
/// table must be exactly the content's newline offsets, and stored symbol
/// data must be absent-encoded (`Empty`) or a graph that passes the
/// well-formedness checks; anything else marks the document malformed and
/// it is skipped, per the error policy for missing stored fields.
pub fn decode_document(
    path: Vec<u8>,
    lang: Vec<u8>,
    content: Vec<u8>,
    line_bytes: &Vec<u8>,
    sym_bytes: &Vec<u8>,
) -> (r: Option<ContentDocument>)
    ensures
        match r {
            Some(d) => {
                &&& doc_wf(d)
                &&& d.relative_path@ == path@
                &&& d.lang@ == lang@
                &&& d.content@ == content@
                &&& stored_symbols_model(sym_bytes@, content@) == Some(symbols_model(
                    d.symbol_locations,
                ))
            },
            None => content@.len() > u32::MAX || line_bytes@.len() % 4 != 0 || decoded_offsets(
                line_bytes@,
            ) != newline_offsets(content@) || stored_symbols_model(sym_bytes@, content@) is None,
        },
{
    let offsets = match compute_line_offsets(&content) {
        Some(v) => v,
        None => {
            return None;
        },
    };
    let stored = match decode_offsets(line_bytes) {
        Some(v) => v,
        None => {
            return None;
        },
    };
    let mut same: bool = offsets.len() == stored.len();
    if same {
        let mut k: usize = 0;
        while k < offsets.len()
            invariant
                k <= offsets@.len(),
                offsets@.len() == stored@.len(),
                stored@ == decoded_offsets(line_bytes@),
                offsets@ == newline_offsets(content@),
                same <==> forall|x: int| 0 <= x < k ==> offsets@[x] == stored@[x],
                same,
            decreases offsets@.len() - k,
        {
            if offsets[k] != stored[k] {
                proof {
                    assert(offsets@ != stored@);
                    assert(decoded_offsets(line_bytes@) != newline_offsets(content@));
                }
                return None;
            }
            k = k + 1;
        }
        proof {
            assert(offsets@ =~= stored@);
        }
    } else {
        proof {
            assert(offsets@.len() != stored@.len());
        }
        return None;
    }
    let sl: SymbolLocations = match decode_offsets(sym_bytes) {
        Some(words) => match decode_symbols_words(&words) {
            Some(decoded_sl) => match decoded_sl {
                SymbolLocations::Graph(g) => {
                    if check_scopes_wf(&g.scopes, content.len() as u32) && check_occs_wf(
                        &g.occurrences,
                        &g.scopes,
                        &content,
                    ) {
                        SymbolLocations::Graph(g)
                    } else {
                        // a stored graph that breaks well-formedness is a
                        // malformed field: skip the document
                        return None;
                    }
                },
                SymbolLocations::Empty => SymbolLocations::Empty,
            },
            None => {
                return None;
            },
        },
        None => {
            return None;
        },
    };
    Some(ContentDocument {
        relative_path: path,
        lang: lang,
        content: content,
        line_end_indices: offsets,
        symbol_locations: sl,
    })
}

} // verus!
