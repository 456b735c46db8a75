//! The lexical scope graph of one file: nested scopes holding symbol
//! occurrences, each tagged definition or reference and carrying a binding
//! id that ties a reference to the definition it resolves to. Graphs are
//! built from an externally parsed syntax tree, which is untrusted and
//! validated in full before use.

use vstd::prelude::*;

verus! {

/// Whether an occurrence binds a name or uses one.
#[derive(Clone, Copy, Debug, PartialEq, Eq, Structural)]
pub enum OccurrenceKind {
    Definition,
    Reference,
}

/// One lexical region. `parent` points at the enclosing scope; the root
/// scope is its own parent and spans the whole file.
#[derive(Clone, Copy, Debug, PartialEq, Eq, Structural)]
pub struct Scope {
    pub parent: u32,
    pub start: u32,
    pub end: u32,
}

/// One recorded appearance of a symbol name: the byte range it covers, the
/// scope that owns it, its kind, and its binding id. The name's text is the
/// content slice under `start..end`.
#[derive(Clone, Copy, Debug, PartialEq, Eq, Structural)]
pub struct Occurrence {
    pub scope: u32,
    pub start: u32,
    pub end: u32,
    pub kind: OccurrenceKind,
    pub binding: u32,
}

/// A file's scope graph: the scope tree in parent-index form (a scope's
/// parent always has the smaller index) and every occurrence in source
/// order.
#[derive(Debug, PartialEq)]
pub struct ScopeGraph {
    pub scopes: Vec<Scope>,
    pub occurrences: Vec<Occurrence>,
}

/// The symbol information stored for a document: `Empty` when the parse
/// failed or was skipped.
#[derive(Debug, PartialEq)]
pub enum SymbolLocations {
    Empty,
    Graph(ScopeGraph),
}

/// A byte position that does not split a UTF-8 code point: it is the end of
/// the content or the byte there is not a continuation byte.
pub open spec fn is_char_boundary(content: Seq<u8>, i: int) -> bool {
    i == content.len() || content[i] < 0x80 || content[i] >= 0xC0
}

/// The text an occurrence covers.
pub open spec fn occ_text(content: Seq<u8>, o: Occurrence) -> Seq<u8> {
    content.subrange(o.start as int, o.end as int)
}

pub open spec fn is_definition(o: Occurrence) -> bool {
    o.kind == OccurrenceKind::Definition
}

/// The scope tree is well formed: one root spanning the file, every other
/// scope nested inside an earlier parent.
pub open spec fn scopes_wf(scopes: Seq<Scope>, content_len: int) -> bool {
    &&& 1 <= scopes.len() <= u32::MAX
    &&& scopes[0].parent == 0
    &&& scopes[0].start == 0
    &&& scopes[0].end == content_len
    &&& forall|i: int| #![auto] 1 <= i < scopes.len() ==> {
        &&& scopes[i].parent < i
        &&& scopes[scopes[i].parent as int].start <= scopes[i].start
        &&& scopes[i].start <= scopes[i].end
        &&& scopes[i].end <= scopes[scopes[i].parent as int].end
    }
}

/// One occurrence is well formed against the scopes and the content: its
/// range lies inside its owning scope, inside the file, and on code-point
/// boundaries.
pub open spec fn occ_wf(o: Occurrence, scopes: Seq<Scope>, content: Seq<u8>) -> bool {
    &&& o.scope < scopes.len()
    &&& o.start <= o.end <= content.len()
    &&& is_char_boundary(content, o.start as int)
    &&& is_char_boundary(content, o.end as int)
    &&& scopes[o.scope as int].start <= o.start
    &&& o.end <= scopes[o.scope as int].end
}

/// The occurrence list is well formed: every entry well formed, and entries
/// in ascending byte order without overlap.
pub open spec fn occs_wf(occs: Seq<Occurrence>, scopes: Seq<Scope>, content: Seq<u8>) -> bool {
    &&& occs.len() <= u32::MAX
    &&& forall|i: int| #![auto] 0 <= i < occs.len() ==> occ_wf(occs[i], scopes, content)
    &&& forall|i: int| #![auto] 0 <= i < occs.len() - 1 ==> occs[i].end <= occs[i + 1].start
}

/// A whole graph is well formed against its document content.
pub open spec fn graph_wf(g: ScopeGraph, content: Seq<u8>) -> bool {
    &&& content.len() <= u32::MAX
    &&& scopes_wf(g.scopes@, content.len() as int)
    &&& occs_wf(g.occurrences@, g.scopes@, content)
}

/// Scope `anc` is `s` itself or one of the scopes on `s`'s parent chain.
pub open spec fn scope_encloses(scopes: Seq<Scope>, anc: int, s: int) -> bool
    decreases (if s >= 0 { s } else { 0 }),
{
    if s == anc {
        true
    } else if s <= 0 || s >= scopes.len() {
        false
    } else if scopes[s].parent < s {
        scope_encloses(scopes, anc, scopes[s].parent as int)
    } else {
        false
    }
}

/// Walking one step up the chain keeps every ancestor of the start.
pub proof fn lemma_encloses_parent(scopes: Seq<Scope>, s: int, r: int)
    requires
        scope_encloses(scopes, s, r),
        1 <= s < scopes.len(),
        scopes[s].parent < s,
    ensures
        scope_encloses(scopes, scopes[s].parent as int, r),
    decreases (if r >= 0 { r } else { 0 }),
{
    if r == s {
        assert(scope_encloses(scopes, scopes[s].parent as int, scopes[s].parent as int));
    } else if r <= 0 || r >= scopes.len() {
    } else if scopes[r].parent < r {
        lemma_encloses_parent(scopes, s, scopes[r].parent as int);
    }
}

/// Number of definitions among the first `i` occurrences.
pub open spec fn defs_before(occs: Seq<Occurrence>, i: int) -> int
    decreases i,
{
    if i <= 0 {
        0
    } else {
        defs_before(occs, i - 1) + if is_definition(occs[i - 1]) {
            1int
        } else {
            0int
        }
    }
}

pub open spec fn total_defs(occs: Seq<Occurrence>) -> int {
    defs_before(occs, occs.len() as int)
}

/// Definition `k` is visible from reference `i`: same text, and `k`'s scope
/// is the reference's scope or one enclosing it.
pub open spec fn def_visible_from(
    occs: Seq<Occurrence>,
    scopes: Seq<Scope>,
    content: Seq<u8>,
    i: int,
    k: int,
) -> bool {
    &&& 0 <= k < occs.len()
    &&& is_definition(occs[k])
    &&& occ_text(content, occs[k]) == occ_text(content, occs[i])
    &&& scope_encloses(scopes, occs[k].scope as int, occs[i].scope as int)
}

pub open spec fn ref_has_visible_def(
    occs: Seq<Occurrence>,
    scopes: Seq<Scope>,
    content: Seq<u8>,
    i: int,
) -> bool {
    exists|k: int| def_visible_from(occs, scopes, content, i, k)
}

/// Number of unresolved references among the first `i` occurrences.
pub open spec fn unresolved_before(
    occs: Seq<Occurrence>,
    scopes: Seq<Scope>,
    content: Seq<u8>,
    i: int,
) -> int
    decreases i,
{
    if i <= 0 {
        0
    } else {
        unresolved_before(occs, scopes, content, i - 1) + if !is_definition(occs[i - 1])
            && !ref_has_visible_def(occs, scopes, content, i - 1) {
            1int
        } else {
            0int
        }
    }
}

/// Reference `i` is bound to definition `k`, and `k` is the right one: it is
/// visible, no visible definition sits in a strictly nearer scope, and none
/// with a later position shares its scope.
pub open spec fn resolved_to(
    occs: Seq<Occurrence>,
    scopes: Seq<Scope>,
    content: Seq<u8>,
    i: int,
    k: int,
) -> bool {
    &&& def_visible_from(occs, scopes, content, i, k)
    &&& occs[i].binding == occs[k].binding
    &&& forall|k2: int| #![auto] def_visible_from(occs, scopes, content, i, k2)
        ==> scope_encloses(scopes, occs[k2].scope as int, occs[k].scope as int)
    &&& forall|k2: int| #![auto] def_visible_from(occs, scopes, content, i, k2)
        && occs[k2].scope == occs[k].scope ==> k2 <= k
}

/// The binding discipline the builder guarantees: definitions get ids
/// 0, 1, ... in source order; a reference with a visible definition is bound
/// to the nearest one (last of its scope); any other reference gets a fresh
/// id past every definition's, one per unresolved reference in order.
pub open spec fn refs_resolved(occs: Seq<Occurrence>, scopes: Seq<Scope>, content: Seq<u8>) -> bool {
    &&& forall|i: int| #![auto] 0 <= i < occs.len() && is_definition(occs[i])
        ==> occs[i].binding == defs_before(occs, i)
    &&& forall|i: int| #![auto] 0 <= i < occs.len() && !is_definition(occs[i])
        && ref_has_visible_def(occs, scopes, content, i)
        ==> exists|k: int| resolved_to(occs, scopes, content, i, k)
    &&& forall|i: int| #![auto] 0 <= i < occs.len() && !is_definition(occs[i])
        && !ref_has_visible_def(occs, scopes, content, i)
        ==> occs[i].binding == total_defs(occs) + unresolved_before(occs, scopes, content, i)
}

pub open spec fn bindings_assigned(g: ScopeGraph, content: Seq<u8>) -> bool {
    refs_resolved(g.occurrences@, g.scopes@, content)
}

pub proof fn lemma_defs_before_mono(occs: Seq<Occurrence>, i: int, j: int)
    requires
        0 <= i <= j <= occs.len(),
    ensures
        defs_before(occs, i) <= defs_before(occs, j),
        i < j && is_definition(occs[i]) ==> defs_before(occs, i) < defs_before(occs, j),
        defs_before(occs, j) <= defs_before(occs, i) + (j - i),
    decreases j - i,
{
    if i < j {
        lemma_defs_before_mono(occs, i + 1, j);
    }
}

pub proof fn lemma_unresolved_before_bounds(
    occs: Seq<Occurrence>,
    scopes: Seq<Scope>,
    content: Seq<u8>,
    i: int,
)
    requires
        0 <= i <= occs.len(),
    ensures
        0 <= unresolved_before(occs, scopes, content, i),
        unresolved_before(occs, scopes, content, i) + defs_before(occs, i) <= i,
    decreases i,
{
    if i > 0 {
        lemma_unresolved_before_bounds(occs, scopes, content, i - 1);
    }
}

/// A resolved reference shares its binding id with exactly one definition,
/// and that definition's scope encloses (or is) the reference's own scope
/// and covers the same text. Together with `bindings_assigned` this is the
/// graph's binding invariant.
pub proof fn lemma_reference_binds_unique_definition(
    g: ScopeGraph,
    content: Seq<u8>,
    i: int,
    k1: int,
    k2: int,
)
    requires
        bindings_assigned(g, content),
        0 <= i < g.occurrences@.len(),
        !is_definition(g.occurrences@[i]),
        0 <= k1 < g.occurrences@.len(),
        0 <= k2 < g.occurrences@.len(),
        is_definition(g.occurrences@[k1]),
        is_definition(g.occurrences@[k2]),
        g.occurrences@[k1].binding == g.occurrences@[i].binding,
        g.occurrences@[k2].binding == g.occurrences@[i].binding,
    ensures
        k1 == k2,
        scope_encloses(g.scopes@, g.occurrences@[k1].scope as int, g.occurrences@[i].scope as int),
        occ_text(content, g.occurrences@[k1]) == occ_text(content, g.occurrences@[i]),
{
    let occs = g.occurrences@;
    let scopes = g.scopes@;
    if k1 != k2 {
        if k1 < k2 {
            lemma_defs_before_mono(occs, k1, k2);
        } else {
            lemma_defs_before_mono(occs, k2, k1);
        }
        assert(false);
    }
    if ref_has_visible_def(occs, scopes, content, i) {
        let k = choose|k: int| resolved_to(occs, scopes, content, i, k);
        assert(resolved_to(occs, scopes, content, i, k));
        if k != k1 {
            if k < k1 {
                lemma_defs_before_mono(occs, k, k1);
            } else {
                lemma_defs_before_mono(occs, k1, k);
            }
            assert(false);
        }
    } else {
        lemma_defs_before_mono(occs, k1, occs.len() as int);
        lemma_unresolved_before_bounds(occs, scopes, content, i);
        assert(false);
    }
}

/// Compare the text under two byte ranges, possibly of two documents.
pub fn range_text_eq(a: &Vec<u8>, s1: u32, e1: u32, b: &Vec<u8>, s2: u32, e2: u32) -> (r: bool)
    requires
        s1 <= e1 <= a@.len(),
        s2 <= e2 <= b@.len(),
    ensures
        r == (a@.subrange(s1 as int, e1 as int) == b@.subrange(s2 as int, e2 as int)),
{
    let len1: u32 = e1 - s1;
    let len2: u32 = e2 - s2;
    if len1 != len2 {
        proof {
            assert(a@.subrange(s1 as int, e1 as int).len() != b@.subrange(
                s2 as int,
                e2 as int,
            ).len());
        }
        return false;
    }
    let mut d: u32 = 0;
    while d < len1
        invariant
            d <= len1,
            len1 == e1 - s1,
            len1 == e2 - s2,
            s1 <= e1 <= a@.len(),
            s2 <= e2 <= b@.len(),
            forall|x: int| 0 <= x < d ==> #[trigger] a@[s1 + x] == b@[s2 + x],
        decreases len1 - d,
    {
        if a[(s1 + d) as usize] != b[(s2 + d) as usize] {
            proof {
                assert(a@.subrange(s1 as int, e1 as int)[d as int] != b@.subrange(
                    s2 as int,
                    e2 as int,
                )[d as int]);
            }
            return false;
        }
        d = d + 1;
    }
    proof {
        assert forall|x: int| 0 <= x < e1 - s1 implies a@.subrange(s1 as int, e1 as int)[x]
            == b@.subrange(s2 as int, e2 as int)[x] by {
            assert(a@[s1 + x] == b@[s2 + x]);
        }
        assert(a@.subrange(s1 as int, e1 as int) =~= b@.subrange(s2 as int, e2 as int));
    }
    true
}

/// Every resolved reference does have its definition: if a definition is
/// visible from reference `i`, some definition shares `i`'s binding id.
pub proof fn lemma_resolved_reference_has_definition(g: ScopeGraph, content: Seq<u8>, i: int)
    requires
        bindings_assigned(g, content),
        0 <= i < g.occurrences@.len(),
        !is_definition(g.occurrences@[i]),
        ref_has_visible_def(g.occurrences@, g.scopes@, content, i),
    ensures
        exists|k: int| #![auto] 0 <= k < g.occurrences@.len()
            && is_definition(g.occurrences@[k])
            && g.occurrences@[k].binding == g.occurrences@[i].binding,
{
    let occs = g.occurrences@;
    let scopes = g.scopes@;
    let k = choose|k: int| resolved_to(occs, scopes, content, i, k);
    assert(resolved_to(occs, scopes, content, i, k));
    assert(0 <= k < occs.len() && is_definition(occs[k]) && occs[k].binding == occs[i].binding);
}

} // verus!
