//! Building a scope graph from a validated syntax tree: scope-introducing
//! nodes become scopes nested as the tree nests; identifier nodes become
//! occurrences; definitions get sequential binding ids in source order and
//! every reference is resolved, at build time, to the nearest enclosing
//! scope holding a definition of the same text, or given a fresh id when
//! none is visible.

use vstd::prelude::*;
use crate::scope_graph::{
    Scope, Occurrence, OccurrenceKind, ScopeGraph, scopes_wf, occ_wf, occs_wf, graph_wf,
    scope_encloses, lemma_encloses_parent, defs_before, total_defs, def_visible_from,
    ref_has_visible_def, unresolved_before, resolved_to, bindings_assigned, refs_resolved,
    is_definition,
    occ_text, range_text_eq, lemma_defs_before_mono, lemma_unresolved_before_bounds,
};
use crate::syntax::{
    SyntaxNode, SyntaxTree, LanguageProfile, is_scope_node, is_def_node, is_ref_node,
    is_ident_node, tree_valid, validate_tree, node_is_scope, node_is_def, node_is_ref,
};

verus! {

/// The one way a build fails: the parser handed over a tree that breaks
/// the validated shape. The caller substitutes an empty graph.
#[derive(Clone, Copy, Debug, PartialEq, Eq, Structural)]
pub enum BuildError {
    MalformedTree,
}

/// Number of scope-introducing nodes among node indices `1..i`.
pub open spec fn scope_count_upto(nodes: Seq<SyntaxNode>, p: LanguageProfile, i: int) -> int
    decreases i,
{
    if i <= 1 {
        0
    } else {
        scope_count_upto(nodes, p, i - 1) + if is_scope_node(p, nodes[i - 1]) {
            1int
        } else {
            0int
        }
    }
}

/// Number of identifier nodes among node indices `1..i`.
pub open spec fn ident_count_upto(nodes: Seq<SyntaxNode>, p: LanguageProfile, i: int) -> int
    decreases i,
{
    if i <= 1 {
        0
    } else {
        ident_count_upto(nodes, p, i - 1) + if is_ident_node(p, nodes[i - 1]) {
            1int
        } else {
            0int
        }
    }
}

/// The scope that owns node `i`: the scope the node itself introduces, or
/// the one owning its parent.
pub open spec fn own_scope(nodes: Seq<SyntaxNode>, p: LanguageProfile, i: int) -> int
    decreases i,
{
    if i <= 0 {
        0
    } else if is_scope_node(p, nodes[i]) {
        1 + scope_count_upto(nodes, p, i)
    } else if 0 <= nodes[i].parent < i {
        own_scope(nodes, p, nodes[i].parent as int)
    } else {
        0
    }
}

pub proof fn lemma_counts_bounded(nodes: Seq<SyntaxNode>, p: LanguageProfile, i: int)
    requires
        1 <= i,
    ensures
        0 <= scope_count_upto(nodes, p, i),
        0 <= ident_count_upto(nodes, p, i),
        scope_count_upto(nodes, p, i) + ident_count_upto(nodes, p, i) <= i - 1,
    decreases i,
{
    if i > 1 {
        lemma_counts_bounded(nodes, p, i - 1);
    }
}

/// The definition index: `defs[m]` is the position of the definition whose
/// binding id is `m`, and the list is complete and ascending.
pub open spec fn defs_index_ok(defs: Seq<u32>, occs: Seq<Occurrence>) -> bool {
    &&& defs.len() == total_defs(occs)
    &&& forall|m: int| #![auto] 0 <= m < defs.len() ==> defs[m] < occs.len()
        && is_definition(occs[defs[m] as int]) && occs[defs[m] as int].binding == m
    &&& forall|m1: int, m2: int| #![auto] 0 <= m1 < m2 < defs.len() ==> defs[m1] < defs[m2]
    &&& forall|j: int| #![auto] 0 <= j < occs.len() && is_definition(occs[j])
        ==> occs[j].binding < defs.len() && defs[occs[j].binding as int] == j
}

/// Occurrence fields other than the binding ids, listwise equal.
pub open spec fn same_skeleton(a: Seq<Occurrence>, b: Seq<Occurrence>) -> bool {
    &&& a.len() == b.len()
    &&& forall|x: int| #![auto] 0 <= x < a.len() ==> b[x].scope == a[x].scope && b[x].start
        == a[x].start && b[x].end == a[x].end && b[x].kind == a[x].kind
}

proof fn lemma_same_skeleton_trans(a: Seq<Occurrence>, b: Seq<Occurrence>, c: Seq<Occurrence>)
    requires
        same_skeleton(a, b),
        same_skeleton(b, c),
    ensures
        same_skeleton(a, c),
{
}

/// The scope list mirrors the tree's first `i` nodes: one scope per
/// scope-introducing node, holding that node's range, nested under the
/// scope that owns the node's parent.
pub open spec fn scopes_match_upto(
    scopes: Seq<Scope>,
    ns: Seq<SyntaxNode>,
    p: LanguageProfile,
    i: int,
) -> bool {
    &&& scopes.len() == 1 + scope_count_upto(ns, p, i)
    &&& forall|k: int| #![trigger scope_count_upto(ns, p, k)] 1 <= k < i && is_scope_node(
        p,
        ns[k],
    ) ==> {
        &&& own_scope(ns, p, k) == 1 + scope_count_upto(ns, p, k)
        &&& 0 <= 1 + scope_count_upto(ns, p, k) < scopes.len()
        &&& scopes[1 + scope_count_upto(ns, p, k)].parent as int == own_scope(
            ns,
            p,
            ns[k].parent as int,
        )
        &&& scopes[1 + scope_count_upto(ns, p, k)].start == ns[k].start
        &&& scopes[1 + scope_count_upto(ns, p, k)].end == ns[k].end
    }
}

/// The whole scope list mirrors the tree's scope-introducing nodes.
pub open spec fn scopes_match_tree(scopes: Seq<Scope>, ns: Seq<SyntaxNode>, p: LanguageProfile) -> bool {
    scopes_match_upto(scopes, ns, p, ns.len() as int)
}

/// The occurrence list mirrors the tree's first `i` identifier nodes: the
/// m-th occurrence carries the m-th identifier node's byte range, is a
/// Definition or Reference as the profile classifies that node, and is
/// owned by the scope of the node's nearest scope-introducing ancestor.
pub open spec fn occs_match_upto(
    occs: Seq<Occurrence>,
    ns: Seq<SyntaxNode>,
    p: LanguageProfile,
    i: int,
) -> bool {
    &&& occs.len() == ident_count_upto(ns, p, i)
    &&& forall|k: int| #![trigger ident_count_upto(ns, p, k)] 1 <= k < i && is_ident_node(
        p,
        ns[k],
    ) ==> {
        &&& 0 <= ident_count_upto(ns, p, k) < occs.len()
        &&& occs[ident_count_upto(ns, p, k)].start == ns[k].start
        &&& occs[ident_count_upto(ns, p, k)].end == ns[k].end
        &&& occs[ident_count_upto(ns, p, k)].scope as int == own_scope(ns, p, k)
        &&& (is_definition(occs[ident_count_upto(ns, p, k)]) <==> is_def_node(p, ns[k]))
    }
}

/// The whole occurrence list mirrors the tree's identifier nodes in
/// source order.
pub open spec fn occs_match_tree(occs: Seq<Occurrence>, ns: Seq<SyntaxNode>, p: LanguageProfile) -> bool {
    occs_match_upto(occs, ns, p, ns.len() as int)
}

proof fn lemma_scopes_match_skip(scopes: Seq<Scope>, ns: Seq<SyntaxNode>, p: LanguageProfile, i: int)
    requires
        scopes_match_upto(scopes, ns, p, i),
        1 <= i,
        !is_scope_node(p, ns[i]),
    ensures
        scopes_match_upto(scopes, ns, p, i + 1),
{
    assert(scope_count_upto(ns, p, i + 1) == scope_count_upto(ns, p, i));
    assert forall|k: int| #![trigger scope_count_upto(ns, p, k)] 1 <= k < i + 1 && is_scope_node(
        p,
        ns[k],
    ) implies {
        &&& own_scope(ns, p, k) == 1 + scope_count_upto(ns, p, k)
        &&& 0 <= 1 + scope_count_upto(ns, p, k) < scopes.len()
        &&& scopes[1 + scope_count_upto(ns, p, k)].parent as int == own_scope(
            ns,
            p,
            ns[k].parent as int,
        )
        &&& scopes[1 + scope_count_upto(ns, p, k)].start == ns[k].start
        &&& scopes[1 + scope_count_upto(ns, p, k)].end == ns[k].end
    } by {
        assert(k < i);
    }
}

proof fn lemma_scopes_match_push(
    scopes: Seq<Scope>,
    ns: Seq<SyntaxNode>,
    p: LanguageProfile,
    i: int,
    sc: Scope,
)
    requires
        scopes_match_upto(scopes, ns, p, i),
        1 <= i,
        is_scope_node(p, ns[i]),
        sc.parent as int == own_scope(ns, p, ns[i].parent as int),
        sc.start == ns[i].start,
        sc.end == ns[i].end,
    ensures
        scopes_match_upto(scopes.push(sc), ns, p, i + 1),
{
    assert(scope_count_upto(ns, p, i + 1) == scope_count_upto(ns, p, i) + 1);
    assert(own_scope(ns, p, i) == 1 + scope_count_upto(ns, p, i));
    assert forall|k: int| #![trigger scope_count_upto(ns, p, k)] 1 <= k < i + 1 && is_scope_node(
        p,
        ns[k],
    ) implies {
        &&& own_scope(ns, p, k) == 1 + scope_count_upto(ns, p, k)
        &&& 0 <= 1 + scope_count_upto(ns, p, k) < scopes.push(sc).len()
        &&& scopes.push(sc)[1 + scope_count_upto(ns, p, k)].parent as int == own_scope(
            ns,
            p,
            ns[k].parent as int,
        )
        &&& scopes.push(sc)[1 + scope_count_upto(ns, p, k)].start == ns[k].start
        &&& scopes.push(sc)[1 + scope_count_upto(ns, p, k)].end == ns[k].end
    } by {
        if k < i {
            assert(scopes.push(sc)[1 + scope_count_upto(ns, p, k)] == scopes[1 + scope_count_upto(
                ns,
                p,
                k,
            )]);
        } else {
            assert(k == i);
            assert(scopes.push(sc)[1 + scope_count_upto(ns, p, k)] == sc);
        }
    }
}

proof fn lemma_occs_match_skip(occs: Seq<Occurrence>, ns: Seq<SyntaxNode>, p: LanguageProfile, i: int)
    requires
        occs_match_upto(occs, ns, p, i),
        1 <= i,
        !is_ident_node(p, ns[i]),
    ensures
        occs_match_upto(occs, ns, p, i + 1),
{
    assert(ident_count_upto(ns, p, i + 1) == ident_count_upto(ns, p, i));
    assert forall|k: int| #![trigger ident_count_upto(ns, p, k)] 1 <= k < i + 1 && is_ident_node(
        p,
        ns[k],
    ) implies {
        &&& 0 <= ident_count_upto(ns, p, k) < occs.len()
        &&& occs[ident_count_upto(ns, p, k)].start == ns[k].start
        &&& occs[ident_count_upto(ns, p, k)].end == ns[k].end
        &&& occs[ident_count_upto(ns, p, k)].scope as int == own_scope(ns, p, k)
        &&& (is_definition(occs[ident_count_upto(ns, p, k)]) <==> is_def_node(p, ns[k]))
    } by {
        assert(k < i);
    }
}

proof fn lemma_occs_match_push(
    occs: Seq<Occurrence>,
    ns: Seq<SyntaxNode>,
    p: LanguageProfile,
    i: int,
    o: Occurrence,
)
    requires
        occs_match_upto(occs, ns, p, i),
        1 <= i,
        is_ident_node(p, ns[i]),
        o.start == ns[i].start,
        o.end == ns[i].end,
        o.scope as int == own_scope(ns, p, i),
        is_definition(o) <==> is_def_node(p, ns[i]),
    ensures
        occs_match_upto(occs.push(o), ns, p, i + 1),
{
    assert(ident_count_upto(ns, p, i + 1) == ident_count_upto(ns, p, i) + 1);
    assert forall|k: int| #![trigger ident_count_upto(ns, p, k)] 1 <= k < i + 1 && is_ident_node(
        p,
        ns[k],
    ) implies {
        &&& 0 <= ident_count_upto(ns, p, k) < occs.push(o).len()
        &&& occs.push(o)[ident_count_upto(ns, p, k)].start == ns[k].start
        &&& occs.push(o)[ident_count_upto(ns, p, k)].end == ns[k].end
        &&& occs.push(o)[ident_count_upto(ns, p, k)].scope as int == own_scope(ns, p, k)
        &&& (is_definition(occs.push(o)[ident_count_upto(ns, p, k)]) <==> is_def_node(p, ns[k]))
    } by {
        if k < i {
            assert(occs.push(o)[ident_count_upto(ns, p, k)] == occs[ident_count_upto(ns, p, k)]);
        } else {
            assert(k == i);
            assert(ident_count_upto(ns, p, k) == occs.len());
            assert(occs.push(o)[ident_count_upto(ns, p, k)] == o);
        }
    }
}

/// Binding ids play no part in the correspondence with the tree.
proof fn lemma_occs_match_cong(
    a: Seq<Occurrence>,
    b: Seq<Occurrence>,
    ns: Seq<SyntaxNode>,
    p: LanguageProfile,
)
    requires
        occs_match_tree(a, ns, p),
        same_skeleton(a, b),
    ensures
        occs_match_tree(b, ns, p),
{
    assert forall|k: int| #![trigger ident_count_upto(ns, p, k)] 1 <= k < ns.len()
        && is_ident_node(p, ns[k]) implies {
        &&& 0 <= ident_count_upto(ns, p, k) < b.len()
        &&& b[ident_count_upto(ns, p, k)].start == ns[k].start
        &&& b[ident_count_upto(ns, p, k)].end == ns[k].end
        &&& b[ident_count_upto(ns, p, k)].scope as int == own_scope(ns, p, k)
        &&& (is_definition(b[ident_count_upto(ns, p, k)]) <==> is_def_node(p, ns[k]))
    } by {
        assert(a[ident_count_upto(ns, p, k)].start == ns[k].start);
        assert(b[ident_count_upto(ns, p, k)].kind == a[ident_count_upto(ns, p, k)].kind);
    }
}

proof fn lemma_defs_before_push(occs: Seq<Occurrence>, o: Occurrence, j: int)
    requires
        0 <= j <= occs.len(),
    ensures
        defs_before(occs.push(o), j) == defs_before(occs, j),
    decreases j,
{
    if j > 0 {
        lemma_defs_before_push(occs, o, j - 1);
        assert(occs.push(o)[j - 1] == occs[j - 1]);
    }
}

proof fn lemma_defs_before_cong(a: Seq<Occurrence>, b: Seq<Occurrence>, j: int)
    requires
        a.len() == b.len(),
        forall|x: int| #![auto] 0 <= x < a.len() ==> a[x].kind == b[x].kind,
        0 <= j <= a.len(),
    ensures
        defs_before(a, j) == defs_before(b, j),
    decreases j,
{
    if j > 0 {
        lemma_defs_before_cong(a, b, j - 1);
    }
}

proof fn lemma_unresolved_before_cong(
    a: Seq<Occurrence>,
    b: Seq<Occurrence>,
    scopes: Seq<Scope>,
    content: Seq<u8>,
    j: int,
)
    requires
        a.len() == b.len(),
        forall|x: int| #![auto] 0 <= x < a.len() ==> a[x].scope == b[x].scope && a[x].start
            == b[x].start && a[x].end == b[x].end && a[x].kind == b[x].kind,
        0 <= j <= a.len(),
    ensures
        unresolved_before(a, scopes, content, j) == unresolved_before(b, scopes, content, j),
    decreases j,
{
    if j > 0 {
        lemma_unresolved_before_cong(a, b, scopes, content, j - 1);
        lemma_vis_cong(a, b, scopes, content);
    }
}

/// Binding ids play no part in visibility: two occurrence lists that agree
/// on everything but bindings agree on what is visible from where.
proof fn lemma_vis_cong(a: Seq<Occurrence>, b: Seq<Occurrence>, scopes: Seq<Scope>, content: Seq<u8>)
    requires
        a.len() == b.len(),
        forall|x: int| #![auto] 0 <= x < a.len() ==> a[x].scope == b[x].scope && a[x].start
            == b[x].start && a[x].end == b[x].end && a[x].kind == b[x].kind,
    ensures
        forall|i: int, k: int| #![auto] 0 <= i < a.len() ==> def_visible_from(
            a,
            scopes,
            content,
            i,
            k,
        ) == def_visible_from(b, scopes, content, i, k),
        forall|i: int| #![auto] 0 <= i < a.len() ==> ref_has_visible_def(a, scopes, content, i)
            == ref_has_visible_def(b, scopes, content, i),
{
    assert forall|i: int, k: int| 0 <= i < a.len() implies #[trigger] def_visible_from(
        a,
        scopes,
        content,
        i,
        k,
    ) == def_visible_from(b, scopes, content, i, k) by {
        if 0 <= k < a.len() {
            assert(occ_text(content, a[k]) == occ_text(content, b[k]));
            assert(occ_text(content, a[i]) == occ_text(content, b[i]));
        }
    }
    assert forall|i: int| 0 <= i < a.len() implies #[trigger] ref_has_visible_def(
        a,
        scopes,
        content,
        i,
    ) == ref_has_visible_def(b, scopes, content, i) by {
        if ref_has_visible_def(a, scopes, content, i) {
            let k = choose|k: int| def_visible_from(a, scopes, content, i, k);
            assert(def_visible_from(b, scopes, content, i, k));
        }
        if ref_has_visible_def(b, scopes, content, i) {
            let k = choose|k: int| def_visible_from(b, scopes, content, i, k);
            assert(def_visible_from(a, scopes, content, i, k));
        }
    }
}

/// Binding id `b` is the right resolution for reference `i`: it belongs to
/// a visible definition `k` in the nearest scope holding one, the last such
/// definition of that scope.
pub open spec fn binding_choice_ok(
    occs: Seq<Occurrence>,
    scopes: Seq<Scope>,
    content: Seq<u8>,
    i: int,
    k: int,
    b: u32,
) -> bool {
    &&& def_visible_from(occs, scopes, content, i, k)
    &&& occs[k].binding == b
    &&& forall|k2: int| #![auto] def_visible_from(occs, scopes, content, i, k2)
        ==> scope_encloses(scopes, occs[k2].scope as int, occs[k].scope as int)
    &&& forall|k2: int| #![auto] def_visible_from(occs, scopes, content, i, k2) && occs[k2].scope
        == occs[k].scope ==> k2 <= k
}

/// Scan the definition index, newest first, for a definition of scope `s`
/// whose text equals reference `rj`'s.
fn find_def_in_scope(
    occs: &Vec<Occurrence>,
    defs: &Vec<u32>,
    content: &Vec<u8>,
    s: u32,
    rj: usize,
) -> (r: Option<usize>)
    requires
        defs_index_ok(defs@, occs@),
        forall|j: int| 0 <= j < occs@.len() ==> (#[trigger] occs@[j]).start <= occs@[j].end
            <= content@.len(),
        rj < occs@.len(),
    ensures
        match r {
            Some(k) => k < occs@.len() && is_definition(occs@[k as int]) && occs@[k as int].scope
                == s && occ_text(content@, occs@[k as int]) == occ_text(content@, occs@[rj as int])
                && forall|k2: int| #![auto] 0 <= k2 < occs@.len() && is_definition(occs@[k2])
                    && occs@[k2].scope == s && occ_text(content@, occs@[k2]) == occ_text(
                    content@,
                    occs@[rj as int],
                ) ==> k2 <= k,
            None => forall|k2: int| #![auto] 0 <= k2 < occs@.len() && is_definition(occs@[k2])
                && occs@[k2].scope == s ==> occ_text(content@, occs@[k2]) != occ_text(
                content@,
                occs@[rj as int],
            ),
        },
{
    let mut m: usize = defs.len();
    while m > 0
        invariant
            m <= defs@.len(),
            defs_index_ok(defs@, occs@),
            rj < occs@.len(),
            forall|j: int| 0 <= j < occs@.len() ==> (#[trigger] occs@[j]).start <= occs@[j].end
                <= content@.len(),
            forall|m2: int| #![auto] m <= m2 < defs@.len() ==> !(occs@[defs@[m2] as int].scope == s
                && occ_text(content@, occs@[defs@[m2] as int]) == occ_text(
                content@,
                occs@[rj as int],
            )),
        decreases m,
    {
        m = m - 1;
        let k: usize = defs[m] as usize;
        let ok = occs[k];
        let orj = occs[rj];
        if ok.scope == s && range_text_eq(content, ok.start, ok.end, content, orj.start, orj.end) {
            proof {
                assert forall|k2: int| 0 <= k2 < occs@.len() && is_definition(occs@[k2])
                    && occs@[k2].scope == s && occ_text(content@, occs@[k2]) == occ_text(
                    content@,
                    occs@[rj as int],
                ) implies k2 <= k as int by {
                    let m2 = occs@[k2].binding as int;
                    assert(defs@[m2] == k2);
                    if m2 > m as int {
                        assert(!(occs@[defs@[m2] as int].scope == s && occ_text(
                            content@,
                            occs@[defs@[m2] as int],
                        ) == occ_text(content@, occs@[rj as int])));
                        assert(false);
                    }
                }
            }
            return Some(k);
        }
    }
    proof {
        assert forall|k2: int| 0 <= k2 < occs@.len() && is_definition(occs@[k2]) && occs@[k2].scope
            == s implies occ_text(content@, occs@[k2]) != occ_text(
            content@,
            occs@[rj as int],
        ) by {
            let m2 = occs@[k2].binding as int;
            assert(defs@[m2] == k2);
        }
    }
    None
}


/// Resolve reference `rj`: walk outward from its scope and return the
/// position of the nearest visible definition of the same text, `None`
/// when no definition is visible.
fn resolve_reference(
    occs: &Vec<Occurrence>,
    defs: &Vec<u32>,
    scopes: &Vec<Scope>,
    content: &Vec<u8>,
    rj: usize,
) -> (r: Option<usize>)
    requires
        scopes_wf(scopes@, content@.len() as int),
        forall|j: int| #![auto] 0 <= j < occs@.len() ==> occ_wf(occs@[j], scopes@, content@),
        defs_index_ok(defs@, occs@),
        rj < occs@.len(),
    ensures
        r is Some ==> r->0 < occs@.len() && binding_choice_ok(
            occs@,
            scopes@,
            content@,
            rj as int,
            r->0 as int,
            occs@[r->0 as int].binding,
        ),
        r is None ==> !ref_has_visible_def(occs@, scopes@, content@, rj as int),
{
    let mut s: u32 = occs[rj].scope;
    loop
        invariant
            scopes_wf(scopes@, content@.len() as int),
            forall|j: int| #![auto] 0 <= j < occs@.len() ==> occ_wf(occs@[j], scopes@, content@),
            defs_index_ok(defs@, occs@),
            rj < occs@.len(),
            s < scopes@.len(),
            scope_encloses(scopes@, s as int, occs@[rj as int].scope as int),
            forall|k: int| #![auto] def_visible_from(occs@, scopes@, content@, rj as int, k)
                ==> scope_encloses(scopes@, occs@[k].scope as int, s as int),
        decreases s,
    {
        match find_def_in_scope(occs, defs, content, s, rj) {
            Some(k) => {
                proof {
                    assert(def_visible_from(occs@, scopes@, content@, rj as int, k as int));
                    assert forall|k2: int| #[trigger] def_visible_from(
                        occs@,
                        scopes@,
                        content@,
                        rj as int,
                        k2,
                    ) && occs@[k2].scope == occs@[k as int].scope implies k2 <= k as int by {
                        assert(occs@[k2].scope == s);
                    }
                    assert(binding_choice_ok(
                        occs@,
                        scopes@,
                        content@,
                        rj as int,
                        k as int,
                        occs@[k as int].binding,
                    ));
                }
                return Some(k);
            },
            None => {
                if s == 0 {
                    proof {
                        if ref_has_visible_def(occs@, scopes@, content@, rj as int) {
                            let k = choose|k: int| def_visible_from(
                                occs@,
                                scopes@,
                                content@,
                                rj as int,
                                k,
                            );
                            assert(scope_encloses(scopes@, occs@[k].scope as int, 0));
                            assert(occs@[k].scope == 0);
                            assert(false);
                        }
                    }
                    return None;
                }
                let snext: u32 = scopes[s as usize].parent;
                proof {
                    lemma_encloses_parent(scopes@, s as int, occs@[rj as int].scope as int);
                    assert forall|k: int| #[trigger] def_visible_from(
                        occs@,
                        scopes@,
                        content@,
                        rj as int,
                        k,
                    ) implies scope_encloses(
                        scopes@,
                        occs@[k].scope as int,
                        snext as int,
                    ) by {
                        assert(scope_encloses(scopes@, occs@[k].scope as int, s as int));
                        assert(occs@[k].scope != s);
                    }
                }
                s = snext;
            },
        }
    }
}

/// First pass, scopes: one scope per scope-introducing node, nested as
/// the tree nests; `scope_of[k]` is the scope owning node `k`.
#[verifier::rlimit(100)]
fn build_scopes(
    tree: &SyntaxTree,
    profile: &LanguageProfile,
    content: &Vec<u8>,
) -> (r: (Vec<Scope>, Vec<u32>))
    requires
        tree_valid(*tree, *profile, content@),
    ensures
        ({
            let ns = tree.nodes@;
            let p = *profile;
            let scopes = r.0@;
            let scope_of = r.1@;
            &&& scopes_wf(scopes, content@.len() as int)
            &&& scopes.len() == 1 + scope_count_upto(ns, p, ns.len() as int)
            &&& scopes.len() <= ns.len()
            &&& scope_of.len() == ns.len()
            &&& forall|k: int| 0 <= k < ns.len() ==> 0 <= #[trigger] own_scope(ns, p, k)
                < scopes.len() && scope_of[k] as int == own_scope(ns, p, k)
            &&& forall|k: int| 0 <= k < ns.len() ==> scopes[#[trigger] own_scope(ns, p, k)].start
                <= ns[k].start && ns[k].end <= scopes[own_scope(ns, p, k)].end
            &&& forall|k: int| 0 <= k < ns.len() ==> (#[trigger] ns[k]).start <= ns[k].end
                <= content@.len()
            &&& scopes_match_tree(scopes, ns, p)
        }),
{
    let ghost ns = tree.nodes@;
    let ghost p = *profile;
    let n: usize = tree.nodes.len();
    let clen: u32 = content.len() as u32;
    let mut scopes: Vec<Scope> = Vec::new();
    scopes.push(Scope { parent: 0, start: 0, end: clen });
    let mut scope_of: Vec<u32> = Vec::new();
    scope_of.push(0);
    let mut i: usize = 1;
    while i < n
        invariant
            1 <= i <= n,
            n == ns.len(),
            ns == tree.nodes@,
            p == *profile,
            tree_valid(*tree, *profile, content@),
            clen == content@.len(),
            forall|k: int| 0 <= k < i ==> (#[trigger] ns[k]).start <= ns[k].end <= clen,
            scope_of@.len() == i,
            scopes@.len() == 1 + scope_count_upto(ns, p, i as int),
            scopes@.len() <= i,
            scopes@[0].parent == 0 && scopes@[0].start == 0 && scopes@[0].end == clen,
            scopes_wf(scopes@, clen as int),
            forall|k: int| 0 <= k < i ==> 0 <= #[trigger] own_scope(ns, p, k) < scopes@.len()
                && scope_of@[k] as int == own_scope(ns, p, k),
            forall|k: int| 0 <= k < i ==> scopes@[#[trigger] own_scope(ns, p, k)].start
                <= ns[k].start && ns[k].end <= scopes@[own_scope(ns, p, k)].end,
            scopes_match_upto(scopes@, ns, p, i as int),
        decreases n - i,
    {
        let nd = tree.nodes[i];
        proof {
            assert(nd == ns[i as int]);
            lemma_counts_bounded(ns, p, i as int);
        }
        let pidx: usize = nd.parent as usize;
        let encl: u32 = scope_of[pidx];
        if node_is_scope(profile, &nd) {
            let newidx: u32 = scopes.len() as u32;
            let ghost scopes_pre = scopes@;
            proof {
                assert(own_scope(ns, p, pidx as int) == encl as int);
                assert(scopes@[encl as int].start <= ns[pidx as int].start);
                assert(scopes@[encl as int].end >= ns[pidx as int].end);
            }
            scopes.push(Scope { parent: encl, start: nd.start, end: nd.end });
            scope_of.push(newidx);
            proof {
                assert(own_scope(ns, p, i as int) == newidx as int);
                assert(scopes@[encl as int].start <= ns[pidx as int].start);
                assert(scopes@[encl as int].end >= ns[pidx as int].end);
                assert(scopes_wf(scopes@, clen as int));
                lemma_scopes_match_push(
                    scopes_pre,
                    ns,
                    p,
                    i as int,
                    Scope { parent: encl, start: nd.start, end: nd.end },
                );
                assert(scopes@ == scopes_pre.push(
                    Scope { parent: encl, start: nd.start, end: nd.end },
                ));
            }
        } else {
            scope_of.push(encl);
            proof {
                assert(own_scope(ns, p, pidx as int) == encl as int);
                assert(own_scope(ns, p, i as int) == own_scope(ns, p, pidx as int));
                lemma_scopes_match_skip(scopes@, ns, p, i as int);
            }
        }
        i = i + 1;
    }
    (scopes, scope_of)
}

/// First pass, occurrences: one per identifier node, in source order,
/// owned by the scope of its nearest scope-introducing ancestor; every
/// binding id still zero.
#[verifier::rlimit(100)]
#[verifier::loop_isolation(false)]
fn build_occurrences(
    tree: &SyntaxTree,
    profile: &LanguageProfile,
    content: &Vec<u8>,
    scopes: &Vec<Scope>,
    scope_of: &Vec<u32>,
) -> (occs: Vec<Occurrence>)
    requires
        tree_valid(*tree, *profile, content@),
        scopes_wf(scopes@, content@.len() as int),
        tree.nodes@.len() <= u32::MAX,
        scope_of@.len() == tree.nodes@.len(),
        forall|k: int| 0 <= k < tree.nodes@.len() ==> 0 <= #[trigger] own_scope(
            tree.nodes@,
            *profile,
            k,
        ) < scopes@.len() && scope_of@[k] as int == own_scope(tree.nodes@, *profile, k),
        forall|k: int| 0 <= k < tree.nodes@.len() ==> scopes@[#[trigger] own_scope(
            tree.nodes@,
            *profile,
            k,
        )].start <= tree.nodes@[k].start && tree.nodes@[k].end <= scopes@[own_scope(
            tree.nodes@,
            *profile,
            k,
        )].end,
        forall|k: int| 0 <= k < tree.nodes@.len() ==> (#[trigger] tree.nodes@[k]).start
            <= tree.nodes@[k].end <= content@.len(),
    ensures
        ({
            let ns = tree.nodes@;
            let p = *profile;
            &&& occs@.len() < ns.len()
            &&& occs_wf(occs@, scopes@, content@)
            &&& occs_match_tree(occs@, ns, p)
        }),
{
    let ghost ns = tree.nodes@;
    let ghost p = *profile;
    let n: usize = tree.nodes.len();
    let mut occs: Vec<Occurrence> = Vec::new();
    let ghost mut last_ident: int = 0;
    let mut i: usize = 1;
    while i < n
        invariant
            1 <= i <= n,
            occs@.len() <= i - 1,
            forall|j: int| 0 <= j < occs@.len() ==> occ_wf(#[trigger] occs@[j], scopes@, content@),
            forall|j: int| 0 <= j < occs@.len() - 1 ==> (#[trigger] occs@[j]).end <= occs@[j
                + 1].start,
            occs@.len() > 0 ==> 1 <= last_ident < i && is_ident_node(p, ns[last_ident])
                && occs@[occs@.len() - 1].end == ns[last_ident].end,
            occs_match_upto(occs@, ns, p, i as int),
        decreases n - i,
    {
        let nd = tree.nodes[i];
        proof {
            assert(nd == ns[i as int]);
        }
        let is_d = node_is_def(profile, &nd);
        let is_r = node_is_ref(profile, &nd);
        if is_d || is_r {
            let encl: u32 = scope_of[i];
            let ghost occs_pre = occs@;
            proof {
                assert(is_ident_node(p, ns[i as int]));
                assert(own_scope(ns, p, i as int) == encl as int);
                assert(scopes@[encl as int].start <= ns[i as int].start);
                assert(scopes@[encl as int].end >= ns[i as int].end);
                if occs@.len() > 0 {
                    assert(is_ident_node(p, ns[last_ident]));
                    assert(ns[last_ident].end <= ns[i as int].start);
                }
            }
            let kind = if is_d {
                OccurrenceKind::Definition
            } else {
                OccurrenceKind::Reference
            };
            occs.push(Occurrence {
                scope: encl,
                start: nd.start,
                end: nd.end,
                kind: kind,
                binding: 0,
            });
            proof {
                assert(occs@[occs_pre.len() as int].scope == encl);
                lemma_occs_match_push(
                    occs_pre,
                    ns,
                    p,
                    i as int,
                    Occurrence {
                        scope: encl,
                        start: nd.start,
                        end: nd.end,
                        kind: kind,
                        binding: 0,
                    },
                );
                assert(occs@ == occs_pre.push(
                    Occurrence {
                        scope: encl,
                        start: nd.start,
                        end: nd.end,
                        kind: kind,
                        binding: 0,
                    },
                ));
                last_ident = i as int;
            }
        } else {
            proof {
                lemma_occs_match_skip(occs@, ns, p, i as int);
            }
        }
        i = i + 1;
    }
    proof {
        assert(occs_wf(occs@, scopes@, content@));
    }
    occs
}

/// Second pass: give definitions their binding ids, 0, 1, ... in source
/// order, and build the definition index.
fn build_defs_index(occs: &mut Vec<Occurrence>) -> (defs: Vec<u32>)
    requires
        old(occs)@.len() <= u32::MAX,
    ensures
        final(occs)@.len() == old(occs)@.len(),
        forall|x: int| #![auto] 0 <= x < old(occs)@.len() ==> final(occs)@[x].scope
            == old(occs)@[x].scope && final(occs)@[x].start == old(occs)@[x].start
            && final(occs)@[x].end == old(occs)@[x].end && final(occs)@[x].kind
            == old(occs)@[x].kind,
        forall|j: int| #![auto] 0 <= j < final(occs)@.len() && is_definition(final(occs)@[j])
            ==> final(occs)@[j].binding == defs_before(final(occs)@, j),
        defs_index_ok(defs@, final(occs)@),
{
    let ghost orig = occs@;
    let n: usize = occs.len();
    let mut defs: Vec<u32> = Vec::new();
    let mut j: usize = 0;
    while j < n
        invariant
            j <= n,
            n == occs@.len(),
            occs@.len() == orig.len(),
            orig.len() <= u32::MAX,
            forall|x: int| #![auto] 0 <= x < orig.len() ==> occs@[x].scope == orig[x].scope
                && occs@[x].start == orig[x].start && occs@[x].end == orig[x].end && occs@[x].kind
                == orig[x].kind,
            forall|x: int| #![auto] j <= x < orig.len() ==> occs@[x] == orig[x],
            defs@.len() == defs_before(occs@, j as int),
            forall|m: int| 0 <= m < defs@.len() ==> (#[trigger] defs@[m]) < j && is_definition(
                occs@[defs@[m] as int],
            ) && occs@[defs@[m] as int].binding == m,
            forall|m1: int, m2: int| #![auto] 0 <= m1 < m2 < defs@.len() ==> defs@[m1] < defs@[m2],
            forall|k: int| 0 <= k < j && is_definition(#[trigger] occs@[k]) ==> occs@[k].binding
                < defs@.len() && defs@[occs@[k].binding as int] == k && occs@[k].binding
                == defs_before(occs@, k),
        decreases n - j,
    {
        let oj = occs[j];
        proof {
            assert(defs_before(occs@, j + 1) == defs_before(occs@, j as int) + if is_definition(
                occs@[j as int],
            ) {
                1int
            } else {
                0int
            });
        }
        if oj.kind == OccurrenceKind::Definition {
            let ghost pre = occs@;
            proof {
                lemma_defs_before_mono(occs@, 0, j as int);
            }
            let m: u32 = defs.len() as u32;
            occs[j] = Occurrence {
                scope: oj.scope,
                start: oj.start,
                end: oj.end,
                kind: oj.kind,
                binding: m,
            };
            defs.push(j as u32);
            proof {
                assert forall|x: int| 0 <= x <= pre.len() implies #[trigger] defs_before(
                    occs@,
                    x,
                ) == defs_before(pre, x) by {
                    lemma_defs_before_cong(pre, occs@, x);
                }
                assert(occs@[j as int].binding == m);
                assert(is_definition(occs@[j as int]));
                assert(defs@[m as int] == j as u32);
                assert(defs@.len() == m + 1);
                assert(defs_before(occs@, j + 1) == defs_before(occs@, j as int) + 1);
                assert forall|k: int| 0 <= k < j + 1 && is_definition(
                    #[trigger] occs@[k],
                ) implies occs@[k].binding < defs@.len() && defs@[occs@[k].binding as int] == k
                    && occs@[k].binding == defs_before(occs@, k) by {
                    if k < j as int {
                        assert(occs@[k] == pre[k]);
                    }
                }
            }
        }
        j = j + 1;
    }
    defs
}

/// Third pass: resolve every reference against the definition index.
fn assign_bindings(
    occs: &mut Vec<Occurrence>,
    defs: &Vec<u32>,
    scopes: &Vec<Scope>,
    content: &Vec<u8>,
)
    requires
        scopes_wf(scopes@, content@.len() as int),
        occs_wf(old(occs)@, scopes@, content@),
        forall|j: int| #![auto] 0 <= j < old(occs)@.len() && is_definition(old(occs)@[j])
            ==> old(occs)@[j].binding == defs_before(old(occs)@, j),
        defs_index_ok(defs@, old(occs)@),
    ensures
        occs_wf(final(occs)@, scopes@, content@),
        refs_resolved(final(occs)@, scopes@, content@),
        same_skeleton(old(occs)@, final(occs)@),
{
    let ghost skel = occs@;
    let n: usize = occs.len();
    let total: u32 = defs.len() as u32;
    let mut fresh: u32 = 0;
    let mut j: usize = 0;
    proof {
        lemma_defs_before_mono(occs@, 0, occs@.len() as int);
    }
    while j < n
        invariant
            j <= n,
            n == occs@.len(),
            occs@.len() == skel.len(),
            skel.len() <= u32::MAX,
            scopes_wf(scopes@, content@.len() as int),
            forall|x: int| #![auto] 0 <= x < skel.len() ==> occs@[x].scope == skel[x].scope
                && occs@[x].start == skel[x].start && occs@[x].end == skel[x].end && occs@[x].kind
                == skel[x].kind,
            forall|x: int| #![auto] j <= x < skel.len() ==> occs@[x] == skel[x],
            forall|jj: int| #![auto] 0 <= jj < occs@.len() ==> occ_wf(occs@[jj], scopes@, content@),
            forall|jj: int| #![auto] 0 <= jj < occs@.len() && is_definition(occs@[jj])
                ==> occs@[jj].binding == defs_before(occs@, jj),
            defs_index_ok(defs@, occs@),
            total == total_defs(occs@),
            fresh == unresolved_before(occs@, scopes@, content@, j as int),
            forall|k: int| #![auto] 0 <= k < j && !is_definition(occs@[k]) && ref_has_visible_def(
                occs@,
                scopes@,
                content@,
                k,
            ) ==> exists|kk: int| resolved_to(occs@, scopes@, content@, k, kk),
            forall|k: int| #![auto] 0 <= k < j && !is_definition(occs@[k]) && !ref_has_visible_def(
                occs@,
                scopes@,
                content@,
                k,
            ) ==> occs@[k].binding == total_defs(occs@) + unresolved_before(
                occs@,
                scopes@,
                content@,
                k,
            ),
        decreases n - j,
    {
        let oj = occs[j];
        if oj.kind == OccurrenceKind::Reference {
            let ghost pre = occs@;
            let found = resolve_reference(occs, defs, scopes, content, j);
            let newb: u32 = match found {
                Some(kidx) => occs[kidx].binding,
                None => {
                    proof {
                        lemma_unresolved_before_bounds(pre, scopes@, content@, j as int);
                        lemma_defs_before_mono(pre, 0, j as int);
                        lemma_defs_before_mono(pre, j as int, pre.len() as int);
                        assert(total + fresh <= pre.len());
                    }
                    total + fresh
                },
            };
            occs[j] = Occurrence {
                scope: oj.scope,
                start: oj.start,
                end: oj.end,
                kind: oj.kind,
                binding: newb,
            };
            proof {
                lemma_vis_cong(pre, occs@, scopes@, content@);
                assert forall|x: int| 0 <= x <= pre.len() implies #[trigger] defs_before(
                    occs@,
                    x,
                ) == defs_before(pre, x) by {
                    lemma_defs_before_cong(pre, occs@, x);
                }
                assert forall|x: int| 0 <= x <= pre.len() implies #[trigger] unresolved_before(
                    occs@,
                    scopes@,
                    content@,
                    x,
                ) == unresolved_before(pre, scopes@, content@, x) by {
                    lemma_unresolved_before_cong(pre, occs@, scopes@, content@, x);
                }
                assert forall|k: int| 0 <= k < j && !is_definition(occs@[k])
                    && #[trigger] ref_has_visible_def(
                    occs@,
                    scopes@,
                    content@,
                    k,
                ) implies exists|kx: int| resolved_to(occs@, scopes@, content@, k, kx) by {
                    assert(ref_has_visible_def(pre, scopes@, content@, k));
                    let kx = choose|kx: int| resolved_to(pre, scopes@, content@, k, kx);
                    assert(resolved_to(pre, scopes@, content@, k, kx));
                    assert(kx != j as int);
                    assert(resolved_to(occs@, scopes@, content@, k, kx)) by {
                        assert(def_visible_from(occs@, scopes@, content@, k, kx));
                        assert forall|k2: int| #[trigger] def_visible_from(
                            occs@,
                            scopes@,
                            content@,
                            k,
                            k2,
                        ) implies scope_encloses(
                            scopes@,
                            occs@[k2].scope as int,
                            occs@[kx].scope as int,
                        ) && (occs@[k2].scope == occs@[kx].scope ==> k2 <= kx) by {
                            assert(def_visible_from(pre, scopes@, content@, k, k2));
                        }
                    }
                }
                match found {
                    Some(kidx) => {
                        assert(binding_choice_ok(
                            pre,
                            scopes@,
                            content@,
                            j as int,
                            kidx as int,
                            newb,
                        ));
                        assert(kidx as int != j as int);
                        assert(resolved_to(occs@, scopes@, content@, j as int, kidx as int)) by {
                            assert(def_visible_from(occs@, scopes@, content@, j as int, kidx as int));
                            assert(occs@[kidx as int].binding == newb);
                            assert forall|k2: int| #[trigger] def_visible_from(
                                occs@,
                                scopes@,
                                content@,
                                j as int,
                                k2,
                            ) implies scope_encloses(
                                scopes@,
                                occs@[k2].scope as int,
                                occs@[kidx as int].scope as int,
                            ) && (occs@[k2].scope == occs@[kidx as int].scope ==> k2 <= kidx as int) by {
                                assert(def_visible_from(pre, scopes@, content@, j as int, k2));
                            }
                        }
                        assert(ref_has_visible_def(occs@, scopes@, content@, j as int)) by {
                            assert(def_visible_from(occs@, scopes@, content@, j as int, kidx as int));
                        }
                    },
                    None => {
                        assert(!ref_has_visible_def(occs@, scopes@, content@, j as int));
                    },
                }
            }
            if found.is_none() {
                fresh = fresh + 1;
            }
        }
        j = j + 1;
    }
    proof {
        assert(occs_wf(occs@, scopes@, content@));
        assert(refs_resolved(occs@, scopes@, content@));
        assert(same_skeleton(skel, occs@));
    }
}

/// Build the scope graph of one file from its parsed syntax tree. Fails
/// exactly when the tree breaks the validated shape. A built graph is well
/// formed against the content, mirrors the tree's scopes and identifiers,
/// and carries the binding discipline of `bindings_assigned`.
#[verifier::rlimit(100)]
#[verifier::spinoff_prover]
pub fn build_scope_graph(
    tree: &SyntaxTree,
    profile: &LanguageProfile,
    content: &Vec<u8>,
) -> (r: Result<ScopeGraph, BuildError>)
    ensures
        r is Ok <==> tree_valid(*tree, *profile, content@),
        r matches Ok(g) ==> graph_wf(g, content@) && bindings_assigned(g, content@)
            && scopes_match_tree(g.scopes@, tree.nodes@, *profile) && occs_match_tree(
            g.occurrences@,
            tree.nodes@,
            *profile,
        ),
{
    if !validate_tree(tree, profile, content) {
        return Err(BuildError::MalformedTree);
    }
    let ghost ns = tree.nodes@;
    let ghost p = *profile;
    let st = build_scopes(tree, profile, content);
    let scopes: Vec<Scope> = st.0;
    let scope_of: Vec<u32> = st.1;
    let occs: Vec<Occurrence> = build_occurrences(tree, profile, content, &scopes, &scope_of);
    let ghost occs_bo = occs@;
    let g = finish_graph(scopes, occs, content);
    proof {
        lemma_occs_match_cong(occs_bo, g.occurrences@, ns, p);
    }
    Ok(g)
}

/// Bind every occurrence of a structurally finished graph: definition ids
/// first, then reference resolution, then assembly.
#[verifier::rlimit(100)]
fn finish_graph(scopes: Vec<Scope>, occs_in: Vec<Occurrence>, content: &Vec<u8>) -> (g: ScopeGraph)
    requires
        content@.len() <= u32::MAX,
        scopes_wf(scopes@, content@.len() as int),
        occs_wf(occs_in@, scopes@, content@),
    ensures
        graph_wf(g, content@),
        bindings_assigned(g, content@),
        g.scopes@ == scopes@,
        same_skeleton(occs_in@, g.occurrences@),
{
    let mut occs = occs_in;
    let ghost occs_a = occs@;
    let defs: Vec<u32> = build_defs_index(&mut occs);
    proof {
        lemma_fields_carry_over(content@, scopes@, occs_a, occs@);
        assert(same_skeleton(occs_a, occs@));
    }
    let ghost occs_b = occs@;
    assign_bindings(&mut occs, &defs, &scopes, content);
    proof {
        assert(same_skeleton(occs_b, occs@));
        lemma_same_skeleton_trans(occs_a, occs_b, occs@);
    }
    let g = ScopeGraph { scopes: scopes, occurrences: occs };
    g
}

/// Occurrence fields other than the binding ids survive the binding
/// passes, so the built list keeps the first pass's well-formedness,
/// ordering, and correspondence with the identifier nodes.
#[verifier::rlimit(100)]
proof fn lemma_fields_carry_over(
    content: Seq<u8>,
    scopes: Seq<Scope>,
    occs_a: Seq<Occurrence>,
    occs: Seq<Occurrence>,
)
    requires
        occs.len() == occs_a.len(),
        forall|x: int| #![auto] 0 <= x < occs_a.len() ==> occs[x].scope == occs_a[x].scope
            && occs[x].start == occs_a[x].start && occs[x].end == occs_a[x].end && occs[x].kind
            == occs_a[x].kind,
        occs_wf(occs_a, scopes, content),
    ensures
        occs_wf(occs, scopes, content),
{
    assert forall|j: int| 0 <= j < occs.len() implies occ_wf(
        #[trigger] occs[j],
        scopes,
        content,
    ) by {
        assert(occ_wf(occs_a[j], scopes, content));
    }
    assert forall|j: int| 0 <= j < occs.len() - 1 implies (#[trigger] occs[j]).end <= occs[j
        + 1].start by {
        assert(occs_a[j].end <= occs_a[j + 1].start);
    }
}

} // verus!
