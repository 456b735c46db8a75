//! The parsed syntax of one file, as the external parser hands it over:
//! a flat node table in preorder (every node's parent sits at a smaller
//! index), plus the per-language table that says which node kinds introduce
//! scopes and which are identifiers in definition or reference position.
//! Trees are untrusted input and validated in full.

use vstd::prelude::*;
use crate::scope_graph::is_char_boundary;

verus! {

/// One syntax-tree node: parent index, byte range, and the parser's node
/// kind code.
#[derive(Clone, Copy, Debug, PartialEq, Eq, Structural)]
pub struct SyntaxNode {
    pub parent: u32,
    pub start: u32,
    pub end: u32,
    pub kind: u32,
}

/// A whole parse tree in flat preorder form; node 0 is the root.
#[derive(Debug)]
pub struct SyntaxTree {
    pub nodes: Vec<SyntaxNode>,
}

/// A language profile: which node kinds introduce a scope, and which are
/// named identifiers in binding (definition) or use (reference) position.
#[derive(Debug)]
pub struct LanguageProfile {
    pub scope_kinds: Vec<u32>,
    pub def_kinds: Vec<u32>,
    pub ref_kinds: Vec<u32>,
}

/// Scope-introducing nodes take precedence over identifier classification.
pub open spec fn is_scope_node(p: LanguageProfile, n: SyntaxNode) -> bool {
    p.scope_kinds@.contains(n.kind)
}

pub open spec fn is_def_node(p: LanguageProfile, n: SyntaxNode) -> bool {
    !is_scope_node(p, n) && p.def_kinds@.contains(n.kind)
}

pub open spec fn is_ref_node(p: LanguageProfile, n: SyntaxNode) -> bool {
    !is_scope_node(p, n) && !p.def_kinds@.contains(n.kind) && p.ref_kinds@.contains(n.kind)
}

pub open spec fn is_ident_node(p: LanguageProfile, n: SyntaxNode) -> bool {
    is_def_node(p, n) || is_ref_node(p, n)
}

/// A tree the builder accepts: the root spans the whole file, every other
/// node nests inside an earlier parent, and identifier nodes sit on
/// code-point boundaries, in ascending source order, without overlap.
pub open spec fn tree_valid(t: SyntaxTree, p: LanguageProfile, content: Seq<u8>) -> bool {
    let nodes = t.nodes@;
    &&& content.len() <= u32::MAX
    &&& 1 <= nodes.len() <= u32::MAX
    &&& nodes[0].parent == 0
    &&& nodes[0].start == 0
    &&& nodes[0].end == content.len()
    &&& forall|i: int| #![auto] 1 <= i < nodes.len() ==> {
        &&& nodes[i].parent < i
        &&& nodes[nodes[i].parent as int].start <= nodes[i].start
        &&& nodes[i].start <= nodes[i].end
        &&& nodes[i].end <= nodes[nodes[i].parent as int].end
    }
    &&& forall|i: int| #![auto] 1 <= i < nodes.len() && is_ident_node(p, nodes[i])
        ==> is_char_boundary(content, nodes[i].start as int)
            && is_char_boundary(content, nodes[i].end as int)
    &&& forall|i: int, j: int| #![auto] 1 <= i < j < nodes.len() && is_ident_node(p, nodes[i])
        && is_ident_node(p, nodes[j]) ==> nodes[i].end <= nodes[j].start
}

/// Linear scan for a kind code in a profile list.
pub fn kind_in(list: &Vec<u32>, k: u32) -> (r: bool)
    ensures
        r == list@.contains(k),
{
    let mut i: usize = 0;
    while i < list.len()
        invariant
            i <= list@.len(),
            forall|j: int| 0 <= j < i ==> list@[j] != k,
        decreases list@.len() - i,
    {
        if list[i] == k {
            return true;
        }
        i = i + 1;
    }
    false
}

pub fn node_is_scope(p: &LanguageProfile, n: &SyntaxNode) -> (r: bool)
    ensures
        r == is_scope_node(*p, *n),
{
    kind_in(&p.scope_kinds, n.kind)
}

pub fn node_is_def(p: &LanguageProfile, n: &SyntaxNode) -> (r: bool)
    ensures
        r == is_def_node(*p, *n),
{
    !kind_in(&p.scope_kinds, n.kind) && kind_in(&p.def_kinds, n.kind)
}

pub fn node_is_ref(p: &LanguageProfile, n: &SyntaxNode) -> (r: bool)
    ensures
        r == is_ref_node(*p, *n),
{
    !kind_in(&p.scope_kinds, n.kind) && !kind_in(&p.def_kinds, n.kind)
        && kind_in(&p.ref_kinds, n.kind)
}

pub fn node_is_ident(p: &LanguageProfile, n: &SyntaxNode) -> (r: bool)
    ensures
        r == is_ident_node(*p, *n),
{
    node_is_def(p, n) || node_is_ref(p, n)
}

pub fn boundary_ok(content: &Vec<u8>, pos: u32) -> (r: bool)
    requires
        pos <= content@.len(),
    ensures
        r == is_char_boundary(content@, pos as int),
{
    if pos as usize == content.len() {
        true
    } else {
        let b: u8 = content[pos as usize];
        b < 0x80 || b >= 0xC0
    }
}

/// Check a whole tree against `tree_valid`.
pub fn validate_tree(t: &SyntaxTree, p: &LanguageProfile, content: &Vec<u8>) -> (r: bool)
    ensures
        r == tree_valid(*t, *p, content@),
{
    let clen: usize = content.len();
    if clen > u32::MAX as usize {
        return false;
    }
    let n: usize = t.nodes.len();
    if n == 0 || n > u32::MAX as usize {
        return false;
    }
    let root = t.nodes[0];
    if !(root.parent == 0 && root.start == 0 && root.end as usize == clen) {
        return false;
    }
    let mut has_ident: bool = false;
    let mut last_end: u32 = 0;
    let ghost mut last_ident: int = 0;
    let mut i: usize = 1;
    while i < n
        invariant
            1 <= i <= n,
            n == t.nodes@.len(),
            n <= u32::MAX,
            clen == content@.len(),
            clen <= u32::MAX,
            t.nodes@[0].parent == 0 && t.nodes@[0].start == 0 && t.nodes@[0].end == clen,
            forall|k: int| 0 <= k < i
                ==> (#[trigger] t.nodes@[k]).start <= t.nodes@[k].end <= clen,
            forall|k: int| #![auto] 1 <= k < i ==> {
                &&& t.nodes@[k].parent < k
                &&& t.nodes@[t.nodes@[k].parent as int].start <= t.nodes@[k].start
                &&& t.nodes@[k].start <= t.nodes@[k].end
                &&& t.nodes@[k].end <= t.nodes@[t.nodes@[k].parent as int].end
            },
            forall|k: int| #![auto] 1 <= k < i && is_ident_node(*p, t.nodes@[k])
                ==> is_char_boundary(content@, t.nodes@[k].start as int)
                    && is_char_boundary(content@, t.nodes@[k].end as int),
            forall|k1: int, k2: int| #![auto] 1 <= k1 < k2 < i && is_ident_node(*p, t.nodes@[k1])
                && is_ident_node(*p, t.nodes@[k2]) ==> t.nodes@[k1].end <= t.nodes@[k2].start,
            has_ident == exists|k: int| 1 <= k < i && #[trigger] is_ident_node(*p, t.nodes@[k]),
            has_ident ==> 1 <= last_ident < i && is_ident_node(*p, t.nodes@[last_ident])
                && t.nodes@[last_ident].end == last_end
                && forall|k: int| #![auto] 1 <= k < i && is_ident_node(*p, t.nodes@[k])
                    ==> t.nodes@[k].end <= last_end,
        decreases n - i,
    {
        let nd = t.nodes[i];
        let pi: usize = nd.parent as usize;
        if pi >= i {
            return false;
        }
        let pnd = t.nodes[pi];
        if !(pnd.start <= nd.start && nd.start <= nd.end && nd.end <= pnd.end) {
            return false;
        }
        if node_is_ident(p, &nd) {
            if !boundary_ok(content, nd.start) || !boundary_ok(content, nd.end) {
                return false;
            }
            if has_ident && last_end > nd.start {
                return false;
            }
            has_ident = true;
            last_end = nd.end;
            proof {
                last_ident = i as int;
            }
        }
        i = i + 1;
    }
    true
}

} // verus!
