//! Language classification: a pure lookup from a file-name extension to a
//! language tag. Files whose extension is outside the table are excluded
//! from indexing altogether.

use vstd::prelude::*;

verus! {

/// Language tag for a file-name extension; `None` for an extension outside
/// the table.
pub open spec fn spec_language_for_extension(ext: Seq<u8>) -> Option<Seq<u8>> {
    if ext.len() == 2 && ext[0] == 114u8 && ext[1] == 115u8 {
        Some(seq![114u8, 117u8, 115u8, 116u8])
    } else if ext.len() == 2 && ext[0] == 112u8 && ext[1] == 121u8 {
        Some(seq![112u8, 121u8, 116u8, 104u8, 111u8, 110u8])
    } else if ext.len() == 2 && ext[0] == 106u8 && ext[1] == 115u8 {
        Some(seq![106u8, 97u8, 118u8, 97u8, 115u8, 99u8, 114u8, 105u8, 112u8, 116u8])
    } else if ext.len() == 2 && ext[0] == 116u8 && ext[1] == 115u8 {
        Some(seq![116u8, 121u8, 112u8, 101u8, 115u8, 99u8, 114u8, 105u8, 112u8, 116u8])
    } else if ext.len() == 2 && ext[0] == 103u8 && ext[1] == 111u8 {
        Some(seq![103u8, 111u8])
    } else if ext.len() == 2 && ext[0] == 114u8 && ext[1] == 98u8 {
        Some(seq![114u8, 117u8, 98u8, 121u8])
    } else if ext.len() == 1 && ext[0] == 99u8 {
        Some(seq![99u8])
    } else if ext.len() == 1 && ext[0] == 104u8 {
        Some(seq![99u8])
    } else if ext.len() == 3 && ext[0] == 99u8 && ext[1] == 112u8 && ext[2] == 112u8 {
        Some(seq![99u8, 112u8, 112u8])
    } else if ext.len() == 4 && ext[0] == 106u8 && ext[1] == 97u8 && ext[2] == 118u8 && ext[3] == 97u8 {
        Some(seq![106u8, 97u8, 118u8, 97u8])
    } else {
        None
    }
}

/// Position of the last occurrence of `c` in `s`, if any.
pub open spec fn spec_last_byte_pos(s: Seq<u8>, c: u8) -> Option<int>
    decreases s.len(),
{
    if s.len() == 0 {
        None
    } else if s.last() == c {
        Some(s.len() - 1)
    } else {
        spec_last_byte_pos(s.drop_last(), c)
    }
}

/// The extension of a path: the text after the last `.` of the last path
/// component, provided that dot is not the component's first byte (a
/// leading-dot name has no extension).
pub open spec fn spec_extension_of(path: Seq<u8>) -> Option<Seq<u8>> {
    let comp_start: int = match spec_last_byte_pos(path, 47u8) {
        Some(i) => i + 1,
        None => 0,
    };
    match spec_last_byte_pos(path, 46u8) {
        Some(d) => if d > comp_start {
            Some(path.subrange(d + 1, path.len() as int))
        } else {
            None
        },
        None => None,
    }
}

/// What the classifier assigns to a whole path.
pub open spec fn spec_language_for_path(path: Seq<u8>) -> Option<Seq<u8>> {
    match spec_extension_of(path) {
        Some(ext) => spec_language_for_extension(ext),
        None => None,
    }
}

proof fn lemma_last_byte_pos_bounds(s: Seq<u8>, c: u8)
    ensures
        match spec_last_byte_pos(s, c) {
            Some(i) => 0 <= i < s.len() && s[i] == c && forall|j: int| i < j < s.len() ==> s[j] != c,
            None => forall|j: int| 0 <= j < s.len() ==> s[j] != c,
        },
    decreases s.len(),
{
    if s.len() > 0 && s.last() != c {
        lemma_last_byte_pos_bounds(s.drop_last(), c);
        assert(forall|j: int| 0 <= j < s.len() - 1 ==> s.drop_last()[j] == s[j]);
    }
}

/// Position of the last occurrence of `c` in `s`, if any.
fn last_byte_pos(s: &Vec<u8>, c: u8) -> (r: Option<usize>)
    ensures
        match r {
            Some(i) => spec_last_byte_pos(s@, c) == Some(i as int),
            None => spec_last_byte_pos(s@, c) is None,
        },
{
    let mut i: usize = s.len();
    proof {
        assert(s@.take(s@.len() as int) =~= s@);
    }
    while i > 0
        invariant
            i <= s.len(),
            spec_last_byte_pos(s@, c) == spec_last_byte_pos(s@.take(i as int), c),
        decreases i,
    {
        i = i - 1;
        proof {
            assert(s@.take(i + 1).drop_last() =~= s@.take(i as int));
            assert(s@.take(i + 1).last() == s@[i as int]);
        }
        if s[i] == c {
            return Some(i);
        }
    }
    proof {
        assert(s@.take(0) =~= Seq::<u8>::empty());
    }
    None
}

/// The extension of `path`, per `spec_extension_of`.
pub fn extension_of(path: &Vec<u8>) -> (r: Option<Vec<u8>>)
    ensures
        match r {
            Some(e) => spec_extension_of(path@) == Some(e@),
            None => spec_extension_of(path@) is None,
        },
{
    let plen: usize = path.len();
    proof {
        lemma_last_byte_pos_bounds(path@, 47u8);
        lemma_last_byte_pos_bounds(path@, 46u8);
    }
    let comp_start: usize = match last_byte_pos(path, 47u8) {
        Some(i) => i + 1,
        None => 0,
    };
    match last_byte_pos(path, 46u8) {
        Some(d) => {
            if d > comp_start {
                let mut ext: Vec<u8> = Vec::new();
                let mut k: usize = d + 1;
                while k < path.len()
                    invariant
                        d + 1 <= k <= path.len(),
                        ext@ =~= path@.subrange(d + 1, k as int),
                    decreases path.len() - k,
                {
                    ext.push(path[k]);
                    k = k + 1;
                }
                proof {
                    assert(ext@ =~= path@.subrange(d + 1, path@.len() as int));
                }
                Some(ext)
            } else {
                None
            }
        },
        None => None,
    }
}

/// Language tag for an extension, per the classifier table.
pub fn language_for_extension(ext: &Vec<u8>) -> (r: Option<Vec<u8>>)
    ensures
        match r {
            Some(l) => spec_language_for_extension(ext@) == Some(l@),
            None => spec_language_for_extension(ext@) is None,
        },
{
    let n = ext.len();
    if n == 2 && ext[0] == 114u8 && ext[1] == 115u8 {
        let r: Vec<u8> = vec![114u8, 117u8, 115u8, 116u8];
        proof { assert(r@ =~= seq![114u8, 117u8, 115u8, 116u8]); }
        Some(r)
    } else if n == 2 && ext[0] == 112u8 && ext[1] == 121u8 {
        let r: Vec<u8> = vec![112u8, 121u8, 116u8, 104u8, 111u8, 110u8];
        proof { assert(r@ =~= seq![112u8, 121u8, 116u8, 104u8, 111u8, 110u8]); }
        Some(r)
    } else if n == 2 && ext[0] == 106u8 && ext[1] == 115u8 {
        let r: Vec<u8> = vec![106u8, 97u8, 118u8, 97u8, 115u8, 99u8, 114u8, 105u8, 112u8, 116u8];
        proof { assert(r@ =~= seq![106u8, 97u8, 118u8, 97u8, 115u8, 99u8, 114u8, 105u8, 112u8, 116u8]); }
        Some(r)
    } else if n == 2 && ext[0] == 116u8 && ext[1] == 115u8 {
        let r: Vec<u8> = vec![116u8, 121u8, 112u8, 101u8, 115u8, 99u8, 114u8, 105u8, 112u8, 116u8];
        proof { assert(r@ =~= seq![116u8, 121u8, 112u8, 101u8, 115u8, 99u8, 114u8, 105u8, 112u8, 116u8]); }
        Some(r)
    } else if n == 2 && ext[0] == 103u8 && ext[1] == 111u8 {
        let r: Vec<u8> = vec![103u8, 111u8];
        proof { assert(r@ =~= seq![103u8, 111u8]); }
        Some(r)
    } else if n == 2 && ext[0] == 114u8 && ext[1] == 98u8 {
        let r: Vec<u8> = vec![114u8, 117u8, 98u8, 121u8];
        proof { assert(r@ =~= seq![114u8, 117u8, 98u8, 121u8]); }
        Some(r)
    } else if n == 1 && ext[0] == 99u8 {
        let r: Vec<u8> = vec![99u8];
        proof { assert(r@ =~= seq![99u8]); }
        Some(r)
    } else if n == 1 && ext[0] == 104u8 {
        let r: Vec<u8> = vec![99u8];
        proof { assert(r@ =~= seq![99u8]); }
        Some(r)
    } else if n == 3 && ext[0] == 99u8 && ext[1] == 112u8 && ext[2] == 112u8 {
        let r: Vec<u8> = vec![99u8, 112u8, 112u8];
        proof { assert(r@ =~= seq![99u8, 112u8, 112u8]); }
        Some(r)
    } else if n == 4 && ext[0] == 106u8 && ext[1] == 97u8 && ext[2] == 118u8 && ext[3] == 97u8 {
        let r: Vec<u8> = vec![106u8, 97u8, 118u8, 97u8];
        proof { assert(r@ =~= seq![106u8, 97u8, 118u8, 97u8]); }
        Some(r)
    } else {
        None
    }
}

/// Language tag for a whole path: classify the extension, if there is one.
pub fn language_for_path(path: &Vec<u8>) -> (r: Option<Vec<u8>>)
    ensures
        match r {
            Some(l) => spec_language_for_path(path@) == Some(l@),
            None => spec_language_for_path(path@) is None,
        },
{
    match extension_of(path) {
        Some(ext) => language_for_extension(&ext),
        None => None,
    }
}

} // verus!
