//! The stored forms of the library's data: little-endian 32-bit primitives,
//! and the versioned word encoding of a scope graph, proved to round-trip.

use vstd::prelude::*;
use crate::scope_graph::{Scope, Occurrence, OccurrenceKind, ScopeGraph, SymbolLocations};

verus! {

/// Little-endian byte form of a 32-bit value.
pub open spec fn enc_u32(n: u32) -> Seq<u8> {
    seq![
        (n & 0xff) as u8,
        ((n >> 8) & 0xff) as u8,
        ((n >> 16) & 0xff) as u8,
        ((n >> 24) & 0xff) as u8,
    ]
}

/// The 32-bit value stored little-endian at `pos`.
pub open spec fn dec_u32(b: Seq<u8>, pos: int) -> u32 {
    (b[pos] as u32)
        | ((b[pos + 1] as u32) << 8)
        | ((b[pos + 2] as u32) << 16)
        | ((b[pos + 3] as u32) << 24)
}

/// Reading four encoded bytes back gives the value that was written.
pub proof fn lemma_dec_of_enc_u32(b: Seq<u8>, pos: int, n: u32)
    requires
        0 <= pos,
        pos + 4 <= b.len(),
        b.subrange(pos, pos + 4) == enc_u32(n),
    ensures
        dec_u32(b, pos) == n,
{
    assert(b[pos] == enc_u32(n)[0]);
    assert(b[pos + 1] == enc_u32(n)[1]);
    assert(b[pos + 2] == enc_u32(n)[2]);
    assert(b[pos + 3] == enc_u32(n)[3]);
    assert((((n & 0xff) as u8) as u32)
        | (((((n >> 8) & 0xff) as u8) as u32) << 8)
        | (((((n >> 16) & 0xff) as u8) as u32) << 16)
        | (((((n >> 24) & 0xff) as u8) as u32) << 24) == n) by (bit_vector);
}

/// `dec_u32` reads only the four bytes at `pos`.
pub proof fn lemma_dec_u32_prefix(bp: Seq<u8>, b: Seq<u8>, pos: int)
    requires
        0 <= pos,
        pos + 4 <= bp.len(),
        forall|k: int| pos <= k < pos + 4 ==> k < b.len() && b[k] == bp[k],
    ensures
        dec_u32(b, pos) == dec_u32(bp, pos),
{
}

/// Append the little-endian byte form of `n`.
pub fn push_u32(out: &mut Vec<u8>, n: u32)
    ensures
        final(out)@ == old(out)@ + enc_u32(n),
{
    out.push((n & 0xff) as u8);
    out.push(((n >> 8) & 0xff) as u8);
    out.push(((n >> 16) & 0xff) as u8);
    out.push(((n >> 24) & 0xff) as u8);
    proof {
        assert(out@ =~= old(out)@ + enc_u32(n));
    }
}

/// Read the 32-bit value stored little-endian at `pos`.
pub fn read_u32(b: &Vec<u8>, pos: usize) -> (r: u32)
    requires
        pos + 4 <= b@.len(),
    ensures
        r == dec_u32(b@, pos as int),
{
    let n: usize = b.len();
    (b[pos] as u32)
        | ((b[pos + 1] as u32) << 8)
        | ((b[pos + 2] as u32) << 16)
        | ((b[pos + 3] as u32) << 24)
}

/// The word form of one scope.
pub open spec fn scope_words(s: Scope) -> Seq<u32> {
    seq![s.parent, s.start, s.end]
}

pub open spec fn scopes_words(ss: Seq<Scope>) -> Seq<u32>
    decreases ss.len(),
{
    if ss.len() == 0 {
        Seq::empty()
    } else {
        scopes_words(ss.drop_last()) + scope_words(ss.last())
    }
}

pub open spec fn kind_word(k: OccurrenceKind) -> u32 {
    if k == OccurrenceKind::Definition {
        0
    } else {
        1
    }
}

/// The word form of one occurrence.
pub open spec fn occ_words(o: Occurrence) -> Seq<u32> {
    seq![o.scope, o.start, o.end, kind_word(o.kind), o.binding]
}

pub open spec fn occs_words(os: Seq<Occurrence>) -> Seq<u32>
    decreases os.len(),
{
    if os.len() == 0 {
        Seq::empty()
    } else {
        occs_words(os.drop_last()) + occ_words(os.last())
    }
}

/// The stored word form of the symbol information: a tag word, then for a
/// graph its scope count, scopes, occurrence count and occurrences.
pub open spec fn symbols_words(m: Option<(Seq<Scope>, Seq<Occurrence>)>) -> Seq<u32> {
    match m {
        None => seq![0u32],
        Some((ss, os)) => seq![1u32, ss.len() as u32] + scopes_words(ss) + seq![os.len() as u32]
            + occs_words(os),
    }
}

/// What a `SymbolLocations` value holds, as plain sequences.
pub open spec fn symbols_model(sl: SymbolLocations) -> Option<(Seq<Scope>, Seq<Occurrence>)> {
    match sl {
        SymbolLocations::Empty => None,
        SymbolLocations::Graph(g) => Some((g.scopes@, g.occurrences@)),
    }
}

/// A value the format can hold: counts fit in one word each.
pub open spec fn encodable(sl: SymbolLocations) -> bool {
    match sl {
        SymbolLocations::Empty => true,
        SymbolLocations::Graph(g) => g.scopes@.len() <= u32::MAX && g.occurrences@.len()
            <= u32::MAX,
    }
}

pub open spec fn dec_scope_at(w: Seq<u32>, pos: int) -> Scope {
    Scope { parent: w[pos], start: w[pos + 1], end: w[pos + 2] }
}

pub open spec fn dec_occ_at(w: Seq<u32>, pos: int) -> Occurrence {
    Occurrence {
        scope: w[pos],
        start: w[pos + 1],
        end: w[pos + 2],
        kind: if w[pos + 3] == 0 {
            OccurrenceKind::Definition
        } else {
            OccurrenceKind::Reference
        },
        binding: w[pos + 4],
    }
}

/// Decode a stored word form; `None` for anything the encoder cannot have
/// written.
pub open spec fn dec_symbols_words(w: Seq<u32>) -> Option<Option<(Seq<Scope>, Seq<Occurrence>)>> {
    if w.len() == 0 {
        None
    } else if w[0] == 0 {
        if w.len() == 1 {
            Some(None)
        } else {
            None
        }
    } else if w[0] != 1 || w.len() < 2 {
        None
    } else {
        let ns = w[1] as int;
        if w.len() < 3 + 3 * ns {
            None
        } else {
            let no = w[2 + 3 * ns] as int;
            if w.len() != 3 + 3 * ns + 5 * no {
                None
            } else if !(forall|i: int| 0 <= i < no ==> #[trigger] w[3 + 3 * ns + 5 * i + 3] <= 1) {
                None
            } else {
                Some(
                    Some(
                        (
                            Seq::new(ns as nat, |i: int| dec_scope_at(w, 2 + 3 * i)),
                            Seq::new(no as nat, |i: int| dec_occ_at(w, 3 + 3 * ns + 5 * i)),
                        ),
                    ),
                )
            }
        }
    }
}

proof fn lemma_scopes_words_index(ss: Seq<Scope>)
    ensures
        scopes_words(ss).len() == 3 * ss.len(),
        forall|i: int, k: int| 0 <= i < ss.len() && 0 <= k < 3 ==> #[trigger] scopes_words(
            ss,
        )[3 * i + k] == scope_words(ss[i])[k],
    decreases ss.len(),
{
    if ss.len() > 0 {
        lemma_scopes_words_index(ss.drop_last());
        assert forall|i: int, k: int| 0 <= i < ss.len() && 0 <= k < 3 implies #[trigger]
            scopes_words(ss)[3 * i + k] == scope_words(ss[i])[k] by {
            if i < ss.len() - 1 {
                assert(scopes_words(ss.drop_last())[3 * i + k] == scope_words(
                    ss.drop_last()[i],
                )[k]);
            }
        }
    }
}

proof fn lemma_occs_words_index(os: Seq<Occurrence>)
    ensures
        occs_words(os).len() == 5 * os.len(),
        forall|i: int, k: int| 0 <= i < os.len() && 0 <= k < 5 ==> #[trigger] occs_words(
            os,
        )[5 * i + k] == occ_words(os[i])[k],
    decreases os.len(),
{
    if os.len() > 0 {
        lemma_occs_words_index(os.drop_last());
        assert forall|i: int, k: int| 0 <= i < os.len() && 0 <= k < 5 implies #[trigger]
            occs_words(os)[5 * i + k] == occ_words(os[i])[k] by {
            if i < os.len() - 1 {
                assert(occs_words(os.drop_last())[5 * i + k] == occ_words(os.drop_last()[i])[k]);
            }
        }
    }
}

/// Round trip at the word level: decoding an encoded symbol value gives
/// back exactly the scopes and occurrences that were written.
pub proof fn lemma_symbols_words_round_trip(m: Option<(Seq<Scope>, Seq<Occurrence>)>)
    requires
        match m {
            Some((ss, os)) => ss.len() <= u32::MAX && os.len() <= u32::MAX,
            None => true,
        },
    ensures
        dec_symbols_words(symbols_words(m)) == Some(m),
{
    match m {
        None => {},
        Some((ss, os)) => {
            let w = symbols_words(m);
            lemma_scopes_words_index(ss);
            lemma_occs_words_index(os);
            assert(w.len() == 3 + 3 * ss.len() + 5 * os.len());
            assert(w[0] == 1 && w[1] == ss.len() as u32);
            assert(w[2 + 3 * (ss.len() as int)] == os.len() as u32);
            assert forall|i: int, k: int| 0 <= i < ss.len() && 0 <= k < 3 implies #[trigger] w[2
                + 3 * i + k] == scope_words(ss[i])[k] by {
                assert(2 + 3 * i + k < 2 + 3 * (ss.len() as int));
                assert(scopes_words(ss)[3 * i + k] == scope_words(ss[i])[k]);
            }
            assert forall|i: int, k: int| 0 <= i < os.len() && 0 <= k < 5 implies #[trigger] w[3
                + 3 * (ss.len() as int) + 5 * i + k] == occ_words(os[i])[k] by {
                assert(occs_words(os)[5 * i + k] == occ_words(os[i])[k]);
            }
            assert forall|i: int| 0 <= i < os.len() implies #[trigger] w[3 + 3 * (ss.len()
                as int) + 5 * i + 3] <= 1 by {
                assert(w[3 + 3 * (ss.len() as int) + 5 * i + 3] == occ_words(os[i])[3]);
            }
            let dec = dec_symbols_words(w);
            assert(dec is Some);
            let ss2 = Seq::new(ss.len(), |i: int| dec_scope_at(w, 2 + 3 * i));
            let os2 = Seq::new(os.len(), |i: int| dec_occ_at(w, 3 + 3 * ss.len() as int + 5 * i));
            assert forall|i: int| 0 <= i < ss.len() implies ss2[i] == ss[i] by {
                assert(w[2 + 3 * i + 0] == scope_words(ss[i])[0]);
                assert(w[2 + 3 * i + 1] == scope_words(ss[i])[1]);
                assert(w[2 + 3 * i + 2] == scope_words(ss[i])[2]);
            }
            assert forall|i: int| 0 <= i < os.len() implies os2[i] == os[i] by {
                assert(w[3 + 3 * (ss.len() as int) + 5 * i + 0] == occ_words(os[i])[0]);
                assert(w[3 + 3 * (ss.len() as int) + 5 * i + 1] == occ_words(os[i])[1]);
                assert(w[3 + 3 * (ss.len() as int) + 5 * i + 2] == occ_words(os[i])[2]);
                assert(w[3 + 3 * (ss.len() as int) + 5 * i + 3] == occ_words(os[i])[3]);
                assert(w[3 + 3 * (ss.len() as int) + 5 * i + 4] == occ_words(os[i])[4]);
                assert(kind_word(os[i].kind) <= 1);
            }
            assert(ss2 =~= ss);
            assert(os2 =~= os);
        },
    }
}

/// Encode the symbol information as words.
pub fn encode_symbols_words(sl: &SymbolLocations) -> (r: Vec<u32>)
    requires
        encodable(*sl),
    ensures
        r@ == symbols_words(symbols_model(*sl)),
{
    match sl {
        SymbolLocations::Empty => {
            let r: Vec<u32> = vec![0u32];
            proof {
                assert(r@ =~= seq![0u32]);
            }
            r
        },
        SymbolLocations::Graph(g) => {
            let mut out: Vec<u32> = Vec::new();
            out.push(1);
            out.push(g.scopes.len() as u32);
            let mut i: usize = 0;
            while i < g.scopes.len()
                invariant
                    i <= g.scopes@.len(),
                    out@ == seq![1u32, g.scopes@.len() as u32] + scopes_words(g.scopes@.take(
                        i as int,
                    )),
                decreases g.scopes@.len() - i,
            {
                proof {
                    assert(g.scopes@.take(i + 1).drop_last() =~= g.scopes@.take(i as int));
                    assert(g.scopes@.take(i + 1).last() == g.scopes@[i as int]);
                }
                let sc = g.scopes[i];
                out.push(sc.parent);
                out.push(sc.start);
                out.push(sc.end);
                proof {
                    assert(out@ =~= seq![1u32, g.scopes@.len() as u32] + scopes_words(
                        g.scopes@.take(i + 1),
                    ));
                }
                i = i + 1;
            }
            proof {
                assert(g.scopes@.take(g.scopes@.len() as int) =~= g.scopes@);
            }
            out.push(g.occurrences.len() as u32);
            let ghost head = out@;
            let mut j: usize = 0;
            while j < g.occurrences.len()
                invariant
                    j <= g.occurrences@.len(),
                    out@ == head + occs_words(g.occurrences@.take(j as int)),
                decreases g.occurrences@.len() - j,
            {
                proof {
                    assert(g.occurrences@.take(j + 1).drop_last() =~= g.occurrences@.take(
                        j as int,
                    ));
                    assert(g.occurrences@.take(j + 1).last() == g.occurrences@[j as int]);
                }
                let oc = g.occurrences[j];
                out.push(oc.scope);
                out.push(oc.start);
                out.push(oc.end);
                out.push(if oc.kind == OccurrenceKind::Definition { 0 } else { 1 });
                out.push(oc.binding);
                proof {
                    assert(out@ =~= head + occs_words(g.occurrences@.take(j + 1)));
                }
                j = j + 1;
            }
            proof {
                assert(g.occurrences@.take(g.occurrences@.len() as int) =~= g.occurrences@);
                assert(out@ =~= symbols_words(symbols_model(*sl)));
            }
            out
        },
    }
}

/// Decode a stored word form back into symbol information.
pub fn decode_symbols_words(w: &Vec<u32>) -> (r: Option<SymbolLocations>)
    ensures
        match r {
            Some(sl) => dec_symbols_words(w@) == Some(symbols_model(sl)),
            None => dec_symbols_words(w@) is None,
        },
{
    let wlen: usize = w.len();
    if wlen == 0 {
        return None;
    }
    if w[0] == 0 {
        if wlen == 1 {
            return Some(SymbolLocations::Empty);
        }
        return None;
    }
    if w[0] != 1 || wlen < 2 {
        return None;
    }
    let ns: usize = w[1] as usize;
    if (wlen as u64) < 3 + 3 * (ns as u64) {
        return None;
    }
    let mut scopes: Vec<Scope> = Vec::new();
    let mut i: usize = 0;
    let mut pos: usize = 2;
    while i < ns
        invariant
            i <= ns,
            pos == 2 + 3 * i,
            3 + 3 * ns <= wlen,
            wlen == w@.len(),
            ns == w@[1] as int,
            scopes@.len() == i,
            forall|k: int| 0 <= k < i ==> #[trigger] scopes@[k] == dec_scope_at(w@, 2 + 3 * k),
        decreases ns - i,
    {
        scopes.push(Scope { parent: w[pos], start: w[pos + 1], end: w[pos + 2] });
        pos = pos + 3;
        i = i + 1;
    }
    let no: usize = w[pos] as usize;
    if (wlen as u64) != 3 + 3 * (ns as u64) + 5 * (no as u64) {
        return None;
    }
    let mut occs: Vec<Occurrence> = Vec::new();
    let mut j: usize = 0;
    let mut opos: usize = pos + 1;
    while j < no
        invariant
            j <= no,
            pos == 2 + 3 * ns,
            opos == 3 + 3 * ns + 5 * j,
            wlen == w@.len(),
            wlen == 3 + 3 * ns + 5 * no,
            ns == w@[1] as int,
            no == w@[2 + 3 * ns] as int,
            occs@.len() == j,
            forall|k: int| 0 <= k < j ==> #[trigger] occs@[k] == dec_occ_at(w@, 3 + 3 * ns + 5 * k)
                && w@[3 + 3 * ns + 5 * k + 3] <= 1,
        decreases no - j,
    {
        let kw: u32 = w[opos + 3];
        if kw > 1 {
            return None;
        }
        occs.push(Occurrence {
            scope: w[opos],
            start: w[opos + 1],
            end: w[opos + 2],
            kind: if kw == 0 {
                OccurrenceKind::Definition
            } else {
                OccurrenceKind::Reference
            },
            binding: w[opos + 4],
        });
        opos = opos + 5;
        j = j + 1;
    }
    let g = ScopeGraph { scopes: scopes, occurrences: occs };
    proof {
        assert forall|x: int| 0 <= x < no implies #[trigger] w@[3 + 3 * ns + 5 * x + 3] <= 1 by {
            assert(occs@[x] == dec_occ_at(w@, 3 + 3 * ns + 5 * x));
        }
        assert(g.scopes@ =~= Seq::new(ns as nat, |k: int| dec_scope_at(w@, 2 + 3 * k)));
        assert(g.occurrences@ =~= Seq::new(
            no as nat,
            |k: int| dec_occ_at(w@, 3 + 3 * ns + 5 * k),
        ));
    }
    Some(SymbolLocations::Graph(g))
}

} // verus!
