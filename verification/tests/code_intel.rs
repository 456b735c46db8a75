use retreival::builder::build_scope_graph;
use retreival::document::{assemble_document, decode_document};
use retreival::lang::{extension_of, language_for_extension, language_for_path};
use retreival::line_index::{compute_line_offsets, decode_offsets, encode_offsets, line_for_offset};
use retreival::codec::{decode_symbols_words, encode_symbols_words};
use retreival::navigation::{token_info, NavError, Token};
use retreival::scope_graph::{Occurrence, OccurrenceKind, Scope, ScopeGraph, SymbolLocations};
use retreival::search::search_stored_document;
use retreival::syntax::{LanguageProfile, SyntaxNode, SyntaxTree};

const SCOPE_KIND: u32 = 1;
const DEF_KIND: u32 = 2;
const REF_KIND: u32 = 3;

fn profile() -> LanguageProfile {
    LanguageProfile {
        scope_kinds: vec![SCOPE_KIND],
        def_kinds: vec![DEF_KIND],
        ref_kinds: vec![REF_KIND],
    }
}

fn sample_content() -> Vec<u8> {
    b"fn foo() {}\nfoo();\n".to_vec()
}

fn sample_tree(len: u32) -> SyntaxTree {
    SyntaxTree {
        nodes: vec![
            SyntaxNode { parent: 0, start: 0, end: len, kind: 0 },
            SyntaxNode { parent: 0, start: 3, end: 6, kind: DEF_KIND },
            SyntaxNode { parent: 0, start: 12, end: 15, kind: REF_KIND },
        ],
    }
}

fn sample_graph() -> ScopeGraph {
    let content = sample_content();
    build_scope_graph(&sample_tree(content.len() as u32), &profile(), &content).unwrap()
}

fn sample_document() -> retreival::document::ContentDocument {
    let content = sample_content();
    let offsets = compute_line_offsets(&content).unwrap();
    let line_bytes = encode_offsets(&offsets);
    let sl = SymbolLocations::Graph(sample_graph());
    let words = encode_symbols_words(&sl);
    let sym_bytes = encode_offsets(&words);
    decode_document(
        b"src/a.rs".to_vec(),
        b"rust".to_vec(),
        content,
        &line_bytes,
        &sym_bytes,
    )
    .unwrap()
}

#[test]
fn line_offsets_are_increasing_and_in_bounds() {
    let content = sample_content();
    let offsets = compute_line_offsets(&content).unwrap();
    assert_eq!(offsets, vec![11, 18]);
    for w in offsets.windows(2) {
        assert!(w[0] < w[1]);
    }
    for o in &offsets {
        assert!((*o as usize) < content.len());
    }
}

#[test]
fn offsets_byte_form_round_trips() {
    let offsets = vec![3u32, 9, 700, 4_000_000_000];
    let bytes = encode_offsets(&offsets);
    assert_eq!(decode_offsets(&bytes).unwrap(), offsets);
    assert!(decode_offsets(&vec![1u8, 2, 3]).is_none());
}

#[test]
fn line_lookup_binary_search() {
    let offsets = vec![11u32, 18];
    assert_eq!(line_for_offset(&offsets, 0), Some(0));
    assert_eq!(line_for_offset(&offsets, 11), Some(0));
    assert_eq!(line_for_offset(&offsets, 12), Some(1));
    assert_eq!(line_for_offset(&offsets, 19), None);
}

#[test]
fn classifier_table() {
    assert_eq!(extension_of(&b"dir/a.rs".to_vec()).unwrap(), b"rs".to_vec());
    assert!(extension_of(&b"dir/.gitignore".to_vec()).is_none());
    assert_eq!(language_for_extension(&b"rs".to_vec()).unwrap(), b"rust".to_vec());
    assert_eq!(language_for_extension(&b"py".to_vec()).unwrap(), b"python".to_vec());
    assert!(language_for_extension(&b"txt".to_vec()).is_none());
    assert_eq!(language_for_path(&b"x/y/z.go".to_vec()).unwrap(), b"go".to_vec());
    assert!(language_for_path(&b"x/filewithoutdot".to_vec()).is_none());
}

#[test]
fn scope_graph_one_definition_one_reference_share_binding() {
    let g = sample_graph();
    assert_eq!(g.occurrences.len(), 2);
    let def = &g.occurrences[0];
    let refr = &g.occurrences[1];
    assert_eq!(def.kind, OccurrenceKind::Definition);
    assert_eq!(refr.kind, OccurrenceKind::Reference);
    assert_eq!((def.start, def.end), (3, 6));
    assert_eq!((refr.start, refr.end), (12, 15));
    assert_eq!(def.binding, refr.binding);
}

#[test]
fn resolved_reference_has_exactly_one_definition() {
    let g = sample_graph();
    let refr = g.occurrences.iter().find(|o| o.kind == OccurrenceKind::Reference).unwrap();
    let defs: Vec<&Occurrence> = g
        .occurrences
        .iter()
        .filter(|o| o.kind == OccurrenceKind::Definition && o.binding == refr.binding)
        .collect();
    assert_eq!(defs.len(), 1);
    assert_eq!(defs[0].scope, refr.scope);
}

#[test]
fn malformed_tree_is_refused() {
    let content = sample_content();
    let bad = SyntaxTree {
        nodes: vec![
            SyntaxNode { parent: 0, start: 0, end: content.len() as u32, kind: 0 },
            SyntaxNode { parent: 5, start: 1, end: 2, kind: DEF_KIND },
        ],
    };
    assert!(build_scope_graph(&bad, &profile(), &content).is_err());
}

#[test]
fn graph_serialization_round_trips() {
    let sl = SymbolLocations::Graph(sample_graph());
    let words = encode_symbols_words(&sl);
    let back = decode_symbols_words(&words).unwrap();
    assert_eq!(back, sl);
    let empty = SymbolLocations::Empty;
    let ew = encode_symbols_words(&empty);
    assert_eq!(decode_symbols_words(&ew).unwrap(), SymbolLocations::Empty);
    assert!(decode_symbols_words(&vec![7u32, 7, 7]).is_none());
}

#[test]
fn graph_survives_document_store_and_load() {
    let d = sample_document();
    match &d.symbol_locations {
        SymbolLocations::Graph(g) => {
            assert_eq!(*g, sample_graph());
        }
        SymbolLocations::Empty => panic!("graph lost in round trip"),
    }
}

#[test]
fn resolve_on_reference_returns_both_occurrences_in_order() {
    let docs = vec![sample_document()];
    let token = Token { relative_path: b"src/a.rs".to_vec(), start_byte: 12, end_byte: 15 };
    let v = token_info(&docs, &token).unwrap();
    assert_eq!(v.len(), 1);
    assert_eq!(v[0].path, b"src/a.rs".to_vec());
    assert_eq!(v[0].occurrences.len(), 2);
    assert!(v[0].occurrences[0].start < v[0].occurrences[1].start);
    assert_eq!(v[0].occurrences[0].kind, OccurrenceKind::Definition);
}

#[test]
fn resolve_on_exact_definition_range_includes_references() {
    let docs = vec![sample_document()];
    let token = Token { relative_path: b"src/a.rs".to_vec(), start_byte: 3, end_byte: 6 };
    let v = token_info(&docs, &token).unwrap();
    assert_eq!(v.len(), 1);
    assert_eq!(v[0].occurrences.len(), 2);
    assert_eq!((v[0].occurrences[0].start, v[0].occurrences[0].end), (3, 6));
    assert_eq!((v[0].occurrences[1].start, v[0].occurrences[1].end), (12, 15));
}

#[test]
fn resolve_unknown_path_is_not_found() {
    let docs = vec![sample_document()];
    let token = Token { relative_path: b"nope.rs".to_vec(), start_byte: 0, end_byte: 1 };
    assert_eq!(token_info(&docs, &token).unwrap_err(), NavError::NotFound);
}

#[test]
fn resolve_outside_any_occurrence_is_ambiguous() {
    let docs = vec![sample_document()];
    let token = Token { relative_path: b"src/a.rs".to_vec(), start_byte: 7, end_byte: 8 };
    assert_eq!(token_info(&docs, &token).unwrap_err(), NavError::AmbiguousToken);
}

#[test]
fn search_finds_definition_line_and_column() {
    let content = sample_content();
    let offsets = compute_line_offsets(&content).unwrap();
    let line_bytes = encode_offsets(&offsets);
    let results =
        search_stored_document(&b"src/a.rs".to_vec(), &content, &line_bytes, &b"foo".to_vec())
            .unwrap();
    assert_eq!(results.len(), 2);
    assert_eq!(results[0].line_number, 0);
    assert_eq!(results[0].column, 3);
    assert_eq!(results[0].path, "src/a.rs");
    assert_eq!(results[0].context, "fn foo() {}\nfoo();");
    assert_eq!(results[1].line_number, 1);
    assert_eq!(results[1].column, 0);
}

#[test]
fn search_skips_document_with_malformed_line_table() {
    let content = sample_content();
    let bogus = vec![1u8, 2, 3];
    assert!(
        search_stored_document(&b"src/a.rs".to_vec(), &content, &bogus, &b"foo".to_vec()).is_none()
    );
}

#[test]
fn binary_file_is_skipped_by_assembly() {
    let r = assemble_document(b"src/a.rs".to_vec(), None, None, &profile());
    assert!(r.is_none());
}

#[test]
fn unsupported_extension_is_skipped_by_assembly() {
    let r = assemble_document(b"notes.txt".to_vec(), Some(b"plain text\n".to_vec()), None, &profile());
    assert!(r.is_none());
}

#[test]
fn assembly_is_deterministic() {
    let content = sample_content();
    let tree = sample_tree(content.len() as u32);
    let a = assemble_document(b"src/a.rs".to_vec(), Some(content.clone()), Some(&tree), &profile())
        .unwrap();
    let b = assemble_document(b"src/a.rs".to_vec(), Some(content), Some(&tree), &profile())
        .unwrap();
    assert_eq!(a.content, b.content);
    assert_eq!(a.lang, b.lang);
    assert_eq!(a.symbols, b.symbols);
    assert_eq!(a.symbol_locations, b.symbol_locations);
    assert_eq!(a.line_end_indices, b.line_end_indices);
}

#[test]
fn assembled_symbols_are_deduplicated() {
    let content = sample_content();
    let tree = sample_tree(content.len() as u32);
    let d = assemble_document(b"src/a.rs".to_vec(), Some(content), Some(&tree), &profile())
        .unwrap();
    assert_eq!(d.symbols, b"foo".to_vec());
    assert_eq!(d.lang, b"rust".to_vec());
}

#[test]
fn parse_failure_degrades_to_empty_graph() {
    let content = sample_content();
    let d = assemble_document(b"src/a.rs".to_vec(), Some(content), None, &profile()).unwrap();
    let words = decode_offsets(&d.symbol_locations).unwrap();
    assert_eq!(decode_symbols_words(&words).unwrap(), SymbolLocations::Empty);
    assert_eq!(d.symbols, b"".to_vec());
}

#[test]
fn shadowing_resolves_to_nearest_scope() {
    // two scopes: an inner function shadows an outer definition of the
    // same name; the inner reference binds to the inner definition.
    let content = b"x x ( x x )".to_vec();
    let tree = SyntaxTree {
        nodes: vec![
            SyntaxNode { parent: 0, start: 0, end: 11, kind: 0 },
            SyntaxNode { parent: 0, start: 0, end: 1, kind: DEF_KIND },
            SyntaxNode { parent: 0, start: 4, end: 9, kind: SCOPE_KIND },
            SyntaxNode { parent: 2, start: 6, end: 7, kind: DEF_KIND },
            SyntaxNode { parent: 2, start: 8, end: 9, kind: REF_KIND },
        ],
    };
    let g = build_scope_graph(&tree, &profile(), &content).unwrap();
    assert_eq!(g.occurrences.len(), 3);
    let inner_def = &g.occurrences[1];
    let inner_ref = &g.occurrences[2];
    assert_eq!(inner_ref.binding, inner_def.binding);
    assert_ne!(inner_ref.binding, g.occurrences[0].binding);
}

#[test]
fn unresolved_reference_gets_fresh_binding() {
    let content = b"y".to_vec();
    let tree = SyntaxTree {
        nodes: vec![
            SyntaxNode { parent: 0, start: 0, end: 1, kind: 0 },
            SyntaxNode { parent: 0, start: 0, end: 1, kind: REF_KIND },
        ],
    };
    let g = build_scope_graph(&tree, &profile(), &content).unwrap();
    assert_eq!(g.occurrences.len(), 1);
    // no definition shares the reference's binding id
    assert!(g.occurrences.iter().all(|o| o.kind != OccurrenceKind::Definition));
}

#[test]
fn cross_file_fallback_groups_by_document() {
    // the anchor overlaps an occurrence only partially, so resolution
    // falls back to a textual match across the other document.
    let d1 = sample_document();
    let content2 = b"foo();\n".to_vec();
    let tree2 = SyntaxTree {
        nodes: vec![
            SyntaxNode { parent: 0, start: 0, end: 7, kind: 0 },
            SyntaxNode { parent: 0, start: 0, end: 3, kind: REF_KIND },
        ],
    };
    let g2 = SymbolLocations::Graph(build_scope_graph(&tree2, &profile(), &content2).unwrap());
    let offsets2 = compute_line_offsets(&content2).unwrap();
    let lb2 = encode_offsets(&offsets2);
    let sb2 = encode_offsets(&encode_symbols_words(&g2));
    let d2 = decode_document(b"src/b.rs".to_vec(), b"rust".to_vec(), content2, &lb2, &sb2)
        .unwrap();
    let docs = vec![d1, d2];
    // range 13..16 overlaps the reference occurrence 12..15 without being
    // contained in it
    let token = Token { relative_path: b"src/a.rs".to_vec(), start_byte: 13, end_byte: 16 };
    let v = token_info(&docs, &token).unwrap();
    assert_eq!(v.len(), 2);
    assert_eq!(v[0].path, b"src/a.rs".to_vec());
    assert_eq!(v[0].occurrences.len(), 2);
    assert_eq!(v[1].path, b"src/b.rs".to_vec());
    assert_eq!(v[1].occurrences.len(), 1);
}

#[test]
fn missing_symbol_field_skips_document() {
    // empty bytes model a document whose symbol_locations field is absent:
    // the document is skipped rather than loaded with empty symbol data
    let content = sample_content();
    let offsets = compute_line_offsets(&content).unwrap();
    let line_bytes = encode_offsets(&offsets);
    let empty: Vec<u8> = Vec::new();
    assert!(decode_document(
        b"src/a.rs".to_vec(),
        b"rust".to_vec(),
        content,
        &line_bytes,
        &empty,
    )
    .is_none());
}

#[test]
fn undecodable_symbol_field_skips_document() {
    let content = sample_content();
    let offsets = compute_line_offsets(&content).unwrap();
    let line_bytes = encode_offsets(&offsets);
    let garbage = encode_offsets(&vec![9u32, 9, 9]);
    assert!(decode_document(
        b"src/a.rs".to_vec(),
        b"rust".to_vec(),
        content,
        &line_bytes,
        &garbage,
    )
    .is_none());
}

#[test]
fn malformed_stored_graph_skips_document() {
    // a decodable graph whose occurrence range runs past the content is a
    // malformed stored field: the document is skipped
    let content = sample_content();
    let offsets = compute_line_offsets(&content).unwrap();
    let line_bytes = encode_offsets(&offsets);
    let bad = ScopeGraph {
        scopes: vec![Scope { parent: 0, start: 0, end: content.len() as u32 }],
        occurrences: vec![Occurrence {
            scope: 0,
            start: 0,
            end: 10_000,
            kind: OccurrenceKind::Definition,
            binding: 0,
        }],
    };
    let sym = encode_offsets(&encode_symbols_words(&SymbolLocations::Graph(bad)));
    assert!(decode_document(
        b"src/a.rs".to_vec(),
        b"rust".to_vec(),
        content,
        &line_bytes,
        &sym,
    )
    .is_none());
}

#[test]
fn stored_empty_symbols_are_kept() {
    let content = sample_content();
    let offsets = compute_line_offsets(&content).unwrap();
    let line_bytes = encode_offsets(&offsets);
    let sym = encode_offsets(&encode_symbols_words(&SymbolLocations::Empty));
    let d = decode_document(
        b"src/a.rs".to_vec(),
        b"rust".to_vec(),
        content,
        &line_bytes,
        &sym,
    )
    .unwrap();
    assert_eq!(d.symbol_locations, SymbolLocations::Empty);
}

#[test]
fn built_graph_mirrors_the_tree() {
    // one scope node and three identifiers: the graph holds one scope per
    // scope node with its range, and one occurrence per identifier in
    // source order with the right kind and owning scope
    let content = b"x x ( x x )".to_vec();
    let tree = SyntaxTree {
        nodes: vec![
            SyntaxNode { parent: 0, start: 0, end: 11, kind: 0 },
            SyntaxNode { parent: 0, start: 0, end: 1, kind: DEF_KIND },
            SyntaxNode { parent: 0, start: 4, end: 9, kind: SCOPE_KIND },
            SyntaxNode { parent: 2, start: 6, end: 7, kind: DEF_KIND },
            SyntaxNode { parent: 2, start: 8, end: 9, kind: REF_KIND },
        ],
    };
    let g = build_scope_graph(&tree, &profile(), &content).unwrap();
    assert_eq!(g.scopes.len(), 2);
    assert_eq!((g.scopes[1].start, g.scopes[1].end, g.scopes[1].parent), (4, 9, 0));
    assert_eq!(g.occurrences.len(), 3);
    assert_eq!((g.occurrences[0].start, g.occurrences[0].scope), (0, 0));
    assert_eq!((g.occurrences[1].start, g.occurrences[1].scope), (6, 1));
    assert_eq!((g.occurrences[2].start, g.occurrences[2].scope), (8, 1));
    assert_eq!(g.occurrences[2].kind, OccurrenceKind::Reference);
}
