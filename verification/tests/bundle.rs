//! Bundles of code for a reader.
use codesage_graph::bundle::{
    callee_targets, effective_limit, entry_symbol_line, export_target, feature_description,
    feature_not_found, finalize_bundle, find_definition_for_summary, is_symbol_header_line,
    number_chunk_lines, summaries_of, symbol_not_found, BundleChunk, ContextBundle, Definitions, ExportTarget,
    FeatureFile, FeatureFileRole, Offer, Picked, SymbolSummary,
};
use codesage_graph::context::{
    export_context, export_context_for_symbol, feature_bundle, query_anchors, query_definitions,
    shown_definitions, FeatureDraft,
};
use codesage_graph::model::{Notes, Reference, ReferenceKind, Symbol};
use codesage_graph::resolution::{
    import_refs_for_file, resolve_callee_definitions, OutgoingRef,
};
use codesage_graph::surroundings::{places_around, Surroundings};

#[test]
fn numbers_body_after_augmentation_header() {
    let content = "# app/Svc.php\n# App\\Svc (class)\n<?php\nclass Svc {}";
    let out = number_chunk_lines(content, "app/Svc.php", 10);
    let lines: Vec<&str> = out.lines().collect();
    // Header lines pass through unnumbered.
    assert_eq!(lines[0], "# app/Svc.php");
    assert_eq!(lines[1], "# App\\Svc (class)");
    // Body numbered from start_line.
    assert_eq!(lines[2], "  10 | <?php");
    assert_eq!(lines[3], "  11 | class Svc {}");
}

#[test]
fn numbers_from_line_one_when_no_header() {
    // C/Rust chunks are not augmented — first line is real source.
    let content = "fn main() {\n    let x = 1;\n}";
    let out = number_chunk_lines(content, "src/main.rs", 42);
    let lines: Vec<&str> = out.lines().collect();
    assert_eq!(lines[0], "  42 | fn main() {");
    assert_eq!(lines[1], "  43 |     let x = 1;");
    assert_eq!(lines[2], "  44 | }");
}

#[test]
fn source_comment_resembling_header_is_not_stripped() {
    // Python body whose first line is a `# word (word)` comment must
    // not be mistaken for a symbol-header line: `(later)` is not a
    // SymbolKind, so numbering still starts at the comment.
    let content = "# app/x.py\n# cleanup (later)\nx = 1";
    let out = number_chunk_lines(content, "app/x.py", 5);
    let lines: Vec<&str> = out.lines().collect();
    assert_eq!(lines[0], "# app/x.py");
    assert_eq!(lines[1], "   5 | # cleanup (later)");
    assert_eq!(lines[2], "   6 | x = 1");
}

#[test]
fn header_anchor_must_match_this_files_path() {
    // A `# something` first line that is not THIS chunk's path anchor
    // is treated as body, not header.
    let content = "# not a path\ncode";
    let out = number_chunk_lines(content, "app/x.py", 1);
    assert_eq!(out.lines().next().unwrap(), "   1 | # not a path");
}

#[test]
fn preserves_trailing_newline_shape() {
    assert!(number_chunk_lines("a\nb\n", "f.rs", 1).ends_with("b\n"));
    assert!(!number_chunk_lines("a\nb", "f.rs", 1).ends_with('\n'));
    assert_eq!(number_chunk_lines("", "f.rs", 1), "");
}

#[test]
fn is_symbol_header_line_matches_known_kinds_only() {
    assert!(is_symbol_header_line("# App\\Svc (class)"));
    assert!(is_symbol_header_line("# foo (function)"));
    assert!(!is_symbol_header_line("# cleanup (later)"));
    assert!(!is_symbol_header_line("not a comment"));
    assert!(!is_symbol_header_line("# no parens here"));
}

#[test]
fn numbering_keeps_the_final_newline_behind_a_header_too() {
    let out = number_chunk_lines("# a.py\n# f (function)\nx = 1\n", "a.py", 9999);
    assert_eq!(out, "# a.py\n# f (function)\n9999 | x = 1\n");
    assert_eq!(number_chunk_lines("x\r\ny", "a.py", 9999), " 9999 | x\n10000 | y");
}

fn symbol(name: &str, qualified_name: &str, file_path: &str) -> Symbol {
    Symbol {
        name: name.to_string(),
        qualified_name: qualified_name.to_string(),
        kind: "method".to_string(),
        file_path: file_path.to_string(),
        line_start: 1,
        line_end: 1,
        col_start: 0,
        col_end: 0,
        rationale: Notes::End,
    }
}

fn call(to_name: &str, kind: ReferenceKind) -> Reference {
    Reference {
        from_file: "a.rs".to_string(),
        from_symbol: None,
        to_name: to_name.to_string(),
        kind,
        line: 5,
        col: 12,
    }
}

fn outgoing(to_name: &str, kind: ReferenceKind) -> OutgoingRef {
    OutgoingRef { to_name: to_name.to_string(), kind }
}

fn chunk(file: &str, start: u32, end: u32) -> BundleChunk {
    BundleChunk {
        file_path: file.to_string(),
        language: "rust".to_string(),
        content: format!("{file}:{start}"),
        start_line: start,
        end_line: end,
        symbols: vec![],
    }
}

fn starts(p: &Picked) -> Vec<(String, u32)> {
    p.chunks.iter().map(|c| (c.file_path.clone(), c.start_line)).collect()
}

#[test]
fn import_refs_for_file_covers_list_file_dependencies_imports() {
    let refs = import_refs_for_file(
        &vec![
            outgoing("App\\Imported", ReferenceKind::Import),
            outgoing("inc.php", ReferenceKind::Include),
            outgoing("App\\SomeTrait", ReferenceKind::TraitUse),
            outgoing("helper", ReferenceKind::Call),
            outgoing("App\\Imported", ReferenceKind::Import),
        ],
    );
    assert_eq!(
        refs,
        vec!["App\\Imported".to_string(), "App\\SomeTrait".to_string(), "inc.php".to_string()],
        "import/include/trait_use names, sorted and deduped; calls excluded"
    );
}

#[test]
fn import_refs_for_file_empty_for_unindexed_file() {
    assert!(import_refs_for_file(&vec![]).is_empty());
}

#[test]
fn same_file_definition_resolves_when_name_is_ambiguous() {
    let resolved = resolve_callee_definitions(
        vec![symbol("helper", "helper", "a.rs"), symbol("helper", "helper", "b.rs")],
        "a.rs",
        "helper",
        &vec![],
    );
    assert!(resolved.iter().any(|s| s.file_path == "a.rs"), "{resolved:?}");
    assert!(!resolved.iter().any(|s| s.file_path == "b.rs"), "{resolved:?}");
}

#[test]
fn an_exact_qualified_spelling_decides() {
    let resolved = resolve_callee_definitions(
        vec![symbol("open", "Database::open", "db.rs"), symbol("open", "Socket::open", "net.rs")],
        "main.rs",
        "Database::open",
        &vec![],
    );
    assert_eq!(resolved.len(), 1);
    assert_eq!(resolved[0].file_path, "db.rs");
}

#[test]
fn summary_definition_lookup_uses_qualified_name_and_file() {
    let summary = SymbolSummary {
        name: "open".to_string(),
        qualified_name: "Database::open".to_string(),
        kind: "method".to_string(),
    };
    let candidates = vec![
        symbol("open", "app::net::Connection::open", "fixtures/sample.cpp"),
        symbol("open", "Database::open", "src/db.rs"),
    ];
    let found = find_definition_for_summary(&candidates, &summary, "src/db.rs").expect(
        "definition should match the summary",
    );
    assert_eq!(found.qualified_name, "Database::open");
    assert_eq!(found.file_path, "src/db.rs");
    assert!(find_definition_for_summary(&vec![], &summary, "src/db.rs").is_none());
}

#[test]
fn callees_are_the_resolved_targets_that_were_not_seen() {
    let refs = vec![
        call("f", ReferenceKind::Call),
        call("T", ReferenceKind::RouteHandler),
        call("g", ReferenceKind::Call),
    ];
    let resolved = vec![
        vec![symbol("f", "f", "f.rs")],
        vec![symbol("T", "T", "t.rs")],
        vec![symbol("f", "f", "f.rs"), symbol("g", "g", "g.rs"), symbol("h", "h", "h.rs")],
    ];
    let out = callee_targets(&refs, &resolved, &vec![symbol("h", "h", "h.rs")]);
    let names: Vec<String> = out.iter().map(|s| s.name.clone()).collect();
    assert_eq!(names, vec!["f".to_string(), "g".to_string()]);
}

#[test]
fn callers_are_offered_before_callees_and_each_callee_once() {
    let around = vec![
        Surroundings {
            callers: vec![call("f", ReferenceKind::Call)],
            calls: vec![call("g", ReferenceKind::Call)],
            resolved: vec![vec![symbol("g", "g", "g.rs")]],
        },
        Surroundings {
            callers: vec![],
            calls: vec![call("g", ReferenceKind::Call), call("h", ReferenceKind::Call)],
            resolved: vec![vec![symbol("g", "g", "g.rs")], vec![symbol("h", "h", "h.rs")]],
        },
    ];
    let places = |callers: bool, callees: bool| -> Vec<(String, u32)> {
        places_around(&around, callers, callees).into_iter().map(|p| (p.file, p.line)).collect()
    };
    let at = |file: &str, line: u32| (file.to_string(), line);
    assert_eq!(places(true, true), vec![at("a.rs", 5), at("g.rs", 1), at("h.rs", 1)]);
    assert_eq!(places(true, false), vec![at("a.rs", 5)]);
    assert_eq!(places(false, true), vec![at("g.rs", 1), at("h.rs", 1)]);
    assert!(places(false, false).is_empty());
}

#[test]
fn a_definition_keeps_its_columns_and_its_notes() {
    let notes = vec!["why: speed".to_string(), "see the log".to_string()];
    let def = Symbol {
        col_start: 4,
        col_end: 30,
        rationale: Notes::of(&notes),
        ..symbol("f", "f", "a.rs")
    };
    let bundle = export_context_for_symbol("f", &vec![def], vec![], vec![], 5, false);
    let shown = &bundle.symbol_definitions[0];
    assert_eq!((shown.col_start, shown.col_end), (4, 30));
    assert_eq!(shown.rationale.texts(), notes);
    assert!(Notes::of(&vec![]).texts().is_empty());
}

#[test]
fn picking_never_repeats_a_chunk() {
    let mut p = Picked::none();
    p.add(chunk("a.rs", 1, 10));
    p.add(chunk("a.rs", 1, 10));
    p.add_first(vec![chunk("b.rs", 20, 30), chunk("b.rs", 1, 19)]);
    p.add_covering(vec![chunk("c.rs", 1, 5), chunk("c.rs", 6, 9)], 7);
    assert_eq!(
        starts(&p),
        vec![("a.rs".to_string(), 1), ("b.rs".to_string(), 1), ("c.rs".to_string(), 6)]
    );
}

#[test]
fn offers_and_roles_stop_at_the_limit() {
    let mut p = Picked::none();
    p.take_offers(
        vec![
            Offer { chunks: vec![chunk("a.rs", 1, 5)], line: 2 },
            Offer { chunks: vec![chunk("b.rs", 1, 5)], line: 2 },
            Offer { chunks: vec![chunk("c.rs", 1, 5)], line: 2 },
        ],
        2,
    );
    assert_eq!(p.chunks.len(), 2);
    let mut q = Picked::none();
    q.take_role(
        vec![
            FeatureFile { role: FeatureFileRole::Test, chunks: vec![chunk("t1.rs", 1, 5)] },
            FeatureFile { role: FeatureFileRole::Owned, chunks: vec![chunk("o.rs", 1, 5)] },
            FeatureFile { role: FeatureFileRole::Test, chunks: vec![chunk("t2.rs", 1, 5)] },
        ],
        FeatureFileRole::Test,
        1,
    );
    assert_eq!(starts(&q), vec![("t1.rs".to_string(), 1)]);
    let mut r = Picked::none();
    r.take_primary(
        vec![
            FeatureFile {
                role: FeatureFileRole::Entry,
                chunks: vec![chunk("e.rs", 1, 5), chunk("e.rs", 6, 9)],
            },
            FeatureFile { role: FeatureFileRole::Owned, chunks: vec![chunk("o.rs", 1, 5)] },
            FeatureFile { role: FeatureFileRole::Owned, chunks: vec![chunk("p.rs", 1, 5)] },
        ],
        Some(7),
        2,
    );
    assert_eq!(r.chunks.len(), 2);
    assert_eq!(starts(&r)[0], ("e.rs".to_string(), 6));
    assert_eq!(effective_limit(0), 5);
    assert_eq!(effective_limit(3), 3);
}

#[test]
fn definitions_are_listed_once() {
    let mut d = Definitions::none();
    let mut first = chunk("a.rs", 1, 5);
    first.symbols = vec![summary("f"), summary("f")];
    let mut second = chunk("b.rs", 1, 5);
    second.symbols = vec![summary("g")];
    let chunks = vec![first, second];
    let asks = summaries_of(&chunks);
    let asked: Vec<(&str, &str)> =
        asks.iter().map(|a| (a.summary.name.as_str(), a.file_path.as_str())).collect();
    assert_eq!(asked, [("f", "a.rs"), ("f", "a.rs"), ("g", "b.rs")]);
    let f = || vec![symbol("f", "f", "x.rs"), symbol("f", "f", "a.rs")];
    d.look_up(&chunks, &vec![f(), f(), vec![symbol("g", "other::g", "b.rs")]]);
    assert_eq!(d.found[0].file_path, "a.rs");
    assert_eq!(d.found.len(), 1);
    d.take_entry(vec![symbol("e", "e", "e.rs"), symbol("e", "e", "x.rs")], "e.rs");
    assert!(d.found.iter().any(|s| s.file_path == "e.rs"));
}

#[test]
fn bundles_name_what_was_not_found() {
    assert_eq!(symbol_not_found("f").target_description, "symbol: f (not found)");
    assert!(!symbol_not_found("f").found);
    assert_eq!(feature_not_found("x").target_description, "feature: x (not found)");
    assert_eq!(feature_description("Login", "login"), "feature: Login (login)");
    assert_eq!(export_target(&Some("f".to_string()), &None), ExportTarget::Symbol);
    assert_eq!(export_target(&None, &Some("q".to_string())), ExportTarget::Query);
    assert_eq!(export_target(&None, &Some(String::new())), ExportTarget::Nothing);
    assert_eq!(
        entry_symbol_line(&vec![symbol("a", "a", "x.rs"), symbol("a", "a", "e.rs")], "e.rs"),
        Some(1)
    );
    assert_eq!(entry_symbol_line(&vec![], "e.rs"), None);
}

#[test]
fn a_finished_bundle_has_numbered_chunks_where_numbers_are_wanted() {
    let bundle = ContextBundle {
        found: true,
        target_description: "x".to_string(),
        primary: vec![chunk("a.rs", 3, 3)],
        related: vec![],
        symbol_definitions: vec![],
    };
    let out = finalize_bundle(bundle, true);
    assert_eq!(out.primary[0].content, "   3 | a.rs:3");
    let plain = finalize_bundle(out, false);
    assert_eq!(plain.primary[0].content, "   3 | a.rs:3");
}

fn summary(name: &str) -> SymbolSummary {
    SymbolSummary {
        name: name.to_string(),
        qualified_name: name.to_string(),
        kind: "function".to_string(),
    }
}

fn offer(file: &str, start: u32, line: u32) -> Offer {
    Offer { chunks: vec![chunk(file, start, start + 9)], line }
}

fn listed(chunks: &[BundleChunk]) -> Vec<(&str, u32)> {
    chunks.iter().map(|c| (c.file_path.as_str(), c.start_line)).collect()
}

#[test]
fn a_symbol_is_shown_with_what_lies_around_it() {
    let defs = vec![symbol("f", "f", "a.rs"), symbol("f", "m::f", "b.rs"), symbol("f", "n::f", "c.rs")];
    let shown = shown_definitions(&defs, 2);
    assert_eq!(shown.len(), 2);
    let out = export_context_for_symbol(
        "f",
        &defs,
        vec![offer("a.rs", 1, 3), offer("b.rs", 1, 3)],
        vec![offer("a.rs", 1, 5), offer("d.rs", 1, 2), offer("e.rs", 11, 12), offer("g.rs", 1, 1)],
        2,
        false,
    );
    assert!(out.found);
    assert_eq!(out.target_description, "symbol: f");
    assert_eq!(listed(&out.primary), [("a.rs", 1), ("b.rs", 1)]);
    assert_eq!(listed(&out.related), [("d.rs", 1), ("e.rs", 11)]);
    assert_eq!(out.symbol_definitions.len(), 2);
    let none = export_context_for_symbol("f", &vec![], vec![], vec![], 2, false);
    assert!(!none.found);
    assert_eq!(none.target_description, "symbol: f (not found)");
    // A limit of zero means five.
    assert_eq!(shown_definitions(&defs, 0).len(), 3);
    let many = export_context_for_symbol("f", &defs, vec![offer("a.rs", 1, 3)], vec![], 0, false);
    assert_eq!(many.primary.len(), 1);
    assert_eq!(many.symbol_definitions.len(), 3);
}

#[test]
fn a_query_keeps_what_the_search_found() {
    let mut found = chunk("a.rs", 1, 5);
    found.symbols = vec![summary("f"), summary("g")];
    let chunks = vec![found];
    let defs = query_definitions(
        &chunks,
        &vec![vec![symbol("f", "f", "a.rs")], vec![]],
    );
    assert_eq!(defs.len(), 1);
    assert_eq!(query_anchors(&defs).len(), 1);
    let out = export_context(
        "where is f",
        chunks,
        defs,
        vec![offer("a.rs", 1, 2), offer("b.rs", 1, 2)],
        3,
        true,
    );
    assert_eq!(out.target_description, "query: where is f");
    assert_eq!(out.primary[0].content, "   1 | a.rs:1");
    assert_eq!(listed(&out.related), [("b.rs", 1)]);
    assert_eq!(out.symbol_definitions.len(), 1);
}

#[test]
fn a_feature_shows_its_entry_then_what_surrounds_it() {
    let file = |role, path: &str| FeatureFile { role, chunks: vec![chunk(path, 1, 10)] };
    let entry = FeatureFile {
        role: FeatureFileRole::Entry,
        chunks: vec![chunk("main.rs", 1, 10), chunk("main.rs", 11, 20)],
    };
    let mut draft = FeatureDraft::begin(
        vec![entry, file(FeatureFileRole::Owned, "own.rs")],
        Some(15),
        4,
    );
    assert_eq!(listed(&draft.primary.chunks), [("main.rs", 11), ("own.rs", 1)]);
    draft.define(
        vec![symbol("main", "main", "other.rs"), symbol("main", "main", "main.rs")],
        "main.rs",
        &vec![],
    );
    let anchors = draft.anchors();
    assert_eq!(anchors.len(), 1);
    assert_eq!(anchors[0].file_path, "main.rs");
    let out = feature_bundle(
        "Run",
        "run",
        draft,
        vec![offer("own.rs", 1, 2), offer("x.rs", 1, 2), offer("y.rs", 1, 2), offer("z.rs", 1, 2)],
        vec![file(FeatureFileRole::Test, "t.rs")],
        vec![file(FeatureFileRole::Context, "c.rs"), file(FeatureFileRole::Context, "d.rs")],
        false,
    );
    assert!(out.found);
    assert_eq!(out.target_description, "feature: Run (run)");
    assert_eq!(listed(&out.primary), [("main.rs", 11), ("own.rs", 1)]);
    assert_eq!(listed(&out.related), [("x.rs", 1), ("y.rs", 1), ("t.rs", 1), ("c.rs", 1)]);
}
