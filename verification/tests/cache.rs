//! What a request remembers while it resolves references.
use std::mem::size_of;

use codesage_graph::impact::resolve_references_to_symbol;
use codesage_graph::model::{Notes, Reference, ReferenceKind, Symbol};
use codesage_graph::resolution::{
    import_refs_for_file, needs_imports, resolve_callee_definitions, OutgoingRef,
};
use codesage_graph::resolver::{LookupStage, MeaningLookup, MeaningStage, ReferenceLookup};
use codesage_graph::walk_cache::{
    entry_price, file_key, spelling_key, CacheRoom, WalkCache, MAX_CACHED_BYTES,
    MAX_CACHED_ENTRIES,
};

/// An index in memory. A row of an unknown kind makes the references of its
/// file unreadable.
struct Index {
    symbols: Vec<Symbol>,
    refs: Vec<Reference>,
    unreadable: Option<String>,
}

const UNREADABLE: &str = "invalid_resolution_kind";

fn definition(file: &str, name: &str, qualified: &str, line: u32) -> Symbol {
    Symbol {
        name: name.to_string(),
        qualified_name: qualified.to_string(),
        kind: "function".to_string(),
        file_path: file.to_string(),
        line_start: line,
        line_end: line,
        col_start: 0,
        col_end: 0,
        rationale: Notes::End,
    }
}

fn row(file: &str, to_name: &str, kind: ReferenceKind, line: u32) -> Reference {
    Reference {
        from_file: file.to_string(),
        from_symbol: None,
        to_name: to_name.to_string(),
        kind,
        line,
        col: 0,
    }
}

fn setup_resolution_project() -> (Index, Vec<Symbol>) {
    let symbols =
        vec![definition("base.ts", "anchor", "anchor", 1), definition("other.ts", "anchor", "anchor", 1)];
    let db = Index {
        symbols: symbols.clone(),
        refs: vec![
            row("caller.ts", "./base", ReferenceKind::Import, 1),
            row("caller.ts", "anchor", ReferenceKind::Call, 2),
            row("caller.ts", "anchor", ReferenceKind::Call, 3),
            row("orphan.ts", "anchor", ReferenceKind::Call, 1),
            row("orphan.ts", "anchor", ReferenceKind::Call, 2),
        ],
        unreadable: None,
    };
    (db, symbols)
}

fn setup_caller_import_project() -> Index {
    let (mut db, _) = setup_resolution_project();
    db.symbols.push(definition("base.ts", "second", "second", 2));
    db.symbols.push(definition("other.ts", "second", "second", 2));
    db.symbols.push(definition("base.ts", "unique", "Scope::unique", 3));
    db.refs.push(row("caller.ts", "./base", ReferenceKind::Import, 4));
    db
}

impl Index {
    fn find_symbols(&self, name: &str) -> Vec<Symbol> {
        let named = |s: &&Symbol| {
            s.name.eq_ignore_ascii_case(name) || s.qualified_name.eq_ignore_ascii_case(name)
        };
        self.symbols.iter().filter(named).cloned().collect()
    }

    fn find_references(&self, name: &str) -> Vec<Reference> {
        self.refs.iter().filter(|r| r.to_name == name).cloned().collect()
    }

    fn outgoing(&self, file: &str) -> Result<Vec<OutgoingRef>, String> {
        if self.unreadable.as_deref() == Some(file) {
            return Err(UNREADABLE.to_string());
        }
        Ok(self
            .refs
            .iter()
            .filter(|r| r.from_file == file)
            .map(|r| OutgoingRef { to_name: r.to_name.clone(), kind: r.kind })
            .collect())
    }

    fn imports(&self, file: &str) -> Result<Vec<String>, String> {
        Ok(import_refs_for_file(&self.outgoing(file)?))
    }

    /// Resolves a spelling without a cache.
    fn plain(&self, file: &str, name: &str) -> Result<Vec<Symbol>, String> {
        let candidates = self.find_symbols(name);
        let imports =
            if needs_imports(&candidates, name) { self.imports(file)? } else { vec![] };
        Ok(resolve_callee_definitions(candidates, file, name, &imports))
    }

    /// The references that mean a symbol, without a cache.
    fn references(&self, sym: &Symbol) -> Result<Vec<Reference>, String> {
        let raw = self.find_references(&sym.name);
        let resolved: Result<Vec<Vec<Symbol>>, String> =
            raw.iter().map(|r| self.plain(&r.from_file, &r.to_name)).collect();
        Ok(resolve_references_to_symbol(sym, &raw, &resolved?))
    }
}

/// A cache with counts of what it had to load and of what it knew.
struct Cached {
    cache: WalkCache,
    import_loads: usize,
    loads: usize,
    hits: usize,
}

impl Cached {
    fn new() -> Self {
        Cached { cache: WalkCache::new(), import_loads: 0, loads: 0, hits: 0 }
    }

    fn full(byte_full: bool) -> Self {
        let mut c = Cached::new();
        if byte_full {
            assert!(c.cache.remember_imports("full", vec![], MAX_CACHED_BYTES));
        } else {
            for index in 0..MAX_CACHED_ENTRIES {
                assert!(c.cache.remember_imports(&index.to_string(), vec![], 0));
            }
        }
        c
    }

    fn keep_imports(&mut self, file: &str, imports: Vec<String>) {
        let mut held = vec![file.len()];
        held.extend(imports.iter().map(String::capacity));
        let bytes = entry_price(imports.capacity(), size_of::<String>(), &held);
        self.cache.remember_caller_imports(file, imports, bytes);
    }

    fn keep_meaning(&mut self, file: &str, name: &str, found: Vec<Symbol>) {
        let mut held = vec![file.len(), name.len()];
        for s in &found {
            held.extend([s.file_path.capacity(), s.qualified_name.capacity()]);
        }
        let bytes = entry_price(found.capacity(), size_of::<Symbol>(), &held);
        self.cache.remember_resolution(file, name, found, bytes);
    }

    fn keep_references(&mut self, sym: &Symbol, rows: Vec<Reference>) {
        let mut held = vec![sym.file_path.capacity(), sym.qualified_name.capacity()];
        for r in &rows {
            held.extend([r.from_file.capacity(), r.to_name.capacity()]);
        }
        let bytes = entry_price(rows.capacity(), size_of::<Reference>(), &held);
        self.cache.remember_references(sym, rows, bytes);
    }

    fn resolve(&mut self, db: &Index, file: &str, name: &str) -> Result<Vec<Symbol>, String> {
        let mut lookup = MeaningLookup::begin(&self.cache, file, name);
        loop {
            match &lookup.stage {
                MeaningStage::Candidates => {
                    self.loads += 1;
                    lookup.take_candidates(&self.cache, db.find_symbols(name));
                },
                MeaningStage::Outgoing(_) => {
                    self.import_loads += 1;
                    let imports = lookup.take_outgoing(&db.outgoing(file)?);
                    self.keep_imports(file, imports);
                },
                MeaningStage::Known(found) => {
                    self.hits += 1;
                    return Ok(found.clone());
                },
                MeaningStage::Found(found) => {
                    self.keep_meaning(file, name, found.clone());
                    return Ok(found.clone());
                },
            }
        }
    }

    fn references(&mut self, db: &Index, sym: &Symbol) -> Result<Vec<Reference>, String> {
        let rows = self.look_up(db, sym, &db.find_references(&sym.name))?;
        self.keep_references(sym, rows.clone());
        Ok(rows)
    }

    /// Looks the references up that mean a symbol, among `raw`. A spelling that
    /// needs no load counts as a hit.
    fn look_up(&mut self, db: &Index, sym: &Symbol, raw: &[Reference]) -> Result<Vec<Reference>, String> {
        let mut spellings: Vec<(&str, &str)> =
            raw.iter().map(|r| (r.from_file.as_str(), r.to_name.as_str())).collect();
        spellings.sort();
        spellings.dedup();
        let loads = self.loads;
        let mut lookup = ReferenceLookup::begin(&self.cache, sym.clone());
        loop {
            match &lookup.stage {
                LookupStage::Rows => lookup.take_rows(&self.cache, raw.to_vec()),
                LookupStage::Meaning(next) => {
                    let (file, name) = (next.file.clone(), next.name.clone());
                    let found = self.resolve(db, &file, &name)?;
                    lookup.take_meaning(&self.cache, found);
                },
                LookupStage::Known(rows) => return Ok(rows.clone()),
                LookupStage::Found(rows) => {
                    self.hits += spellings.len() - (self.loads - loads);
                    return Ok(rows.clone());
                },
            }
        }
    }
}

fn files(found: &[Symbol]) -> Vec<&str> {
    found.iter().map(|s| s.file_path.as_str()).collect()
}

fn places(rows: &[Reference]) -> Vec<(&str, u32)> {
    rows.iter().map(|r| (r.from_file.as_str(), r.line)).collect()
}

#[test]
fn caller_imports_reuse_decoded_evidence_across_spellings_without_crossing_callers() {
    let db = setup_caller_import_project();
    let mut c = Cached::new();
    for (caller, expected_file) in [("caller.ts", Some("base.ts")), ("orphan.ts", None)] {
        for spelling in ["anchor", "second"] {
            let actual = c.resolve(&db, caller, spelling).unwrap();
            assert_eq!(files(&actual), files(&db.plain(caller, spelling).unwrap()));
            assert_eq!(actual.first().map(|s| s.file_path.as_str()), expected_file);
            assert_eq!(actual.len(), usize::from(expected_file.is_some()));
        }
    }
    assert_eq!(c.import_loads, 2);
    assert_eq!(c.cache.caller_imports.get(&file_key("caller.ts")).unwrap().as_slice(), ["./base"]);
    assert!(c.cache.caller_imports.get(&file_key("orphan.ts")).unwrap().is_empty());
    assert_eq!(c.cache.entry_count(), 6);
    assert!(c.cache.room.bytes <= MAX_CACHED_BYTES);
}

#[test]
fn caller_imports_stay_lazy_for_unique_and_qualified_resolution() {
    let mut db = setup_caller_import_project();
    db.unreadable = Some("caller.ts".to_string());
    let mut c = Cached::new();
    for spelling in ["unique", "Scope::unique", "scope::UNIQUE", "missing"] {
        assert_eq!(
            files(&c.resolve(&db, "caller.ts", spelling).unwrap()),
            files(&db.plain("caller.ts", spelling).unwrap())
        );
    }
    assert_eq!(c.import_loads, 0);
    assert_eq!(c.cache.caller_imports.len(), 0);
    let error = c.resolve(&db, "caller.ts", "anchor").unwrap_err();
    assert!(error.contains("invalid_resolution_kind"));
}

#[test]
fn caller_imports_share_entry_and_byte_limits_with_other_walk_evidence() {
    let db = setup_caller_import_project();
    for byte_full in [false, true] {
        let mut c = Cached::full(byte_full);
        let retained = (c.cache.entry_count(), c.cache.room.bytes);
        for spelling in ["anchor", "second"] {
            assert_eq!(
                files(&c.resolve(&db, "caller.ts", spelling).unwrap()),
                files(&db.plain("caller.ts", spelling).unwrap())
            );
        }
        assert_eq!(c.import_loads, 2);
        assert_eq!(c.cache.caller_imports.len(), 0);
        assert_eq!((c.cache.entry_count(), c.cache.room.bytes), retained);
    }
}

#[test]
fn retained_caller_imports_charge_capacities_before_resolutions_are_admitted() {
    let db = setup_caller_import_project();
    let mut c = Cached::new();
    for index in 0..MAX_CACHED_ENTRIES - 1 {
        assert!(c.cache.remember_imports(&index.to_string(), vec![], 0));
    }
    let rows = c.resolve(&db, "caller.ts", "anchor").unwrap();
    assert_eq!(rows[0].file_path, "base.ts");
    assert_eq!(c.cache.resolutions.len(), 0);
    assert_eq!(c.cache.entry_count(), MAX_CACHED_ENTRIES);
    let imports = c.cache.caller_imports.get(&file_key("caller.ts")).unwrap();
    assert_eq!(
        c.cache.room.bytes,
        "caller.ts".len()
            + imports.capacity() * size_of::<String>()
            + imports.iter().map(String::capacity).sum::<usize>()
    );
}

#[test]
fn oversized_caller_import_evidence_falls_back_without_poisoning_small_entries() {
    let mut db = setup_caller_import_project();
    db.refs.push(row("caller.ts", &"x".repeat(MAX_CACHED_BYTES + 1), ReferenceKind::Import, 5));
    let mut c = Cached::new();
    for spelling in ["anchor", "second"] {
        let actual = c.resolve(&db, "caller.ts", spelling).unwrap();
        assert_eq!(actual[0].file_path, "base.ts");
    }
    assert_eq!(c.import_loads, 2);
    assert_eq!(c.cache.caller_imports.len(), 0);
    assert_eq!(c.cache.resolutions.len(), 2);
    assert!(c.cache.room.bytes < MAX_CACHED_BYTES);
    c.resolve(&db, "orphan.ts", "anchor").unwrap();
    assert!(c.cache.caller_imports.get(&file_key("orphan.ts")).unwrap().is_empty());
}

#[test]
fn caller_import_errors_do_not_cache_partial_evidence_or_block_retry() {
    let mut db = setup_caller_import_project();
    db.unreadable = Some("caller.ts".to_string());
    let mut c = Cached::new();
    let actual = c.resolve(&db, "caller.ts", "anchor").unwrap_err();
    let expected = db.plain("caller.ts", "anchor").unwrap_err();
    assert_eq!(actual, expected);
    assert!(actual.contains("invalid_resolution_kind"));
    assert_eq!(c.cache.caller_imports.len(), 0);
    assert_eq!(c.cache.resolutions.len(), 0);
    assert_eq!(c.cache.room.bytes, 0);
    db.unreadable = None;
    for spelling in ["anchor", "second"] {
        let actual = c.resolve(&db, "caller.ts", spelling).unwrap();
        assert_eq!(files(&actual), files(&db.plain("caller.ts", spelling).unwrap()));
        assert_eq!(actual[0].file_path, "base.ts");
    }
    assert_eq!(c.import_loads, 2);
}

#[test]
fn shared_resolutions_reuse_positive_and_empty_membership_across_symbols() {
    let (db, symbols) = setup_resolution_project();
    let mut c = Cached::new();
    for (sym, expected_count) in symbols.iter().zip([2, 0]) {
        let expected = db.references(sym).unwrap();
        assert_eq!(expected.len(), expected_count);
        assert_eq!(places(&c.references(&db, sym).unwrap()), places(&expected));
    }
    assert_eq!(c.loads, 2);
    assert_eq!(c.hits, 2);
    assert_eq!(c.cache.resolutions.len(), 2);
    assert!(c.cache.resolutions.get(&spelling_key("orphan.ts", "anchor")).unwrap().is_empty());
    assert!(c.cache.room.bytes <= MAX_CACHED_BYTES);

    let mut different_line = symbols[0].clone();
    different_line.line_start += 1;
    assert!(c.references(&db, &different_line).unwrap().is_empty());
    let mut different_name = symbols[0].clone();
    different_name.qualified_name = "Different::anchor".to_string();
    assert!(c.references(&db, &different_name).unwrap().is_empty());
    assert_eq!(c.loads, 2);
    assert_eq!(c.hits, 6);
}

#[test]
fn full_shared_resolution_pool_preserves_within_symbol_deduplication() {
    let (db, symbols) = setup_resolution_project();
    for byte_full in [false, true] {
        let mut c = Cached::full(byte_full);
        for sym in &symbols {
            let expected = db.references(sym).unwrap();
            assert_eq!(places(&c.references(&db, sym).unwrap()), places(&expected));
        }
        assert_eq!(c.loads, 4);
        assert_eq!(c.hits, 0);
        assert_eq!(c.cache.resolutions.len(), 0);
        assert_eq!(c.cache.references.len(), 0);
        assert!(c.cache.entry_count() <= MAX_CACHED_ENTRIES);
    }
}

#[test]
fn oversized_resolution_key_falls_back_without_retention_or_repeated_decode() {
    let (db, symbols) = setup_resolution_project();
    let mut raw = db.find_references("anchor");
    raw.truncate(2);
    assert_eq!(raw.len(), 2);
    for r in &mut raw {
        r.from_file = "x".repeat(MAX_CACHED_BYTES + 1);
    }
    let mut c = Cached::new();
    let actual = c.look_up(&db, &symbols[0], &raw).unwrap();
    assert!(actual.is_empty());
    assert_eq!(c.loads, 1);
    assert_eq!(c.cache.room.bytes, 0);
    assert_eq!(c.cache.resolutions.len(), 0);
}

#[test]
fn shared_resolution_errors_preserve_full_outgoing_decoder_and_allow_retry() {
    let (mut db, symbols) = setup_resolution_project();
    db.unreadable = Some("caller.ts".to_string());
    let expected = db.references(&symbols[0]).unwrap_err();
    let mut c = Cached::new();
    let actual = c.references(&db, &symbols[0]).unwrap_err();
    assert_eq!(actual, expected);
    assert!(actual.contains("invalid_resolution_kind"));
    assert!(c.cache.resolutions.get(&spelling_key("caller.ts", "anchor")).is_none());
    db.unreadable = None;
    let retried = c.references(&db, &symbols[0]).unwrap();
    assert_eq!(retried.len(), 2);
    assert_eq!(places(&retried), places(&db.references(&symbols[0]).unwrap()));
}

#[test]
fn fresh_resolution_cache_observes_changed_import_targets() {
    let (mut db, symbols) = setup_resolution_project();
    let mut before = Cached::new();
    assert_eq!(before.references(&db, &symbols[0]).unwrap().len(), 2);
    for r in &mut db.refs {
        if r.kind == ReferenceKind::Import {
            r.to_name = "./other".to_string();
        }
    }
    let mut after = Cached::new();
    for (sym, count) in symbols.iter().zip([0, 2]) {
        let actual = after.references(&db, sym).unwrap();
        assert_eq!(actual.len(), count);
        assert_eq!(places(&actual), places(&db.references(sym).unwrap()));
    }
    assert_eq!(after.hits, 2);
}

#[test]
fn a_lookup_goes_from_one_unknown_spelling_to_the_next_and_then_answers() {
    let (db, symbols) = setup_resolution_project();
    let cache = WalkCache::new();
    let mut lookup = ReferenceLookup::begin(&cache, symbols[0].clone());
    assert!(matches!(lookup.stage, LookupStage::Rows));
    lookup.take_rows(&cache, db.find_references("anchor"));
    for file in ["caller.ts", "orphan.ts"] {
        let name = match &lookup.stage {
            LookupStage::Meaning(next) => {
                assert_eq!(next.file, file);
                next.name.clone()
            },
            other => panic!("{other:?}"),
        };
        lookup.take_meaning(&cache, db.plain(file, &name).unwrap());
    }
    match &lookup.stage {
        LookupStage::Found(rows) => assert_eq!(places(rows), [("caller.ts", 2), ("caller.ts", 3)]),
        other => panic!("{other:?}"),
    }
}

#[test]
fn an_entry_costs_its_slots_and_what_they_hold_and_never_wraps() {
    assert_eq!(entry_price(0, 24, &vec![]), 0);
    assert_eq!(entry_price(4, 24, &vec![9, 6, 0]), 111);
    assert_eq!(entry_price(usize::MAX, 2, &vec![]), usize::MAX);
    assert_eq!(entry_price(1, usize::MAX - 1, &vec![1, 1]), usize::MAX);
}

#[test]
fn room_is_claimed_only_where_both_limits_allow_it() {
    let mut room = CacheRoom::new();
    assert!(room.claim(MAX_CACHED_BYTES - 1));
    assert!(!room.claim(2));
    assert_eq!((room.entries, room.bytes), (1, MAX_CACHED_BYTES - 1));
    assert!(room.claim(1));
    assert!(room.claim(0));
    assert_eq!((room.entries, room.bytes), (3, MAX_CACHED_BYTES));
}

#[test]
fn matched_import_rows_share_the_room_and_are_recalled() {
    let mut cache = WalkCache::new();
    assert!(cache.recall_imports("a.ts").is_none());
    assert!(cache.remember_imports("a.ts", vec![3, 7], 20));
    assert!(cache.remember_caller_imports("a.ts", vec!["./x".to_string()], 10));
    assert_eq!(cache.recall_imports("a.ts"), Some(vec![3, 7]));
    assert!(cache.recall_imports("b.ts").is_none());
    assert_eq!((cache.entry_count(), cache.room.bytes), (2, 30));
    assert!(!cache.remember_imports("b.ts", vec![1], MAX_CACHED_BYTES - 29));
    assert!(cache.recall_imports("b.ts").is_none());
    assert_eq!((cache.entry_count(), cache.room.bytes), (2, 30));
}

#[test]
fn a_remembered_value_is_never_replaced() {
    let mut cache = WalkCache::new();
    assert!(cache.remember_caller_imports("a.ts", vec!["./x".to_string()], 3));
    assert!(!cache.remember_caller_imports("a.ts", vec!["./y".to_string()], 3));
    assert!(cache.remember_caller_imports("b.ts", vec![], 0));
    assert_eq!(cache.caller_imports.get(&file_key("a.ts")).unwrap().as_slice(), ["./x"]);
    assert_eq!(cache.room.bytes, 3);
    assert_eq!(cache.entry_count(), 2);
}
