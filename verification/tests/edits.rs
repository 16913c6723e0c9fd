//! Checks of an edit to one declaration.
use codesage_graph::edit_callers::{
    resolve, rust_callers, rust_modules, Change, COUNT_REASON, OTHER_LANGUAGE_NOTE, PRIVATE_REASON,
};
use codesage_graph::edit_check::{
    deduplicate_signatures, is_declared, is_function, name_of, parameter_arity, same_arity, same_opt,
    same_signatures, signature, Arity, Signature,
};
use codesage_graph::edit_report::{
    check_entry, check_language, check_request, check_size, check_source, complete, propose,
    select_declaration, EditRefusal,
};
use codesage_graph::syntax::{Language, SyntaxNode, SyntaxTree};
use codesage_graph::text::NumberFault;

/// Nodes in the order in which they are met.
struct Builder {
    source: String,
    nodes: Vec<SyntaxNode>,
}

impl Builder {
    fn new(source: &str) -> Builder {
        let mut b = Builder { source: source.to_string(), nodes: vec![] };
        let end = source.chars().count();
        b.put(None, "source_file", None, 0, end);
        b
    }

    fn put(&mut self, parent: Option<usize>, kind: &str, field: Option<&str>, start: usize, end: usize) -> usize {
        let i = self.nodes.len();
        let row = self.source.chars().take(start).filter(|c| *c == '\n').count();
        self.nodes.push(SyntaxNode {
            kind: kind.to_string(),
            named: true,
            field: field.map(|f| f.to_string()),
            start,
            end,
            row,
            parent,
            children: vec![],
        });
        if let Some(p) = parent {
            self.nodes[p].children.push(i);
        }
        i
    }
}

/// The tree of a file of functions, one to a line, each with at most one call.
fn tree(source: &str) -> SyntaxTree {
    let mut b = Builder::new(source);
    let mut at = 0;
    for line in source.split('\n') {
        if line.contains("fn ") {
            let f = b.put(Some(0), "function_item", None, at, at + line.len());
            if line.starts_with("pub ") {
                b.put(Some(f), "visibility_modifier", None, at, at + 3);
            }
            let name = at + line.find("fn ").unwrap() + 3;
            let open = at + line.find('(').unwrap();
            let close = at + line.find(')').unwrap();
            b.put(Some(f), "identifier", Some("name"), name, open);
            let params = b.put(Some(f), "parameters", Some("parameters"), open, close + 1);
            let mut start = open + 1;
            for p in source[open + 1..close].split(',').filter(|p| !p.is_empty()) {
                b.put(Some(params), "parameter", None, start, start + p.len());
                start += p.len() + 1;
            }
            let body = at + line.find('{').unwrap();
            let block = b.put(Some(f), "block", Some("body"), body, at + line.len());
            let inner = &source[body + 1..at + line.len() - 1];
            if let Some(o) = inner.find('(') {
                let from = body + 1 + inner.find(|c: char| c.is_alphanumeric()).unwrap();
                let callee_end = body + 1 + o;
                let end = body + 1 + inner.find(')').unwrap() + 1;
                let call = b.put(Some(block), "call_expression", None, from, end);
                b.put(Some(call), "identifier", Some("function"), from, callee_end);
                let args = b.put(Some(call), "arguments", Some("arguments"), callee_end, end);
                let mut start = callee_end + 1;
                for a in source[callee_end + 1..end - 1].split(',').filter(|a| !a.is_empty()) {
                    b.put(Some(args), "integer_literal", None, start, start + a.len());
                    start += a.len() + 1;
                }
            }
        }
        at += line.len() + 1;
    }
    SyntaxTree::new(source, b.nodes).expect("the nodes fit the source")
}

const SOURCE: &str = "fn f(a: u8) {}\nfn g() { self::f(1) }\n";

#[test]
fn a_tree_has_to_fit_its_source() {
    let t = tree(SOURCE);
    assert_eq!(t.source_len(), SOURCE.len());
    let mut b = Builder::new("ab");
    b.put(Some(0), "x", None, 0, 9);
    assert!(SyntaxTree::new("ab", b.nodes).is_none());
    assert!(SyntaxTree::new("ab", vec![]).is_none());
}

#[test]
fn a_declaration_is_read_from_the_tree() {
    let t = tree(SOURCE);
    let f = select_declaration(&t, false, "f", None).unwrap();
    assert!(is_function(&t, f) && is_declared(&t, f, "f"));
    assert_eq!(name_of(&t, f).as_deref(), Some("f"));
    let s = signature(&t, f, Language::Rust);
    assert_eq!(s.arity, Some(Arity { minimum: 1, maximum: Some(1) }));
    assert_eq!(s.visibility.as_deref(), Some("private"));
    assert!(s.declaration.starts_with("fn f(a: u8)"), "{s:?}");
    let params = t.field_of(f, "parameters").unwrap();
    assert_eq!(parameter_arity(&t, params, Language::Rust), s.arity);
    let p = tree("pub fn f() {}\n");
    let i = select_declaration(&p, false, "f", None).unwrap();
    assert_eq!(signature(&p, i, Language::Rust).visibility.as_deref(), Some("pub"));
}

#[test]
fn a_request_is_refused_for_what_it_names() {
    assert_eq!(check_request("rel", "a.rs", "x"), Err(EditRefusal::ProjectNotAbsolute));
    assert_eq!(check_request("/p", "../a.rs", "x"), Err(EditRefusal::FileNotPlain));
    assert_eq!(check_request("/p", "/a.rs", "x"), Err(EditRefusal::FileNotPlain));
    let big = "x".repeat(1024 * 1024 + 1);
    assert_eq!(check_request("/p", "a.rs", &big), Err(EditRefusal::ReplacementTooLarge));
    assert_eq!(check_request("/p", "src/a.rs", "x"), Ok(()));
    assert_eq!(check_size(" 12\n"), Ok(12));
    assert_eq!(check_size("x"), Err(EditRefusal::SizeUnreadable(NumberFault::InvalidDigit)));
    assert_eq!(check_size("\n"), Err(EditRefusal::SizeUnreadable(NumberFault::Empty)));
    assert_eq!(check_size("1048577"), Err(EditRefusal::HeadTooLarge));
    assert!(check_entry("100644 blob abc\ta.rs").is_ok());
    assert_eq!(check_entry("120000 blob abc\ta.rs"), Err(EditRefusal::NotRegularFile));
    assert_eq!(check_language("a.x", None), Err(EditRefusal::UnsupportedLanguage));
    assert_eq!(check_language("a.h", Some(Language::C)), Err(EditRefusal::AmbiguousHeader));
    assert_eq!(check_language("a.rs", Some(Language::Rust)), Ok(Language::Rust));
}

#[test]
fn an_unreadable_size_is_refused_with_what_is_wrong_with_the_number() {
    let long = "9".repeat(40);
    let spoilt = format!("{long}x");
    let early = format!("1x{long}");
    for printed in ["", "+", "-", "-5", "x", "+x", "++1", "1 2", "0x10", "é", &long, &spoilt, &early] {
        let fault = printed.parse::<usize>().unwrap_err();
        assert_eq!(check_size(printed).unwrap_err().message(), fault.to_string(), "{printed}");
    }
    assert_eq!(check_size(&spoilt), Err(EditRefusal::SizeUnreadable(NumberFault::TooLarge)));
    assert_eq!(check_size(&early), Err(EditRefusal::SizeUnreadable(NumberFault::InvalidDigit)));
    assert_eq!(check_size("+12"), Ok(12));
}

#[test]
fn one_declaration_has_to_be_meant() {
    let t = tree("fn f() {}\nfn f(a: u8) {}\n");
    assert_eq!(select_declaration(&t, true, "f", None), Err(EditRefusal::HeadSyntaxErrors));
    let none = select_declaration(&t, false, "h", None).unwrap_err();
    assert_eq!(none, EditRefusal::NotOneDeclaration(0));
    assert_eq!(
        none.message(),
        "expected one named declaration at HEAD; found 0 (supply its start line to disambiguate)"
    );
    assert_eq!(select_declaration(&t, false, "f", None), Err(EditRefusal::NotOneDeclaration(2)));
    let second = select_declaration(&t, false, "f", Some(2)).unwrap();
    assert_eq!(t.node(second).row, 1);
}

fn check(source: &str, symbol: &str, replacement: &str, faulty: bool) -> Result<Vec<String>, EditRefusal> {
    let t = tree(source);
    let old = select_declaration(&t, false, symbol, None)?;
    let proposed = propose(&t, old, replacement)?;
    let new = tree(&proposed);
    let report = check_source(&t, old, &new, faulty, Language::Rust, "a.rs", symbol, replacement)?;
    let report = complete(report, "abc", true);
    assert_eq!(report.head, "abc");
    assert!(report.worktree_matches_head);
    Ok(report.incompatible_callers.iter().map(|c| format!("{}:{}:{}", c.file, c.line, c.reason)).collect())
}

#[test]
fn a_replacement_has_to_be_the_declaration() {
    assert_eq!(
        check(SOURCE, "f", "fn f() {}", true),
        Err(EditRefusal::ReplacementSyntaxErrors)
    );
    assert_eq!(check(SOURCE, "f", "", false), Err(EditRefusal::NotOneReplacement));
    assert_eq!(check(SOURCE, "f", "fn h(a: u8) {}", false), Err(EditRefusal::NameChanged));
    assert!(check(SOURCE, "f", "fn f(a: u8) {}\nfn x() {}", false).is_err());
    let t = tree(SOURCE);
    let old = select_declaration(&t, false, "f", None).unwrap();
    assert_eq!(
        propose(&t, old, &"x".repeat(1024 * 1024)),
        Err(EditRefusal::ProposedTooLarge)
    );
    assert_eq!(propose(&t, old, "X"), Ok("X\nfn g() { self::f(1) }\n".to_string()));
}

#[test]
fn a_declaration_replaced_by_itself_is_unchanged() {
    let t = tree(SOURCE);
    let old = select_declaration(&t, false, "f", None).unwrap();
    let proposed = propose(&t, old, "fn f(a: u8) {}").unwrap();
    assert_eq!(proposed, SOURCE);
    let new = tree(&proposed);
    let r = check_source(&t, old, &new, false, Language::Rust, "a.rs", "f", "fn f(a: u8) {}").unwrap();
    assert!(!r.arity_changed && !r.visibility_changed && !r.overloads_changed);
    assert!(r.incompatible_callers.is_empty() && !r.callers_truncated && r.counts_floor);
    assert!(same_signatures(&vec![r.before], &vec![r.after]));
}

#[test]
fn callers_that_no_longer_fit_are_named() {
    let broken = check(SOURCE, "f", "fn f(a: u8, b: u8) {}", false).unwrap();
    assert_eq!(broken, vec![format!("a.rs:2:1{COUNT_REASON}")]);
    assert_eq!(check(SOURCE, "f", "fn f(b: u16) {}", false), Ok(vec![]));
    assert_ne!(COUNT_REASON, PRIVATE_REASON);
}

#[test]
fn an_unchanged_signature_breaks_no_caller_and_other_languages_are_not_judged() {
    let t = tree(SOURCE);
    let target = select_declaration(&t, false, "f", None).unwrap();
    let change = |after: &SyntaxTree| Change {
        target,
        symbol: "f".to_string(),
        file: "a.rs".to_string(),
        modules: vec![],
        before: signature(&t, target, Language::Rust),
        after: signature(after, target, Language::Rust),
    };
    let (_, found, note) = rust_callers(&t, Language::Rust, change(&t));
    assert!(found.callers.is_empty() && !found.truncated);
    assert_ne!(note, Some(OTHER_LANGUAGE_NOTE));
    let wider = tree("fn f(a: u8, b: u8) {}\nfn g() { self::f(1) }\n");
    let (_, found, note) = rust_callers(&t, Language::Go, change(&wider));
    assert!(found.callers.is_empty());
    assert_eq!(note, Some(OTHER_LANGUAGE_NOTE));
}

#[test]
fn paths_are_resolved_from_their_module() {
    let v = |parts: &[&str]| -> Vec<String> { parts.iter().map(|p| p.to_string()).collect() };
    assert_eq!(resolve(&v(&["a", "b"]), &v(&["self", "f"])), Some(v(&["a", "b", "f"])));
    assert_eq!(resolve(&v(&["a", "b"]), &v(&["super", "f"])), Some(v(&["a", "f"])));
    assert_eq!(resolve(&v(&["a", "b"]), &v(&["super", "super", "f"])), Some(v(&["f"])));
    assert_eq!(resolve(&v(&["a", "b"]), &v(&["crate", "f"])), None);
    assert_eq!(resolve(&v(&[]), &v(&["super", "f"])), None);
    let t = tree(SOURCE);
    assert_eq!(rust_modules(&t, 1), Some(vec![]));
}

fn sig(declaration: &str, minimum: usize) -> Signature {
    Signature {
        declaration: declaration.to_string(),
        arity: Some(Arity { minimum, maximum: Some(minimum) }),
        visibility: None,
    }
}

#[test]
fn signatures_are_listed_once() {
    let list = deduplicate_signatures(vec![sig("fn f()", 0), sig("fn f(a)", 1), sig("fn f()", 0)]);
    assert_eq!(list.len(), 2);
    assert!(same_signatures(&list, &vec![sig("fn f()", 0), sig("fn f(a)", 1)]));
    assert!(!same_signatures(&list, &vec![sig("fn f()", 0)]));
    assert!(same_arity(None, None) && !same_arity(None, Some(Arity { minimum: 0, maximum: None })));
    assert!(same_opt(&Some("a".to_string()), &Some("a".to_string())));
    assert!(!same_opt(&None, &Some("a".to_string())));
}

#[test]
fn every_refusal_has_its_words() {
    for (refusal, words) in [
        (EditRefusal::NotWorktreeRoot, "project must be the Git worktree root"),
        (EditRefusal::MoreThanTheDeclaration, "replacement must contain only the complete declaration"),
        (EditRefusal::HeadTooLarge, "HEAD file exceeds 1 MiB"),
        (EditRefusal::NameChanged, "replacement must retain the selected symbol name"),
    ] {
        assert_eq!(refusal.message(), words);
    }
}
