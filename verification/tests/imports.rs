//! Import specifiers and the files that they name.
use codesage_graph::import_graph::{
    file_import_pairs, import_edges_within, is_declaration_file, loaded_target, LoadCandidate,
    PathDirective,
};
use codesage_graph::imports::{
    import_path_targets_file, import_ref_targets_file, lexical_join, rust_module_candidates,
};

#[test]
fn relative_specifier_resolves_against_the_caller_directory() {
    assert!(import_path_targets_file(
        "./headers.js",
        "lib/core/client.js",
        "lib/core/headers.js"
    ));
    assert!(import_path_targets_file(
        "../helpers/util.js",
        "lib/core/client.js",
        "lib/helpers/util.js"
    ));
    // Same basename in a different directory is not the same file.
    assert!(!import_path_targets_file(
        "./headers.js",
        "lib/core/client.js",
        "lib/other/headers.js"
    ));
}

#[test]
fn specifier_extension_may_differ_from_the_file_on_disk() {
    // TypeScript ESM requires the emitted extension in the specifier.
    assert!(import_path_targets_file(
        "./foo.js",
        "src/client.ts",
        "src/foo.ts"
    ));
    // Omitted entirely, and the directory-index form.
    assert!(import_path_targets_file(
        "./foo",
        "src/client.ts",
        "src/foo.tsx"
    ));
    assert!(import_path_targets_file(
        "./utils",
        "src/client.js",
        "src/utils/index.js"
    ));
}

#[test]
fn mts_cts_extensions_resolve_like_their_emit_targets() {
    // `.mts`/`.cts` are indexed as TypeScript; the extension swap must
    // admit them both bare and under their emitted `.mjs`/`.cjs` names.
    assert!(import_path_targets_file(
        "./foo",
        "src/client.ts",
        "src/foo.mts"
    ));
    assert!(import_path_targets_file(
        "./foo",
        "src/client.ts",
        "src/foo.cts"
    ));
    assert!(import_path_targets_file(
        "./foo.mjs",
        "src/client.ts",
        "src/foo.mts"
    ));
    assert!(import_path_targets_file(
        "./foo.cjs",
        "src/client.ts",
        "src/foo.cts"
    ));
    // The directory-index form applies to them as well.
    assert!(import_path_targets_file(
        "./utils",
        "src/client.ts",
        "src/utils/index.mts"
    ));
}

#[test]
fn go_import_path_does_not_match_an_unrelated_file() {
    // The last dot of `github.com/x/y` sits in the directory part. Splitting
    // the extension over the whole path produced the stem `github`, which
    // matched any same-named source file elsewhere in a mixed repo.
    assert!(!import_path_targets_file(
        "github.com/x/y",
        "cmd/app/main.go",
        "github.py"
    ));
    assert!(!import_path_targets_file(
        "github.com/x/y",
        "cmd/app/main.go",
        "github.h"
    ));
}

#[test]
fn escaping_above_the_root_resolves_to_nothing() {
    assert!(!import_path_targets_file(
        "../../x.js",
        "a/client.js",
        "x.js"
    ));
    // The same specifier from two directories deep is in range.
    assert!(import_path_targets_file(
        "../../x.js",
        "a/b/client.js",
        "x.js"
    ));
}

#[test]
fn declaration_files_resolve_through_both_branches() {
    // Specifier carries no extension, so one is appended.
    assert!(import_path_targets_file(
        "./foo",
        "src/client.ts",
        "src/foo.d.ts"
    ));
    // Specifier carries `.js`, which is swapped.
    assert!(import_path_targets_file(
        "./foo.js",
        "src/client.ts",
        "src/foo.d.ts"
    ));
}

#[test]
fn specifier_with_an_extension_is_not_also_appended_to() {
    // `./foo.js` must not claim `foo.js.ts`.
    assert!(!import_path_targets_file(
        "./foo.js",
        "src/client.ts",
        "src/foo.js.ts"
    ));
}

#[test]
fn rust_use_paths_resolve_to_module_files() {
    // Item import: the parent module names the file.
    assert!(import_ref_targets_file(
        "crate::util::helper",
        "src/lib.rs",
        "src/util.rs"
    ));
    assert!(import_ref_targets_file(
        "crate::util::helper",
        "lib.rs",
        "util/mod.rs"
    ));
    // Whole-module import: the path itself names the file.
    assert!(import_ref_targets_file(
        "crate::util",
        "src/lib.rs",
        "src/util.rs"
    ));
    // Workspace member: `crate::` is the importer's own src root.
    assert!(import_ref_targets_file(
        "crate::util::helper",
        "crates/app/src/lib.rs",
        "crates/app/src/util.rs"
    ));
    // A sibling crate's same-named module is not in `crate::`. The
    // repo-root `src/` guess cannot fire here (no such path), and the
    // src-root candidate is derived from the importer.
    assert!(!import_ref_targets_file(
        "crate::util::helper",
        "crates/app/src/lib.rs",
        "crates/other/src/util.rs"
    ));
    // An importer with its own src root must not claim the ROOT crate's
    // module either: the generic `src/` guess is a fallback, not an
    // always-on candidate.
    assert!(!import_ref_targets_file(
        "crate::util::helper",
        "crates/app/src/lib.rs",
        "src/util.rs"
    ));
    // External paths derive candidates that match no indexed file.
    assert!(!import_ref_targets_file(
        "std::io::Read",
        "src/lib.rs",
        "src/io.rs"
    ));
}

#[test]
fn bare_includes_resolve_against_the_includer_directory() {
    assert!(import_ref_targets_file(
        "util.h",
        "src/main.c",
        "src/util.h"
    ));
    assert!(import_ref_targets_file("util.h", "main.c", "util.h"));
    // Exact join only: no claiming a same-named header elsewhere.
    assert!(!import_ref_targets_file(
        "util.h",
        "src/main.c",
        "other/util.h"
    ));
    // A bare symbol name is not a file.
    assert!(!import_ref_targets_file("util", "main.py", "util.py"));
}

#[test]
fn directory_includes_resolve_exactly_never_by_suffix() {
    // Includer-directory join.
    assert!(import_ref_targets_file(
        "sub/foo.h",
        "app/main.c",
        "app/sub/foo.h"
    ));
    // Project-root join (`-I.` style include).
    assert!(import_ref_targets_file(
        "sub/foo.h",
        "app/main.c",
        "sub/foo.h"
    ));
    // No suffix match: an unrelated tree's `*/sub/foo.h` stays unclaimed.
    assert!(!import_ref_targets_file(
        "sub/foo.h",
        "app/main.c",
        "vendor/sub/foo.h"
    ));
}

#[test]
fn path_specifiers_route_through_the_relative_matcher() {
    assert!(import_ref_targets_file(
        "./util.js",
        "lib/main.js",
        "lib/util.js"
    ));
    assert!(!import_ref_targets_file(
        "./util.js",
        "lib/main.js",
        "other/util.js"
    ));
}

#[test]
fn a_dot_in_a_directory_component_is_not_an_extension() {
    // Stem must come from the last segment: `dir.v1/foo` is not `dir`.
    assert!(!import_path_targets_file(
        "./dir.v1/foo",
        "src/client.ts",
        "src/dir.ts"
    ));
    assert!(import_path_targets_file(
        "./dir.v1/foo",
        "src/client.ts",
        "src/dir.v1/foo.ts"
    ));
}

#[test]
fn package_specifiers_do_not_claim_same_named_project_files() {
    // An npm subpath import, not a relative path to `pkg/sub.ts`.
    assert!(!import_path_targets_file(
        "pkg/sub",
        "src/client.ts",
        "pkg/sub.ts"
    ));
    // A Go dot import names a package directory, not a source file.
    assert!(!import_path_targets_file(
        "github.com/x/y",
        "cmd/app/main.go",
        "github.com/x/y.ts"
    ));
}

#[test]
fn non_relative_include_matches_on_a_separator_boundary() {
    assert!(import_path_targets_file(
        "net/utils.h",
        "src/main.c",
        "include/net/utils.h"
    ));
    // `utils.h` must not be claimed by `net_utils.h`.
    assert!(!import_path_targets_file(
        "net/utils.h",
        "src/main.c",
        "include/net_utils.h"
    ));
}

#[test]
fn a_join_resolves_dots_and_fails_only_above_the_root() {
    assert_eq!(lexical_join("lib/core", "./a.js"), Some("lib/core/a.js".to_string()));
    assert_eq!(lexical_join("lib/core", "../a.js"), Some("lib/a.js".to_string()));
    assert_eq!(lexical_join("lib", "../../a.js"), None);
    assert_eq!(lexical_join("lib", "../x/../../a.js"), None);
}

#[test]
fn crate_paths_are_read_from_the_importers_own_source_root() {
    let found = rust_module_candidates("crate::util::helper", "crates/app/src/lib.rs");
    assert!(found.contains(&"crates/app/src/util.rs".to_string()) || found.contains(
        &"crates/app/src/util/helper.rs".to_string(),
    ));
    assert!(found.iter().all(|f| f.starts_with("crates/app/src/")));
}

fn candidate(path: &str, indexed: bool) -> LoadCandidate {
    LoadCandidate { path: path.to_string(), indexed }
}

fn pair(from: &str, to: &str) -> (String, String) {
    (from.to_string(), to.to_string())
}

#[test]
fn a_directive_loads_its_first_indexed_candidate() {
    let list = vec![
        candidate("src/a.ts", false),
        candidate("src/a.d.ts", true),
        candidate("src/a.js", true),
        candidate("src/a/index.ts", true),
    ];
    assert_eq!(loaded_target("src/main.ts", &list), Some("src/a.js".to_string()));
    assert_eq!(loaded_target("src/types.d.ts", &list), None);
    assert_eq!(loaded_target("src/main.ts", &vec![]), None);
    assert!(is_declaration_file("x.d.mts") && is_declaration_file("x.d.cts"));
    assert!(!is_declaration_file("x.ts"));
}

#[test]
fn a_load_time_directive_on_any_route_makes_a_pair_eager() {
    let directives = vec![
        PathDirective {
            from: "b.js".to_string(),
            candidates: vec![candidate("c.js", true)],
            lazy_only: true,
        },
        PathDirective {
            from: "a.js".to_string(),
            candidates: vec![candidate("b.js", true)],
            lazy_only: true,
        },
        PathDirective {
            from: "a.js".to_string(),
            candidates: vec![candidate("a.js", true)],
            lazy_only: false,
        },
    ];
    let out = file_import_pairs(
        &vec![pair("a.js", "b.js"), pair("a.d.ts", "b.js")],
        &vec![pair("z.js", "a.js")],
        &directives,
    );
    assert_eq!(out.eager, vec![pair("a.js", "b.js")]);
    assert_eq!(out.lazy_only, vec![pair("b.js", "c.js"), pair("z.js", "a.js")]);
}

#[test]
fn the_order_of_directives_does_not_matter() {
    let one = file_import_pairs(
        &vec![pair("b", "a"), pair("a", "b"), pair("a", "a2")],
        &vec![pair("a", "b")],
        &vec![],
    );
    let two = file_import_pairs(
        &vec![pair("a", "a2"), pair("a", "b"), pair("b", "a")],
        &vec![pair("a", "b")],
        &vec![],
    );
    assert_eq!(one.eager, vec![pair("a", "a2"), pair("a", "b"), pair("b", "a")]);
    assert_eq!(one.eager, two.eager);
    assert_eq!(one.lazy_only, two.lazy_only);
}

#[test]
fn an_edge_outside_the_named_files_does_not_count() {
    let files = vec!["a.js".to_string(), "b.js".to_string()];
    let directives = vec![
        PathDirective {
            from: "a.js".to_string(),
            candidates: vec![candidate("c.js", true), candidate("b.js", true)],
            lazy_only: false,
        },
        PathDirective {
            from: "b.js".to_string(),
            candidates: vec![candidate("a.js", true)],
            lazy_only: false,
        },
    ];
    assert_eq!(import_edges_within(&files, &vec![], &directives), vec![pair("b.js", "a.js")]);
    assert!(import_edges_within(&vec!["b.js".to_string()], &vec![], &directives).is_empty());
}

#[test]
fn a_joined_path_is_in_normal_form_and_joins_to_itself() {
    for base in ["", "lib", "lib/core"] {
        for spec in ["./a.js", "../a.js", ".//x/./y/../z.ts", "", ".", "a//b", "..", "x/../.."] {
            if let Some(path) = lexical_join(base, spec) {
                assert!(
                    path.is_empty() || path.split('/').all(|s| !["", ".", ".."].contains(&s)),
                    "{base} {spec} {path}"
                );
                assert_eq!(lexical_join("", &path), Some(path));
            }
        }
    }
    assert_eq!(lexical_join("lib", ".//x/./y/../z.ts"), Some("lib/x/z.ts".to_string()));
    assert_eq!(lexical_join("lib", ".."), Some(String::new()));
    assert_eq!(lexical_join("", ".."), None);
}
