//! Commands that run tests.
use codesage_graph::history::commands::{command, finish_group, merge_commands, TestCommand};
use codesage_graph::history::conventions::{convention_commands, family_of, Family, RootFiles};
use codesage_graph::history::crates::{
    ancestors, cargo_package_name, rust_directory_binary, rust_integration_target,
    rust_module_path, safe_relative_dir, ManifestMemo, RustCrate,
};
use codesage_graph::history::inline_tests::{
    cfg_test_gated, count_test_attributes, feature_commands, inline_commands,
    is_rust_test_module_name, python_module_id, python_test_count, rust_inline_modules,
    ChangedFile, FeatureHit,
};
use codesage_graph::history::js_runner::{
    imports_module, package_info, resolve, runner_commands, runner_from_deps, runner_from_imports,
    runner_from_script, unresolved_note, DirEvidence, JsRunner, PackageInfo, ResolvedTest,
    RunnerChoice, RunnerDeps,
};
use codesage_graph::history::shell::{dropped_token_note, flag_safe, path_arg, path_args, shell_quote};
use codesage_graph::history::test_commands::derive_commands;
use codesage_graph::model::{Notes, Symbol};

fn owned(lines: &[&str]) -> Vec<String> {
    lines.iter().map(|l| l.to_string()).collect()
}

#[test]
fn shell_quote_leaves_clean_tokens_alone_and_quotes_the_rest() {
    assert_eq!(shell_quote("tests/test_a.py"), "tests/test_a.py");
    assert_eq!(
        shell_quote("crate-name_1:x@y%z+w=v,u"),
        "crate-name_1:x@y%z+w=v,u"
    );
    assert_eq!(shell_quote("a b.py"), "'a b.py'");
    assert_eq!(shell_quote("x;id.py"), "'x;id.py'");
    assert_eq!(shell_quote("y$(whoami).py"), "'y$(whoami).py'");
    assert_eq!(shell_quote("z`id`.py"), "'z`id`.py'");
    assert_eq!(shell_quote("it's.py"), "'it'\\''s.py'");
    assert_eq!(shell_quote("a\nb.py"), "'a\nb.py'");
    assert_eq!(shell_quote("*.py"), "'*.py'");
    assert_eq!(shell_quote(""), "''");
}

#[test]
fn cargo_package_name_reads_the_package_section_only() {
    let manifest = "[workspace]\nmembers = [\"a\"]\n\n[package]\n# the crate\nname = \"acme-core\" # trailing\nversion = \"0.1.0\"\n\n[dependencies]\nname = \"not-this\"\n";
    assert_eq!(cargo_package_name(manifest).as_deref(), Some("acme-core"));
    assert_eq!(cargo_package_name("[workspace]\nmembers = []\n"), None);
}

#[test]
fn rust_module_path_maps_crate_roots_and_mod_files() {
    let krate = RustCrate {
        dir: "crates/graph".to_string(),
        name: Some("codesage-graph".to_string()),
    };
    let at = |p: &str| rust_module_path(&krate, p);
    assert_eq!(at("crates/graph/src/lib.rs").as_deref(), Some(""));
    assert_eq!(at("crates/graph/src/main.rs").as_deref(), Some(""));
    assert_eq!(at("crates/graph/src/bin/tool.rs").as_deref(), Some(""));
    assert_eq!(at("crates/graph/src/search.rs").as_deref(), Some("search"));
    assert_eq!(
        at("crates/graph/src/git_history/mod.rs").as_deref(),
        Some("git_history")
    );
    assert_eq!(
        at("crates/graph/src/git_history/tests_rec.rs").as_deref(),
        Some("git_history::tests_rec")
    );
    assert_eq!(at("crates/graph/tests/foo.rs"), None);
    assert_eq!(at("crates/other/src/x.rs"), None);
}

#[test]
fn path_arg_anchors_leading_dashes() {
    assert_eq!(path_arg("-x_test.py"), "./-x_test.py");
    assert_eq!(path_arg("-p evil.py"), "'./-p evil.py'");
    assert_eq!(path_arg("tests/-x.py"), "tests/-x.py");
    assert!(!flag_safe("-Dfoo"));
    assert!(flag_safe("FooTest"));
}

#[test]
fn without_a_manifest_the_package_flag_is_omitted() {
    let krate = RustCrate::for_path(None, "crates/graph/tests/risk_test.rs");
    assert_eq!(krate.dir, "crates/graph");
    assert_eq!(krate.name, None);
    assert_eq!(krate.package_flag(), "");
    let target = |p: &str| rust_integration_target(&RustCrate::for_path(None, p), p);
    assert_eq!(
        target("crates/graph/tests/risk_test.rs").as_deref(),
        Some("risk_test")
    );
    assert_eq!(
        target("crates/graph/tests/suite/main.rs").as_deref(),
        Some("suite")
    );
    assert_eq!(target("crates/graph/tests/suite/helpers.rs"), None);
    assert_eq!(
        target("tests/integration.rs").as_deref(),
        Some("integration")
    );
}

#[test]
fn python_module_ids_drop_init() {
    assert_eq!(python_module_id("pkg/mod.py"), "pkg.mod");
    assert_eq!(python_module_id("pkg/__init__.py"), "pkg");
    assert_eq!(python_module_id("script.py"), "script");
}

#[test]
fn cfg_test_lookback_is_bounded() {
    let lines = ["#[cfg(test)]", "#[allow(dead_code)]", "mod tests {"];
    assert!(cfg_test_gated(&owned(&lines), 3));
    let far = ["#[cfg(test)]", "", "", "", "mod tests {"];
    assert!(!cfg_test_gated(&owned(&far), 5));
}

#[test]
fn test_attribute_count_recognizes_the_documented_runners() {
    let lines = [
        "mod tests {",
        "    #[test]",
        "    fn a() {}",
        "    #[tokio::test(flavor = \"multi_thread\")]",
        "    async fn b() {}",
        "    #[rstest]",
        "    fn c() {}",
        "    #[sqlx::test]",
        "    async fn d() {}",
        "    #[async_std::test]",
        "    async fn e() {}",
        "    #[test_case(1)]",
        "    fn f() {}",
        "    #[cfg(test)]",
        "    fn helper() {}",
        "}",
    ];
    assert_eq!(count_test_attributes(&owned(&lines), 1, lines.len() as u32), 6);
}

#[test]
fn script_runner_reads_segments_and_steps_over_wrappers() {
    let at = runner_from_script;
    assert_eq!(at("vitest run"), Some(JsRunner::Vitest));
    assert_eq!(at("jest --coverage"), Some(JsRunner::Jest));
    assert_eq!(at("c8 mocha 'test/**/*.js'"), Some(JsRunner::Mocha));
    assert_eq!(
        at("cross-env NODE_ENV=test ./node_modules/.bin/jest"),
        Some(JsRunner::Jest)
    );
    assert_eq!(at("node --test test/"), Some(JsRunner::NodeTest));
    assert_eq!(
        at("node --test-reporter=spec --test"),
        Some(JsRunner::NodeTest)
    );
    assert_eq!(at("node scripts/test.js"), None);
    assert_eq!(at("bun test"), Some(JsRunner::Bun));
    assert_eq!(at("bun run build"), None);
    assert_eq!(at("playwright test"), Some(JsRunner::Playwright));
    assert_eq!(at("tsc && vitest run"), Some(JsRunner::Vitest));
    assert_eq!(at("echo \"Error: no test specified\" && exit 1"), None);
    assert_eq!(at("npm run test:unit"), None);
    assert_eq!(at("turbo run test"), None);
    assert_eq!(at("eslint --config vitest.config.ts ."), None);
}

#[test]
fn dependency_runner_needs_a_single_unit_runner() {
    let deps = |names: &[&str]| RunnerDeps {
        vitest: names.contains(&"vitest"),
        jest: names.contains(&"jest"),
        mocha: names.contains(&"mocha"),
        playwright: names.contains(&"@playwright/test"),
    };
    assert_eq!(runner_from_deps(&deps(&["vitest"])), Some(JsRunner::Vitest));
    assert_eq!(
        runner_from_deps(&deps(&["jest", "@playwright/test"])),
        Some(JsRunner::Jest)
    );
    assert_eq!(
        runner_from_deps(&deps(&["@playwright/test"])),
        Some(JsRunner::Playwright)
    );
    assert_eq!(runner_from_deps(&deps(&["vitest", "jest"])), None);
    assert_eq!(runner_from_deps(&deps(&[])), None);
}

#[test]
fn imports_match_specifiers_not_mentions() {
    assert!(imports_module("import test from 'node:test';", "node:test"));
    assert!(imports_module(
        "import { it } from \"node:test\"",
        "node:test"
    ));
    assert!(imports_module(
        "const t = require('node:test')",
        "node:test"
    ));
    assert!(imports_module("await import(\"node:test\")", "node:test"));
    assert!(!imports_module(
        "// run with 'node:test' later",
        "node:test"
    ));
    assert!(!imports_module("const s = 'node:test';", "node:test"));
    assert!(!imports_module(
        "import x from 'node:test-helpers'",
        "node:test"
    ));

    let js = "import { test } from 'node:test';";
    assert_eq!(
        runner_from_imports(js, "a.test.mjs"),
        Some(JsRunner::NodeTest)
    );
    assert_eq!(runner_from_imports(js, "a.test.ts"), None);
    assert_eq!(
        runner_from_imports(
            "import { test, expect } from '@playwright/test';",
            "e.spec.ts"
        ),
        Some(JsRunner::Playwright)
    );
    assert_eq!(
        runner_from_imports("import { describe } from 'vitest'", "a.test.ts"),
        Some(JsRunner::Vitest)
    );
    assert_eq!(
        runner_from_imports("test('x', () => {})", "a.test.js"),
        None
    );
}

#[test]
fn bun_paths_are_anchored_and_the_note_is_capped() {
    assert_eq!(JsRunner::Bun.arg("src/a.test.ts"), "./src/a.test.ts");
    assert_eq!(JsRunner::Jest.arg("src/a.test.ts"), "src/a.test.ts");
    let paths: Vec<String> = (0..7).map(|i| format!("t{i}.test.js")).collect();
    let note = unresolved_note(&paths);
    assert!(note.contains("t4.test.js and 2 more"), "{note}");
    assert!(!note.contains("t5.test.js"), "{note}");
}

#[test]
fn manifest_memo_rejects_escaping_dirs_without_touching_the_filesystem() {
    let memo = ManifestMemo::empty();
    for bad in ["../x", "a/../../x", "/etc", "/"] {
        assert!(!memo.wants(bad), "{bad}");
        assert_eq!(memo.package_name(bad), None, "{bad}");
    }
    assert!(safe_relative_dir(""));
    assert!(safe_relative_dir("crates/graph"));
    assert!(safe_relative_dir("./crates"));
}

fn memo_of(manifests: &[(&str, &str)], paths: &[&str]) -> (ManifestMemo, usize) {
    let mut memo = ManifestMemo::empty();
    let mut reads = 0;
    for path in paths {
        for dir in ancestors(path) {
            if memo.wants(&dir) {
                reads += 1;
                let text = manifests.iter().find(|m| m.0 == dir);
                let name = text.and_then(|m| cargo_package_name(m.1));
                let named = name.is_some();
                memo.remember(&dir, name);
                if named {
                    break;
                }
            } else if memo.package_name(&dir).is_some() {
                break;
            }
        }
    }
    (memo, reads)
}

#[test]
fn manifest_memo_reads_each_directory_once_per_request() {
    let (memo, reads) = memo_of(
        &[
            ("", "[workspace]\nmembers = [\"crates/*\"]\n"),
            ("crates/graph", "[package]\nname = \"graph\"\n"),
        ],
        &[
            "crates/graph/src/a.rs",
            "crates/graph/src/b.rs",
            "crates/graph/src/deep/c.rs",
            "crates/graph/tests/t.rs",
            "crates/other/src/x.rs",
        ],
    );
    assert_eq!(reads, 8, "{memo:?}");
    assert_eq!(memo.package_name("crates/graph").as_deref(), Some("graph"));
}

#[test]
fn nearest_manifest_wins_over_the_first_segment_rule() {
    let (memo, _) = memo_of(
        &[
            ("", "[workspace]\nmembers = [\"tests/helper\"]\n"),
            ("tests/helper", "[package]\nname = \"helper\"\n"),
        ],
        &["tests/helper/src/lib.rs", "src/lib.rs"],
    );
    let krate = RustCrate::for_path(Some(&memo), "tests/helper/src/lib.rs");
    assert_eq!(krate.dir, "tests/helper");
    assert_eq!(krate.name.as_deref(), Some("helper"));
    assert_eq!(rust_module_path(&krate, "tests/helper/src/lib.rs").as_deref(), Some(""));
    // A workspace-only root manifest names no package.
    let krate = RustCrate::for_path(Some(&memo), "src/lib.rs");
    assert_eq!(krate.dir, "");
    assert_eq!(krate.name, None);
}

#[test]
fn the_first_reading_of_a_manifest_stays() {
    let mut memo = ManifestMemo::empty();
    memo.remember("a", Some("one".to_string()));
    memo.remember("a", Some("two".to_string()));
    assert_eq!(memo.package_name("a").as_deref(), Some("one"));
}

#[test]
fn malformed_and_escaping_manifests_carry_no_evidence() {
    let pkg = package_info("{ not json");
    assert!(pkg.scripts_test.is_none() && !pkg.jest_key);
    assert_eq!(pkg.deps, PackageInfo::unknown().deps);
    let dirs = |dir: &str| vec![DirEvidence {
        dir: dir.to_string(),
        package: Some(package_info("{ not json")),
        vitest_config: false,
    }];
    assert!(!safe_relative_dir("../elsewhere"));
    assert!(resolve("../x/a.test.js", &None, &dirs("")).is_none());
    let runs = Some("import { test } from 'vitest';".to_string());
    assert!(resolve("../x/a.test.js", &runs, &dirs("")).is_none());
    assert!(resolve("src/a.test.js", &None, &dirs("")).is_none());
}

#[test]
fn a_manifest_is_read_by_the_json_crate() {
    let pkg = package_info(
        "{\"scripts\":{\"test\":\"vitest run\"},\"devDependencies\":{\"jest\":\"^1\"},\"jest\":{}}",
    );
    assert_eq!(pkg.scripts_test.as_deref(), Some("vitest run"));
    assert!(pkg.deps.jest && !pkg.deps.vitest);
    assert!(pkg.jest_key);
    let none = package_info("{\"scripts\":{\"test\":3},\"jest\":null}");
    assert_eq!(none.scripts_test, None);
    assert!(!none.jest_key);
}

#[test]
fn every_test_is_run_or_left() {
    let at = |path: &str, runner: Option<JsRunner>| ResolvedTest {
        path: path.to_string(),
        choice: runner.map(|runner| RunnerChoice { dir: String::new(), runner }),
    };
    let (commands, left) = runner_commands(
        &vec![
            at("a.test.js", Some(JsRunner::Jest)),
            at("b.test.js", None),
            at("c.test.js", Some(JsRunner::Jest)),
        ],
    );
    assert_eq!(left, vec!["b.test.js".to_string()]);
    let covered: Vec<String> = commands.iter().flat_map(|c| c.covers.clone()).collect();
    assert_eq!(covered, vec!["a.test.js".to_string(), "c.test.js".to_string()]);
}

#[test]
fn paths_never_read_as_flags() {
    assert_eq!(path_args(&owned(&["a b.py", "-x.py"])), "'a b.py' ./-x.py");
    assert!(dropped_token_note("path", "a\nb").contains("path"));
    assert_eq!(rust_directory_binary(
        &RustCrate { dir: String::new(), name: None },
        "src/bin/tool/main.rs",
    ).as_deref(), Some("tool"));
}

fn test_command(line: &str, covers: &[&str]) -> TestCommand {
    command(line.to_string(), owned(covers), "pytest", "convention")
}

#[test]
fn merged_commands_lose_no_coverage_and_repeat_no_text() {
    let merged = merge_commands(
        &vec![test_command("pytest a", &["a"])],
        &vec![test_command("pytest a", &["b"])],
        &vec![test_command("pytest c", &["c"])],
    );
    assert_eq!(merged.len(), 2);
    assert_eq!(merged[0].command, "pytest a");
    assert!(merged[0].covers.contains(&"a".to_string()) && merged[0].covers.contains(&"b".to_string()));
    assert_eq!(finish_group(&vec![test_command("x", &["a"])]).len(), 1);
}

const NO_FILES: RootFiles = RootFiles { artisan: false, vitest: false, pom: false, gradle: false };

#[test]
fn conventions_group_tests_by_their_family() {
    assert_eq!(family_of("pkg/server_test.go"), Family::Go);
    assert_eq!(family_of("tests/test_a.py"), Family::Python);
    assert_eq!(family_of("a/tests/x.phpt"), Family::Phpt);
    assert_eq!(family_of("tests/it.rs"), Family::Rust);
    assert_eq!(family_of("README.md"), Family::Unknown);
    let mut notes: Vec<String> = vec![];
    let out = convention_commands(
        None,
        NO_FILES,
        &owned(&["tests/test_a.py", "tests/test_b.py"]),
        &vec![],
        &mut notes,
    );
    assert!(out.iter().any(|c| c.command.contains("pytest") && c.covers.len() == 2), "{out:?}");
}

fn def(name: &str, kind: &str, start: u32, end: u32) -> Symbol {
    Symbol {
        name: name.to_string(),
        qualified_name: name.to_string(),
        kind: kind.to_string(),
        file_path: "crates/g/src/a.rs".to_string(),
        line_start: start,
        line_end: end,
        col_start: 0,
        col_end: 0,
        rationale: Notes::End,
    }
}

#[test]
fn inline_modules_are_counted_and_do_not_nest() {
    assert!(is_rust_test_module_name("tests") && !is_rust_test_module_name("parser"));
    let source = "fn f() {}\n#[cfg(test)]\nmod tests {\n    #[test]\n    fn a() {}\n    mod inner_tests {\n        #[test]\n        fn b() {}\n    }\n}\n";
    let symbols = vec![def("tests", "module", 3, 10), def("inner_tests", "module", 6, 9)];
    let found = rust_inline_modules(&symbols, &Some(source.to_string()));
    assert_eq!(found.len(), 1, "{found:?}");
    assert_eq!((found[0].name.as_str(), found[0].count), ("tests", 2));
    assert_eq!(python_test_count(&vec![def("test_a", "function", 1, 2), def("b", "function", 3, 4)]), 1);
}

#[test]
fn commands_are_derived_from_conventions_modules_and_features() {
    let changed = vec![ChangedFile {
        path: "crates/g/src/a.rs".to_string(),
        symbols: vec![def("tests", "module", 2, 5)],
        source: Some("#[cfg(test)]\nmod tests {\n    #[test]\n    fn a() {}\n}\n".to_string()),
    }];
    let inline = inline_commands(None, &vec![], &changed);
    assert_eq!(inline.modules.len(), 1, "{inline:?}");
    let hits = vec![FeatureHit {
        given: "src/a.rs".to_string(),
        feature_id: "login".to_string(),
        test_command: Some("make login-test".to_string()),
    }];
    let (feature, _) = feature_commands(&hits);
    assert_eq!(feature[0].command, "make login-test");
    let all = derive_commands(None, NO_FILES, &owned(&["pkg/a_test.go"]), &vec![], &changed, &hits);
    assert!(all.commands.iter().any(|c| c.command == "make login-test"));
    assert!(all.commands.iter().any(|c| c.command.starts_with("go test")), "{all:?}");
    assert_eq!(all.modules.len(), 1);
}

#[test]
fn ancestors_run_from_the_nearest_directory_to_the_root() {
    assert_eq!(ancestors("web/app/src/a.test.ts"), vec!["web/app/src", "web/app", "web", ""]);
    assert_eq!(ancestors("a.test.ts"), vec![""]);
}
