use unused_buddy::analyzer::{Analyzer, AnalyzerOptions, ModuleMap, RemovalStep, ScanResult, WalkedFile};
use unused_buddy::json::{ts_paths_from_json, JsonValue, TsPaths};
use unused_buddy::model::{FindingKind, RemoveSummary};
use unused_buddy::module::parse_module;

const ROOT: &str = "/proj";

fn owned_list(v: &[&str]) -> Vec<String> {
    v.iter().map(|s| s.to_string()).collect()
}

fn options(entry: &[&str], exclude: &[&str]) -> AnalyzerOptions {
    AnalyzerOptions {
        include_globs: owned_list(&["src/**/*.{js,ts,jsx,tsx}"]),
        exclude: owned_list(exclude),
        entry: owned_list(entry),
        extensions: owned_list(&["js", "ts", "jsx", "tsx"]),
    }
}

fn walked(files: &[(&str, &str)]) -> Vec<WalkedFile> {
    files
        .iter()
        .map(|(rel, _)| WalkedFile { path: format!("{ROOT}/{rel}"), rel: rel.to_string() })
        .collect()
}

/// A scan of a project held in memory: `files` are (path relative to the root, source).
fn scan(
    analyzer: &Analyzer,
    files: &[(&str, &str)],
    package: Option<JsonValue>,
    tsconfig: Option<JsonValue>,
) -> ScanResult {
    let exists = |p: &str| files.iter().any(|(rel, _)| format!("{ROOT}/{rel}") == p);
    let selected = analyzer.collect_source_files(&walked(files)).ok().expect("globs");
    let mut pairs = Vec::new();
    for f in &selected {
        let rel = f.strip_prefix(&format!("{ROOT}/")).expect("under root");
        let src = files.iter().find(|(r, _)| *r == rel).expect("source").1;
        let module = parse_module(f, src).ok().expect("parse");
        pairs.push((f.clone(), module));
    }
    let map = ModuleMap::build(pairs);
    let ts = match &tsconfig {
        Some(v) => ts_paths_from_json(ROOT, v),
        None => TsPaths::none(),
    };
    let mut existing: Vec<String> =
        analyzer.entry_paths(ROOT).into_iter().filter(|p| exists(p)).collect();
    existing.extend(
        Analyzer::fallback_paths(ROOT, package.as_ref()).into_iter().filter(|p| exists(p)),
    );
    let roots = analyzer.resolve_roots(ROOT, &map, package.as_ref(), &existing);
    analyzer.analyze(ROOT, &selected, &map, &ts, &roots).ok().expect("analysis")
}

fn ids(r: &ScanResult) -> Vec<String> {
    r.findings.iter().map(|f| f.id.clone()).collect()
}

fn obj(members: Vec<(&str, JsonValue)>) -> JsonValue {
    JsonValue::Object(members.into_iter().map(|(k, v)| (k.to_string(), v)).collect())
}

fn s(v: &str) -> JsonValue {
    JsonValue::Str(v.to_string())
}

#[test]
fn unreachable_file_plain() {
    let analyzer = Analyzer::new(options(&[], &[]));
    let files = [
        ("src/index.ts", "import { used } from './used'; console.log(used);"),
        ("src/used.ts", "export const used = 1;"),
        ("src/dead.ts", "export const dead = 2;"),
    ];
    let out = scan(&analyzer, &files, None, None);
    assert!(out.findings.iter().any(|f| f.id.contains("uf:") && f.file.ends_with("dead.ts")));
    assert_eq!(ids(&out), vec!["uf:/proj/src/dead.ts".to_string()]);
    let dead = &out.findings[0];
    assert_eq!(dead.kind, FindingKind::UnreachableFile);
    assert_eq!(dead.reason, "unreachable_file");
    assert_eq!(dead.confidence_pct, 98);
    assert!(dead.fixable);
}

#[test]
fn tsconfig_paths_alias() {
    let analyzer = Analyzer::new(options(&[], &[]));
    let tsconfig = obj(vec![(
        "compilerOptions",
        obj(vec![
            ("baseUrl", s(".")),
            ("paths", obj(vec![("@/*", JsonValue::Array(vec![s("src/*")]))])),
        ]),
    )]);
    let files = [
        ("src/index.ts", "import { used } from '@/lib/used'; console.log(used);"),
        ("src/lib/used.ts", "export const used = 1;"),
        ("src/lib/dead.ts", "export const dead = 2;"),
    ];
    let out = scan(&analyzer, &files, None, Some(tsconfig));
    assert!(out
        .findings
        .iter()
        .any(|f| f.kind == FindingKind::UnreachableFile && f.file.ends_with("dead.ts")));
    assert!(!out.findings.iter().any(|f| f.file.ends_with("used.ts")));
}

#[test]
fn remove_with_fix_only_safe_unreachable() {
    let analyzer = Analyzer::new(options(&["src/index.ts"], &[]));
    let files = [
        ("src/index.ts", "export const ok = 1;"),
        ("src/dead.ts", "export const dead = 1;"),
        ("src/risky.ts", "console.log('side effect')"),
    ];
    let out = scan(&analyzer, &files, None, None);
    let plan = analyzer.plan_removal(&out);
    assert_eq!(plan.candidates, vec!["/proj/src/dead.ts".to_string()]);
    assert_eq!(plan.skipped_risky, 1);
    assert!(matches!(plan.step(true, true), RemovalStep::Delete));
    let sum = plan.finish(&vec![true]);
    assert!(sum.removed >= 1);
    assert_eq!(
        sum,
        RemoveSummary { planned: 1, removed: 1, skipped_risky: 1, dry_run: false }
    );
    let failed = plan.finish(&vec![false]);
    assert_eq!(
        failed,
        RemoveSummary { planned: 1, removed: 0, skipped_risky: 1, dry_run: false }
    );
    let risky = out.findings.iter().find(|f| f.file.ends_with("risky.ts")).expect("risky");
    assert_eq!(risky.reason, "unreachable_but_has_possible_side_effects");
    assert_eq!(risky.confidence_pct, 60);
    assert!(!risky.fixable);
}

#[test]
fn entrypoint_from_package_json() {
    let analyzer = Analyzer::new(options(&[], &[]));
    let package = obj(vec![("main", s("src/main.ts"))]);
    let files = [("src/main.ts", "export const x = 1;"), ("src/dead.ts", "export const y = 2;")];
    let out = scan(&analyzer, &files, Some(package), None);
    assert!(out.findings.iter().any(|f| f.file.ends_with("dead.ts")));
    assert!(out.findings.iter().any(|f| f.id == "ue:/proj/src/main.ts:x"));
}

#[test]
fn tests_excluded_by_default_pattern() {
    let analyzer = Analyzer::new(options(&[], &["**/*.test.*"]));
    let files = [("src/index.ts", "export const x = 1;"), ("src/a.test.ts", "export const t = 1;")];
    let selected = analyzer.collect_source_files(&walked(&files)).ok().expect("collect");
    assert!(selected.iter().all(|f| !f.ends_with("a.test.ts")));
    assert_eq!(selected, vec!["/proj/src/index.ts".to_string()]);
}

#[test]
fn removal_steps_without_fix_or_yes() {
    let analyzer = Analyzer::new(options(&["src/index.ts"], &[]));
    let files = [("src/index.ts", "export const ok = 1;"), ("src/dead.ts", "export const dead = 1;")];
    let out = scan(&analyzer, &files, None, None);
    let plan = analyzer.plan_removal(&out);
    let dry = RemoveSummary { planned: 1, removed: 0, skipped_risky: 0, dry_run: true };
    match plan.step(false, true) {
        RemovalStep::DryRun(s) => assert_eq!(s, dry),
        _ => panic!("dry run expected"),
    }
    match plan.step(true, false) {
        RemovalStep::RefuseWithoutYes(s) => assert_eq!(s, dry),
        _ => panic!("refusal expected"),
    }
}

#[test]
fn unused_exports_and_namespace_imports() {
    let analyzer = Analyzer::new(options(&[], &[]));
    let files = [
        ("src/index.ts", "import { a } from './lib'; import * as all from './all'; console.log(a, all);"),
        ("src/lib.ts", "export const a = 1; export const b = 2;"),
        ("src/all.ts", "export const c = 3;"),
    ];
    let out = scan(&analyzer, &files, None, None);
    assert_eq!(ids(&out), vec!["ue:/proj/src/./lib.ts:b".to_string()]);
    let f = &out.findings[0];
    assert_eq!(f.symbol.as_deref(), Some("b"));
    assert_eq!(f.reason, "export_not_referenced");
    assert_eq!(f.confidence_pct, 85);
}

#[test]
fn dynamic_import_non_literal_is_uncertain() {
    let analyzer = Analyzer::new(options(&[], &[]));
    let files = [("src/index.ts", "const name = 'x'; import(name);")];
    let out = scan(&analyzer, &files, None, None);
    assert_eq!(ids(&out), vec!["uc:/proj/src/index.ts:name".to_string()]);
    assert_eq!(out.findings[0].kind, FindingKind::Uncertain);
    assert_eq!(out.findings[0].confidence_pct, 30);
}

#[test]
fn overlapping_alias_does_not_match() {
    let analyzer = Analyzer::new(options(&[], &[]));
    let tsconfig = obj(vec![(
        "compilerOptions",
        obj(vec![("paths", obj(vec![("ab*ba", JsonValue::Array(vec![s("src/*")]))]))]),
    )]);
    let files = [("src/index.ts", "import { x } from 'aba';")];
    let selected = analyzer.collect_source_files(&walked(&files)).ok().expect("globs");
    let module = parse_module(&selected[0], files[0].1).ok().expect("parse");
    let map = ModuleMap::build(vec![(selected[0].clone(), module)]);
    let ts = ts_paths_from_json(ROOT, &tsconfig);
    let roots = vec![selected[0].clone()];
    let r = analyzer.analyze(ROOT, &selected, &map, &ts, &roots);
    let out = r.ok().expect("analysis");
    assert!(out.findings.is_empty());
}

#[test]
fn invalid_glob_is_reported() {
    let analyzer = Analyzer::new(AnalyzerOptions {
        include_globs: owned_list(&["src/[a"]),
        exclude: vec![],
        entry: vec![],
        extensions: owned_list(&["ts"]),
    });
    match analyzer.collect_source_files(&walked(&[("src/index.ts", "")])) {
        Err(unused_buddy::analyzer::ScanError::InvalidGlob { pattern, .. }) => {
            assert_eq!(pattern, "src/[a")
        }
        _ => panic!("invalid glob expected"),
    }
}

#[test]
fn roots_fall_back_to_first_file() {
    let analyzer = Analyzer::new(options(&["missing.ts"], &[]));
    let files = [("src/b.ts", "import { a } from './a';"), ("src/a.ts", "export const a = 1;")];
    let out = scan(&analyzer, &files, None, None);
    assert_eq!(ids(&out), vec!["uf:/proj/src/b.ts".to_string()]);
}

#[test]
fn repeated_scan_in_another_walk_order_gives_same_findings() {
    let analyzer = Analyzer::new(options(&[], &[]));
    let files = [
        ("src/index.ts", "import { used } from './used'; console.log(used);"),
        ("src/used.ts", "export const used = 1; export const spare = 2;"),
        ("src/dead.ts", "export const dead = 2;"),
        ("src/lazy.ts", "const k = 'x'; import(k);"),
    ];
    let mut reversed = files;
    reversed.reverse();
    let a = analyzer.collect_source_files(&walked(&files)).ok().expect("globs");
    let b = analyzer.collect_source_files(&walked(&reversed)).ok().expect("globs");
    assert_eq!(a, b);
    let first = scan(&analyzer, &files, None, None);
    let second = scan(&analyzer, &reversed, None, None);
    assert_eq!(ids(&first), ids(&second));
    assert_eq!(ids(&first), ids(&scan(&analyzer, &files, None, None)));
}
