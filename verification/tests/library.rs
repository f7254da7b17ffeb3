use unused_buddy::analyzer::{has_allowed_ext, sort_findings_by_id, ScanResult};
use unused_buddy::color::ColorPolicy;
use unused_buddy::config::{default_excludes, parse_color, parse_format, EffectiveConfig, FileConfig};
use unused_buddy::graph::reachable_files;
use unused_buddy::json::{package_from_text, package_root_candidates, ts_paths_from_json, ts_paths_from_text, JsonValue};
use unused_buddy::model::{Finding, FindingKind, OutputFormat, RemoveSummary};
use unused_buddy::module::{has_possible_side_effects, parse_module, parse_string_literal, span_text_exec};
use unused_buddy::output::{finding_text, kind_code, report_text, summary_text};
use unused_buddy::path::{extension_exec, join_exec, parent_exec, sort_keyed_paths, with_extension_exec, KeyedPath};
use unused_buddy::resolve::{resolve_import, Resolved};
use unused_buddy::run::{command_to_run, maybe_fail, Cli, Command};
use unused_buddy::text::{chars_of, split_exec, trim_exec};

fn c(s: &str) -> Vec<char> {
    s.chars().collect()
}

fn st(v: &[char]) -> String {
    v.iter().collect()
}

fn text_list(v: &[&str]) -> Vec<String> {
    v.iter().map(|s| s.to_string()).collect()
}

fn keyed(v: &[&str]) -> Vec<KeyedPath> {
    v.iter().map(|s| KeyedPath::new(c(s))).collect()
}

fn finding(id: &str, kind: FindingKind, file: &str, symbol: Option<&str>, reason: &str) -> Finding {
    Finding {
        id: id.to_string(),
        kind,
        file: file.to_string(),
        symbol: symbol.map(|s| s.to_string()),
        reason: reason.to_string(),
        line: None,
        col: None,
        confidence_pct: 98,
        fixable: true,
    }
}

fn empty_cli() -> Cli {
    Cli {
        config: None,
        format: None,
        color: None,
        entry: vec![],
        include_globs: vec![],
        exclude: vec![],
        max_workers: None,
        fail_on_findings: false,
        command: None,
    }
}

#[test]
fn path_join_parent_extension() {
    assert_eq!(st(&join_exec(&c("/proj/src"), &c("./used"))), "/proj/src/./used");
    assert_eq!(st(&join_exec(&c("/proj/"), &c("a.ts"))), "/proj/a.ts");
    assert_eq!(st(&join_exec(&c("/proj"), &c("/abs/b.ts"))), "/abs/b.ts");
    assert_eq!(st(&join_exec(&c(""), &c("a"))), "a");
    assert_eq!(parent_exec(&c("/proj/src/a.ts")).map(|p| st(&p)), Some("/proj/src".to_string()));
    assert_eq!(parent_exec(&c("a.ts")).map(|p| st(&p)), Some(String::new()));
    assert_eq!(parent_exec(&c("/")), None);
    assert_eq!(parent_exec(&c("/proj/src/")).map(|p| st(&p)), Some("/proj".to_string()));
    assert_eq!(extension_exec(&c("src/a.test.ts")).map(|e| st(&e)), Some("ts".to_string()));
    assert_eq!(extension_exec(&c("src/.hidden")), None);
    assert_eq!(extension_exec(&c("src/noext")), None);
    assert_eq!(st(&with_extension_exec(&c("/p/used"), &c("ts"))), "/p/used.ts");
    assert_eq!(st(&with_extension_exec(&c("/p/a.js"), &c("ts"))), "/p/a.ts");
    assert_eq!(st(&with_extension_exec(&c("/p/a.js"), &c(""))), "/p/a");
}

#[test]
fn path_equality_and_order() {
    let a = KeyedPath::new(c("/proj/./src//a.ts"));
    let b = KeyedPath::new(c("/proj/src/a.ts"));
    assert!(a.same(&b));
    assert!(!a.lt(&b) && !b.lt(&a));
    let sorted = sort_keyed_paths(keyed(&["/p/src/b.ts", "/p/src/a.ts", "/p/lib.ts", "/p/src"]));
    let got: Vec<String> = sorted.iter().map(|k| st(&k.path)).collect();
    assert_eq!(got, vec!["/p/lib.ts", "/p/src", "/p/src/a.ts", "/p/src/b.ts"]);
    // A path orders after its own directory, and components order before longer names.
    let sorted = sort_keyed_paths(keyed(&["a-b/x", "a/x", "a.b"]));
    let got: Vec<String> = sorted.iter().map(|k| st(&k.path)).collect();
    assert_eq!(got, vec!["a/x", "a-b/x", "a.b"]);
}

#[test]
fn text_helpers() {
    assert_eq!(st(&trim_exec(&c("  name \t"))), "name");
    let parts: Vec<String> = split_exec(&c("a,b,,c"), ',').iter().map(|p| st(p)).collect();
    assert_eq!(parts, vec!["a", "b", "", "c"]);
    assert_eq!(chars_of("héllo").len(), 5);
}

#[test]
fn string_literals_and_side_effects() {
    assert_eq!(parse_string_literal(&c("  './x'  ")).map(|s| st(&s)), Some("./x".to_string()));
    assert_eq!(parse_string_literal(&c("\"y\"")).map(|s| st(&s)), Some("y".to_string()));
    assert_eq!(parse_string_literal(&c("'z\"")), None);
    assert_eq!(parse_string_literal(&c("'")), None);
    assert_eq!(parse_string_literal(&c("name")), None);
    assert!(!has_possible_side_effects(&c("// comment\nimport x from 'y';\nexport const a = 1;\n\n")));
    assert!(!has_possible_side_effects(&c("type T = string;\ninterface I {}\nfunction f() {}\n")));
    assert!(has_possible_side_effects(&c("console.log('side effect')")));
    assert!(has_possible_side_effects(&c("export const a = 1;\nwindow.x = 1;")));
}

#[test]
fn parse_module_imports_and_exports() {
    let src = "import d, { a as b } from './m';\nimport * as ns from './n';\nexport const z = 1;\nexport default 3;\nexport { q } from './q';\nexport * from './all';\nconst r = require('./cjs');\nmodule.exports = { one: 1, two };\n";
    let m = parse_module("/p/src/x.js", src).ok().expect("parse");
    assert_eq!(m.exports, text_list(&["default", "one", "q", "two", "z"]));
    let raws: Vec<&str> = m.imports.iter().map(|i| i.raw.as_str()).collect();
    assert_eq!(raws, vec!["./all", "./cjs", "./m", "./n", "./q"]);
    let mm = &m.imports[2];
    assert_eq!(mm.symbols, text_list(&["default", "a"]));
    assert!(!mm.wildcard_use);
    assert!(m.imports[0].wildcard_use);
    assert!(m.imports[1].wildcard_use);
    assert!(m.imports[3].wildcard_use);
    assert_eq!(m.imports[4].symbols, text_list(&["q"]));
    assert_eq!(m.raw_source, src);
}

#[test]
fn parse_module_dynamic_imports() {
    let src = "import('./lazy'); const k = 'x'; import(k + '.js');";
    let m = parse_module("/p/src/x.ts", src).ok().expect("parse");
    let raws: Vec<(&str, bool, bool)> =
        m.imports.iter().map(|i| (i.raw.as_str(), i.wildcard_use, i.is_dynamic_non_literal)).collect();
    assert_eq!(raws, vec![("./lazy", true, false), ("k + '.js'", false, true)]);
}

#[test]
fn parse_module_side_effect_imports_in_key_order() {
    let src = "import './z'; import './a'; import { q } from './m'; import './a';";
    let m = parse_module("/p/src/x.ts", src).ok().expect("parse");
    let raws: Vec<(&str, Vec<String>)> =
        m.imports.iter().map(|i| (i.raw.as_str(), i.symbols.clone())).collect();
    assert_eq!(
        raws,
        vec![("./a", vec![]), ("./m", text_list(&["q"])), ("./z", vec![])]
    );
}

#[test]
fn resolution_of_relative_and_aliased_imports() {
    let files = keyed(&["/p/src/a.ts", "/p/src/lib/index.js", "/p/src/util.tsx"]);
    let exts = vec![c("js"), c("ts"), c("tsx")];
    let none = unused_buddy::json::TsPaths::none();
    let found = |r: Resolved| match r {
        Resolved::Found(p) => Some(st(&p)),
        _ => None,
    };
    let r = resolve_import(&c("/p"), &c("/p/src/a.ts"), &c("./lib"), &files, &none, &exts);
    assert_eq!(found(r), Some("/p/src/./lib/index.js".to_string()));
    let r = resolve_import(&c("/p"), &c("/p/src/a.ts"), &c("./util"), &files, &none, &exts);
    assert_eq!(found(r), Some("/p/src/./util.tsx".to_string()));
    let r = resolve_import(&c("/p"), &c("/p/src/a.ts"), &c("react"), &files, &none, &exts);
    assert!(matches!(r, Resolved::Missing));
    let tsconfig = JsonValue::Object(vec![(
        "compilerOptions".to_string(),
        JsonValue::Object(vec![(
            "paths".to_string(),
            JsonValue::Object(vec![
                ("~util".to_string(), JsonValue::Array(vec![JsonValue::Str("src/util".into())])),
                ("@/*".to_string(), JsonValue::Array(vec![JsonValue::Number("1".into()), JsonValue::Str("src/*".into())])),
            ]),
        )]),
    )]);
    let ts = ts_paths_from_json("/p", &tsconfig);
    assert_eq!(ts.base_url, None);
    assert_eq!(ts.mappings[1].1, text_list(&["src/*"]));
    let r = resolve_import(&c("/p"), &c("/p/src/a.ts"), &c("~util"), &files, &ts, &exts);
    assert_eq!(found(r), Some("/p/src/util.tsx".to_string()));
    let r = resolve_import(&c("/p"), &c("/p/src/a.ts"), &c("@/lib"), &files, &ts, &exts);
    assert_eq!(found(r), Some("/p/src/lib/index.js".to_string()));
}

#[test]
fn extension_is_appended_before_it_is_replaced() {
    let files = keyed(&["/p/src/a.b.ts", "/p/src/foo.ts", "/p/src/foo.service.ts"]);
    let exts = vec![c("ts")];
    let none = unused_buddy::json::TsPaths::none();
    let found = |r: Resolved| match r {
        Resolved::Found(p) => Some(st(&p)),
        _ => None,
    };
    let r = resolve_import(&c("/p"), &c("/p/src/x.ts"), &c("./a.b"), &files, &none, &exts);
    assert_eq!(found(r), Some("/p/src/./a.b.ts".to_string()));
    let r = resolve_import(&c("/p"), &c("/p/src/x.ts"), &c("./foo.service"), &files, &none, &exts);
    assert_eq!(found(r), Some("/p/src/./foo.service.ts".to_string()));
    let only_replaced = keyed(&["/p/src/foo.ts"]);
    let r = resolve_import(&c("/p"), &c("/p/src/x.ts"), &c("./foo.service"), &only_replaced, &none, &exts);
    assert_eq!(found(r), Some("/p/src/./foo.ts".to_string()));
}

#[test]
fn alias_shorter_than_prefix_and_suffix_does_not_match() {
    let files = keyed(&["/p/x/.ts", "/p/y/a.ts"]);
    let exts = vec![c("ts")];
    let ts = unused_buddy::json::TsPaths {
        base_url: None,
        mappings: vec![
            ("a*a".to_string(), text_list(&["x/*"])),
            ("*".to_string(), text_list(&["y/*"])),
        ],
    };
    let r = resolve_import(&c("/p"), &c("/p/src/x.ts"), &c("a"), &files, &ts, &exts);
    match r {
        Resolved::Found(p) => assert_eq!(st(&p), "/p/y/a.ts"),
        Resolved::Missing => panic!("the catch-all alias should match"),
    }
    let ts = unused_buddy::json::TsPaths {
        base_url: None,
        mappings: vec![("a*a".to_string(), text_list(&["x/*"]))],
    };
    let r = resolve_import(&c("/p"), &c("/p/src/x.ts"), &c("a"), &files, &ts, &exts);
    assert!(matches!(r, Resolved::Missing));
}

#[test]
fn tsconfig_text_is_parsed_or_refused() {
    let text = r#"{ "compilerOptions": { "baseUrl": ".", "paths": { "@/*": ["src/*", 3], "~x": "y" } } }"#;
    let ts = ts_paths_from_text("/p", text).expect("valid JSON");
    assert_eq!(ts.base_url, Some("/p/.".to_string()));
    assert_eq!(
        ts.mappings,
        vec![("@/*".to_string(), text_list(&["src/*"])), ("~x".to_string(), vec![])]
    );
    assert!(ts_paths_from_text("/p", "{ not json").is_none());
    let empty = ts_paths_from_text("/p", "{}").expect("valid JSON");
    assert_eq!(empty.base_url, None);
    assert!(empty.mappings.is_empty());
}

#[test]
fn package_text_is_parsed_or_passed_over() {
    let v = package_from_text(r#"{ "main": "src/main.ts", "n": 1.5, "ok": true, "x": null }"#).expect("valid JSON");
    assert_eq!(package_root_candidates("/p", &v), text_list(&["/p/src/main.ts"]));
    match v {
        JsonValue::Object(members) => {
            let keys: Vec<&str> = members.iter().map(|(k, _)| k.as_str()).collect();
            assert_eq!(keys, vec!["main", "n", "ok", "x"]);
            assert!(matches!(&members[1].1, JsonValue::Number(n) if n == "1.5"));
            assert!(matches!(members[2].1, JsonValue::Bool(true)));
            assert!(matches!(members[3].1, JsonValue::Null));
        }
        _ => panic!("an object"),
    }
    assert!(package_from_text("main = 1").is_none());
}

#[test]
fn package_json_candidates_in_order() {
    let pkg = JsonValue::Object(vec![
        ("bin".to_string(), JsonValue::Str("cli.js".into())),
        ("main".to_string(), JsonValue::Str("src/main.ts".into())),
        (
            "exports".to_string(),
            JsonValue::Object(vec![
                (".".to_string(), JsonValue::Str("./src/index.ts".into())),
                ("./x".to_string(), JsonValue::Bool(true)),
            ]),
        ),
        ("module".to_string(), JsonValue::Number("3".into())),
    ]);
    assert_eq!(
        package_root_candidates("/p", &pkg),
        text_list(&["/p/src/main.ts", "/p/cli.js", "/p/./src/index.ts"])
    );
}

#[test]
fn walk_visits_reachable_once_in_depth_first_order() {
    let keys = keyed(&["/a", "/b", "/c", "/d"]);
    let edges = vec![keyed(&["/b", "/c"]), keyed(&["/a", "/./c"]), vec![], keyed(&["/a"])];
    let visited = reachable_files(&keys, &edges, keyed(&["/a"]));
    let got: Vec<String> = visited.iter().map(|k| st(&k.path)).collect();
    assert_eq!(got, vec!["/a", "/c", "/b"]);
}

#[test]
fn findings_sort_by_id_stably() {
    let v = vec![
        finding("uf:b", FindingKind::UnreachableFile, "b", None, "r1"),
        finding("ue:a:x", FindingKind::UnusedExport, "a", Some("x"), "r2"),
        finding("uf:b", FindingKind::UnreachableFile, "b", None, "r3"),
        finding("uc:z", FindingKind::Uncertain, "z", None, "r4"),
    ];
    let sorted = sort_findings_by_id(v);
    let got: Vec<(&str, &str)> = sorted.iter().map(|f| (f.id.as_str(), f.reason.as_str())).collect();
    assert_eq!(got, vec![("uc:z", "r4"), ("ue:a:x", "r2"), ("uf:b", "r1"), ("uf:b", "r3")]);
}

#[test]
fn human_report_lines() {
    let result = ScanResult {
        findings: vec![
            finding("uf:x", FindingKind::UnreachableFile, "src/dead.ts", None, "unreachable_file"),
            finding("ue:x", FindingKind::UnusedExport, "src/a.ts", Some("b"), "export_not_referenced"),
        ],
    };
    assert_eq!(
        report_text(&result, false),
        text_list(&[
            "[UF] src/dead.ts unreachable_file",
            "[UE] src/a.ts b export_not_referenced",
            "Summary UF=1 UE=1 UC=0 total=2",
        ])
    );
    assert_eq!(
        finding_text(&result.findings[1], true),
        "\u{1b}[33m[UE]\u{1b}[39m \u{1b}[34msrc/a.ts\u{1b}[39m \u{1b}[97mb\u{1b}[39m export_not_referenced"
    );
    assert_eq!(report_text(&ScanResult { findings: vec![] }, false), text_list(&["No findings"]));
    assert_eq!(
        report_text(&ScanResult { findings: vec![] }, true),
        text_list(&["\u{1b}[32mNo findings\u{1b}[39m"])
    );
    assert_eq!(report_text(&result, true)[2], "\u{1b}[36m\u{1b}[1mSummary\u{1b}[0m\u{1b}[39m UF=1 UE=1 UC=0 total=2");
}

#[test]
fn human_mono_preserves_tags_and_layout() {
    let result = ScanResult {
        findings: vec![finding("uf:x", FindingKind::UnreachableFile, "src/dead.ts", None, "unreachable_file")],
    };
    let lines = report_text(&result, false);
    assert_eq!(lines[0], "[UF] src/dead.ts unreachable_file");
    assert!(lines.iter().all(|l| !l.contains('\u{1b}')));
}

fn strip_escapes(s: &str) -> String {
    let mut out = String::new();
    let mut inside = false;
    for ch in s.chars() {
        if inside {
            inside = ch != 'm';
        } else if ch == '\u{1b}' {
            inside = true;
        } else {
            out.push(ch);
        }
    }
    out
}

#[test]
fn colored_report_strips_to_plain_report() {
    let result = ScanResult {
        findings: vec![
            finding("uc:a", FindingKind::Uncertain, "src/a.ts", Some("name"), "non_literal_dynamic_import"),
            finding("ue:b", FindingKind::UnusedExport, "src/b.ts", Some("x"), "export_not_referenced"),
            finding("uf:c", FindingKind::UnreachableFile, "src/c.ts", None, "unreachable_file"),
        ],
    };
    let colored: Vec<String> = report_text(&result, true).iter().map(|l| strip_escapes(l)).collect();
    assert_eq!(colored, report_text(&result, false));
    assert!(report_text(&result, true).iter().any(|l| l.contains('\u{1b}')));
    let s = RemoveSummary { planned: 3, removed: 2, skipped_risky: 1, dry_run: false };
    assert_eq!(strip_escapes(&summary_text(&s, true)), summary_text(&s, false));
}

#[test]
fn remove_summary_line() {
    let s = RemoveSummary { planned: 12, removed: 10, skipped_risky: 3, dry_run: false };
    assert_eq!(summary_text(&s, false), "Remove summary planned=12 removed=10 skipped_risky=3 dry_run=false");
    let d = RemoveSummary { planned: 0, removed: 0, skipped_risky: 0, dry_run: true };
    assert_eq!(
        summary_text(&d, true),
        "\u{1b}[36m\u{1b}[1mRemove summary\u{1b}[0m\u{1b}[39m planned=0 removed=0 skipped_risky=0 dry_run=true"
    );
    assert_eq!(kind_code(FindingKind::UnusedExport), "ue");
    assert_eq!(kind_code(FindingKind::UnreachableFile), "uf");
    assert_eq!(kind_code(FindingKind::Uncertain), "uc");
}

#[test]
fn settings_precedence() {
    let file = FileConfig {
        include_globs: Some(text_list(&["lib/**/*.js"])),
        exclude: None,
        entry: Some(text_list(&["lib/main.js"])),
        extensions: Some(text_list(&["ts", "js", "ts"])),
        max_workers: Some(4),
        format: Some("ai".to_string()),
        color: Some("sometimes".to_string()),
        fix_mode: None,
    };
    let mut cli = empty_cli();
    cli.entry = text_list(&["src/x.ts"]);
    cli.color = Some(ColorPolicy::Never);
    let cfg = EffectiveConfig::from_sources(&cli, file);
    assert_eq!(cfg.include_globs, text_list(&["lib/**/*.js"]));
    assert_eq!(cfg.exclude, default_excludes());
    assert_eq!(cfg.exclude.len(), 10);
    assert_eq!(cfg.entry, text_list(&["src/x.ts"]));
    assert_eq!(cfg.extensions, text_list(&["js", "ts"]));
    assert_eq!(cfg.max_workers, Some(4));
    assert_eq!(cfg.format, OutputFormat::Ai);
    assert_eq!(cfg.color, ColorPolicy::Never);
    assert_eq!(cfg.fix_mode, "files_only");

    let cfg = EffectiveConfig::from_sources(&empty_cli(), FileConfig::default());
    assert_eq!(cfg.include_globs, text_list(&["src/**/*.{js,ts,jsx,tsx}"]));
    assert_eq!(cfg.extensions, text_list(&["js", "jsx", "ts", "tsx"]));
    assert_eq!(cfg.format, OutputFormat::Human);
    assert_eq!(cfg.color, ColorPolicy::Auto);
    assert_eq!(cfg.entry, Vec::<String>::new());
}

#[test]
fn format_and_color_names() {
    assert_eq!(parse_format(Some(&"ai".to_string())), Some(OutputFormat::Ai));
    assert_eq!(parse_format(Some(&"human".to_string())), Some(OutputFormat::Human));
    assert_eq!(parse_format(Some(&"AI".to_string())), None);
    assert_eq!(parse_format(None), None);
    assert_eq!(parse_color(Some(&"always".to_string())), Some(ColorPolicy::Always));
    assert_eq!(parse_color(Some(&"never".to_string())), Some(ColorPolicy::Never));
    assert_eq!(parse_color(Some(&"auto".to_string())), Some(ColorPolicy::Auto));
    assert_eq!(parse_color(Some(&"yes".to_string())), None);
}

#[test]
fn default_command_and_failing_on_findings() {
    match command_to_run(None) {
        Command::Scan { path } => assert_eq!(path, "."),
        _ => panic!("scan expected"),
    }
    match command_to_run(Some(Command::Remove { path: "p".into(), fix: true, yes: false })) {
        Command::Remove { path, fix, yes } => assert!(path == "p" && fix && !yes),
        _ => panic!("remove expected"),
    }
    let some = ScanResult { findings: vec![finding("uf:x", FindingKind::UnreachableFile, "x", None, "r")] };
    let none = ScanResult { findings: vec![] };
    assert!(maybe_fail(&some, true).is_err());
    assert!(maybe_fail(&some, false).is_ok());
    assert!(maybe_fail(&none, true).is_ok());
}

#[test]
fn colored_tags_for_each_kind() {
    let uf = finding("uf:d", FindingKind::UnreachableFile, "d.ts", None, "unreachable_file");
    assert_eq!(
        finding_text(&uf, true),
        "\u{1b}[31m[UF]\u{1b}[39m \u{1b}[34md.ts\u{1b}[39m unreachable_file"
    );
    let uc = finding("uc:i:x", FindingKind::Uncertain, "i.ts", None, "dynamic_import_non_literal");
    assert_eq!(
        finding_text(&uc, true),
        "\u{1b}[35m[UC]\u{1b}[39m \u{1b}[34mi.ts\u{1b}[39m dynamic_import_non_literal"
    );
    assert_eq!(finding_text(&uc, false), "[UC] i.ts dynamic_import_non_literal");
}

#[test]
fn allowed_extensions() {
    let exts = text_list(&["js", "ts"]);
    assert!(has_allowed_ext(&c("/p/src/a.ts"), &exts));
    assert!(!has_allowed_ext(&c("/p/src/a.tsx"), &exts));
    assert!(!has_allowed_ext(&c("/p/src/Makefile"), &exts));
    assert!(has_allowed_ext(&c("/p/src/Makefile"), &text_list(&[""])));
}

#[test]
fn spans_by_byte_offsets() {
    let s = c("aé'x'");
    assert_eq!(span_text_exec(&s, 3, 6).map(|t| st(&t)), Some("'x'".to_string()));
    assert_eq!(span_text_exec(&s, 2, 6), None);
    assert_eq!(span_text_exec(&s, 4, 4).map(|t| st(&t)), Some(String::new()));
    assert_eq!(span_text_exec(&s, 3, 9).map(|t| st(&t)), Some(String::new()));
}
