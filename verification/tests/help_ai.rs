use unused_buddy::help_ai::schema_for;
use unused_buddy::run::maybe_emit_ai_help;

fn arg_list(v: &[&str]) -> Vec<String> {
    v.iter().map(|s| s.to_string()).collect()
}

#[test]
fn help_ai_deterministic_order() {
    let schema = schema_for(None);
    assert_eq!(schema.n, "unused-buddy");
    assert_eq!(schema.d, "Find, list, and safely remove unused JS/TS code");
    assert_eq!(schema.u, "unused-buddy [GLOBAL OPTIONS] <COMMAND> [ARGS]");
    let subs: Vec<&str> = schema.s.iter().map(|s| s.name.as_str()).collect();
    assert_eq!(subs, vec!["scan", "list", "remove", "help"]);
}

#[test]
fn help_ai_help_scan_ai_schema() {
    let schema = schema_for(Some("scan"));
    assert_eq!(schema.n, "scan");
    let mut texts = vec![schema.n.clone(), schema.d.clone(), schema.u.clone()];
    texts.extend(schema.e.iter().cloned());
    for f in &schema.f {
        texts.push(f.name.clone());
        texts.push(f.desc.clone());
    }
    assert!(texts.iter().all(|t| !t.contains('\u{001b}')));
}

#[test]
fn help_ai_detects_root() {
    let args = arg_list(&["unused-buddy", "--help", "--format", "ai"]);
    let out = maybe_emit_ai_help(&args).expect("some");
    assert_eq!(out.n, "unused-buddy");
}

#[test]
fn help_ai_subcommand_schemas() {
    assert_eq!(schema_for(Some("list")).n, "list");
    let remove = schema_for(Some("remove"));
    assert_eq!(remove.n, "remove");
    assert_eq!(remove.f.len(), 10);
    assert_eq!(remove.f[8].name, "fix");
    assert_eq!(remove.f[9].name, "yes");
    assert_eq!(schema_for(Some("other")).n, "unused-buddy");
    assert_eq!(schema_for(None).f.len(), 8);
    assert_eq!(schema_for(None).x.len(), 3);
    assert_eq!(schema_for(None).x[2].code, 2);
}

#[test]
fn ai_help_needs_both_help_and_ai_format() {
    assert!(maybe_emit_ai_help(&arg_list(&["unused-buddy", "--help"])).is_none());
    assert!(maybe_emit_ai_help(&arg_list(&["unused-buddy", "--format", "ai"])).is_none());
    let eq_form = maybe_emit_ai_help(&arg_list(&["unused-buddy", "remove", "help", "--format=ai"]));
    assert_eq!(eq_form.expect("some").n, "remove");
    let scan = maybe_emit_ai_help(&arg_list(&["unused-buddy", "scan", "--help", "--format", "ai"]));
    assert_eq!(scan.expect("some").n, "scan");
    let trailing_format = maybe_emit_ai_help(&arg_list(&["unused-buddy", "--help", "--format"]));
    assert!(trailing_format.is_none());
}
