use od_ontology::codegen::{
    action_lines, classid_line, model_form, object_type_tables, parse_args, plan_run, Input, RunPlan,
};
use od_ontology::triple::Triple;

fn args(v: &[&str]) -> Vec<String> {
    v.iter().map(|s| s.to_string()).collect()
}

#[test]
fn parse_args_default_is_stdin_no_focus() {
    let p = parse_args(&[]).unwrap();
    assert!(matches!(p.input, Input::Stdin));
    assert!(p.focus.is_empty());
    assert!(!p.stats);
    assert!(!p.actions);
}

#[test]
fn parse_args_classids_flag_accepted() {
    let p = parse_args(&args(&["--classids"])).unwrap();
    assert!(!p.actions);
}

#[test]
fn parse_args_actions_flag() {
    let p = parse_args(&args(&["--actions"])).unwrap();
    assert!(p.actions);
}

#[test]
fn parse_args_focus_splits_on_comma_and_trims() {
    let p = parse_args(&args(&["-f", "account_move, res_partner ,res_company"])).unwrap();
    assert_eq!(p.focus, vec!["account_move", "res_partner", "res_company"],);
}

#[test]
fn parse_args_unknown_flag_errors() {
    let err = parse_args(&args(&["--bogus"])).expect_err("unknown flag must fail");
    assert!(err.contains("--bogus"));
}

#[test]
fn parse_args_focus_missing_value_errors() {
    let err = parse_args(&args(&["-f"])).expect_err("missing focus value must fail");
    assert!(err.contains("focus"));
}

#[test]
fn object_type_tables_filters_by_focus_and_dedupes() {
    let triples = vec![
        Triple::new("odoo:account_move", "rdf:type", "ogit:ObjectType"),
        Triple::new("odoo:account_move.name", "rdf:type", "ogit:Property"),
        Triple::new("odoo:res_partner", "rdf:type", "ogit:ObjectType"),
    ];
    assert_eq!(
        object_type_tables(&triples, &[]),
        vec!["account_move".to_string(), "res_partner".to_string()]
    );
    assert_eq!(
        object_type_tables(&triples, &["account_move"]),
        vec!["account_move".to_string()]
    );
    assert!(object_type_tables(&triples, &["nonexistent_model"]).is_empty());
}

#[test]
fn parse_args_path_stdin_dash_and_help() {
    let p = parse_args(&args(&["data/x.ndjson", "--stats", "-h"])).unwrap();
    assert_eq!(p.input, Input::Path("data/x.ndjson".to_string()));
    assert!(p.stats && p.help);
    let p = parse_args(&args(&["data/x.ndjson", "-"])).unwrap();
    assert_eq!(p.input, Input::Stdin);
    let p = parse_args(&args(&["--focus", " , a,,b , "])).unwrap();
    assert_eq!(p.focus, vec!["a", "b"]);
}

#[test]
fn parse_args_error_texts_are_exact() {
    assert_eq!(parse_args(&args(&["--bogus"])).unwrap_err(), "unknown flag `--bogus`");
    assert_eq!(
        parse_args(&args(&["--focus"])).unwrap_err(),
        "-f/--focus requires a comma-separated model list"
    );
}

#[test]
fn object_type_tables_dedupes_repeated_declarations() {
    let triples = vec![
        Triple::new("odoo:res_partner", "rdf:type", "ogit:ObjectType"),
        Triple::new("odoo:account_move", "rdf:type", "ogit:ObjectType"),
        Triple::new("odoo:res_partner", "rdf:type", "ogit:ObjectType"),
        Triple::new("odoo:sale_order", "has_function", "odoo:sale_order.x"),
    ];
    assert_eq!(
        object_type_tables(&triples, &[]),
        vec!["account_move".to_string(), "res_partner".to_string()]
    );
}

#[test]
fn action_lines_format_and_respect_focus() {
    let rows = vec![
        ("m".to_string(), "_check_y".to_string(), "guard".to_string(), "before_save (reject)".to_string()),
        ("n".to_string(), "_compute_x".to_string(), "depends".to_string(), "n.a, n.b".to_string()),
    ];
    assert_eq!(
        action_lines(&rows, &[]),
        vec!["m._check_y\tguard\tbefore_save (reject)".to_string(), "n._compute_x\tdepends\tn.a, n.b".to_string()]
    );
    assert_eq!(
        action_lines(&rows, &["n".to_string()]),
        vec!["n._compute_x\tdepends\tn.a, n.b".to_string()]
    );
}

#[test]
fn classid_line_renders_eight_uppercase_hex_digits() {
    assert_eq!(classid_line("account_move", Some(0x0202_0002)), "account_move\t0x02020002");
    assert_eq!(classid_line("t", Some(0xDEAD_BEEF)), "t\t0xDEADBEEF");
    assert_eq!(classid_line("ir_cron", None), "ir_cron\t(uncodified)");
}

#[test]
fn model_form_turns_underscores_into_dots() {
    assert_eq!(model_form("account_analytic_line"), "account.analytic.line");
    assert_eq!(model_form("account.move"), "account.move");
    assert_eq!(model_form(""), "");
}

#[test]
fn run_on_zero_triples_is_degenerate() {
    assert_eq!(plan_run(&[], &[], false), RunPlan::ZeroTriples);
    assert_eq!(plan_run(&[], &[], true), RunPlan::ZeroTriples);
}

#[test]
fn focus_matching_nothing_is_degenerate_in_both_modes() {
    let triples = vec![Triple::new("odoo:account_move", "rdf:type", "ogit:ObjectType")];
    let focus = vec!["nonexistent_model".to_string()];
    assert_eq!(plan_run(&triples, &focus, false), RunPlan::ZeroTables);
    assert_eq!(plan_run(&triples, &focus, true), RunPlan::ZeroTables);
}

#[test]
fn single_table_corpus_plans_its_classid_line() {
    let triples = vec![
        Triple::new("odoo:account_move", "rdf:type", "ogit:ObjectType"),
        Triple::new("odoo:account_move.name", "rdf:type", "ogit:Property"),
    ];
    assert_eq!(plan_run(&triples, &[], false), RunPlan::Classids(vec!["account_move".to_string()]));
}

#[test]
fn actions_run_prints_focused_rows() {
    let triples = vec![
        Triple::new("odoo:m", "rdf:type", "ogit:ObjectType"),
        Triple::new("odoo:m", "has_function", "odoo:m._compute_x"),
        Triple::new("odoo:m._compute_x", "reads_field", "odoo:m.a"),
        Triple::new("odoo:n", "has_function", "odoo:n._check_y"),
        Triple::new("odoo:n._check_y", "raises", "exc:ValidationError"),
    ];
    assert_eq!(
        plan_run(&triples, &["m".to_string()], true),
        RunPlan::Actions(vec!["m._compute_x\tdepends\tm.a".to_string()])
    );
    assert_eq!(
        plan_run(&triples, &[], true),
        RunPlan::Actions(vec![
            "m._compute_x\tdepends\tm.a".to_string(),
            "n._check_y\tguard\tbefore_save (reject)".to_string(),
        ])
    );
}
