use od_ontology::ogar_actions::{corpus_action_rows, corpus_to_actions, ActionArm};
use od_ontology::triple::Triple;

fn t(s: &str, p: &str, o: &str) -> Triple {
    Triple::new(s, p, o)
}

#[test]
fn compute_method_lowers_to_depends_action() {
    let triples = vec![
        t("odoo:account_move", "has_function", "odoo:account_move._compute_amount"),
        t("odoo:account_move._compute_amount", "reads_field", "odoo:account_move.line_ids"),
        t("odoo:account_move._compute_amount", "reads_field", "odoo:account_move_line.amount_residual"),
    ];
    let actions = corpus_to_actions(&triples);
    assert_eq!(actions.len(), 1);
    let a = &actions[0];
    assert_eq!(a.predicate, "_compute_amount");
    assert_eq!(a.object_class, "account_move");
    match &a.arm {
        ActionArm::Depends { paths } => {
            assert!(paths.contains(&"account_move.line_ids".to_string()));
            assert!(paths.contains(&"account_move_line.amount_residual".to_string()));
        }
        other => panic!("expected Depends, got {other:?}"),
    }
    assert_eq!(a.decorators, vec!["api.depends".to_string()]);
}

#[test]
fn raising_guard_method_lowers_to_lifecycle_reject() {
    let triples = vec![
        t("odoo:account_move", "has_function", "odoo:account_move._check_balanced"),
        t("odoo:account_move._check_balanced", "raises", "exc:ValidationError"),
    ];
    let actions = corpus_to_actions(&triples);
    assert_eq!(actions.len(), 1);
    let a = &actions[0];
    assert_eq!(a.predicate, "_check_balanced");
    assert_eq!(a.arm, ActionArm::Guard { event: "before_save".to_string() });
    assert_eq!(a.decorators, vec!["api.constrains".to_string()]);
}

#[test]
fn raises_wins_over_compute_classification() {
    let triples = vec![
        t("odoo:m", "has_function", "odoo:m._compute_guarded"),
        t("odoo:m._compute_guarded", "raises", "exc:ValidationError"),
        t("odoo:m._compute_guarded", "reads_field", "odoo:m.x"),
    ];
    let actions = corpus_to_actions(&triples);
    assert_eq!(actions.len(), 1);
    assert!(matches!(actions[0].arm, ActionArm::Guard { .. }));
}

#[test]
fn onchange_inverse_search_other_are_not_lowered() {
    let triples = vec![
        t("odoo:m", "has_function", "odoo:m._onchange_partner"),
        t("odoo:m", "has_function", "odoo:m._inverse_total"),
        t("odoo:m", "has_function", "odoo:m._search_name"),
        t("odoo:m", "has_function", "odoo:m.action_post"),
    ];
    assert!(corpus_to_actions(&triples).is_empty());
}

#[test]
fn identity_is_stable_and_namespaced() {
    let triples = vec![t("odoo:account_move", "has_function", "odoo:account_move._compute_amount")];
    let actions = corpus_to_actions(&triples);
    assert_eq!(actions[0].identity, "odoo/account_move::action_def::_compute_amount");
}

#[test]
fn action_rows_format_depends_and_guard() {
    let triples = vec![
        t("odoo:m", "has_function", "odoo:m._compute_x"),
        t("odoo:m._compute_x", "reads_field", "odoo:m.a"),
        t("odoo:m._compute_x", "reads_field", "odoo:m.b"),
        t("odoo:m", "has_function", "odoo:m._check_y"),
        t("odoo:m._check_y", "raises", "exc:ValidationError"),
    ];
    let rows = corpus_action_rows(&triples);
    assert_eq!(
        rows,
        vec![
            ("m".to_string(), "_check_y".to_string(), "guard".to_string(), "before_save (reject)".to_string()),
            ("m".to_string(), "_compute_x".to_string(), "depends".to_string(), "m.a, m.b".to_string()),
        ]
    );
}

#[test]
fn compute_without_reads_has_empty_paths() {
    let triples = vec![
        t("odoo:m", "has_function", "odoo:m._compute_z"),
        t("odoo:m", "has_function", "odoo:m._compute_z"),
    ];
    let actions = corpus_to_actions(&triples);
    assert_eq!(actions.len(), 1);
    assert_eq!(actions[0].arm, ActionArm::Depends { paths: vec![] });
    let rows = corpus_action_rows(&triples);
    assert_eq!(rows[0].3, "");
}

#[test]
fn undeclared_raisers_are_not_lowered() {
    let triples = vec![t("odoo:m._check_y", "raises", "exc:ValidationError")];
    assert!(corpus_to_actions(&triples).is_empty());
}
