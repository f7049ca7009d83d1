use od_ontology::recompute_dag::{MethodKind, RecomputeDag};
use od_ontology::triple::Triple;

fn t(s: &str, p: &str, o: &str) -> Triple {
    Triple::new(s, p, o)
}

#[test]
fn empty_corpus_empty_dag() {
    let dag = RecomputeDag::from_triples(&[]);
    assert_eq!(dag.method_count(), 0);
    assert_eq!(dag.edge_count(), 0);
    assert!(dag.detect_cycle().is_none());
    assert_eq!(dag.topological_order(), Ok(vec![]));
}

#[test]
fn simple_linear_chain_orders_emit_before_read() {
    // A emits field f; B reads field f: edge A -> B, order [A, B].
    let triples = vec![
        t("odoo:m", "has_function", "odoo:m.a"),
        t("odoo:m", "has_function", "odoo:m.b"),
        t("odoo:m.f", "emitted_by", "odoo:m.a"),
        t("odoo:m.b", "reads_field", "odoo:m.f"),
    ];
    let dag = RecomputeDag::from_triples(&triples);
    assert_eq!(dag.edge_count(), 1);
    assert!(dag.has_edge("m.a", "m.b"));
    let order = dag.topological_order().expect("acyclic");
    let a = order.iter().position(|x| x == "m.a").unwrap();
    let b = order.iter().position(|x| x == "m.b").unwrap();
    assert!(a < b, "emit must come before read: {order:?}");
}

#[test]
fn cycle_is_detected() {
    // A reads g, g emitted by B; B reads f, f emitted by A: a cycle.
    let triples = vec![
        t("odoo:m.f", "emitted_by", "odoo:m.a"),
        t("odoo:m.g", "emitted_by", "odoo:m.b"),
        t("odoo:m.a", "reads_field", "odoo:m.g"),
        t("odoo:m.b", "reads_field", "odoo:m.f"),
    ];
    let dag = RecomputeDag::from_triples(&triples);
    let cycle = dag.detect_cycle().expect("cycle expected");
    assert!(cycle.len() >= 2, "cycle path must have at least 2 nodes: {cycle:?}");
    assert!(
        cycle.iter().any(|m| m == "m.a") && cycle.iter().any(|m| m == "m.b"),
        "cycle must mention both methods: {cycle:?}"
    );
    assert!(dag.topological_order().is_err());
}

#[test]
fn self_loop_is_dropped_not_a_cycle() {
    let triples = vec![
        t("odoo:m.f", "emitted_by", "odoo:m.a"),
        t("odoo:m.a", "reads_field", "odoo:m.f"),
    ];
    let dag = RecomputeDag::from_triples(&triples);
    assert_eq!(dag.edge_count(), 0);
    assert!(dag.detect_cycle().is_none());
}

#[test]
fn method_kind_classifies_by_prefix() {
    assert_eq!(MethodKind::classify("odoo:account_move._compute_amount"), MethodKind::Compute);
    assert_eq!(MethodKind::classify("odoo:account_move._check_balanced"), MethodKind::Check);
    assert_eq!(MethodKind::classify("odoo:account_move._onchange_partner_id"), MethodKind::Onchange);
    assert_eq!(MethodKind::classify("account_move._inverse_quick_edit_total"), MethodKind::Inverse);
    assert_eq!(MethodKind::classify("account_move._search_name"), MethodKind::Search);
    assert_eq!(MethodKind::classify("account_move.action_post"), MethodKind::Other);
}

#[test]
fn cycle_path_closes_on_its_start() {
    let triples = vec![
        t("odoo:m.f", "emitted_by", "odoo:m.a"),
        t("odoo:m.g", "emitted_by", "odoo:m.b"),
        t("odoo:m.a", "reads_field", "odoo:m.g"),
        t("odoo:m.b", "reads_field", "odoo:m.f"),
    ];
    let dag = RecomputeDag::from_triples(&triples);
    let cycle = dag.detect_cycle().unwrap();
    assert_eq!(cycle, vec!["m.a".to_string(), "m.b".to_string(), "m.a".to_string()]);
    let err = dag.topological_order().unwrap_err();
    assert_eq!(err.first(), err.last());
    for w in err.windows(2) {
        assert!(dag.has_edge(&w[0], &w[1]));
    }
}

#[test]
fn isolated_methods_sort_by_name() {
    let triples = vec![
        t("odoo:m", "has_function", "odoo:m.c"),
        t("odoo:m", "has_function", "odoo:m.a"),
        t("odoo:m", "has_function", "odoo:m.b"),
    ];
    let dag = RecomputeDag::from_triples(&triples);
    assert_eq!(dag.method_count(), 3);
    assert_eq!(
        dag.topological_order(),
        Ok(vec!["m.a".to_string(), "m.b".to_string(), "m.c".to_string()])
    );
}

#[test]
fn greedy_order_takes_least_ready_method() {
    // z emits f read by a: z must precede a although a sorts first.
    let triples = vec![
        t("odoo:m.f", "emitted_by", "odoo:m.z"),
        t("odoo:m.a", "reads_field", "odoo:m.f"),
        t("odoo:m", "has_function", "odoo:m.b"),
    ];
    let dag = RecomputeDag::from_triples(&triples);
    assert_eq!(
        dag.topological_order(),
        Ok(vec!["m.b".to_string(), "m.z".to_string(), "m.a".to_string()])
    );
}

#[test]
fn reads_of_unemitted_fields_add_no_edge() {
    let triples = vec![
        t("odoo:m", "has_function", "odoo:m.a"),
        t("odoo:m.a", "reads_field", "odoo:m.browse"),
    ];
    let dag = RecomputeDag::from_triples(&triples);
    assert_eq!(dag.edge_count(), 0);
    assert_eq!(dag.method_count(), 1);
}

#[test]
fn restrict_to_compute_keeps_only_compute_edges() {
    let triples = vec![
        t("odoo:m.f", "emitted_by", "odoo:m._compute_f"),
        t("odoo:m._compute_g", "reads_field", "odoo:m.f"),
        t("odoo:m.g", "emitted_by", "odoo:m._compute_g"),
        t("odoo:m._onchange_x", "reads_field", "odoo:m.g"),
        t("odoo:m.h", "emitted_by", "odoo:m._onchange_x"),
        t("odoo:m._compute_f", "reads_field", "odoo:m.h"),
    ];
    let dag = RecomputeDag::from_triples(&triples);
    assert!(dag.detect_cycle().is_some());
    let compute = dag.restrict_to(&[MethodKind::Compute]);
    assert_eq!(compute.method_count(), 2);
    assert_eq!(compute.edge_count(), 1);
    assert!(compute.has_edge("m._compute_f", "m._compute_g"));
    assert!(compute.detect_cycle().is_none());
}

#[test]
fn method_model_is_the_segment_before_the_first_dot() {
    assert_eq!(RecomputeDag::method_model("account_move._compute_amount"), "account_move");
    assert_eq!(RecomputeDag::method_model("plain"), "plain");
}

#[test]
fn restricting_an_acyclic_graph_stays_acyclic() {
    let triples = vec![
        t("odoo:m.f", "emitted_by", "odoo:m._compute_f"),
        t("odoo:m._compute_g", "reads_field", "odoo:m.f"),
        t("odoo:m.g", "emitted_by", "odoo:m._compute_g"),
        t("odoo:m._check_h", "reads_field", "odoo:m.g"),
    ];
    let dag = RecomputeDag::from_triples(&triples);
    assert!(dag.detect_cycle().is_none());
    for kinds in [&[MethodKind::Compute][..], &[MethodKind::Check], &[MethodKind::Compute, MethodKind::Check]] {
        let r = dag.restrict_to(kinds);
        assert!(r.detect_cycle().is_none());
        assert!(r.topological_order().is_ok());
    }
}

#[test]
fn reported_cycle_repeats_only_its_start() {
    // a -> b -> c -> a
    let triples = vec![
        t("odoo:m.fa", "emitted_by", "odoo:m.a"),
        t("odoo:m.fb", "emitted_by", "odoo:m.b"),
        t("odoo:m.fc", "emitted_by", "odoo:m.c"),
        t("odoo:m.b", "reads_field", "odoo:m.fa"),
        t("odoo:m.c", "reads_field", "odoo:m.fb"),
        t("odoo:m.a", "reads_field", "odoo:m.fc"),
    ];
    let dag = RecomputeDag::from_triples(&triples);
    let cycle = dag.detect_cycle().unwrap();
    assert_eq!(cycle, vec!["m.a".to_string(), "m.b".to_string(), "m.c".to_string(), "m.a".to_string()]);
    let body = &cycle[..cycle.len() - 1];
    for i in 0..body.len() {
        for j in i + 1..body.len() {
            assert_ne!(body[i], body[j]);
        }
    }
    assert_eq!(dag.topological_order(), Err(cycle));
}

#[test]
fn cooperative_onchange_loop_is_outside_the_compute_subset() {
    let triples = vec![
        t("odoo:account_move.invoice_line_ids", "emitted_by", "odoo:account_move._onchange_invoice_vendor_bill"),
        t("odoo:account_move._onchange_quick_edit_total_amount", "reads_field", "odoo:account_move.invoice_line_ids"),
        t("odoo:account_move.quick_edit_total_amount", "emitted_by", "odoo:account_move._onchange_quick_edit_total_amount"),
        t("odoo:account_move._onchange_invoice_vendor_bill", "reads_field", "odoo:account_move.quick_edit_total_amount"),
        t("odoo:account_move.amount_total", "emitted_by", "odoo:account_move._compute_amount"),
        t("odoo:account_move._compute_amount", "reads_field", "odoo:account_move.line_ids"),
        t("odoo:account_move._compute_tax_totals", "reads_field", "odoo:account_move.amount_total"),
        t("odoo:account_move.tax_totals", "emitted_by", "odoo:account_move._compute_tax_totals"),
    ];
    let full = RecomputeDag::from_triples(&triples);
    let cycle = full.detect_cycle().expect("the onchange pair forms a loop");
    assert!(cycle.iter().all(|m| m.contains("_onchange_")));
    let compute = full.restrict_to(&[MethodKind::Compute]);
    assert!(compute.detect_cycle().is_none());
    assert_eq!(compute.method_count(), 2);
    assert!(compute.has_edge("account_move._compute_amount", "account_move._compute_tax_totals"));
    assert_eq!(
        compute.topological_order().unwrap(),
        vec!["account_move._compute_amount".to_string(), "account_move._compute_tax_totals".to_string()]
    );
}
