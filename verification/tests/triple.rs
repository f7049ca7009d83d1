use od_ontology::triple::{first_hop, is_cross_record, is_known_predicate, member_of, model_of, ndjson_rows, strip_ns, Triple};

#[test]
fn iri_segments() {
    assert_eq!(strip_ns("odoo:account_move.amount_total"), "account_move.amount_total");
    assert_eq!(strip_ns("account_move"), "account_move");
    assert_eq!(model_of("odoo:account_move.line_ids.balance"), "account_move");
    assert_eq!(model_of("odoo:account_move"), "account_move");
    assert_eq!(member_of("odoo:account_move.line_ids.balance"), Some("line_ids.balance"));
    assert_eq!(member_of("odoo:account_move"), None);
}

#[test]
fn cross_record_paths_split_at_the_first_hop() {
    assert!(is_cross_record("line_ids.balance"));
    assert!(!is_cross_record("amount_total"));
    assert_eq!(first_hop("line_ids.move_id.state"), Some(("line_ids", "move_id.state")));
    assert_eq!(first_hop("amount_total"), None);
}

#[test]
fn ndjson_rows_skip_blank_lines_and_number_from_one() {
    let text = "{\"a\":1}\r\n\n   \n{\"b\":2}\n{\"c\":3}";
    assert_eq!(
        ndjson_rows(text),
        vec![(1, "{\"a\":1}".to_string()), (4, "{\"b\":2}".to_string()), (5, "{\"c\":3}".to_string())]
    );
    assert!(ndjson_rows("").is_empty());
    assert!(ndjson_rows("\n\n").is_empty());
}

#[test]
fn triple_new_keeps_its_parts() {
    let t = Triple::new("odoo:m", "has_function", "odoo:m.f");
    assert_eq!((t.s.as_str(), t.p.as_str(), t.o.as_str()), ("odoo:m", "has_function", "odoo:m.f"));
}

#[test]
fn predicate_vocabulary_is_closed() {
    for p in [
        "rdf:type",
        "has_function",
        "emitted_by",
        "depends_on",
        "reads_field",
        "raises",
        "traverses_relation",
        "target",
        "inverse_name",
        "inherits_from",
        "validation_kind",
        "selection_value",
    ] {
        assert!(is_known_predicate(p), "{p}");
    }
    assert!(!is_known_predicate("depend_on"));
    assert!(!is_known_predicate(""));
    assert!(!is_known_predicate("rdf:Type"));
}
