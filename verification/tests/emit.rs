use od_ontology::emit::corpus_to_schema;
use od_ontology::surreal_ast::{Kind, ToSql};
use od_ontology::triple::Triple;

fn t(s: &str, p: &str, o: &str) -> Triple {
    Triple::new(s, p, o)
}

fn corpus() -> Vec<Triple> {
    vec![
        t("odoo:account_move", "rdf:type", "ogit:ObjectType"),
        t("odoo:account_move.amount_total", "rdf:type", "ogit:Property"),
        t("odoo:account_move.partner_id", "rdf:type", "ogit:Property"),
        t("odoo:account_move.line_ids", "rdf:type", "ogit:Property"),
        t("odoo:account_move._compute_amount", "rdf:type", "ogit:Function"),
        t("odoo:account_move._compute_amount", "rdf:type", "ogit:Function"),
        t("odoo:account_move.amount_total", "emitted_by", "odoo:account_move._compute_amount"),
        t("odoo:account_move.amount_total", "depends_on", "odoo:account_move.line_ids.balance"),
        t("odoo:account_move.amount_total", "depends_on", "odoo:account_move.currency_id"),
        t("odoo:account_move.amount_total", "depends_on", "odoo:account_move.currency_id"),
        t("odoo:account_move._check_balanced", "raises", "exc:ValidationError"),
        t("odoo:account_move_line", "rdf:type", "ogit:ObjectType"),
        t("odoo:res_partner", "rdf:type", "ogit:ObjectType"),
        t("odoo:sale_order", "rdf:type", "ogit:ObjectType"),
    ]
}

const FOCUS: &[&str] = &["account_move", "account_move_line", "res_partner"];

#[test]
fn tables_follow_the_focus_set_in_name_order() {
    let schema = corpus_to_schema(&corpus(), Some(FOCUS));
    let names: Vec<&str> = schema.tables.iter().map(|t| t.name.as_str()).collect();
    assert_eq!(names, vec!["account_move", "account_move_line", "res_partner"]);
    let all = corpus_to_schema(&corpus(), None);
    assert_eq!(all.tables.len(), 4);
}

#[test]
fn fields_are_typed_by_relation_convention() {
    let schema = corpus_to_schema(&corpus(), Some(FOCUS));
    let am = &schema.tables[0];
    let sql: Vec<String> = am.fields.iter().map(|f| f.to_sql()).collect();
    assert_eq!(
        sql,
        vec![
            "-- reactive over: currency_id\nDEFINE FIELD amount_total ON account_move TYPE option<any> VALUE fn::account_move::_compute_amount($this) READONLY;".to_string(),
            "DEFINE FIELD partner_id ON account_move TYPE option<record<res_partner>>;".to_string(),
            "DEFINE FIELD line_ids ON account_move TYPE option<array<record<account_move_line>>>;".to_string(),
        ]
    );
}

#[test]
fn unfocused_relations_fall_back_to_the_bare_stem() {
    let schema = corpus_to_schema(&corpus(), None);
    let am = &schema.tables[0];
    assert_eq!(am.fields[1].to_sql(), "DEFINE FIELD partner_id ON account_move TYPE option<record<partner>>;");
    assert_eq!(am.fields[2].to_sql(), "DEFINE FIELD line_ids ON account_move TYPE option<array<record<line>>>;");
}

#[test]
fn functions_are_deduplicated_stubs() {
    let schema = corpus_to_schema(&corpus(), Some(FOCUS));
    assert_eq!(schema.functions.len(), 1);
    assert_eq!(
        schema.functions[0].to_sql(),
        "DEFINE FUNCTION fn::account_move::_compute_amount($this: record<account_move>) { /* deferred: port from Python */ RETURN NONE; };"
    );
}

#[test]
fn events_carry_guard_and_resolved_cross_record_recompute() {
    let schema = corpus_to_schema(&corpus(), Some(FOCUS));
    let sql: Vec<String> = schema.events.iter().map(|e| e.to_sql()).collect();
    assert_eq!(
        sql,
        vec![
            "-- @api.constrains guard → ValidationError\nDEFINE EVENT check_balanced ON account_move WHEN $event IN [\"CREATE\", \"UPDATE\"] THEN { IF !fn::account_move::_check_balanced($after) { THROW \"ValidationError: _check_balanced failed\" } };".to_string(),
            "-- cross-record @api.depends: account_move.line_ids.* (child=account_move_line, back-ref=move_id) → recompute [amount_total]\nDEFINE EVENT recompute_account_move_via_line_ids ON account_move_line WHEN $event = \"UPDATE\" AND ($before.balance != $after.balance) THEN { LET $parent = $after.move_id; UPDATE $parent SET amount_total = fn::account_move::_recompute_amount_total($parent) };".to_string(),
        ]
    );
}

#[test]
fn unresolved_cross_record_event_audits_inline() {
    let schema = corpus_to_schema(&corpus(), Some(&["account_move"]));
    let ev = schema.events.iter().find(|e| e.name == "recompute_account_move_via_line_ids").unwrap();
    assert_eq!(ev.table, "account_move__line_ids");
    assert!(ev.to_sql().contains("(child UNRESOLVED — not in focus set)"));
    assert!(ev.then_block.starts_with("/* TODO: resolve child→parent back-ref for account_move.line_ids */"));
}

#[test]
fn schema_renders_sections_in_order() {
    let schema = corpus_to_schema(&corpus(), Some(FOCUS));
    let sql = schema.to_sql();
    let t = sql.find("DEFINE TABLE account_move SCHEMAFULL TYPE NORMAL;").unwrap();
    let f = sql.find("\n-- ── functions (bodies deferred) ──\n").unwrap();
    let e = sql.find("\n-- ── reactive + guard events ──\n").unwrap();
    assert!(t < f && f < e);
    assert!(sql.contains("DEFINE TABLE account_move_line SCHEMAFULL TYPE NORMAL;\n\nDEFINE TABLE res_partner SCHEMAFULL TYPE NORMAL;\n"));
    assert_eq!(sql, corpus_to_schema(&corpus(), Some(FOCUS)).to_sql());
}

#[test]
fn empty_corpus_renders_nothing() {
    let schema = corpus_to_schema(&[], None);
    assert!(schema.tables.is_empty() && schema.functions.is_empty() && schema.events.is_empty());
    assert_eq!(schema.to_sql(), "");
}

#[test]
fn events_are_ordered_by_table_then_name() {
    let mut triples = corpus();
    triples.push(t("odoo:account_move._check_a", "raises", "exc:UserError"));
    triples.push(t("odoo:account_move_line._check_z", "raises", "exc:UserError"));
    let schema = corpus_to_schema(&triples, None);
    let keys: Vec<(String, String)> = schema.events.iter().map(|e| (e.table.clone(), e.name.clone())).collect();
    let mut sorted = keys.clone();
    sorted.sort();
    assert_eq!(keys, sorted);
    assert_eq!(keys.len(), 4);
}

fn record_targets(k: &Kind) -> Option<&Vec<String>> {
    match k {
        Kind::Record(ts) => Some(ts),
        _ => None,
    }
}

#[test]
fn inferred_field_types_are_structured_kinds() {
    let schema = corpus_to_schema(&corpus(), None);
    let am = &schema.tables[0];
    match &am.fields[0].kind {
        Kind::Option(inner) => assert!(matches!(**inner, Kind::Any)),
        other => panic!("unexpected kind {other:?}"),
    }
    match &am.fields[1].kind {
        Kind::Option(inner) => assert_eq!(record_targets(inner), Some(&vec!["partner".to_string()])),
        other => panic!("unexpected kind {other:?}"),
    }
    match &am.fields[2].kind {
        Kind::Option(inner) => match &**inner {
            Kind::Array(rec) => assert_eq!(record_targets(rec), Some(&vec!["line".to_string()])),
            other => panic!("unexpected kind {other:?}"),
        },
        other => panic!("unexpected kind {other:?}"),
    }
}
