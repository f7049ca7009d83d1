use od_ontology::inheritance::{bare_model, InheritanceMap};
use od_ontology::triple::Triple;

fn t(s: &str, p: &str, o: &str) -> Triple {
    Triple::new(s, p, o)
}

#[test]
fn empty_corpus_empty_map() {
    let m = InheritanceMap::from_corpus(&[]);
    assert!(m.is_empty());
    assert_eq!(m.bases("account_move"), Vec::<&str>::new());
}

#[test]
fn lifts_single_inherits_from_edge() {
    let triples = vec![t("odoo:account_move", "inherits_from", "odoo:mail_thread")];
    let m = InheritanceMap::from_corpus(&triples);
    assert_eq!(m.bases("account_move"), vec!["mail_thread"]);
    assert!(m.has_bases("account_move"));
}

#[test]
fn aggregates_multiple_bases_sorted() {
    let triples = vec![
        t("odoo:account_move", "inherits_from", "odoo:mail_thread"),
        t("odoo:account_move", "inherits_from", "odoo:portal_mixin"),
        t("odoo:account_move", "inherits_from", "odoo:mail_activity_mixin"),
    ];
    let m = InheritanceMap::from_corpus(&triples);
    assert_eq!(m.bases("account_move"), vec!["mail_activity_mixin", "mail_thread", "portal_mixin"]);
}

#[test]
fn skips_non_inherits_from_predicates() {
    let triples = vec![
        t("odoo:account_move", "has_function", "odoo:account_move._post"),
        t("odoo:account_move.line_ids", "target", "account.move.line"),
    ];
    let m = InheritanceMap::from_corpus(&triples);
    assert!(m.is_empty());
}

#[test]
fn skips_field_iri_subjects() {
    let triples = vec![t("odoo:account_move.partner_id", "inherits_from", "odoo:res_partner")];
    let m = InheritanceMap::from_corpus(&triples);
    assert!(m.is_empty());
}

#[test]
fn duplicate_edges_collapse_and_len_counts_models() {
    let triples = vec![
        t("odoo:account_move", "inherits_from", "odoo:mail_thread"),
        t("odoo:account_move", "inherits_from", "odoo:mail_thread"),
        t("odoo:sale_order", "inherits_from", "odoo:mail_thread"),
        t("odoo:sale_order", "inherits_from", "odoo:sale_order.x"),
    ];
    let m = InheritanceMap::from_corpus(&triples);
    assert_eq!(m.len(), 2);
    assert_eq!(m.bases("account_move"), vec!["mail_thread"]);
    assert_eq!(m.bases("sale_order"), vec!["mail_thread"]);
    assert!(!m.has_bases("mail_thread"));
}

#[test]
fn bare_model_takes_only_odoo_models() {
    assert_eq!(bare_model("odoo:account_move"), Some("account_move"));
    assert_eq!(bare_model("account_move"), None);
    assert_eq!(bare_model("ogit:account_move"), None);
    assert_eq!(bare_model("odoo:account_move.partner_id"), None);
}

#[test]
fn non_odoo_inherits_rows_are_skipped() {
    let triples = vec![
        t("ogit:account_move", "inherits_from", "ogit:mail_thread"),
        t("account_move", "inherits_from", "mail_thread"),
        t("odoo:account_move", "inherits_from", "mail_thread"),
    ];
    let m = InheritanceMap::from_corpus(&triples);
    assert!(m.bases("account_move").is_empty());
    assert!(m.is_empty());
}

#[test]
fn new_map_is_empty() {
    let m = InheritanceMap::new();
    assert!(m.is_empty());
    assert_eq!(m.len(), 0);
}
