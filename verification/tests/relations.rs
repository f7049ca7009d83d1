use od_ontology::relations::RelationMap;

#[test]
fn empty_map_knows_nothing() {
    let m = RelationMap::new();
    assert!(m.is_empty());
    assert_eq!(m.len(), 0);
    assert_eq!(m.target("account_move", "line_ids"), None);
    assert_eq!(m.inverse("account_move", "line_ids"), None);
}

#[test]
fn insert_then_lookup_and_override() {
    let mut m = RelationMap::new();
    m.insert("account_move".to_string(), "line_ids".to_string(), "account_move_line".to_string(), Some("move_id".to_string()));
    m.insert("account_move".to_string(), "partner_id".to_string(), "res_partner".to_string(), None);
    assert_eq!(m.len(), 2);
    assert_eq!(m.target("account_move", "line_ids"), Some("account_move_line"));
    assert_eq!(m.inverse("account_move", "line_ids"), Some("move_id"));
    assert_eq!(m.inverse("account_move", "partner_id"), None);
    m.insert("account_move".to_string(), "partner_id".to_string(), "res_company".to_string(), Some("x".to_string()));
    assert_eq!(m.len(), 2);
    assert_eq!(m.target("account_move", "partner_id"), Some("res_company"));
    assert_eq!(m.inverse("account_move", "partner_id"), Some("x"));
    assert!(!m.is_empty());
}

#[test]
fn len_grows_only_for_new_keys() {
    let mut m = RelationMap::new();
    m.insert("a".to_string(), "f".to_string(), "b".to_string(), None);
    let before = m.len();
    m.insert("a".to_string(), "f".to_string(), "c".to_string(), None);
    assert_eq!(m.len(), before);
    m.insert("a".to_string(), "g".to_string(), "c".to_string(), None);
    assert_eq!(m.len(), before + 1);
}
