use od_ontology::surreal_ast::{
    EventDefinition, FieldDefinition, FunctionDefinition, IndexDefinition, Kind, Schema, TableDefinition, ToSql,
};

#[test]
fn kinds_render_nested() {
    assert_eq!(Kind::Any.to_sql(), "any");
    assert_eq!(Kind::Decimal.to_sql(), "decimal");
    assert_eq!(Kind::Record(vec!["a".to_string(), "b".to_string()]).to_sql(), "record<a|b>");
    assert_eq!(Kind::Array(Box::new(Kind::Record(vec!["x".to_string()]))).optional().to_sql(), "option<array<record<x>>>");
    assert_eq!(Kind::Int.optional().optional().to_sql(), "option<int>");
}

#[test]
fn field_definition_defaults_and_clauses() {
    let mut f = FieldDefinition::new("account_move", "name");
    assert_eq!(f.to_sql(), "DEFINE FIELD name ON account_move TYPE option<any>;");
    f.kind = Kind::String;
    f.value = Some("fn::x($this)".to_string());
    f.assert = Some("$value != NONE".to_string());
    f.readonly = true;
    f.reactive_over = vec!["a".to_string(), "b".to_string()];
    assert_eq!(
        f.to_sql(),
        "-- reactive over: a, b\nDEFINE FIELD name ON account_move TYPE string VALUE fn::x($this) ASSERT $value != NONE READONLY;"
    );
}

#[test]
fn index_and_event_render() {
    let i = IndexDefinition {
        table: "t".to_string(),
        name: "uniq".to_string(),
        fields: vec!["a".to_string(), "b".to_string()],
        unique: true,
    };
    assert_eq!(i.to_sql(), "DEFINE INDEX uniq ON t FIELDS a, b UNIQUE;");
    let e = EventDefinition {
        name: "ev".to_string(),
        table: "t".to_string(),
        when: "true".to_string(),
        then_block: "RETURN".to_string(),
        note: None,
    };
    assert_eq!(e.to_sql(), "DEFINE EVENT ev ON t WHEN true THEN { RETURN };");
}

#[test]
fn function_stub_and_table_render() {
    let f = FunctionDefinition::stub("m", "_compute_x");
    assert_eq!(f.to_sql(), "DEFINE FUNCTION fn::m::_compute_x($this: record<m>) { /* deferred: port from Python */ RETURN NONE; };");
    let mut t = TableDefinition::new("m");
    assert_eq!(t.to_sql(), "DEFINE TABLE m SCHEMAFULL TYPE NORMAL;");
    t.schemafull = false;
    t.fields.push(FieldDefinition::new("m", "x"));
    assert_eq!(t.to_sql(), "DEFINE TABLE m SCHEMALESS TYPE NORMAL;\nDEFINE FIELD x ON m TYPE option<any>;");
}

#[test]
fn empty_schema_renders_empty() {
    assert_eq!(Schema::new().to_sql(), "");
    let mut s = Schema::new();
    s.tables.push(TableDefinition::new("a"));
    s.tables.push(TableDefinition::new("b"));
    assert_eq!(s.to_sql(), "DEFINE TABLE a SCHEMAFULL TYPE NORMAL;\n\nDEFINE TABLE b SCHEMAFULL TYPE NORMAL;\n");
}
