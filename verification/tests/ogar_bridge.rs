use od_ontology::ogar_bridge::{record_target, scalar_surql_name, schema_to_classes, AssociationKind, ClassShape};
use od_ontology::surreal_ast::{FieldDefinition, Kind, Schema, TableDefinition};

fn class_for(table: TableDefinition) -> ClassShape {
    let mut schema = Schema::new();
    schema.tables.push(table);
    schema_to_classes(&schema).pop().expect("one class")
}

#[test]
fn table_becomes_class_with_same_name() {
    let c = class_for(TableDefinition::new("account_move"));
    assert_eq!(c.name, "account_move");
}

#[test]
fn required_scalar_becomes_attribute_without_optional_marker() {
    let mut t = TableDefinition::new("account_move");
    let mut f = FieldDefinition::new("account_move", "name");
    f.kind = Kind::String;
    t.fields.push(f);
    let c = class_for(t);
    let attr = &c.attributes[0];
    assert_eq!(attr.name, "name");
    assert_eq!(attr.scalar_type.as_deref(), Some("string"));
    assert_eq!(attr.options.required, None);
}

#[test]
fn nullable_scalar_carries_required_false() {
    let mut t = TableDefinition::new("account_move");
    let mut f = FieldDefinition::new("account_move", "ref");
    f.kind = Kind::String.optional();
    t.fields.push(f);
    let c = class_for(t);
    assert_eq!(c.attributes[0].options.required, Some(false));
}

#[test]
fn many2one_becomes_belongs_to_association() {
    let mut t = TableDefinition::new("account_move");
    let mut f = FieldDefinition::new("account_move", "partner_id");
    f.kind = Kind::Record(vec!["res_partner".to_string()]).optional();
    t.fields.push(f);
    let c = class_for(t);
    let a = &c.associations[0];
    assert_eq!(a.kind, AssociationKind::BelongsTo);
    assert_eq!(a.name, "partner_id");
    assert_eq!(a.class_name.as_deref(), Some("res_partner"));
    assert_eq!(a.optional, Some(true));
}

#[test]
fn one2many_becomes_has_many_association() {
    let mut t = TableDefinition::new("account_move");
    let mut f = FieldDefinition::new("account_move", "line_ids");
    f.kind = Kind::Array(Box::new(Kind::Record(vec!["account_move_line".to_string()]))).optional();
    t.fields.push(f);
    let c = class_for(t);
    let a = &c.associations[0];
    assert_eq!(a.kind, AssociationKind::HasMany);
    assert_eq!(a.class_name.as_deref(), Some("account_move_line"));
    assert_eq!(a.optional, None);
}

#[test]
fn untyped_default_field_is_a_nullable_any_attribute() {
    let mut t = TableDefinition::new("m");
    t.fields.push(FieldDefinition::new("m", "x"));
    let mut g = FieldDefinition::new("m", "tags");
    g.kind = Kind::Array(Box::new(Kind::String));
    t.fields.push(g);
    let c = class_for(t);
    assert_eq!(c.attributes.len(), 1);
    assert_eq!(c.attributes[0].scalar_type.as_deref(), Some("any"));
    assert_eq!(c.attributes[0].options.required, Some(false));
    assert_eq!(c.associations.len(), 1);
    assert_eq!(c.associations[0].class_name, None);
}

#[test]
fn record_targets_join_with_bars() {
    assert_eq!(record_target(&["a".to_string(), "b".to_string(), "c".to_string()]), "a|b|c");
    assert_eq!(record_target(&[]), "");
    assert_eq!(scalar_surql_name(&Kind::Datetime), "datetime");
    assert_eq!(scalar_surql_name(&Kind::Record(vec![])), "any");
}
