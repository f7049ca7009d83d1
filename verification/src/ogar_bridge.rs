//! Lowering of the typed DDL [`Schema`](crate::surreal_ast::Schema) onto the
//! class shape of the shared OGAR IR: a table becomes a class, a scalar field
//! an attribute, a `record<...>` field an owning (`BelongsTo`) association and
//! an `array<...>` field a non-owning (`HasMany`) association.
//!
//! Only the `DEFINE TABLE` + `DEFINE FIELD` subset converges: a computed
//! field's `VALUE` / `READONLY`, functions, events and indices have no slot in
//! the class shape and are not carried.
use vstd::prelude::*;
use crate::strset::{join, join_strs, view_strs};
use crate::surreal_ast::{kind_sql, FieldDefinition, Kind, Schema, TableDefinition};

verus! {

/// Which side of a relation an association is.
#[derive(Debug, Clone, Copy, PartialEq, Eq, Structural)]
pub enum AssociationKind {
    /// The owning side: the foreign key lives on this class (`Many2one`).
    BelongsTo,
    /// The non-owning collection side (`One2many` / `Many2many`).
    HasMany,
}

/// An attribute's options.
#[derive(Debug, Clone, Copy, PartialEq, Eq, Structural)]
pub struct AttributeOptions {
    /// `Some(false)` for a nullable attribute; `None` when the field is bare
    /// (required).
    pub required: Option<bool>,
}

/// A scalar attribute of a class.
#[derive(Debug, Clone, PartialEq, Eq)]
pub struct AttributeShape {
    /// The field name.
    pub name: String,
    /// The SurrealQL scalar name (`string`, `int`, ..., `any`).
    pub scalar_type: Option<String>,
    /// Nullability.
    pub options: AttributeOptions,
}

/// An association of a class.
#[derive(Debug, Clone, PartialEq, Eq)]
pub struct AssociationShape {
    /// Owning or collection side.
    pub kind: AssociationKind,
    /// The field name.
    pub name: String,
    /// The target class; several polymorphic targets are joined with `|`.
    pub class_name: Option<String>,
    /// `Some(true)` for a nullable owning association.
    pub optional: Option<bool>,
}

/// A class of the IR: its name, attributes and associations.
#[derive(Debug, Clone, PartialEq, Eq)]
pub struct ClassShape {
    /// The class name (the table name).
    pub name: String,
    /// Scalar attributes, in field order.
    pub attributes: Vec<AttributeShape>,
    /// Associations, in field order.
    pub associations: Vec<AssociationShape>,
}

/// The abstract attribute.
pub struct AttrModel {
    /// Its name.
    pub name: Seq<char>,
    /// Its scalar type name.
    pub scalar_type: Option<Seq<char>>,
    /// Its `required` option.
    pub required: Option<bool>,
}

/// The abstract association.
pub struct AssocModel {
    /// Its side.
    pub kind: AssociationKind,
    /// Its name.
    pub name: Seq<char>,
    /// Its target.
    pub class_name: Option<Seq<char>>,
    /// Its `optional` marker.
    pub optional: Option<bool>,
}

/// The abstract class.
pub struct ClassModel {
    /// Its name.
    pub name: Seq<char>,
    /// Its attributes.
    pub attributes: Seq<AttrModel>,
    /// Its associations.
    pub associations: Seq<AssocModel>,
}

/// The view of an optional string.
pub open spec fn opt_str(o: Option<String>) -> Option<Seq<char>> {
    match o {
        Some(s) => Some(s@),
        None => None,
    }
}

impl AttributeShape {
    /// The abstract attribute.
    pub open spec fn model(&self) -> AttrModel {
        AttrModel { name: self.name@, scalar_type: opt_str(self.scalar_type), required: self.options.required }
    }
}

impl AssociationShape {
    /// The abstract association.
    pub open spec fn model(&self) -> AssocModel {
        AssocModel {
            kind: self.kind,
            name: self.name@,
            class_name: opt_str(self.class_name),
            optional: self.optional,
        }
    }
}

/// The abstract attributes of a vector.
pub open spec fn attrs_view(v: Seq<AttributeShape>) -> Seq<AttrModel> {
    v.map_values(|a: AttributeShape| a.model())
}

/// The abstract associations of a vector.
pub open spec fn assocs_view(v: Seq<AssociationShape>) -> Seq<AssocModel> {
    v.map_values(|a: AssociationShape| a.model())
}

impl ClassShape {
    /// The abstract class.
    pub open spec fn model(&self) -> ClassModel {
        ClassModel {
            name: self.name@,
            attributes: attrs_view(self.attributes@),
            associations: assocs_view(self.associations@),
        }
    }
}

/// The SurrealQL scalar name of a type: the scalar's own name, `any` for
/// `any` and for the non-scalar kinds.
pub open spec fn scalar_name(k: Kind) -> Seq<char> {
    match k {
        Kind::Bool => "bool"@,
        Kind::Int => "int"@,
        Kind::Float => "float"@,
        Kind::Decimal => "decimal"@,
        Kind::String => "string"@,
        Kind::Datetime => "datetime"@,
        _ => "any"@,
    }
}

/// A type with one `option<...>` layer peeled, and whether there was one.
pub open spec fn peeled(k: Kind) -> (Kind, bool) {
    match k {
        Kind::Option(inner) => (*inner, true),
        other => (other, false),
    }
}

/// The target of a `record<...>` slot: its targets joined with `|`.
pub open spec fn target_name(targets: Seq<String>) -> Seq<char> {
    join(view_strs(targets), "|"@)
}

/// The association a field lowers to, when its (peeled) type is a record or
/// an array.
pub open spec fn assoc_part(f: FieldDefinition) -> Seq<AssocModel> {
    let (inner, optional) = peeled(f.kind);
    match inner {
        Kind::Record(targets) => seq![
            AssocModel {
                kind: AssociationKind::BelongsTo,
                name: f.name@,
                class_name: Some(target_name(targets@)),
                optional: if optional {
                    Some(true)
                } else {
                    None
                },
            },
        ],
        Kind::Array(elem) => seq![
            AssocModel {
                kind: AssociationKind::HasMany,
                name: f.name@,
                class_name: match *elem {
                    Kind::Record(targets) => Some(target_name(targets@)),
                    _ => None,
                },
                optional: None,
            },
        ],
        _ => Seq::empty(),
    }
}

/// The attribute a field lowers to, when its (peeled) type is a scalar.
pub open spec fn attr_part(f: FieldDefinition) -> Seq<AttrModel> {
    let (inner, optional) = peeled(f.kind);
    match inner {
        Kind::Record(_) => Seq::empty(),
        Kind::Array(_) => Seq::empty(),
        _ => seq![
            AttrModel {
                name: f.name@,
                scalar_type: Some(scalar_name(inner)),
                required: if optional {
                    Some(false)
                } else {
                    None
                },
            },
        ],
    }
}

/// The attributes of the fields `fs`, in order.
pub open spec fn attrs_of(fs: Seq<FieldDefinition>) -> Seq<AttrModel>
    decreases fs.len(),
{
    if fs.len() == 0 {
        Seq::empty()
    } else {
        attrs_of(fs.drop_last()) + attr_part(fs.last())
    }
}

/// The associations of the fields `fs`, in order.
pub open spec fn assocs_of(fs: Seq<FieldDefinition>) -> Seq<AssocModel>
    decreases fs.len(),
{
    if fs.len() == 0 {
        Seq::empty()
    } else {
        assocs_of(fs.drop_last()) + assoc_part(fs.last())
    }
}

/// The class a table lowers to.
pub open spec fn class_of(t: TableDefinition) -> ClassModel {
    ClassModel { name: t.name@, attributes: attrs_of(t.fields@), associations: assocs_of(t.fields@) }
}

/// The SurrealQL scalar name of a type; `any` for `any` and for the kinds a
/// caller peels first (`record`, `array`, `option`).
pub fn scalar_surql_name(kind: &Kind) -> (r: &'static str)
    ensures
        r@ == scalar_name(*kind),
{
    match kind {
        Kind::Bool => "bool",
        Kind::Int => "int",
        Kind::Float => "float",
        Kind::Decimal => "decimal",
        Kind::String => "string",
        Kind::Datetime => "datetime",
        _ => "any",
    }
}

/// A `record<...>` target as one identifier: a polymorphic multi-target slot
/// is joined with `|`.
pub fn record_target(targets: &[String]) -> (r: String)
    ensures
        r@ == target_name(targets@),
{
    join_strs(targets, "|")
}

/// Route one field to an attribute or an association of `class`, turning a
/// single `option<...>` layer into the IR's nullability marker.
pub fn lower_field(field: &FieldDefinition, class: &mut ClassShape)
    ensures
        final(class).name@ == old(class).name@,
        final(class).model().attributes == old(class).model().attributes + attr_part(*field),
        final(class).model().associations == old(class).model().associations + assoc_part(*field),
{
    let ghost a0 = old(class).attributes@;
    let ghost s0 = old(class).associations@;
    let (inner, optional): (&Kind, bool) = match &field.kind {
        Kind::Option(b) => (&**b, true),
        other => (other, false),
    };
    proof {
        assert(peeled(field.kind) == (*inner, optional));
    }
    match inner {
        Kind::Record(targets) => {
            let assoc = AssociationShape {
                kind: AssociationKind::BelongsTo,
                name: field.name.clone(),
                class_name: Some(record_target(targets.as_slice())),
                optional: if optional {
                    Some(true)
                } else {
                    None
                },
            };
            class.associations.push(assoc);
            proof {
                assert(assocs_view(class.associations@) =~= assocs_view(s0).push(assoc.model()));
                assert(attr_part(*field) =~= Seq::<AttrModel>::empty());
                assert(attrs_view(a0) + attr_part(*field) =~= attrs_view(a0));
            }
        },
        Kind::Array(elem) => {
            let class_name = match &**elem {
                Kind::Record(targets) => Some(record_target(targets.as_slice())),
                _ => None,
            };
            let assoc = AssociationShape {
                kind: AssociationKind::HasMany,
                name: field.name.clone(),
                class_name,
                optional: None,
            };
            class.associations.push(assoc);
            proof {
                assert(assocs_view(class.associations@) =~= assocs_view(s0).push(assoc.model()));
                assert(attr_part(*field) =~= Seq::<AttrModel>::empty());
                assert(attrs_view(a0) + attr_part(*field) =~= attrs_view(a0));
            }
        },
        scalar => {
            let attr = AttributeShape {
                name: field.name.clone(),
                scalar_type: Some(scalar_surql_name(scalar).to_owned()),
                options: AttributeOptions {
                    required: if optional {
                        Some(false)
                    } else {
                        None
                    },
                },
            };
            class.attributes.push(attr);
            proof {
                assert(attrs_view(class.attributes@) =~= attrs_view(a0).push(attr.model()));
                assert(assoc_part(*field) =~= Seq::<AssocModel>::empty());
                assert(assocs_view(s0) + assoc_part(*field) =~= assocs_view(s0));
            }
        },
    }
}

/// Lower one table: a class of the same name, each field routed by
/// [`lower_field`] in order.
pub fn table_to_class(table: &TableDefinition) -> (c: ClassShape)
    ensures
        c.model() == class_of(*table),
{
    let mut class = ClassShape { name: table.name.clone(), attributes: Vec::new(), associations: Vec::new() };
    let ghost fs = table.fields@;
    let mut i: usize = 0;
    proof {
        assert(attrs_view(class.attributes@) =~= attrs_of(fs.take(0)));
        assert(assocs_view(class.associations@) =~= assocs_of(fs.take(0)));
    }
    while i < table.fields.len()
        invariant
            fs == table.fields@,
            i <= fs.len(),
            class.name@ == table.name@,
            class.model().attributes == attrs_of(fs.take(i as int)),
            class.model().associations == assocs_of(fs.take(i as int)),
        decreases fs.len() - i,
    {
        lower_field(&table.fields[i], &mut class);
        proof {
            assert(fs.take(i + 1).drop_last() =~= fs.take(i as int));
            assert(fs.take(i + 1).last() == fs[i as int]);
        }
        i += 1;
    }
    proof {
        assert(fs.take(fs.len() as int) =~= fs);
    }
    class
}

/// Lower a schema's tables onto classes, one per table in order. Functions,
/// events and indices have no slot in the class shape and are not carried.
pub fn schema_to_classes(schema: &Schema) -> (cs: Vec<ClassShape>)
    ensures
        cs@.len() == schema.tables@.len(),
        forall|i: int| 0 <= i < cs@.len() ==> #[trigger] cs@[i].model() == class_of(schema.tables@[i]),
{
    let mut out: Vec<ClassShape> = Vec::new();
    let mut i: usize = 0;
    while i < schema.tables.len()
        invariant
            i <= schema.tables@.len(),
            out@.len() == i,
            forall|j: int| 0 <= j < i ==> #[trigger] out@[j].model() == class_of(schema.tables@[j]),
        decreases schema.tables@.len() - i,
    {
        let c = table_to_class(&schema.tables[i]);
        out.push(c);
        i += 1;
    }
    out
}

// ── laws ─────────────────────────────────────────────────────────────────────

/// A scalar attribute carries its kind's own SurrealQL text: for every kind
/// that is not a record, an array or an option, the scalar name is the
/// kind's type text.
pub proof fn law_scalar_name_is_kind_text(k: Kind)
    requires
        !(k is Record),
        !(k is Array),
        !(k is Option),
    ensures
        scalar_name(k) == kind_sql(k),
{
}

/// A field whose type, after one `option<...>` layer, is a scalar lowers to
/// one attribute of the same name whose scalar type is that scalar's
/// SurrealQL text, required exactly when there was no `option<...>` layer;
/// it lowers to no association.
pub proof fn law_scalar_field_attribute(f: FieldDefinition)
    requires
        !(peeled(f.kind).0 is Record),
        !(peeled(f.kind).0 is Array),
        !(peeled(f.kind).0 is Option),
    ensures
        attr_part(f).len() == 1,
        attr_part(f)[0].name == f.name@,
        attr_part(f)[0].scalar_type == Some(kind_sql(peeled(f.kind).0)),
        attr_part(f)[0].required == (if f.kind is Option {
            Some(false)
        } else {
            None::<bool>
        }),
        assoc_part(f).len() == 0,
{
    law_scalar_name_is_kind_text(peeled(f.kind).0);
}

} // verus!
