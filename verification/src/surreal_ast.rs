//! Typed SurrealQL DDL AST: the structural projection Odoo's ontology lowers
//! into, and its rendering as SurrealQL text.
//!
//! | Odoo construct                       | SurrealQL DDL node            |
//! | ---                                  | ---                           |
//! | `class X(models.Model)`              | [`TableDefinition`]           |
//! | `fields.Char(required=True)`         | [`FieldDefinition`] `string`  |
//! | `fields.Many2one('res.partner')`     | [`FieldDefinition`] `record<...>` |
//! | `compute='_x', store=True`           | [`FieldDefinition::value`] + `READONLY` |
//! | `@api.depends('a','b')` (same row)   | recompute-on-write of the `VALUE` field |
//! | `@api.depends('rel.sub')` (cross row)| [`EventDefinition`] on the child table |
//! | `@api.constrains` / `_check_*`       | [`EventDefinition`] guard with `THROW` |
//! | `def action_post(self)`              | [`FunctionDefinition`]        |
//! | `_sql_constraints unique(...)`       | [`IndexDefinition`] `UNIQUE`  |
//!
//! This is an egress projection, not a round-trip: behavior (compute bodies,
//! constraint logic, actions) has no DDL home beyond these stubs.
//! [`ToSql`] renders every node.
use vstd::prelude::*;
use crate::strset::{append_joined, join, view_strs};
use crate::text::to_owned_string;

verus! {

/// Render a typed AST node as SurrealQL text.
pub trait ToSql {
    /// The node's SurrealQL text.
    spec fn sql(&self) -> Seq<char>;

    /// Append this node's SurrealQL form to `out`.
    fn fmt_sql(&self, out: &mut String)
        ensures
            final(out)@ == old(out)@ + self.sql(),
    ;

    /// This node as a standalone SurrealQL string.
    fn to_sql(&self) -> (s: String)
        ensures
            s@ == self.sql(),
    {
        let mut s = String::new();
        self.fmt_sql(&mut s);
        proof {
            assert(Seq::<char>::empty() + self.sql() =~= self.sql());
        }
        s
    }
}

/// A SurrealQL field-type expression, one variant per Odoo field family.
#[derive(Debug)]
pub enum Kind {
    /// `any`: an untyped slot.
    Any,
    /// `bool`: `fields.Boolean`.
    Bool,
    /// `int`: `fields.Integer`.
    Int,
    /// `float`: `fields.Float`.
    Float,
    /// `decimal`: `fields.Monetary`.
    Decimal,
    /// `string`: `fields.Char` / `fields.Text` / `fields.Selection`.
    String,
    /// `datetime`: `fields.Date` / `fields.Datetime`.
    Datetime,
    /// `record<a|b|c>`: `fields.Many2one` (one target today; several for
    /// polymorphic references).
    Record(Vec<String>),
    /// `array<inner>`: `fields.One2many` / `fields.Many2many`.
    Array(Box<Kind>),
    /// `option<inner>`: a field that is not `required`.
    Option(Box<Kind>),
}

/// The SurrealQL text of a type.
pub open spec fn kind_sql(k: Kind) -> Seq<char>
    decreases k,
{
    match k {
        Kind::Any => "any"@,
        Kind::Bool => "bool"@,
        Kind::Int => "int"@,
        Kind::Float => "float"@,
        Kind::Decimal => "decimal"@,
        Kind::String => "string"@,
        Kind::Datetime => "datetime"@,
        Kind::Record(targets) => "record<"@ + join(view_strs(targets@), "|"@) + ">"@,
        Kind::Array(inner) => "array<"@ + kind_sql(*inner) + ">"@,
        Kind::Option(inner) => "option<"@ + kind_sql(*inner) + ">"@,
    }
}

/// The abstract value of a type: a [`Kind`] with its record targets taken as
/// names.
pub enum KindModel {
    /// `any`.
    Any,
    /// `bool`.
    Bool,
    /// `int`.
    Int,
    /// `float`.
    Float,
    /// `decimal`.
    Decimal,
    /// `string`.
    String,
    /// `datetime`.
    Datetime,
    /// `record<...>` over these target tables, in order.
    Record(Seq<Seq<char>>),
    /// `array<inner>`.
    Array(Box<KindModel>),
    /// `option<inner>`.
    Option(Box<KindModel>),
}

/// The abstract value of `k`.
pub open spec fn kind_model(k: Kind) -> KindModel
    decreases k,
{
    match k {
        Kind::Any => KindModel::Any,
        Kind::Bool => KindModel::Bool,
        Kind::Int => KindModel::Int,
        Kind::Float => KindModel::Float,
        Kind::Decimal => KindModel::Decimal,
        Kind::String => KindModel::String,
        Kind::Datetime => KindModel::Datetime,
        Kind::Record(targets) => KindModel::Record(view_strs(targets@)),
        Kind::Array(inner) => KindModel::Array(Box::new(kind_model(*inner))),
        Kind::Option(inner) => KindModel::Option(Box::new(kind_model(*inner))),
    }
}

impl Kind {
    /// Wrap in `option<...>`; an `option<...>` stays as it is (no
    /// `option<option<T>>`).
    pub fn optional(self) -> (k: Kind)
        ensures
            k == (match self {
                Kind::Option(_) => self,
                other => Kind::Option(Box::new(other)),
            }),
    {
        match self {
            Kind::Option(inner) => Kind::Option(inner),
            other => Kind::Option(Box::new(other)),
        }
    }
}

impl ToSql for Kind {
    open spec fn sql(&self) -> Seq<char> {
        kind_sql(*self)
    }

    fn fmt_sql(&self, out: &mut String)
        decreases self,
    {
        match self {
            Kind::Any => out.append("any"),
            Kind::Bool => out.append("bool"),
            Kind::Int => out.append("int"),
            Kind::Float => out.append("float"),
            Kind::Decimal => out.append("decimal"),
            Kind::String => out.append("string"),
            Kind::Datetime => out.append("datetime"),
            Kind::Record(targets) => {
                out.append("record<");
                append_joined(out, targets.as_slice(), "|");
                out.append(">");
                proof {
                    assert(final(out)@ =~= old(out)@ + kind_sql(*self));
                }
            },
            Kind::Array(inner) => {
                out.append("array<");
                (**inner).fmt_sql(out);
                out.append(">");
                proof {
                    assert(final(out)@ =~= old(out)@ + kind_sql(*self));
                }
            },
            Kind::Option(inner) => {
                out.append("option<");
                (**inner).fmt_sql(out);
                out.append(">");
                proof {
                    assert(final(out)@ =~= old(out)@ + kind_sql(*self));
                }
            },
        }
    }
}

/// One `DEFINE FIELD ...`, with its reactive `VALUE`, its `ASSERT` guard and
/// the same-record dependency set (rendered as a `--` audit comment).
#[derive(Debug)]
pub struct FieldDefinition {
    /// Owning table (Odoo model, dots to underscores).
    pub table: String,
    /// Field name.
    pub name: String,
    /// Declared type.
    pub kind: Kind,
    /// `VALUE <expr>` for a computed field: the call of its `_compute_*`
    /// function.
    pub value: Option<String>,
    /// `ASSERT <expr>`: a field-level invariant.
    pub assert: Option<String>,
    /// `READONLY`: a stored computed field the user cannot set.
    pub readonly: bool,
    /// The same-record `@api.depends` set this field recomputes over.
    pub reactive_over: Vec<String>,
}

/// `" <kw> <v>"` for a present clause, nothing otherwise.
pub open spec fn clause(kw: Seq<char>, v: Option<String>) -> Seq<char> {
    match v {
        Some(x) => " "@ + kw + " "@ + x@,
        None => Seq::empty(),
    }
}

/// The SurrealQL text of a field definition.
pub open spec fn field_sql(f: FieldDefinition) -> Seq<char> {
    (if f.reactive_over@.len() > 0 {
        "-- reactive over: "@ + join(view_strs(f.reactive_over@), ", "@) + "\n"@
    } else {
        Seq::empty()
    }) + "DEFINE FIELD "@ + f.name@ + " ON "@ + f.table@ + " TYPE "@ + kind_sql(f.kind) + clause("VALUE"@, f.value)
        + clause("ASSERT"@, f.assert) + (if f.readonly {
        " READONLY"@
    } else {
        Seq::empty()
    }) + ";"@
}

impl FieldDefinition {
    /// A plain, nullable, untyped field (`option<any>`) on `table`.
    pub fn new(table: &str, name: &str) -> (f: FieldDefinition)
        ensures
            f.table@ == table@,
            f.name@ == name@,
            f.kind == Kind::Option(Box::new(Kind::Any)),
            f.value is None,
            f.assert is None,
            !f.readonly,
            f.reactive_over@.len() == 0,
    {
        FieldDefinition {
            table: to_owned_string(table),
            name: to_owned_string(name),
            kind: Kind::Any.optional(),
            value: None,
            assert: None,
            readonly: false,
            reactive_over: Vec::new(),
        }
    }
}

/// Append `" <kw> <v>"` for a present clause.
fn append_clause(out: &mut String, kw: &str, v: &Option<String>)
    ensures
        final(out)@ == old(out)@ + clause(kw@, *v),
{
    match v {
        Some(x) => {
            out.append(" ");
            out.append(kw);
            out.append(" ");
            out.append(x.as_str());
            proof {
                reveal_strlit(" ");
                assert(final(out)@ =~= old(out)@ + clause(kw@, *v));
            }
        },
        None => {
            proof {
                assert(old(out)@ + clause(kw@, *v) =~= old(out)@);
            }
        },
    }
}

impl ToSql for FieldDefinition {
    open spec fn sql(&self) -> Seq<char> {
        field_sql(*self)
    }

    fn fmt_sql(&self, out: &mut String) {
        let ghost start = out@;
        if self.reactive_over.len() > 0 {
            out.append("-- reactive over: ");
            append_joined(out, self.reactive_over.as_slice(), ", ");
            out.append("\n");
        }
        let ghost head = out@;
        proof {
            assert(head == start + (if self.reactive_over@.len() > 0 {
                "-- reactive over: "@ + join(view_strs(self.reactive_over@), ", "@) + "\n"@
            } else {
                Seq::empty()
            }));
        }
        out.append("DEFINE FIELD ");
        out.append(self.name.as_str());
        out.append(" ON ");
        out.append(self.table.as_str());
        out.append(" TYPE ");
        self.kind.fmt_sql(out);
        append_clause(out, "VALUE", &self.value);
        append_clause(out, "ASSERT", &self.assert);
        if self.readonly {
            out.append(" READONLY");
        }
        out.append(";");
        proof {
            assert(final(out)@ =~= start + field_sql(*self));
        }
    }
}

/// One `DEFINE INDEX ... UNIQUE`: an Odoo `_sql_constraints` unique tuple.
#[derive(Debug)]
pub struct IndexDefinition {
    /// Owning table.
    pub table: String,
    /// Index name.
    pub name: String,
    /// Columns covered, in order.
    pub fields: Vec<String>,
    /// Whether the index enforces uniqueness.
    pub unique: bool,
}

/// The SurrealQL text of an index definition.
pub open spec fn index_sql(i: IndexDefinition) -> Seq<char> {
    "DEFINE INDEX "@ + i.name@ + " ON "@ + i.table@ + " FIELDS "@ + join(view_strs(i.fields@), ", "@) + (if i.unique {
        " UNIQUE"@
    } else {
        Seq::empty()
    }) + ";"@
}

impl ToSql for IndexDefinition {
    open spec fn sql(&self) -> Seq<char> {
        index_sql(*self)
    }

    fn fmt_sql(&self, out: &mut String) {
        out.append("DEFINE INDEX ");
        out.append(self.name.as_str());
        out.append(" ON ");
        out.append(self.table.as_str());
        out.append(" FIELDS ");
        append_joined(out, self.fields.as_slice(), ", ");
        if self.unique {
            out.append(" UNIQUE");
        }
        out.append(";");
        proof {
            assert(final(out)@ =~= old(out)@ + index_sql(*self));
        }
    }
}

/// One `DEFINE EVENT ...`: a cross-record `@api.depends` recompute of the
/// parent on child write, or an `@api.constrains` guard that `THROW`s.
#[derive(Debug)]
pub struct EventDefinition {
    /// Event name.
    pub name: String,
    /// Table the event fires on.
    pub table: String,
    /// `WHEN <cond>` clause.
    pub when: String,
    /// `THEN { <body> }` block.
    pub then_block: String,
    /// Provenance note, rendered as a leading `--` comment.
    pub note: Option<String>,
}

/// The SurrealQL text of an event definition.
pub open spec fn event_sql(e: EventDefinition) -> Seq<char> {
    (match e.note {
        Some(n) => "-- "@ + n@ + "\n"@,
        None => Seq::empty(),
    }) + "DEFINE EVENT "@ + e.name@ + " ON "@ + e.table@ + " WHEN "@ + e.when@ + " THEN { "@ + e.then_block@ + " };"@
}

impl ToSql for EventDefinition {
    open spec fn sql(&self) -> Seq<char> {
        event_sql(*self)
    }

    fn fmt_sql(&self, out: &mut String) {
        if let Some(n) = &self.note {
            out.append("-- ");
            out.append(n.as_str());
            out.append("\n");
        }
        out.append("DEFINE EVENT ");
        out.append(self.name.as_str());
        out.append(" ON ");
        out.append(self.table.as_str());
        out.append(" WHEN ");
        out.append(self.when.as_str());
        out.append(" THEN { ");
        out.append(self.then_block.as_str());
        out.append(" };");
        proof {
            assert(final(out)@ =~= old(out)@ + event_sql(*self));
        }
    }
}

/// One `DEFINE FUNCTION fn::<model>::<method>(...)`: a typed stub whose
/// body ports from Python incrementally.
#[derive(Debug)]
pub struct FunctionDefinition {
    /// Owning model.
    pub model: String,
    /// Method name (`_compute_amount`, `action_post`, `_check_dates`).
    pub method: String,
    /// Typed parameters (at least `$this: record<model>`).
    pub params: Vec<(String, Kind)>,
    /// Body source.
    pub body: String,
}

/// `$name: type` for each parameter, joined with `, `.
pub open spec fn params_sql(ps: Seq<(String, Kind)>) -> Seq<char>
    decreases ps.len(),
{
    if ps.len() == 0 {
        Seq::empty()
    } else if ps.len() == 1 {
        "$"@ + ps[0].0@ + ": "@ + kind_sql(ps[0].1)
    } else {
        params_sql(ps.drop_last()) + ", "@ + "$"@ + ps.last().0@ + ": "@ + kind_sql(ps.last().1)
    }
}

/// The SurrealQL text of a function definition.
pub open spec fn function_sql(f: FunctionDefinition) -> Seq<char> {
    "DEFINE FUNCTION fn::"@ + f.model@ + "::"@ + f.method@ + "("@ + params_sql(f.params@) + ") { "@ + f.body@ + " };"@
}

/// The body a stub carries until its logic is written in SurrealQL.
pub open spec fn deferred_body() -> Seq<char> {
    "/* deferred: port from Python */ RETURN NONE;"@
}

impl FunctionDefinition {
    /// A deferred-body stub for `model::method` taking `$this: record<model>`.
    pub fn stub(model: &str, method: &str) -> (f: FunctionDefinition)
        ensures
            f.model@ == model@,
            f.method@ == method@,
            f.params@.len() == 1,
            f.params@[0].0@ == "this"@,
            f.params@[0].1 matches Kind::Record(ts) && view_strs(ts@) == seq![model@],
            f.body@ == deferred_body(),
    {
        let mut targets: Vec<String> = Vec::new();
        targets.push(to_owned_string(model));
        proof {
            assert(view_strs(targets@) =~= seq![model@]);
        }
        let mut params: Vec<(String, Kind)> = Vec::new();
        params.push((String::from_str("this"), Kind::Record(targets)));
        FunctionDefinition {
            model: to_owned_string(model),
            method: to_owned_string(method),
            params,
            body: String::from_str("/* deferred: port from Python */ RETURN NONE;"),
        }
    }
}

impl ToSql for FunctionDefinition {
    open spec fn sql(&self) -> Seq<char> {
        function_sql(*self)
    }

    fn fmt_sql(&self, out: &mut String) {
        let ghost start = out@;
        out.append("DEFINE FUNCTION fn::");
        out.append(self.model.as_str());
        out.append("::");
        out.append(self.method.as_str());
        out.append("(");
        let ghost head = out@;
        let ghost ps = self.params@;
        let mut i: usize = 0;
        proof {
            assert(ps.take(0) =~= Seq::<(String, Kind)>::empty());
            assert(out@ =~= head + params_sql(ps.take(0)));
        }
        while i < self.params.len()
            invariant
                ps == self.params@,
                i <= ps.len(),
                out@ == head + params_sql(ps.take(i as int)),
            decreases ps.len() - i,
        {
            let ghost t1 = ps.take(i + 1);
            proof {
                assert(t1.drop_last() =~= ps.take(i as int));
                assert(t1.last() == ps[i as int]);
            }
            if i != 0 {
                out.append(", ");
            }
            out.append("$");
            out.append(self.params[i].0.as_str());
            out.append(": ");
            self.params[i].1.fmt_sql(out);
            proof {
                assert(out@ =~= head + params_sql(t1));
            }
            i += 1;
        }
        proof {
            assert(ps.take(ps.len() as int) =~= ps);
        }
        out.append(") { ");
        out.append(self.body.as_str());
        out.append(" };");
        proof {
            assert(final(out)@ =~= start + function_sql(*self));
        }
    }
}

/// One `DEFINE TABLE ...` with its `DEFINE FIELD` / `DEFINE INDEX` children.
#[derive(Debug)]
pub struct TableDefinition {
    /// Table name (Odoo model, dots to underscores).
    pub name: String,
    /// `SCHEMAFULL` rather than `SCHEMALESS`.
    pub schemafull: bool,
    /// Field children, in order.
    pub fields: Vec<FieldDefinition>,
    /// Index children, in order.
    pub indices: Vec<IndexDefinition>,
}

/// Each field on a line of its own, after a newline.
pub open spec fn fields_sql(fs: Seq<FieldDefinition>) -> Seq<char>
    decreases fs.len(),
{
    if fs.len() == 0 {
        Seq::empty()
    } else {
        fields_sql(fs.drop_last()) + "\n"@ + field_sql(fs.last())
    }
}

/// Each index on a line of its own, after a newline.
pub open spec fn indices_sql(is: Seq<IndexDefinition>) -> Seq<char>
    decreases is.len(),
{
    if is.len() == 0 {
        Seq::empty()
    } else {
        indices_sql(is.drop_last()) + "\n"@ + index_sql(is.last())
    }
}

/// The SurrealQL text of a table definition.
pub open spec fn table_sql(t: TableDefinition) -> Seq<char> {
    "DEFINE TABLE "@ + t.name@ + " "@ + (if t.schemafull {
        "SCHEMAFULL"@
    } else {
        "SCHEMALESS"@
    }) + " TYPE NORMAL;"@ + fields_sql(t.fields@) + indices_sql(t.indices@)
}

impl TableDefinition {
    /// A new `SCHEMAFULL TYPE NORMAL` table with no children.
    pub fn new(name: &str) -> (t: TableDefinition)
        ensures
            t.name@ == name@,
            t.schemafull,
            t.fields@.len() == 0,
            t.indices@.len() == 0,
    {
        TableDefinition { name: to_owned_string(name), schemafull: true, fields: Vec::new(), indices: Vec::new() }
    }
}

impl ToSql for TableDefinition {
    open spec fn sql(&self) -> Seq<char> {
        table_sql(*self)
    }

    fn fmt_sql(&self, out: &mut String) {
        let ghost start = out@;
        out.append("DEFINE TABLE ");
        out.append(self.name.as_str());
        out.append(" ");
        if self.schemafull {
            out.append("SCHEMAFULL");
        } else {
            out.append("SCHEMALESS");
        }
        out.append(" TYPE NORMAL;");
        let ghost head = out@;
        let ghost fs = self.fields@;
        let mut i: usize = 0;
        proof {
            assert(out@ =~= head + fields_sql(fs.take(0)));
        }
        while i < self.fields.len()
            invariant
                fs == self.fields@,
                i <= fs.len(),
                out@ == head + fields_sql(fs.take(i as int)),
            decreases fs.len() - i,
        {
            proof {
                assert(fs.take(i + 1).drop_last() =~= fs.take(i as int));
            }
            out.append("\n");
            self.fields[i].fmt_sql(out);
            proof {
                assert(out@ =~= head + fields_sql(fs.take(i + 1)));
            }
            i += 1;
        }
        proof {
            assert(fs.take(fs.len() as int) =~= fs);
        }
        let ghost mid = out@;
        let ghost is = self.indices@;
        let mut j: usize = 0;
        proof {
            assert(out@ =~= mid + indices_sql(is.take(0)));
        }
        while j < self.indices.len()
            invariant
                is == self.indices@,
                j <= is.len(),
                out@ == mid + indices_sql(is.take(j as int)),
            decreases is.len() - j,
        {
            proof {
                assert(is.take(j + 1).drop_last() =~= is.take(j as int));
            }
            out.append("\n");
            self.indices[j].fmt_sql(out);
            proof {
                assert(out@ =~= mid + indices_sql(is.take(j + 1)));
            }
            j += 1;
        }
        proof {
            assert(is.take(is.len() as int) =~= is);
            assert(final(out)@ =~= start + table_sql(*self));
        }
    }
}

/// A full schema: tables with their fields and indices, the function
/// catalogue, and the reactive and guard events.
#[derive(Debug)]
pub struct Schema {
    /// Table definitions.
    pub tables: Vec<TableDefinition>,
    /// `DEFINE FUNCTION` catalogue.
    pub functions: Vec<FunctionDefinition>,
    /// `DEFINE EVENT` set.
    pub events: Vec<EventDefinition>,
}

/// The tables, separated by blank lines, each followed by a newline.
pub open spec fn tables_sql(ts: Seq<TableDefinition>) -> Seq<char>
    decreases ts.len(),
{
    if ts.len() == 0 {
        Seq::empty()
    } else {
        tables_sql(ts.drop_last()) + (if ts.len() > 1 {
            "\n"@
        } else {
            Seq::empty()
        }) + table_sql(ts.last()) + "\n"@
    }
}

/// Each function followed by a newline.
pub open spec fn functions_sql(fs: Seq<FunctionDefinition>) -> Seq<char>
    decreases fs.len(),
{
    if fs.len() == 0 {
        Seq::empty()
    } else {
        functions_sql(fs.drop_last()) + function_sql(fs.last()) + "\n"@
    }
}

/// Each event followed by a newline.
pub open spec fn events_sql(es: Seq<EventDefinition>) -> Seq<char>
    decreases es.len(),
{
    if es.len() == 0 {
        Seq::empty()
    } else {
        events_sql(es.drop_last()) + event_sql(es.last()) + "\n"@
    }
}

/// The header of the function section.
pub open spec fn functions_header() -> Seq<char> {
    "\n-- ── functions (bodies deferred) ──\n"@
}

/// The header of the event section.
pub open spec fn events_header() -> Seq<char> {
    "\n-- ── reactive + guard events ──\n"@
}

/// The SurrealQL text of a schema.
pub open spec fn schema_sql(s: Schema) -> Seq<char> {
    tables_sql(s.tables@) + (if s.functions@.len() > 0 {
        functions_header() + functions_sql(s.functions@)
    } else {
        Seq::empty()
    }) + (if s.events@.len() > 0 {
        events_header() + events_sql(s.events@)
    } else {
        Seq::empty()
    })
}

impl Schema {
    /// A schema with no tables, functions or events.
    pub fn new() -> (s: Schema)
        ensures
            s.tables@.len() == 0,
            s.functions@.len() == 0,
            s.events@.len() == 0,
    {
        Schema { tables: Vec::new(), functions: Vec::new(), events: Vec::new() }
    }
}

impl ToSql for Schema {
    open spec fn sql(&self) -> Seq<char> {
        schema_sql(*self)
    }

    fn fmt_sql(&self, out: &mut String) {
        let ghost start = out@;
        let ghost ts = self.tables@;
        let mut i: usize = 0;
        proof {
            assert(out@ =~= start + tables_sql(ts.take(0)));
        }
        while i < self.tables.len()
            invariant
                ts == self.tables@,
                i <= ts.len(),
                out@ == start + tables_sql(ts.take(i as int)),
            decreases ts.len() - i,
        {
            proof {
                assert(ts.take(i + 1).drop_last() =~= ts.take(i as int));
            }
            if i != 0 {
                out.append("\n");
            }
            self.tables[i].fmt_sql(out);
            out.append("\n");
            proof {
                assert(out@ =~= start + tables_sql(ts.take(i + 1)));
            }
            i += 1;
        }
        proof {
            assert(ts.take(ts.len() as int) =~= ts);
        }
        let ghost after_tables = out@;
        if self.functions.len() > 0 {
            out.append("\n-- ── functions (bodies deferred) ──\n");
            let ghost head = out@;
            let ghost fs = self.functions@;
            let mut k: usize = 0;
            proof {
                assert(out@ =~= head + functions_sql(fs.take(0)));
            }
            while k < self.functions.len()
                invariant
                    fs == self.functions@,
                    k <= fs.len(),
                    out@ == head + functions_sql(fs.take(k as int)),
                decreases fs.len() - k,
            {
                proof {
                    assert(fs.take(k + 1).drop_last() =~= fs.take(k as int));
                }
                self.functions[k].fmt_sql(out);
                out.append("\n");
                proof {
                    assert(out@ =~= head + functions_sql(fs.take(k + 1)));
                }
                k += 1;
            }
            proof {
                assert(fs.take(fs.len() as int) =~= fs);
            }
        }
        let ghost after_functions = out@;
        proof {
            assert(after_functions == after_tables + (if self.functions@.len() > 0 {
                functions_header() + functions_sql(self.functions@)
            } else {
                Seq::empty()
            }));
        }
        if self.events.len() > 0 {
            out.append("\n-- ── reactive + guard events ──\n");
            let ghost head = out@;
            let ghost es = self.events@;
            let mut k: usize = 0;
            proof {
                assert(out@ =~= head + events_sql(es.take(0)));
            }
            while k < self.events.len()
                invariant
                    es == self.events@,
                    k <= es.len(),
                    out@ == head + events_sql(es.take(k as int)),
                decreases es.len() - k,
            {
                proof {
                    assert(es.take(k + 1).drop_last() =~= es.take(k as int));
                }
                self.events[k].fmt_sql(out);
                out.append("\n");
                proof {
                    assert(out@ =~= head + events_sql(es.take(k + 1)));
                }
                k += 1;
            }
            proof {
                assert(es.take(es.len() as int) =~= es);
            }
        }
        proof {
            assert(final(out)@ =~= start + schema_sql(*self));
        }
    }
}

} // verus!
