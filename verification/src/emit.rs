//! The corpus → schema projection: the triple corpus as a typed [`Schema`]
//! of SurrealDB constructs.
//!
//! Faithful from the triples alone: which table exists, which field is
//! computed by which function, the same-record reactive dependency set, which
//! methods are guards, which dependencies cross records, and which child
//! table a cross-record event targets when the child is in the focus set.
//! Deferred (stubbed): compute and guard bodies, scalar field types, and
//! child tables outside the focus set (audited inline).
//!
//! Within a focus set, relation targets resolve by name through the Odoo
//! conventions, first hit wins: the stem itself, `res_<stem>`, then
//! `<parent>_<stem>`; a miss falls back to the bare stem.
use vstd::prelude::*;
use crate::strset::{join, join_strs, lemma_sorted_no_dup, lemma_sorted_unique, sorted, sorted_insert, sorted_of, view_strs};
use crate::surreal_ast::{
    deferred_body, event_sql, kind_model, EventDefinition, FieldDefinition, FunctionDefinition, Kind, KindModel,
    Schema, TableDefinition,
};
use crate::inheritance::view_strrefs;
use crate::view_mask::pairs_view;
use crate::smap::{smap_get, smap_insert, smap_view, smap_wf, SEntry};
use crate::strset::{contains_str, contains_strref};
use crate::text::{
    chars_of, ends_with, has_prefix, has_suffix, lemma_less_asymmetric, lemma_less_irreflexive, lemma_less_total,
    lemma_less_transitive, seq_less, split_once, split_once_char, starts_with, str_eq, str_less,
    substring, to_owned_string,
};
use crate::triple::{member_of, model_of, spec_member_of, spec_model_of, spec_strip_ns, strip_ns, Triple};

verus! {

// ── naming conventions ───────────────────────────────────────────────────────

/// `name` without a trailing `_ids`, else without a trailing `_id`, else
/// itself.
pub open spec fn relation_stem(name: Seq<char>) -> Seq<char> {
    if has_suffix(name, "_ids"@) {
        name.subrange(0, name.len() - 4)
    } else if has_suffix(name, "_id"@) {
        name.subrange(0, name.len() - 3)
    } else {
        name
    }
}

/// The focus model a relation name resolves to: the stem itself,
/// `res_<stem>`, then `<parent>_<stem>`; `None` when none is in focus.
pub open spec fn resolve_target_spec(name: Seq<char>, parent: Seq<char>, focus: Seq<Seq<char>>) -> Option<Seq<char>> {
    let stem = relation_stem(name);
    if focus.contains(stem) {
        Some(stem)
    } else if focus.contains("res_"@ + stem) {
        Some("res_"@ + stem)
    } else if focus.contains(parent + "_"@ + stem) {
        Some(parent + "_"@ + stem)
    } else {
        None
    }
}

/// The resolved target, or the bare stem.
pub open spec fn target_or_stem(stem: Seq<char>, parent: Seq<char>, focus: Seq<Seq<char>>) -> Seq<char> {
    match resolve_target_spec(stem, parent, focus) {
        Some(t) => t,
        None => stem,
    }
}

/// The type a field name implies: `*_ids` is `option<array<record<target>>>`,
/// `*_id` is `option<record<target>>`, anything else `option<any>`.
pub open spec fn inferred_kind(field: Seq<char>, parent: Seq<char>, focus: Seq<Seq<char>>) -> KindModel {
    if has_suffix(field, "_ids"@) {
        KindModel::Option(
            Box::new(
                KindModel::Array(
                    Box::new(
                        KindModel::Record(seq![target_or_stem(field.subrange(0, field.len() - 4), parent, focus)]),
                    ),
                ),
            ),
        )
    } else if has_suffix(field, "_id"@) {
        KindModel::Option(
            Box::new(KindModel::Record(seq![target_or_stem(field.subrange(0, field.len() - 3), parent, focus)])),
        )
    } else {
        KindModel::Option(Box::new(KindModel::Any))
    }
}

/// The conventional back-reference column on a child table pointing at
/// `parent`: the part after the first `_` (`account_move` gives `move`),
/// then `_id`.
pub open spec fn back_ref_spec(parent: Seq<char>) -> Seq<char> {
    match split_once(parent, '_') {
        Some((_, rest)) => rest + "_id"@,
        None => parent + "_id"@,
    }
}

/// An `@api.constrains` guard name: `_check_*` or `_constrain*`.
pub open spec fn is_guard_spec(method: Seq<char>) -> bool {
    has_prefix(method, "_check_"@) || has_prefix(method, "_constrain"@)
}

/// `s` without its leading `_` characters.
pub open spec fn trim_underscores(s: Seq<char>) -> Seq<char>
    decreases s.len(),
{
    if s.len() > 0 && s[0] == '_' {
        trim_underscores(s.drop_first())
    } else {
        s
    }
}

// ── the structural pass ──────────────────────────────────────────────────────

/// The focus filter: every IRI when there is no focus set, else those whose
/// model is in it.
pub open spec fn in_focus(focus: Option<Seq<Seq<char>>>, iri: Seq<char>) -> bool {
    match focus {
        None => true,
        Some(f) => f.contains(spec_model_of(iri)),
    }
}

/// The focus models, empty without a focus set.
pub open spec fn focus_models(focus: Option<Seq<Seq<char>>>) -> Seq<Seq<char>> {
    match focus {
        None => Seq::empty(),
        Some(f) => f,
    }
}

/// The method IRI that materialises `field`: the object of the last
/// `emitted_by` triple whose subject is `field`.
pub open spec fn computer(ts: Seq<Triple>, field: Seq<char>) -> Option<Seq<char>>
    decreases ts.len(),
{
    if ts.len() == 0 {
        None
    } else if ts.last().p@ == "emitted_by"@ && ts.last().s@ == field {
        Some(ts.last().o@)
    } else {
        computer(ts.drop_last(), field)
    }
}

/// The abstract field definition.
pub struct FieldModel {
    /// Field name.
    pub name: Seq<char>,
    /// Its type.
    pub kind: KindModel,
    /// Its `VALUE` expression.
    pub value: Option<Seq<char>>,
    /// Whether it is `READONLY`.
    pub readonly: bool,
    /// Its same-record dependency set.
    pub reactive_over: Seq<Seq<char>>,
}

/// The field a property triple on `model.field` lowers to, before its
/// dependencies are wired: typed by name, and computed (`VALUE` +
/// `READONLY`) when some method emits it.
pub open spec fn property_field(
    ts: Seq<Triple>,
    focus: Option<Seq<Seq<char>>>,
    subject: Seq<char>,
    model: Seq<char>,
    field: Seq<char>,
) -> FieldModel {
    let value = match computer(ts, subject) {
        Some(c) => match spec_member_of(c) {
            Some(method) => Some("fn::"@ + model + "::"@ + method + "($this)"@),
            None => None,
        },
        None => None,
    };
    FieldModel {
        name: field,
        kind: inferred_kind(field, model, focus_models(focus)),
        value,
        readonly: value is Some,
        reactive_over: Seq::empty(),
    }
}

/// The structural state: tables with their fields, and function stubs in
/// emission order.
pub struct Structure {
    /// Table name → fields in emission order.
    pub tables: Map<Seq<char>, Seq<FieldModel>>,
    /// `(model, method)` of each function stub, in emission order.
    pub functions: Seq<(Seq<char>, Seq<char>)>,
}

/// The table `model`, created empty if missing.
pub open spec fn ensure_table(tables: Map<Seq<char>, Seq<FieldModel>>, model: Seq<char>) -> Map<Seq<char>, Seq<FieldModel>> {
    if tables.dom().contains(model) {
        tables
    } else {
        tables.insert(model, Seq::empty())
    }
}

/// One triple of the structural pass over `ts`.
pub open spec fn structure_step(ts: Seq<Triple>, focus: Option<Seq<Seq<char>>>, st: Structure, t: Triple) -> Structure {
    if t.p@ == "rdf:type"@ && in_focus(focus, t.s@) {
        let model = spec_model_of(t.s@);
        if t.o@ == "ogit:ObjectType"@ {
            Structure { tables: ensure_table(st.tables, model), functions: st.functions }
        } else if t.o@ == "ogit:Function"@ {
            match spec_member_of(t.s@) {
                Some(method) => Structure { tables: st.tables, functions: st.functions.push((model, method)) },
                None => st,
            }
        } else if t.o@ == "ogit:Property"@ {
            match spec_member_of(t.s@) {
                Some(field) => {
                    let tb = ensure_table(st.tables, model);
                    Structure {
                        tables: tb.insert(model, tb[model].push(property_field(ts, focus, t.s@, model, field))),
                        functions: st.functions,
                    }
                },
                None => st,
            }
        } else {
            st
        }
    } else {
        st
    }
}

/// The structural pass over the first `k` triples.
pub open spec fn structure(ts: Seq<Triple>, focus: Option<Seq<Seq<char>>>, k: int) -> Structure
    decreases k,
{
    if k <= 0 {
        Structure { tables: Map::empty(), functions: Seq::empty() }
    } else {
        structure_step(ts, focus, structure(ts, focus, k - 1), ts[k - 1])
    }
}

// ── the dependency pass ──────────────────────────────────────────────────────

/// `(parent field, dependency)` of a `depends_on` triple in focus, both
/// members present.
pub open spec fn dep_pair(focus: Option<Seq<Seq<char>>>, t: Triple) -> Option<(Seq<char>, Seq<char>)> {
    if t.p@ == "depends_on"@ && in_focus(focus, t.s@) {
        match (spec_member_of(t.s@), spec_member_of(t.o@)) {
            (Some(pf), Some(dep)) => Some((pf, dep)),
            _ => None,
        }
    } else {
        None
    }
}

/// The first field of `fs` named `name`.
pub open spec fn field_index(fs: Seq<FieldModel>, name: Seq<char>) -> Option<int>
    decreases fs.len(),
{
    if fs.len() == 0 {
        None
    } else {
        match field_index(fs.drop_last(), name) {
            Some(i) => Some(i),
            None => if fs.last().name == name {
                Some(fs.len() - 1)
            } else {
                None
            },
        }
    }
}

/// `dep` added to the reactive set of the first field named `pf` of
/// `model`'s table, when there is one and `dep` is new to it.
pub open spec fn attach_dep(tables: Map<Seq<char>, Seq<FieldModel>>, model: Seq<char>, pf: Seq<char>, dep: Seq<char>) -> Map<
    Seq<char>,
    Seq<FieldModel>,
> {
    if tables.dom().contains(model) {
        match field_index(tables[model], pf) {
            Some(j) => {
                let f = tables[model][j];
                if f.reactive_over.contains(dep) {
                    tables
                } else {
                    tables.insert(
                        model,
                        tables[model].update(j, FieldModel { reactive_over: f.reactive_over.push(dep), ..f }),
                    )
                }
            },
            None => tables,
        }
    } else {
        tables
    }
}

/// The dependency state: the wired tables, and the cross-record
/// dependencies grouped by `(model, relation)` as `(leaf, parent field)`.
pub struct Wiring {
    /// Tables with their reactive sets wired.
    pub tables: Map<Seq<char>, Seq<FieldModel>>,
    /// `(model, relation)` → `(leaf, parent field)` in corpus order.
    pub cross: Map<(Seq<char>, Seq<char>), Seq<(Seq<char>, Seq<char>)>>,
}

/// One triple of the dependency pass.
pub open spec fn wiring_step(focus: Option<Seq<Seq<char>>>, w: Wiring, t: Triple) -> Wiring {
    match dep_pair(focus, t) {
        Some((pf, dep)) => {
            let model = spec_model_of(t.s@);
            match split_once(dep, '.') {
                Some((rel, leaf)) => {
                    let key = (model, rel);
                    let prev = if w.cross.dom().contains(key) {
                        w.cross[key]
                    } else {
                        Seq::empty()
                    };
                    Wiring { tables: w.tables, cross: w.cross.insert(key, prev.push((leaf, pf))) }
                },
                None => Wiring { tables: attach_dep(w.tables, model, pf, dep), cross: w.cross },
            }
        },
        None => w,
    }
}

/// The dependency pass over the first `k` triples, starting from the
/// structural tables.
pub open spec fn wiring(ts: Seq<Triple>, focus: Option<Seq<Seq<char>>>, k: int) -> Wiring
    decreases k,
{
    if k <= 0 {
        Wiring { tables: structure(ts, focus, ts.len() as int).tables, cross: Map::empty() }
    } else {
        wiring_step(focus, wiring(ts, focus, k - 1), ts[k - 1])
    }
}

// ── events ───────────────────────────────────────────────────────────────────

/// The abstract event definition.
pub struct EventModel {
    /// Event name.
    pub name: Seq<char>,
    /// Table it fires on.
    pub table: Seq<char>,
    /// `WHEN` clause.
    pub when: Seq<char>,
    /// `THEN` block.
    pub then_block: Seq<char>,
    /// Provenance note.
    pub note: Option<Seq<char>>,
}

/// `(a, b)` precedes `(c, d)`: by the first component, then the second.
pub open spec fn pair_less(x: (Seq<char>, Seq<char>), y: (Seq<char>, Seq<char>)) -> bool {
    seq_less(x.0, y.0) || (x.0 == y.0 && seq_less(x.1, y.1))
}

/// Strictly increasing pairs.
pub open spec fn pairs_sorted(s: Seq<(Seq<char>, Seq<char>)>) -> bool {
    forall|i: int, j: int| 0 <= i < j < s.len() ==> pair_less(s[i], s[j])
}

/// `$before.l != $after.l` for each leaf, joined with ` OR `.
pub open spec fn leaf_clause(leaves: Seq<Seq<char>>) -> Seq<char> {
    join(leaves.map_values(|l: Seq<char>| "$before."@ + l + " != $after."@ + l), " OR "@)
}

/// `p = fn::<model>::_recompute_p($parent)` for each parent field, joined
/// with `, `.
pub open spec fn recompute_clause(model: Seq<char>, parents: Seq<Seq<char>>) -> Seq<char> {
    join(parents.map_values(|p: Seq<char>| p + " = fn::"@ + model + "::_recompute_"@ + p + "($parent)"@), ", "@)
}

/// The event recomputing `model`'s dependent fields when the `rel` child's
/// leaves change. `leaves` and `parents` are ascending and duplicate-free.
pub open spec fn cross_event(
    model: Seq<char>,
    rel: Seq<char>,
    leaves: Seq<Seq<char>>,
    parents: Seq<Seq<char>>,
    focus: Seq<Seq<char>>,
) -> EventModel {
    let resolved = resolve_target_spec(rel, model, focus);
    let back_ref = back_ref_spec(model);
    let recompute = recompute_clause(model, parents);
    let plist = join(parents, ", "@);
    EventModel {
        name: "recompute_"@ + model + "_via_"@ + rel,
        table: match resolved {
            Some(t) => t,
            None => model + "__"@ + rel,
        },
        when: "$event = \"UPDATE\" AND ("@ + leaf_clause(leaves) + ")"@,
        then_block: match resolved {
            Some(_) => "LET $parent = $after."@ + back_ref + "; UPDATE $parent SET "@ + recompute,
            None => "/* TODO: resolve child→parent back-ref for "@ + model + "."@ + rel + " */ UPDATE $parent SET "@
                + recompute,
        },
        note: Some(
            match resolved {
                Some(child) => "cross-record @api.depends: "@ + model + "."@ + rel + ".* (child="@ + child
                    + ", back-ref="@ + back_ref + ") → recompute ["@ + plist + "]"@,
                None => "cross-record @api.depends: "@ + model + "."@ + rel
                    + ".* (child UNRESOLVED — not in focus set) → recompute ["@ + plist + "]"@,
            },
        ),
    }
}

/// The guard event of a `raises` triple in focus on a guard method, if any.
pub open spec fn guard_event(focus: Option<Seq<Seq<char>>>, t: Triple) -> Option<EventModel> {
    if t.p@ == "raises"@ && in_focus(focus, t.s@) {
        match spec_member_of(t.s@) {
            Some(method) => if is_guard_spec(method) {
                let model = spec_model_of(t.s@);
                let exc = spec_strip_ns(t.o@);
                Some(
                    EventModel {
                        name: trim_underscores(method),
                        table: model,
                        when: "$event IN [\"CREATE\", \"UPDATE\"]"@,
                        then_block: "IF !fn::"@ + model + "::"@ + method + "($after) { THROW \""@ + exc + ": "@ + method
                            + " failed\" }"@,
                        note: Some("@api.constrains guard → "@ + exc),
                    },
                )
            } else {
                None
            },
            None => None,
        }
    } else {
        None
    }
}

/// The guard events of the first `k` triples, in corpus order.
pub open spec fn guard_events(ts: Seq<Triple>, focus: Option<Seq<Seq<char>>>, k: int) -> Seq<EventModel>
    decreases k,
{
    if k <= 0 {
        Seq::empty()
    } else {
        guard_events(ts, focus, k - 1) + match guard_event(focus, ts[k - 1]) {
            Some(e) => seq![e],
            None => Seq::empty(),
        }
    }
}

/// `(table, name)` of `a` precedes or equals that of `b`... strictly
/// precedes.
pub open spec fn event_before(a: EventModel, b: EventModel) -> bool {
    pair_less((a.table, a.name), (b.table, b.name))
}

/// `x` inserted into `s` after every event not ordered after it.
pub open spec fn insert_event(s: Seq<EventModel>, x: EventModel) -> Seq<EventModel>
    decreases s.len(),
{
    if s.len() > 0 && event_before(x, s.last()) {
        insert_event(s.drop_last(), x).push(s.last())
    } else {
        s.push(x)
    }
}

/// The stable sort of `s` by `(table, name)`.
pub open spec fn sort_events(s: Seq<EventModel>) -> Seq<EventModel>
    decreases s.len(),
{
    if s.len() == 0 {
        s
    } else {
        insert_event(sort_events(s.drop_last()), s.last())
    }
}

// ── naming conventions, executable ───────────────────────────────────────────

/// [`relation_stem`].
fn stem_of(name: &str) -> (r: &str)
    ensures
        r@ == relation_stem(name@),
{
    if ends_with(name, "_ids") {
        proof {
            reveal_strlit("_ids");
        }
        substring(name, 0, name.unicode_len() - 4)
    } else if ends_with(name, "_id") {
        proof {
            reveal_strlit("_id");
        }
        substring(name, 0, name.unicode_len() - 3)
    } else {
        name
    }
}

/// Whether `x` is among `focus`.
fn in_set(focus: &[String], x: &str) -> (b: bool)
    ensures
        b == view_strs(focus@).contains(x@),
{
    contains_str(focus, x)
}

/// [`resolve_target_spec`].
fn resolve_target(name: &str, parent: &str, focus: &[String]) -> (r: Option<String>)
    ensures
        match r {
            Some(t) => resolve_target_spec(name@, parent@, view_strs(focus@)) == Some(t@),
            None => resolve_target_spec(name@, parent@, view_strs(focus@)) is None,
        },
{
    let stem = stem_of(name);
    if in_set(focus, stem) {
        return Some(to_owned_string(stem));
    }
    let mut res = String::from_str("res_");
    res.append(stem);
    if in_set(focus, res.as_str()) {
        return Some(res);
    }
    let mut par = to_owned_string(parent);
    par.append("_");
    par.append(stem);
    if in_set(focus, par.as_str()) {
        return Some(par);
    }
    None
}

/// [`target_or_stem`].
fn target_or(stem: &str, parent: &str, focus: &[String]) -> (r: String)
    ensures
        r@ == target_or_stem(stem@, parent@, view_strs(focus@)),
{
    match resolve_target(stem, parent, focus) {
        Some(t) => t,
        None => to_owned_string(stem),
    }
}

/// The type a field name implies ([`inferred_kind`]).
fn infer_kind(field: &str, parent: &str, focus: &[String]) -> (k: Kind)
    ensures
        kind_model(k) == inferred_kind(field@, parent@, view_strs(focus@)),
{
    if ends_with(field, "_ids") {
        proof {
            reveal_strlit("_ids");
        }
        let stem = substring(field, 0, field.unicode_len() - 4);
        let mut targets: Vec<String> = Vec::new();
        targets.push(target_or(stem, parent, focus));
        let k = Kind::Option(Box::new(Kind::Array(Box::new(Kind::Record(targets)))));
        proof {
            assert(view_strs(targets@) =~= seq![targets@[0]@]);
            reveal_with_fuel(kind_model, 4);
        }
        k
    } else if ends_with(field, "_id") {
        proof {
            reveal_strlit("_ids");
            reveal_strlit("_id");
        }
        let stem = substring(field, 0, field.unicode_len() - 3);
        let mut targets: Vec<String> = Vec::new();
        targets.push(target_or(stem, parent, focus));
        let k = Kind::Option(Box::new(Kind::Record(targets)));
        proof {
            assert(view_strs(targets@) =~= seq![targets@[0]@]);
            reveal_with_fuel(kind_model, 3);
        }
        k
    } else {
        proof {
            reveal_strlit("_ids");
            reveal_strlit("_id");
        }
        let k = Kind::Option(Box::new(Kind::Any));
        proof {
            reveal_with_fuel(kind_model, 2);
        }
        k
    }
}

/// [`back_ref_spec`].
fn back_ref_name(parent: &str) -> (r: String)
    ensures
        r@ == back_ref_spec(parent@),
{
    let mut r = match split_once_char(parent, '_') {
        Some((_, rest)) => to_owned_string(rest),
        None => to_owned_string(parent),
    };
    r.append("_id");
    r
}

/// [`is_guard_spec`].
fn is_guard(method: &str) -> (b: bool)
    ensures
        b == is_guard_spec(method@),
{
    starts_with(method, "_check_") || starts_with(method, "_constrain")
}

/// [`trim_underscores`].
fn trim_leading_underscores(s: &str) -> (r: &str)
    ensures
        r@ == trim_underscores(s@),
{
    let cs = chars_of(s);
    let mut k: usize = 0;
    proof {
        assert(s@.subrange(0, s@.len() as int) =~= s@);
    }
    while k < cs.len() && cs[k] == '_'
        invariant
            cs@ == s@,
            k <= cs@.len(),
            trim_underscores(s@) == trim_underscores(s@.subrange(k as int, s@.len() as int)),
        decreases cs@.len() - k,
    {
        proof {
            let t = s@.subrange(k as int, s@.len() as int);
            assert(t.drop_first() =~= s@.subrange(k + 1, s@.len() as int));
        }
        k += 1;
    }
    proof {
        let t = s@.subrange(k as int, s@.len() as int);
        if t.len() > 0 {
            assert(t[0] == cs@[k as int]);
        }
    }
    substring(s, k, cs.len())
}

// ── the table index ──────────────────────────────────────────────────────────

/// The abstract field definition of `f`.
pub open spec fn field_model(f: FieldDefinition) -> FieldModel {
    FieldModel {
        name: f.name@,
        kind: kind_model(f.kind),
        value: match f.value {
            Some(v) => Some(v@),
            None => None,
        },
        readonly: f.readonly,
        reactive_over: view_strs(f.reactive_over@),
    }
}

/// The abstract fields of a table.
pub open spec fn table_fields(t: TableDefinition) -> Seq<FieldModel> {
    t.fields@.map_values(|f: FieldDefinition| field_model(f))
}

/// The names of the tables.
pub open spec fn table_names(ts: Seq<TableDefinition>) -> Seq<Seq<char>> {
    ts.map_values(|t: TableDefinition| t.name@)
}

/// Position `i` holds table `k`.
pub open spec fn table_at(ts: Seq<TableDefinition>, k: Seq<char>, i: int) -> bool {
    0 <= i < ts.len() && ts[i].name@ == k
}

/// Table name → abstract fields.
pub open spec fn table_map(ts: Seq<TableDefinition>) -> Map<Seq<char>, Seq<FieldModel>> {
    Map::new(
        |k: Seq<char>| exists|i: int| table_at(ts, k, i),
        |k: Seq<char>| table_fields(ts[choose|i: int| table_at(ts, k, i)]),
    )
}

/// Tables ascending by name, each `SCHEMAFULL` with no indices, each field
/// owned by its table and unguarded.
pub open spec fn tables_wf(ts: Seq<TableDefinition>) -> bool {
    &&& sorted(table_names(ts))
    &&& forall|i: int| 0 <= i < ts.len() ==> table_ok(#[trigger] ts[i])
}

/// A generated table: `SCHEMAFULL`, no indices, fields owned and unguarded.
pub open spec fn table_ok(t: TableDefinition) -> bool {
    &&& t.schemafull
    &&& t.indices@.len() == 0
    &&& forall|j: int| 0 <= j < t.fields@.len() ==> (#[trigger] t.fields@[j]).table@ == t.name@ && t.fields@[j].assert is None
}

proof fn lemma_table_entry(ts: Seq<TableDefinition>, i: int)
    requires
        sorted(table_names(ts)),
        0 <= i < ts.len(),
    ensures
        table_map(ts).dom().contains(ts[i].name@),
        table_map(ts)[ts[i].name@] == table_fields(ts[i]),
{
    lemma_sorted_no_dup(table_names(ts));
    assert(table_at(ts, ts[i].name@, i));
    let c = choose|c: int| table_at(ts, ts[i].name@, c);
    assert(table_names(ts)[c] == table_names(ts)[i]);
}

proof fn lemma_table_absent(ts: Seq<TableDefinition>, k: Seq<char>)
    requires
        !table_names(ts).contains(k),
    ensures
        !table_map(ts).dom().contains(k),
{
    if table_map(ts).dom().contains(k) {
        let c = choose|c: int| table_at(ts, k, c);
        assert(table_names(ts)[c] == k);
    }
}

/// Position of table `name`, or where it would go.
fn table_find(ts: &Vec<TableDefinition>, name: &str) -> (r: Result<usize, usize>)
    requires
        sorted(table_names(ts@)),
    ensures
        r matches Ok(i) ==> i < ts@.len() && ts@[i as int].name@ == name@,
        r matches Err(p) ==> p <= ts@.len() && (forall|j: int| 0 <= j < p ==> seq_less(ts@[j].name@, name@)) && (
        forall|j: int| p <= j < ts@.len() ==> seq_less(name@, ts@[j].name@)),
        r is Err <==> !table_names(ts@).contains(name@),
{
    let ghost v = table_names(ts@);
    let mut i: usize = 0;
    while i < ts.len() && str_less(ts[i].name.as_str(), name)
        invariant
            i <= ts@.len(),
            v == table_names(ts@),
            sorted(v),
            forall|j: int| 0 <= j < i ==> seq_less(ts@[j].name@, name@),
        decreases ts@.len() - i,
    {
        i += 1;
    }
    if i < ts.len() && str_eq(ts[i].name.as_str(), name) {
        assert(v[i as int] == name@);
        return Ok(i);
    }
    proof {
        if i < ts@.len() {
            assert(v[i as int] == ts@[i as int].name@);
            lemma_less_total(ts@[i as int].name@, name@);
            assert forall|j: int| i <= j < ts@.len() implies seq_less(name@, ts@[j].name@) by {
                if j > i {
                    assert(v[j] == ts@[j].name@);
                    lemma_less_transitive(name@, ts@[i as int].name@, ts@[j].name@);
                }
            }
        }
        assert forall|j: int| 0 <= j < v.len() implies v[j] != name@ by {
            if v[j] == name@ {
                lemma_less_irreflexive(name@);
            }
        }
    }
    Err(i)
}

/// The position of table `model`, created empty when missing.
fn ensure_table_exec(ts: &mut Vec<TableDefinition>, model: &str) -> (i: usize)
    requires
        tables_wf(old(ts)@),
    ensures
        tables_wf(final(ts)@),
        table_map(final(ts)@) == ensure_table(table_map(old(ts)@), model@),
        i < final(ts)@.len(),
        final(ts)@[i as int].name@ == model@,
{
    let ghost old_ts = ts@;
    match table_find(ts, model) {
        Ok(i) => {
            proof {
                lemma_table_entry(old_ts, i as int);
            }
            i
        },
        Err(p) => {
            let t = TableDefinition::new(model);
            let ghost tv = t;
            ts.insert(p, t);
            proof {
                lemma_table_absent(old_ts, model@);
                let nt = ts@;
                assert(nt =~= old_ts.insert(p as int, tv));
                assert(table_names(nt) =~= table_names(old_ts).insert(p as int, model@));
                assert forall|a: int, b: int| 0 <= a < b < table_names(nt).len() implies seq_less(
                    table_names(nt)[a],
                    table_names(nt)[b],
                ) by {
                    if b < p {
                    } else if b == p {
                        assert(table_names(nt)[a] == old_ts[a].name@);
                    } else if a < p {
                        assert(table_names(nt)[b] == old_ts[b - 1].name@);
                        lemma_less_transitive(table_names(nt)[a], model@, table_names(nt)[b]);
                    } else if a == p {
                        assert(table_names(nt)[b] == old_ts[b - 1].name@);
                    } else {
                        assert(table_names(nt)[a] == table_names(old_ts)[a - 1]);
                        assert(table_names(nt)[b] == table_names(old_ts)[b - 1]);
                    }
                }
                assert forall|j: int| 0 <= j < nt.len() implies table_ok(#[trigger] nt[j]) by {
                    if j < p {
                        assert(nt[j] == old_ts[j]);
                    } else if j > p {
                        assert(nt[j] == old_ts[j - 1]);
                    }
                }
                let target = table_map(old_ts).insert(model@, Seq::<FieldModel>::empty());
                assert forall|k: Seq<char>| table_map(nt).dom().contains(k) <==> target.dom().contains(k) by {
                    if table_map(nt).dom().contains(k) {
                        let c = choose|c: int| table_at(nt, k, c);
                        if c < p {
                            assert(table_at(old_ts, k, c));
                        } else if c > p {
                            assert(table_at(old_ts, k, c - 1));
                        }
                    }
                    if table_map(old_ts).dom().contains(k) {
                        let c = choose|c: int| table_at(old_ts, k, c);
                        if c < p {
                            assert(table_at(nt, k, c));
                        } else {
                            assert(table_at(nt, k, c + 1));
                        }
                    }
                    if k == model@ {
                        assert(table_at(nt, k, p as int));
                    }
                }
                assert forall|k: Seq<char>| table_map(nt).dom().contains(k) implies table_map(nt)[k] == target[k] by {
                    let c = choose|c: int| table_at(nt, k, c);
                    lemma_table_entry(nt, c);
                    if c < p {
                        lemma_table_entry(old_ts, c);
                    } else if c > p {
                        lemma_table_entry(old_ts, c - 1);
                    } else {
                        assert(table_fields(tv) =~= Seq::<FieldModel>::empty());
                    }
                }
                assert(table_map(nt) =~= target);
            }
            p
        },
    }
}

/// Append field `f` to the table at `i`.
fn add_field(ts: &mut Vec<TableDefinition>, i: usize, f: FieldDefinition)
    requires
        tables_wf(old(ts)@),
        i < old(ts)@.len(),
        f.table@ == old(ts)@[i as int].name@,
        f.assert is None,
    ensures
        tables_wf(final(ts)@),
        table_map(final(ts)@) == table_map(old(ts)@).insert(
            old(ts)@[i as int].name@,
            table_map(old(ts)@)[old(ts)@[i as int].name@].push(field_model(f)),
        ),
{
    let ghost old_ts = ts@;
    let ghost fv = f;
    let mut t = ts.remove(i);
    let ghost t0 = t;
    t.fields.push(f);
    let ghost t1 = t;
    ts.insert(i, t);
    proof {
        let nt = ts@;
        lemma_table_entry(old_ts, i as int);
        assert(nt =~= old_ts.update(i as int, t1));
        assert(table_names(nt) =~= table_names(old_ts));
        assert(table_ok(t1)) by {
            assert forall|j: int| 0 <= j < t1.fields@.len() implies (#[trigger] t1.fields@[j]).table@ == t1.name@ && t1.fields@[j].assert is None by {
                if j < t0.fields@.len() {
                    assert(t1.fields@[j] == t0.fields@[j]);
                }
            }
        }
        assert forall|j: int| 0 <= j < nt.len() implies table_ok(#[trigger] nt[j]) by {
            if j != i {
                assert(nt[j] == old_ts[j]);
            }
        }
        assert(table_fields(t1) =~= table_fields(t0).push(field_model(fv)));
        let target = table_map(old_ts).insert(old_ts[i as int].name@, table_map(old_ts)[old_ts[i as int].name@].push(field_model(fv)));
        assert forall|k: Seq<char>| table_map(nt).dom().contains(k) <==> target.dom().contains(k) by {
            if table_map(nt).dom().contains(k) {
                let c = choose|c: int| table_at(nt, k, c);
                assert(table_at(old_ts, k, c));
            }
            if table_map(old_ts).dom().contains(k) {
                let c = choose|c: int| table_at(old_ts, k, c);
                assert(table_at(nt, k, c));
            }
        }
        assert(t0 == old_ts[i as int]);
        assert forall|k: Seq<char>| table_map(nt).dom().contains(k) implies table_map(nt)[k] == target[k] by {
            let c = choose|c: int| table_at(nt, k, c);
            lemma_table_entry(nt, c);
            lemma_table_entry(old_ts, c);
            if c == i {
                assert(nt[c] == t1);
            } else {
                assert(nt[c] == old_ts[c]);
                lemma_sorted_no_dup(table_names(old_ts));
                assert(table_names(old_ts)[c] != table_names(old_ts)[i as int]);
            }
        }
        assert(table_map(nt) =~= target);
    }
}

// ── the structural pass, executable ──────────────────────────────────────────

/// The field → computing method index of a corpus.
pub open spec fn computer_map(ts: Seq<Triple>) -> Map<Seq<char>, Seq<char>> {
    Map::new(|f: Seq<char>| computer(ts, f) is Some, |f: Seq<char>| computer(ts, f)->0)
}

/// The views of an optional focus set.
pub open spec fn focus_view(focus: Option<&[&str]>) -> Option<Seq<Seq<char>>> {
    match focus {
        Some(f) => Some(view_strrefs(f@)),
        None => None,
    }
}

/// The `emitted_by` index: field IRI → method IRI, the last row winning.
fn computed_index(triples: &[Triple]) -> (cb: Vec<SEntry>)
    ensures
        smap_wf(cb@),
        smap_view(cb@) == computer_map(triples@),
{
    let ghost ts = triples@;
    let mut cb: Vec<SEntry> = Vec::new();
    let mut i: usize = 0;
    proof {
        assert(smap_view(cb@) =~= computer_map(ts.take(0)));
    }
    while i < triples.len()
        invariant
            ts == triples@,
            i <= ts.len(),
            smap_wf(cb@),
            smap_view(cb@) == computer_map(ts.take(i as int)),
        decreases ts.len() - i,
    {
        let t = &triples[i];
        if str_eq(t.p.as_str(), "emitted_by") {
            smap_insert(&mut cb, t.s.as_str(), t.o.as_str());
        }
        proof {
            let tk1 = ts.take(i + 1);
            assert(tk1.drop_last() =~= ts.take(i as int));
            assert(tk1.last() == ts[i as int]);
            assert(smap_view(cb@) =~= computer_map(tk1));
        }
        i += 1;
    }
    proof {
        assert(ts.take(ts.len() as int) =~= ts);
    }
    cb
}

/// The filter [`in_focus`].
fn focus_admits(focus: Option<&[&str]>, iri: &str) -> (b: bool)
    ensures
        b == in_focus(focus_view(focus), iri@),
{
    match focus {
        None => true,
        Some(f) => contains_strref(f, model_of(iri)),
    }
}

/// A function stub as [`FunctionDefinition::stub`] makes it.
pub open spec fn stub_ok(f: FunctionDefinition) -> bool {
    &&& f.params@.len() == 1
    &&& f.params@[0].0@ == "this"@
    &&& f.params@[0].1 matches Kind::Record(ts) && view_strs(ts@) == seq![f.model@]
    &&& f.body@ == deferred_body()
}

/// `(model, method)` of each function.
pub open spec fn fn_pairs(fs: Seq<FunctionDefinition>) -> Seq<(Seq<char>, Seq<char>)> {
    fs.map_values(|f: FunctionDefinition| (f.model@, f.method@))
}

proof fn lemma_pair_less_irreflexive(x: (Seq<char>, Seq<char>))
    ensures
        !pair_less(x, x),
{
    lemma_less_irreflexive(x.0);
    lemma_less_irreflexive(x.1);
}

proof fn lemma_pair_less_transitive(x: (Seq<char>, Seq<char>), y: (Seq<char>, Seq<char>), z: (Seq<char>, Seq<char>))
    requires
        pair_less(x, y),
        pair_less(y, z),
    ensures
        pair_less(x, z),
{
    if seq_less(x.0, y.0) && seq_less(y.0, z.0) {
        lemma_less_transitive(x.0, y.0, z.0);
    } else if seq_less(x.0, y.0) {
    } else if seq_less(y.0, z.0) {
    } else {
        lemma_less_transitive(x.1, y.1, z.1);
    }
}

proof fn lemma_pair_less_total(x: (Seq<char>, Seq<char>), y: (Seq<char>, Seq<char>))
    requires
        x != y,
    ensures
        pair_less(x, y) || pair_less(y, x),
{
    if x.0 != y.0 {
        lemma_less_total(x.0, y.0);
    } else {
        assert(x.1 != y.1);
        lemma_less_total(x.1, y.1);
    }
}

/// Exec `pair_less`.
fn pair_lt(a0: &str, a1: &str, b0: &str, b1: &str) -> (r: bool)
    ensures
        r == pair_less((a0@, a1@), (b0@, b1@)),
{
    str_less(a0, b0) || (str_eq(a0, b0) && str_less(a1, b1))
}

/// Insert the stub of `model::method` into the ascending, duplicate-free
/// stubs unless it is there.
fn fn_insert(fs: &mut Vec<FunctionDefinition>, model: &str, method: &str)
    requires
        pairs_sorted(fn_pairs(old(fs)@)),
        forall|j: int| 0 <= j < old(fs)@.len() ==> stub_ok(#[trigger] old(fs)@[j]),
    ensures
        pairs_sorted(fn_pairs(final(fs)@)),
        forall|j: int| 0 <= j < final(fs)@.len() ==> stub_ok(#[trigger] final(fs)@[j]),
        fn_pairs(final(fs)@).to_set() == fn_pairs(old(fs)@).to_set().insert((model@, method@)),
{
    let ghost old_fs = fs@;
    let ghost key = (model@, method@);
    let mut p: usize = 0;
    loop
        invariant
            fs@ == old_fs,
            key == (model@, method@),
            p <= fs@.len(),
            forall|j: int| 0 <= j < p ==> pair_less(fn_pairs(old_fs)[j], key),
        ensures
            fs@ == old_fs,
            p <= fs@.len(),
            forall|j: int| 0 <= j < p ==> pair_less(fn_pairs(old_fs)[j], key),
            p == fs@.len() || !pair_less(fn_pairs(old_fs)[p as int], key),
        decreases fs@.len() - p,
    {
        if p >= fs.len() {
            break;
        }
        let lt = pair_lt(fs[p].model.as_str(), fs[p].method.as_str(), model, method);
        proof {
            assert(fn_pairs(old_fs)[p as int] == (fs@[p as int].model@, fs@[p as int].method@));
        }
        if !lt {
            break;
        }
        p += 1;
    }
    if p < fs.len() && str_eq(fs[p].model.as_str(), model) && str_eq(fs[p].method.as_str(), method) {
        proof {
            assert(fn_pairs(old_fs)[p as int] == key);
            assert(fn_pairs(old_fs).to_set().insert(key) =~= fn_pairs(old_fs).to_set());
        }
        return;
    }
    let f = FunctionDefinition::stub(model, method);
    let ghost fv = f;
    fs.insert(p, f);
    proof {
        let nf = fs@;
        let op = fn_pairs(old_fs);
        let np = fn_pairs(nf);
        assert(nf =~= old_fs.insert(p as int, fv));
        assert(np =~= op.insert(p as int, key));
        if p < op.len() {
            assert(op[p as int] != key);
            assert(!pair_less(op[p as int], key));
            lemma_pair_less_total(op[p as int], key);
        }
        assert forall|a: int, b: int| 0 <= a < b < np.len() implies pair_less(np[a], np[b]) by {
            if b < p {
            } else if b == p {
            } else if a < p {
                assert(np[b] == op[b - 1]);
                if b - 1 > p {
                    lemma_pair_less_transitive(key, op[p as int], op[b - 1]);
                }
                lemma_pair_less_transitive(np[a], key, np[b]);
            } else if a == p {
                assert(np[b] == op[b - 1]);
                if b - 1 > p {
                    lemma_pair_less_transitive(key, op[p as int], op[b - 1]);
                }
            } else {
                assert(np[a] == op[a - 1]);
                assert(np[b] == op[b - 1]);
            }
        }
        assert forall|j: int| 0 <= j < nf.len() implies stub_ok(#[trigger] nf[j]) by {
            if j < p {
                assert(nf[j] == old_fs[j]);
            } else if j > p {
                assert(nf[j] == old_fs[j - 1]);
            }
        }
        assert forall|z: (Seq<char>, Seq<char>)| np.to_set().contains(z) <==> op.to_set().insert(key).contains(z) by {
            if np.to_set().contains(z) {
                let k = choose|k: int| 0 <= k < np.len() && np[k] == z;
                if k < p {
                    assert(op[k] == z);
                } else if k > p {
                    assert(op[k - 1] == z);
                }
            }
            if op.to_set().contains(z) {
                let k = choose|k: int| 0 <= k < op.len() && op[k] == z;
                if k < p {
                    assert(np[k] == z);
                } else {
                    assert(np[k + 1] == z);
                }
            }
            if z == key {
                assert(np[p as int] == z);
            }
        }
        assert(np.to_set() =~= op.to_set().insert(key));
    }
}

proof fn lemma_push_to_set<A>(s: Seq<A>, x: A)
    ensures
        s.push(x).to_set() == s.to_set().insert(x),
{
    assert forall|z: A| s.push(x).to_set().contains(z) <==> s.to_set().insert(x).contains(z) by {
        if s.push(x).to_set().contains(z) {
            let k = choose|k: int| 0 <= k < s.push(x).len() && s.push(x)[k] == z;
            if k < s.len() {
                assert(s[k] == z);
            }
        }
        if s.to_set().contains(z) {
            let k = choose|k: int| 0 <= k < s.len() && s[k] == z;
            assert(s.push(x)[k] == z);
        }
        if z == x {
            assert(s.push(x)[s.len() as int] == z);
        }
    }
    assert(s.push(x).to_set() =~= s.to_set().insert(x));
}

/// The structural pass: tables with their fields, and the function stubs
/// ascending by `(model, method)` without repeats.
fn structural(
    triples: &[Triple],
    focus: Option<&[&str]>,
    focus_set: &[String],
    cb: &Vec<SEntry>,
) -> (r: (Vec<TableDefinition>, Vec<FunctionDefinition>))
    requires
        smap_wf(cb@),
        smap_view(cb@) == computer_map(triples@),
        view_strs(focus_set@) == focus_models(focus_view(focus)),
    ensures
        tables_wf(r.0@),
        table_map(r.0@) == structure(triples@, focus_view(focus), triples@.len() as int).tables,
        pairs_sorted(fn_pairs(r.1@)),
        forall|j: int| 0 <= j < r.1@.len() ==> stub_ok(#[trigger] r.1@[j]),
        fn_pairs(r.1@).to_set() == structure(triples@, focus_view(focus), triples@.len() as int).functions.to_set(),
{
    let ghost ts = triples@;
    let ghost fv = focus_view(focus);
    let mut tables: Vec<TableDefinition> = Vec::new();
    let mut fns: Vec<FunctionDefinition> = Vec::new();
    let mut i: usize = 0;
    proof {
        assert(table_map(tables@) =~= Map::<Seq<char>, Seq<FieldModel>>::empty());
        assert(table_names(tables@) =~= Seq::<Seq<char>>::empty());
        assert(fn_pairs(fns@) =~= Seq::<(Seq<char>, Seq<char>)>::empty());
        assert(fn_pairs(fns@).to_set() =~= Seq::<(Seq<char>, Seq<char>)>::empty().to_set());
    }
    while i < triples.len()
        invariant
            ts == triples@,
            fv == focus_view(focus),
            smap_wf(cb@),
            smap_view(cb@) == computer_map(ts),
            view_strs(focus_set@) == focus_models(fv),
            i <= ts.len(),
            tables_wf(tables@),
            table_map(tables@) == structure(ts, fv, i as int).tables,
            pairs_sorted(fn_pairs(fns@)),
            forall|j: int| 0 <= j < fns@.len() ==> stub_ok(#[trigger] fns@[j]),
            fn_pairs(fns@).to_set() == structure(ts, fv, i as int).functions.to_set(),
        decreases ts.len() - i,
    {
        let t = &triples[i];
        let ghost st0 = structure(ts, fv, i as int);
        proof {
            assert(structure(ts, fv, i + 1) == structure_step(ts, fv, st0, ts[i as int]));
        }
        if str_eq(t.p.as_str(), "rdf:type") && focus_admits(focus, t.s.as_str()) {
            let model = model_of(t.s.as_str());
            if str_eq(t.o.as_str(), "ogit:ObjectType") {
                ensure_table_exec(&mut tables, model);
            } else if str_eq(t.o.as_str(), "ogit:Function") {
                if let Some(method) = member_of(t.s.as_str()) {
                    fn_insert(&mut fns, model, method);
                    proof {
                        lemma_push_to_set(st0.functions, (model@, method@));
                    }
                }
            } else if str_eq(t.o.as_str(), "ogit:Property") {
                if let Some(field) = member_of(t.s.as_str()) {
                    let mut fd = FieldDefinition::new(model, field);
                    fd.kind = infer_kind(field, model, focus_set);
                    if let Some(computer_iri) = smap_get(cb, t.s.as_str()) {
                        if let Some(method) = member_of(computer_iri) {
                            let mut v = String::from_str("fn::");
                            v.append(model);
                            v.append("::");
                            v.append(method);
                            v.append("($this)");
                            fd.value = Some(v);
                            fd.readonly = true;
                        }
                    }
                    let k = ensure_table_exec(&mut tables, model);
                    proof {
                        assert(view_strs(fd.reactive_over@) =~= Seq::<Seq<char>>::empty());
                        if smap_view(cb@).dom().contains(t.s@) {
                            assert(computer(ts, t.s@) == Some(smap_view(cb@)[t.s@]));
                        } else {
                            assert(computer(ts, t.s@) is None);
                        }
                        assert(field_model(fd) == property_field(ts, fv, t.s@, model@, field@));
                    }
                    add_field(&mut tables, k, fd);
                }
            }
        }
        i += 1;
    }
    proof {
        assert(ts.take(ts.len() as int) =~= ts);
    }
    (tables, fns)
}

// ── the dependency pass, executable ──────────────────────────────────────────

proof fn lemma_field_index_first(fs: Seq<FieldModel>, n: Seq<char>, j: int)
    requires
        0 <= j < fs.len(),
        fs[j].name == n,
        forall|k: int| 0 <= k < j ==> fs[k].name != n,
    ensures
        field_index(fs, n) == Some(j),
    decreases fs.len(),
{
    if j < fs.len() - 1 {
        lemma_field_index_first(fs.drop_last(), n, j);
    } else {
        lemma_field_index_none(fs.drop_last(), n);
    }
}

proof fn lemma_field_index_none(fs: Seq<FieldModel>, n: Seq<char>)
    requires
        forall|k: int| 0 <= k < fs.len() ==> fs[k].name != n,
    ensures
        field_index(fs, n) is None,
    decreases fs.len(),
{
    if fs.len() > 0 {
        lemma_field_index_none(fs.drop_last(), n);
    }
}

/// Add `dep` to the reactive set of the first field named `pf` of table
/// `model`, when there is one and `dep` is new to it.
fn attach_dep_exec(ts: &mut Vec<TableDefinition>, model: &str, pf: &str, dep: &str)
    requires
        tables_wf(old(ts)@),
    ensures
        tables_wf(final(ts)@),
        table_map(final(ts)@) == attach_dep(table_map(old(ts)@), model@, pf@, dep@),
{
    let ghost old_ts = ts@;
    match table_find(ts, model) {
        Err(_) => {
            proof {
                lemma_table_absent(old_ts, model@);
            }
        },
        Ok(i) => {
            proof {
                lemma_table_entry(old_ts, i as int);
            }
            let ghost tf = table_fields(old_ts[i as int]);
            let mut j: usize = 0;
            while j < ts[i].fields.len() && !str_eq(ts[i].fields[j].name.as_str(), pf)
                invariant
                    ts@ == old_ts,
                    (i as int) < old_ts.len(),
                    tf == table_fields(old_ts[i as int]),
                    j <= old_ts[i as int].fields@.len(),
                    forall|k: int| 0 <= k < j ==> tf[k].name != pf@,
                decreases old_ts[i as int].fields@.len() - j,
            {
                j += 1;
            }
            if j == ts[i].fields.len() {
                proof {
                    lemma_field_index_none(tf, pf@);
                }
                return;
            }
            proof {
                lemma_field_index_first(tf, pf@, j as int);
            }
            if contains_str(ts[i].fields[j].reactive_over.as_slice(), dep) {
                return;
            }
            let mut t = ts.remove(i);
            let ghost t0 = t;
            let mut f = t.fields.remove(j);
            let ghost f0 = f;
            f.reactive_over.push(to_owned_string(dep));
            let ghost f1 = f;
            t.fields.insert(j, f);
            let ghost t1 = t;
            ts.insert(i, t);
            proof {
                let nt = ts@;
                assert(t0 == old_ts[i as int]);
                assert(f0 == t0.fields@[j as int]);
                assert(t1.fields@ =~= t0.fields@.update(j as int, f1));
                assert(view_strs(f1.reactive_over@) =~= view_strs(f0.reactive_over@).push(dep@));
                assert(field_model(f1) == FieldModel { reactive_over: tf[j as int].reactive_over.push(dep@), ..tf[j as int] });
                assert(table_fields(t1) =~= tf.update(j as int, field_model(f1)));
                assert(nt =~= old_ts.update(i as int, t1));
                assert(table_names(nt) =~= table_names(old_ts));
                assert(table_ok(t1)) by {
                    assert forall|k: int| 0 <= k < t1.fields@.len() implies (#[trigger] t1.fields@[k]).table@ == t1.name@ && t1.fields@[k].assert is None by {
                        if k != j {
                            assert(t1.fields@[k] == t0.fields@[k]);
                        }
                    }
                }
                assert forall|k: int| 0 <= k < nt.len() implies table_ok(#[trigger] nt[k]) by {
                    if k != i {
                        assert(nt[k] == old_ts[k]);
                    }
                }
                let target = table_map(old_ts).insert(model@, tf.update(j as int, field_model(f1)));
                assert forall|k: Seq<char>| table_map(nt).dom().contains(k) <==> target.dom().contains(k) by {
                    if table_map(nt).dom().contains(k) {
                        let c = choose|c: int| table_at(nt, k, c);
                        assert(table_at(old_ts, k, c));
                    }
                    if table_map(old_ts).dom().contains(k) {
                        let c = choose|c: int| table_at(old_ts, k, c);
                        assert(table_at(nt, k, c));
                    }
                }
                assert forall|k: Seq<char>| table_map(nt).dom().contains(k) implies table_map(nt)[k] == target[k] by {
                    let c = choose|c: int| table_at(nt, k, c);
                    lemma_table_entry(nt, c);
                    lemma_table_entry(old_ts, c);
                    if c == i {
                        assert(nt[c] == t1);
                    } else {
                        assert(nt[c] == old_ts[c]);
                        lemma_sorted_no_dup(table_names(old_ts));
                        assert(table_names(old_ts)[c] != table_names(old_ts)[i as int]);
                    }
                }
                assert(table_map(nt) =~= target);
            }
        },
    }
}

/// One `(model, relation)` group of cross-record dependencies.
pub type CrossEntry = (String, String, Vec<(String, String)>);

/// The key of a group.
pub open spec fn cross_key(e: CrossEntry) -> (Seq<char>, Seq<char>) {
    (e.0@, e.1@)
}

/// The keys of the groups.
pub open spec fn cross_keys(e: Seq<CrossEntry>) -> Seq<(Seq<char>, Seq<char>)> {
    e.map_values(|x: CrossEntry| cross_key(x))
}

/// Position `i` holds key `k`.
pub open spec fn cross_at(e: Seq<CrossEntry>, k: (Seq<char>, Seq<char>), i: int) -> bool {
    0 <= i < e.len() && cross_key(e[i]) == k
}

/// Key → `(leaf, parent field)` pairs.
pub open spec fn cross_map(e: Seq<CrossEntry>) -> Map<(Seq<char>, Seq<char>), Seq<(Seq<char>, Seq<char>)>> {
    Map::new(
        |k: (Seq<char>, Seq<char>)| exists|i: int| cross_at(e, k, i),
        |k: (Seq<char>, Seq<char>)| pairs_view(e[choose|i: int| cross_at(e, k, i)].2@),
    )
}

proof fn lemma_cross_entry(e: Seq<CrossEntry>, i: int)
    requires
        pairs_sorted(cross_keys(e)),
        0 <= i < e.len(),
    ensures
        cross_map(e).dom().contains(cross_key(e[i])),
        cross_map(e)[cross_key(e[i])] == pairs_view(e[i].2@),
{
    assert(cross_at(e, cross_key(e[i]), i));
    let c = choose|c: int| cross_at(e, cross_key(e[i]), c);
    assert(cross_keys(e)[c] == cross_keys(e)[i]);
    if c < i {
        lemma_pair_less_irreflexive(cross_keys(e)[c]);
    } else if c > i {
        lemma_pair_less_irreflexive(cross_keys(e)[c]);
    }
}

/// Record `(leaf, pf)` under `(model, rel)`.
fn cross_push(e: &mut Vec<CrossEntry>, model: &str, rel: &str, leaf: &str, pf: &str)
    requires
        pairs_sorted(cross_keys(old(e)@)),
    ensures
        pairs_sorted(cross_keys(final(e)@)),
        cross_map(final(e)@) == cross_map(old(e)@).insert(
            (model@, rel@),
            (if cross_map(old(e)@).dom().contains((model@, rel@)) {
                cross_map(old(e)@)[(model@, rel@)]
            } else {
                Seq::empty()
            }).push((leaf@, pf@)),
        ),
{
    let ghost old_e = e@;
    let ghost key = (model@, rel@);
    let ghost ok = cross_keys(old_e);
    let mut p: usize = 0;
    loop
        invariant
            e@ == old_e,
            ok == cross_keys(old_e),
            key == (model@, rel@),
            p <= e@.len(),
            forall|j: int| 0 <= j < p ==> pair_less(ok[j], key),
        ensures
            e@ == old_e,
            p <= e@.len(),
            forall|j: int| 0 <= j < p ==> pair_less(ok[j], key),
            p == e@.len() || !pair_less(ok[p as int], key),
        decreases e@.len() - p,
    {
        if p >= e.len() {
            break;
        }
        let lt = pair_lt(e[p].0.as_str(), e[p].1.as_str(), model, rel);
        proof {
            assert(ok[p as int] == cross_key(e@[p as int]));
        }
        if !lt {
            break;
        }
        p += 1;
    }
    let found = p < e.len() && str_eq(e[p].0.as_str(), model) && str_eq(e[p].1.as_str(), rel);
    let pair: (String, String) = (to_owned_string(leaf), to_owned_string(pf));
    let ghost pv = pair;
    if found {
        proof {
            assert(ok[p as int] == key);
            lemma_cross_entry(old_e, p as int);
        }
        let mut x = e.remove(p);
        let ghost x0 = x;
        x.2.push(pair);
        let ghost x1 = x;
        e.insert(p, x);
        proof {
            let ne = e@;
            assert(x0 == old_e[p as int]);
            assert(ne =~= old_e.update(p as int, x1));
            assert(cross_keys(ne) =~= ok);
            assert(pairs_view(x1.2@) =~= pairs_view(x0.2@).push((leaf@, pf@)));
            let target = cross_map(old_e).insert(key, cross_map(old_e)[key].push((leaf@, pf@)));
            assert forall|k: (Seq<char>, Seq<char>)| cross_map(ne).dom().contains(k) <==> target.dom().contains(k) by {
                if cross_map(ne).dom().contains(k) {
                    let c = choose|c: int| cross_at(ne, k, c);
                    assert(cross_at(old_e, k, c));
                }
                if cross_map(old_e).dom().contains(k) {
                    let c = choose|c: int| cross_at(old_e, k, c);
                    assert(cross_at(ne, k, c));
                }
            }
            assert forall|k: (Seq<char>, Seq<char>)| cross_map(ne).dom().contains(k) implies cross_map(ne)[k] == target[k] by {
                let c = choose|c: int| cross_at(ne, k, c);
                lemma_cross_entry(ne, c);
                lemma_cross_entry(old_e, c);
                if c != p {
                    assert(ne[c] == old_e[c]);
                    if c < p {
                        assert(pair_less(ok[c], ok[p as int]));
                        lemma_pair_less_irreflexive(ok[c]);
                    } else {
                        assert(pair_less(ok[p as int], ok[c]));
                        lemma_pair_less_irreflexive(ok[c]);
                    }
                }
            }
            assert(cross_map(ne) =~= target);
        }
    } else {
        let mut v: Vec<(String, String)> = Vec::new();
        v.push(pair);
        let x: CrossEntry = (to_owned_string(model), to_owned_string(rel), v);
        let ghost xv = x;
        e.insert(p, x);
        proof {
            let ne = e@;
            let nk = cross_keys(ne);
            assert(ne =~= old_e.insert(p as int, xv));
            assert(nk =~= ok.insert(p as int, key));
            assert(pairs_view(xv.2@) =~= seq![(leaf@, pf@)]);
            if p < ok.len() {
                assert(ok[p as int] != key);
                lemma_pair_less_total(ok[p as int], key);
            }
            assert(!cross_map(old_e).dom().contains(key)) by {
                if cross_map(old_e).dom().contains(key) {
                    let c = choose|c: int| cross_at(old_e, key, c);
                    assert(ok[c] == key);
                    if c < p {
                        lemma_pair_less_irreflexive(key);
                    } else if c > p {
                        lemma_pair_less_transitive(key, ok[p as int], ok[c]);
                        lemma_pair_less_irreflexive(key);
                    }
                }
            }
            assert forall|a: int, b: int| 0 <= a < b < nk.len() implies pair_less(nk[a], nk[b]) by {
                if b < p {
                } else if b == p {
                } else if a < p {
                    assert(nk[b] == ok[b - 1]);
                    if b - 1 > p {
                        lemma_pair_less_transitive(key, ok[p as int], ok[b - 1]);
                    }
                    lemma_pair_less_transitive(nk[a], key, nk[b]);
                } else if a == p {
                    assert(nk[b] == ok[b - 1]);
                    if b - 1 > p {
                        lemma_pair_less_transitive(key, ok[p as int], ok[b - 1]);
                    }
                } else {
                    assert(nk[a] == ok[a - 1]);
                    assert(nk[b] == ok[b - 1]);
                }
            }
            let target = cross_map(old_e).insert(key, seq![(leaf@, pf@)]);
            assert(Seq::<(Seq<char>, Seq<char>)>::empty().push((leaf@, pf@)) =~= seq![(leaf@, pf@)]);
            assert forall|k: (Seq<char>, Seq<char>)| cross_map(ne).dom().contains(k) <==> target.dom().contains(k) by {
                if cross_map(ne).dom().contains(k) {
                    let c = choose|c: int| cross_at(ne, k, c);
                    if c < p {
                        assert(cross_at(old_e, k, c));
                    } else if c > p {
                        assert(cross_at(old_e, k, c - 1));
                    }
                }
                if cross_map(old_e).dom().contains(k) {
                    let c = choose|c: int| cross_at(old_e, k, c);
                    if c < p {
                        assert(cross_at(ne, k, c));
                    } else {
                        assert(cross_at(ne, k, c + 1));
                    }
                }
                if k == key {
                    assert(cross_at(ne, k, p as int));
                }
            }
            assert forall|k: (Seq<char>, Seq<char>)| cross_map(ne).dom().contains(k) implies cross_map(ne)[k] == target[k] by {
                let c = choose|c: int| cross_at(ne, k, c);
                lemma_cross_entry(ne, c);
                if c < p {
                    lemma_cross_entry(old_e, c);
                } else if c > p {
                    lemma_cross_entry(old_e, c - 1);
                }
            }
            assert(cross_map(ne) =~= target);
        }
    }
}

/// The dependency pass over the structural tables.
fn wire(triples: &[Triple], focus: Option<&[&str]>, tables: &mut Vec<TableDefinition>) -> (cross: Vec<CrossEntry>)
    requires
        tables_wf(old(tables)@),
        table_map(old(tables)@) == structure(triples@, focus_view(focus), triples@.len() as int).tables,
    ensures
        tables_wf(final(tables)@),
        table_map(final(tables)@) == wiring(triples@, focus_view(focus), triples@.len() as int).tables,
        pairs_sorted(cross_keys(cross@)),
        cross_map(cross@) == wiring(triples@, focus_view(focus), triples@.len() as int).cross,
{
    let ghost ts = triples@;
    let ghost fv = focus_view(focus);
    let mut cross: Vec<CrossEntry> = Vec::new();
    let mut i: usize = 0;
    proof {
        assert(cross_map(cross@) =~= Map::<(Seq<char>, Seq<char>), Seq<(Seq<char>, Seq<char>)>>::empty());
        assert(cross_keys(cross@) =~= Seq::<(Seq<char>, Seq<char>)>::empty());
    }
    while i < triples.len()
        invariant
            ts == triples@,
            fv == focus_view(focus),
            i <= ts.len(),
            tables_wf(tables@),
            table_map(tables@) == wiring(ts, fv, i as int).tables,
            pairs_sorted(cross_keys(cross@)),
            cross_map(cross@) == wiring(ts, fv, i as int).cross,
        decreases ts.len() - i,
    {
        let t = &triples[i];
        proof {
            assert(wiring(ts, fv, i + 1) == wiring_step(fv, wiring(ts, fv, i as int), ts[i as int]));
        }
        if str_eq(t.p.as_str(), "depends_on") && focus_admits(focus, t.s.as_str()) {
            match (member_of(t.s.as_str()), member_of(t.o.as_str())) {
                (Some(pf), Some(dep)) => {
                    let model = model_of(t.s.as_str());
                    match split_once_char(dep, '.') {
                        Some((rel, leaf)) => {
                            cross_push(&mut cross, model, rel, leaf, pf);
                        },
                        None => {
                            attach_dep_exec(tables, model, pf, dep);
                        },
                    }
                },
                _ => {},
            }
        }
        i += 1;
    }
    cross
}

// ── events, executable ───────────────────────────────────────────────────────

/// The abstract event of `e`.
pub open spec fn event_model(e: EventDefinition) -> EventModel {
    EventModel {
        name: e.name@,
        table: e.table@,
        when: e.when@,
        then_block: e.then_block@,
        note: match e.note {
            Some(n) => Some(n@),
            None => None,
        },
    }
}

/// The abstract events of a vector.
pub open spec fn events_view(v: Seq<EventDefinition>) -> Seq<EventModel> {
    v.map_values(|e: EventDefinition| event_model(e))
}

/// The strictly ascending pairs with exactly the members of `s`.
pub open spec fn pairs_sorted_of(s: Set<(Seq<char>, Seq<char>)>) -> Seq<(Seq<char>, Seq<char>)> {
    choose|q: Seq<(Seq<char>, Seq<char>)>| pairs_sorted(q) && q.to_set() == s
}

/// The first components.
pub open spec fn firsts(ps: Seq<(Seq<char>, Seq<char>)>) -> Seq<Seq<char>> {
    ps.map_values(|p: (Seq<char>, Seq<char>)| p.0)
}

/// The second components.
pub open spec fn seconds(ps: Seq<(Seq<char>, Seq<char>)>) -> Seq<Seq<char>> {
    ps.map_values(|p: (Seq<char>, Seq<char>)| p.1)
}

/// The cross-record event of each group, by ascending key.
pub open spec fn cross_events(
    cross: Map<(Seq<char>, Seq<char>), Seq<(Seq<char>, Seq<char>)>>,
    focus: Seq<Seq<char>>,
) -> Seq<EventModel> {
    pairs_sorted_of(cross.dom()).map_values(
        |k: (Seq<char>, Seq<char>)|
            cross_event(k.0, k.1, sorted_of(firsts(cross[k]).to_set()), sorted_of(seconds(cross[k]).to_set()), focus),
    )
}

proof fn lemma_sorted_of(q: Seq<Seq<char>>)
    requires
        sorted(q),
    ensures
        sorted_of(q.to_set()) == q,
{
    let r = sorted_of(q.to_set());
    assert(sorted(q) && q.to_set() == q.to_set());
    lemma_sorted_unique(r, q);
}

proof fn lemma_pairs_sorted_unique(a: Seq<(Seq<char>, Seq<char>)>, b: Seq<(Seq<char>, Seq<char>)>)
    requires
        pairs_sorted(a),
        pairs_sorted(b),
        a.to_set() == b.to_set(),
    ensures
        a == b,
    decreases a.len(),
{
    if a.len() > 0 {
        let x = a[0];
        let y = b[0];
        assert(a.to_set().contains(x));
        assert(b.to_set().contains(x));
        assert(a.to_set().contains(y));
        let jb = choose|j: int| 0 <= j < b.len() && b[j] == x;
        let ja = choose|j: int| 0 <= j < a.len() && a[j] == y;
        if x != y {
            lemma_pair_less_total(x, y);
            if pair_less(x, y) {
                if jb > 0 {
                    lemma_pair_less_transitive(x, y, x);
                    lemma_pair_less_irreflexive(x);
                }
            } else {
                if ja > 0 {
                    lemma_pair_less_transitive(y, x, y);
                    lemma_pair_less_irreflexive(y);
                }
            }
        }
        assert(x == y);
        let a1 = a.drop_first();
        let b1 = b.drop_first();
        assert forall|z: (Seq<char>, Seq<char>)| a1.to_set().contains(z) <==> b1.to_set().contains(z) by {
            if a1.to_set().contains(z) {
                let k = choose|k: int| 0 <= k < a1.len() && a1[k] == z;
                assert(a[k + 1] == z);
                assert(b.to_set().contains(z));
                let m = choose|m: int| 0 <= m < b.len() && b[m] == z;
                if m == 0 {
                    assert(pair_less(a[0], a[k + 1]));
                    lemma_pair_less_irreflexive(z);
                }
                assert(b1[m - 1] == z);
            }
            if b1.to_set().contains(z) {
                let k = choose|k: int| 0 <= k < b1.len() && b1[k] == z;
                assert(b[k + 1] == z);
                assert(a.to_set().contains(z));
                let m = choose|m: int| 0 <= m < a.len() && a[m] == z;
                if m == 0 {
                    assert(pair_less(b[0], b[k + 1]));
                    lemma_pair_less_irreflexive(z);
                }
                assert(a1[m - 1] == z);
            }
        }
        assert(a1.to_set() =~= b1.to_set());
        lemma_pairs_sorted_unique(a1, b1);
        assert(a =~= seq![x] + a1);
        assert(b =~= seq![y] + b1);
    } else {
        if b.len() > 0 {
            assert(b.to_set().contains(b[0]));
        }
        assert(b =~= a);
    }
}

proof fn lemma_pairs_sorted_of(q: Seq<(Seq<char>, Seq<char>)>)
    requires
        pairs_sorted(q),
    ensures
        pairs_sorted_of(q.to_set()) == q,
{
    let r = pairs_sorted_of(q.to_set());
    assert(pairs_sorted(q) && q.to_set() == q.to_set());
    lemma_pairs_sorted_unique(r, q);
}

/// The keys of the groups are exactly the map's domain.
proof fn lemma_cross_dom(e: Seq<CrossEntry>)
    requires
        pairs_sorted(cross_keys(e)),
    ensures
        cross_map(e).dom() == cross_keys(e).to_set(),
{
    assert forall|k: (Seq<char>, Seq<char>)| cross_map(e).dom().contains(k) <==> cross_keys(e).to_set().contains(k) by {
        if cross_map(e).dom().contains(k) {
            let c = choose|c: int| cross_at(e, k, c);
            assert(cross_keys(e)[c] == k);
        }
        if cross_keys(e).to_set().contains(k) {
            let c = choose|c: int| 0 <= c < cross_keys(e).len() && cross_keys(e)[c] == k;
            assert(cross_at(e, k, c));
        }
    }
    assert(cross_map(e).dom() =~= cross_keys(e).to_set());
}

/// Each string of `parts` wrapped as `pre + p + mid + p` (`mid` empty for a
/// single use), joined with `sep`.
fn leaf_clause_exec(leaves: &Vec<String>) -> (r: String)
    ensures
        r@ == leaf_clause(view_strs(leaves@)),
{
    let mut parts: Vec<String> = Vec::new();
    let mut k: usize = 0;
    while k < leaves.len()
        invariant
            k <= leaves@.len(),
            view_strs(parts@) == view_strs(leaves@).take(k as int).map_values(
                |l: Seq<char>| "$before."@ + l + " != $after."@ + l,
            ),
        decreases leaves@.len() - k,
    {
        let ghost before = parts@;
        let mut c = String::from_str("$before.");
        c.append(leaves[k].as_str());
        c.append(" != $after.");
        c.append(leaves[k].as_str());
        parts.push(c);
        proof {
            assert(view_strs(parts@) =~= view_strs(before).push(c@));
            assert(view_strs(leaves@).take(k + 1) =~= view_strs(leaves@).take(k as int).push(leaves@[k as int]@));
            assert(view_strs(leaves@).take(k + 1).map_values(|l: Seq<char>| "$before."@ + l + " != $after."@ + l)
                =~= view_strs(leaves@).take(k as int).map_values(|l: Seq<char>| "$before."@ + l + " != $after."@ + l).push(
                "$before."@ + leaves@[k as int]@ + " != $after."@ + leaves@[k as int]@,
            ));
        }
        k += 1;
    }
    proof {
        assert(view_strs(leaves@).take(leaves@.len() as int) =~= view_strs(leaves@));
    }
    join_strs(parts.as_slice(), " OR ")
}

/// [`recompute_clause`].
fn recompute_clause_exec(model: &str, parents: &Vec<String>) -> (r: String)
    ensures
        r@ == recompute_clause(model@, view_strs(parents@)),
{
    let mut parts: Vec<String> = Vec::new();
    let mut k: usize = 0;
    while k < parents.len()
        invariant
            k <= parents@.len(),
            view_strs(parts@) == view_strs(parents@).take(k as int).map_values(
                |p: Seq<char>| p + " = fn::"@ + model@ + "::_recompute_"@ + p + "($parent)"@,
            ),
        decreases parents@.len() - k,
    {
        let ghost before = parts@;
        let mut c = parents[k].clone();
        c.append(" = fn::");
        c.append(model);
        c.append("::_recompute_");
        c.append(parents[k].as_str());
        c.append("($parent)");
        parts.push(c);
        proof {
            assert(view_strs(parts@) =~= view_strs(before).push(c@));
            assert(view_strs(parents@).take(k + 1) =~= view_strs(parents@).take(k as int).push(parents@[k as int]@));
            assert(view_strs(parents@).take(k + 1).map_values(
                |p: Seq<char>| p + " = fn::"@ + model@ + "::_recompute_"@ + p + "($parent)"@,
            ) =~= view_strs(parents@).take(k as int).map_values(
                |p: Seq<char>| p + " = fn::"@ + model@ + "::_recompute_"@ + p + "($parent)"@,
            ).push(parents@[k as int]@ + " = fn::"@ + model@ + "::_recompute_"@ + parents@[k as int]@ + "($parent)"@));
        }
        k += 1;
    }
    proof {
        assert(view_strs(parents@).take(parents@.len() as int) =~= view_strs(parents@));
    }
    join_strs(parts.as_slice(), ", ")
}

/// The event of one cross-record group.
fn cross_event_exec(x: &CrossEntry, focus_set: &[String]) -> (ev: EventDefinition)
    ensures
        event_model(ev) == cross_event(
            x.0@,
            x.1@,
            sorted_of(firsts(pairs_view(x.2@)).to_set()),
            sorted_of(seconds(pairs_view(x.2@)).to_set()),
            view_strs(focus_set@),
        ),
{
    let model = x.0.as_str();
    let rel = x.1.as_str();
    let ghost pv = pairs_view(x.2@);
    let mut leaves: Vec<String> = Vec::new();
    let mut parents: Vec<String> = Vec::new();
    let mut k: usize = 0;
    proof {
        assert(view_strs(leaves@).to_set() =~= firsts(pv.take(0)).to_set());
        assert(view_strs(parents@).to_set() =~= seconds(pv.take(0)).to_set());
    }
    while k < x.2.len()
        invariant
            pv == pairs_view(x.2@),
            k <= x.2@.len(),
            sorted(view_strs(leaves@)),
            sorted(view_strs(parents@)),
            view_strs(leaves@).to_set() == firsts(pv.take(k as int)).to_set(),
            view_strs(parents@).to_set() == seconds(pv.take(k as int)).to_set(),
        decreases x.2@.len() - k,
    {
        sorted_insert(&mut leaves, x.2[k].0.as_str());
        sorted_insert(&mut parents, x.2[k].1.as_str());
        proof {
            assert(pv.take(k + 1) =~= pv.take(k as int).push(pv[k as int]));
            assert(firsts(pv.take(k + 1)) =~= firsts(pv.take(k as int)).push(pv[k as int].0));
            assert(seconds(pv.take(k + 1)) =~= seconds(pv.take(k as int)).push(pv[k as int].1));
            lemma_push_to_set(firsts(pv.take(k as int)), pv[k as int].0);
            lemma_push_to_set(seconds(pv.take(k as int)), pv[k as int].1);
        }
        k += 1;
    }
    proof {
        assert(pv.take(x.2@.len() as int) =~= pv);
        lemma_sorted_of(view_strs(leaves@));
        lemma_sorted_of(view_strs(parents@));
    }
    let resolved = resolve_target(rel, model, focus_set);
    let back_ref = back_ref_name(model);
    let clause = leaf_clause_exec(&leaves);
    let recompute = recompute_clause_exec(model, &parents);
    let plist = join_strs(parents.as_slice(), ", ");
    let mut name = String::from_str("recompute_");
    name.append(model);
    name.append("_via_");
    name.append(rel);
    let mut when = String::from_str("$event = \"UPDATE\" AND (");
    when.append(clause.as_str());
    when.append(")");
    let mut note = String::from_str("cross-record @api.depends: ");
    note.append(model);
    note.append(".");
    note.append(rel);
    let (table, then_block) = match &resolved {
        Some(child) => {
            let mut th = String::from_str("LET $parent = $after.");
            th.append(back_ref.as_str());
            th.append("; UPDATE $parent SET ");
            th.append(recompute.as_str());
            note.append(".* (child=");
            note.append(child.as_str());
            note.append(", back-ref=");
            note.append(back_ref.as_str());
            note.append(") → recompute [");
            (child.clone(), th)
        },
        None => {
            let mut th = String::from_str("/* TODO: resolve child→parent back-ref for ");
            th.append(model);
            th.append(".");
            th.append(rel);
            th.append(" */ UPDATE $parent SET ");
            th.append(recompute.as_str());
            note.append(".* (child UNRESOLVED — not in focus set) → recompute [");
            let mut tb = to_owned_string(model);
            tb.append("__");
            tb.append(rel);
            (tb, th)
        },
    };
    note.append(plist.as_str());
    note.append("]");
    let ev = EventDefinition { name, table, when, then_block, note: Some(note) };
    proof {
        assert(event_model(ev) =~~= cross_event(
            x.0@,
            x.1@,
            view_strs(leaves@),
            view_strs(parents@),
            view_strs(focus_set@),
        ));
    }
    ev
}

/// The guard event of triple `t`, if any.
fn guard_event_exec(t: &Triple, focus: Option<&[&str]>) -> (r: Option<EventDefinition>)
    ensures
        match r {
            Some(e) => guard_event(focus_view(focus), *t) == Some(event_model(e)),
            None => guard_event(focus_view(focus), *t) is None,
        },
{
    if !(str_eq(t.p.as_str(), "raises") && focus_admits(focus, t.s.as_str())) {
        return None;
    }
    let method = match member_of(t.s.as_str()) {
        Some(m) => m,
        None => return None,
    };
    if !is_guard(method) {
        return None;
    }
    let model = model_of(t.s.as_str());
    let exc = strip_ns(t.o.as_str());
    let mut then_block = String::from_str("IF !fn::");
    then_block.append(model);
    then_block.append("::");
    then_block.append(method);
    then_block.append("($after) { THROW \"");
    then_block.append(exc);
    then_block.append(": ");
    then_block.append(method);
    then_block.append(" failed\" }");
    let mut note = String::from_str("@api.constrains guard → ");
    note.append(exc);
    let ev = EventDefinition {
        name: to_owned_string(trim_leading_underscores(method)),
        table: to_owned_string(model),
        when: String::from_str("$event IN [\"CREATE\", \"UPDATE\"]"),
        then_block,
        note: Some(note),
    };
    proof {
        assert(event_model(ev) =~~= guard_event(focus_view(focus), *t)->0);
    }
    Some(ev)
}

/// Inserting after the last event not ordered after `x` is
/// [`insert_event`].
proof fn lemma_insert_event(s: Seq<EventModel>, x: EventModel, p: int)
    requires
        0 <= p <= s.len(),
        forall|j: int| p <= j < s.len() ==> event_before(x, #[trigger] s[j]),
        p == 0 || !event_before(x, s[p - 1]),
    ensures
        insert_event(s, x) == s.insert(p, x),
    decreases s.len() - p,
{
    if p < s.len() {
        assert(event_before(x, s.last()));
        lemma_insert_event(s.drop_last(), x, p);
        assert(s.drop_last().insert(p, x).push(s.last()) =~= s.insert(p, x));
    } else {
        assert(s.push(x) =~= s.insert(p, x));
    }
}

/// Exec [`event_before`].
fn event_lt(a: &EventDefinition, b: &EventDefinition) -> (r: bool)
    ensures
        r == event_before(event_model(*a), event_model(*b)),
{
    pair_lt(a.table.as_str(), a.name.as_str(), b.table.as_str(), b.name.as_str())
}

/// `x` inserted into `out` as [`insert_event`] does.
fn insert_event_exec(out: &mut Vec<EventDefinition>, x: EventDefinition)
    ensures
        events_view(final(out)@) == insert_event(events_view(old(out)@), event_model(x)),
{
    let ghost s = events_view(out@);
    let mut p = out.len();
    loop
        invariant
            events_view(out@) == s,
            p <= out@.len(),
            forall|j: int| p <= j < s.len() ==> event_before(event_model(x), #[trigger] s[j]),
        ensures
            events_view(out@) == s,
            p <= out@.len(),
            forall|j: int| p <= j < s.len() ==> event_before(event_model(x), #[trigger] s[j]),
            p == 0 || !event_before(event_model(x), s[p - 1]),
        decreases p,
    {
        if p == 0 {
            break;
        }
        let before = event_lt(&x, &out[p - 1]);
        proof {
            assert(s[p - 1] == event_model(out@[p - 1]));
        }
        if !before {
            break;
        }
        p -= 1;
    }
    let ghost xv = x;
    out.insert(p, x);
    proof {
        lemma_insert_event(s, event_model(xv), p as int);
        assert(events_view(out@) =~= s.insert(p as int, event_model(xv)));
    }
}

/// Project the triple corpus into a SurrealQL [`Schema`].
///
/// `focus = Some(models)` restricts the projection to those models and
/// resolves relation targets within them; `None` emits every model (bare
/// stems as relation targets). Tables come ascending by name, fields in
/// emission order, functions ascending by `(model, method)` without
/// repeats, events by `(table, name)`, ties in emission order: the same
/// corpus and focus always give the same schema.
pub fn corpus_to_schema(triples: &[Triple], focus: Option<&[&str]>) -> (schema: Schema)
    ensures
        tables_wf(schema.tables@),
        table_map(schema.tables@) == wiring(triples@, focus_view(focus), triples@.len() as int).tables,
        pairs_sorted(fn_pairs(schema.functions@)),
        forall|j: int| 0 <= j < schema.functions@.len() ==> stub_ok(#[trigger] schema.functions@[j]),
        fn_pairs(schema.functions@).to_set() == structure(triples@, focus_view(focus), triples@.len() as int).functions.to_set(),
        events_view(schema.events@) == sort_events(
            cross_events(wiring(triples@, focus_view(focus), triples@.len() as int).cross, focus_models(focus_view(focus)))
                + guard_events(triples@, focus_view(focus), triples@.len() as int),
        ),
{
    let ghost ts = triples@;
    let ghost fv = focus_view(focus);
    let mut focus_set: Vec<String> = Vec::new();
    match focus {
        Some(f) => {
            let mut k: usize = 0;
            while k < f.len()
                invariant
                    k <= f@.len(),
                    view_strs(focus_set@) == view_strrefs(f@).take(k as int),
                decreases f@.len() - k,
            {
                let ghost before = focus_set@;
                focus_set.push(to_owned_string(f[k]));
                proof {
                    assert(view_strs(focus_set@) =~= view_strs(before).push(f@[k as int]@));
                    assert(view_strrefs(f@).take(k + 1) =~= view_strrefs(f@).take(k as int).push(f@[k as int]@));
                }
                k += 1;
            }
            proof {
                assert(view_strrefs(f@).take(f@.len() as int) =~= view_strrefs(f@));
            }
        },
        None => {
            proof {
                assert(view_strs(focus_set@) =~= Seq::<Seq<char>>::empty());
            }
        },
    }
    let cb = computed_index(triples);
    let (mut tables, functions) = structural(triples, focus, focus_set.as_slice(), &cb);
    let cross = wire(triples, focus, &mut tables);
    let ghost w = wiring(ts, fv, ts.len() as int);
    // the cross-record events, by ascending key
    let mut raw: Vec<EventDefinition> = Vec::new();
    let ghost keys = cross_keys(cross@);
    proof {
        lemma_cross_dom(cross@);
        lemma_pairs_sorted_of(keys);
        assert(events_view(raw@) =~= cross_events(w.cross, focus_models(fv)).take(0));
    }
    let mut k: usize = 0;
    while k < cross.len()
        invariant
            keys == cross_keys(cross@),
            pairs_sorted(keys),
            cross_map(cross@) == w.cross,
            pairs_sorted_of(w.cross.dom()) == keys,
            view_strs(focus_set@) == focus_models(fv),
            k <= cross@.len(),
            events_view(raw@) == cross_events(w.cross, focus_models(fv)).take(k as int),
        decreases cross@.len() - k,
    {
        let ghost before = raw@;
        let ev = cross_event_exec(&cross[k], focus_set.as_slice());
        raw.push(ev);
        proof {
            lemma_cross_entry(cross@, k as int);
            let ce = cross_events(w.cross, focus_models(fv));
            assert(keys[k as int] == cross_key(cross@[k as int]));
            assert(ce[k as int] == event_model(ev));
            assert(events_view(raw@) =~= events_view(before).push(event_model(ev)));
            assert(ce.take(k + 1) =~= ce.take(k as int).push(ce[k as int]));
        }
        k += 1;
    }
    proof {
        let ce = cross_events(w.cross, focus_models(fv));
        assert(ce.take(cross@.len() as int) =~= ce);
    }
    // the guard events, in corpus order
    let ghost ce = events_view(raw@);
    let mut i: usize = 0;
    proof {
        assert(events_view(raw@) =~= ce + guard_events(ts, fv, 0));
    }
    while i < triples.len()
        invariant
            ts == triples@,
            fv == focus_view(focus),
            i <= ts.len(),
            events_view(raw@) == ce + guard_events(ts, fv, i as int),
        decreases ts.len() - i,
    {
        let ghost before = raw@;
        match guard_event_exec(&triples[i], focus) {
            Some(ev) => {
                raw.push(ev);
                proof {
                    assert(events_view(raw@) =~= events_view(before).push(event_model(ev)));
                    assert(events_view(raw@) =~= ce + guard_events(ts, fv, i + 1));
                }
            },
            None => {
                proof {
                    assert(events_view(raw@) =~= ce + guard_events(ts, fv, i + 1));
                }
            },
        }
        i += 1;
    }
    // stable sort by (table, name)
    let ghost all = events_view(raw@);
    let mut events: Vec<EventDefinition> = Vec::new();
    let mut rest = raw;
    proof {
        assert(events_view(events@) =~= sort_events(all.take(0)));
    }
    let mut j: usize = 0;
    let n = rest.len();
    while j < n
        invariant
            n == all.len(),
            j <= n,
            rest@.len() == n - j,
            events_view(rest@) == all.skip(j as int),
            events_view(events@) == sort_events(all.take(j as int)),
        decreases n - j,
    {
        let ghost r0 = rest@;
        let x = rest.remove(0);
        proof {
            assert(event_model(x) == events_view(r0)[0]);
            assert(all.skip(j as int)[0] == all[j as int]);
            assert(rest@ =~= r0.subrange(1, r0.len() as int));
            assert forall|q: int| 0 <= q < rest@.len() implies events_view(rest@)[q] == all.skip(j + 1)[q] by {
                assert(rest@[q] == r0[q + 1]);
                assert(events_view(r0)[q + 1] == all.skip(j as int)[q + 1]);
            }
            assert(events_view(rest@) =~= all.skip(j + 1));
            assert(all.take(j + 1).drop_last() =~= all.take(j as int));
            assert(all.take(j + 1).last() == all[j as int]);
        }
        insert_event_exec(&mut events, x);
        j += 1;
    }
    proof {
        assert(all.take(n as int) =~= all);
    }
    Schema { tables, functions, events }
}

// ── laws ────────────────────────────────────────────────────────────────────

proof fn lemma_structure_in_focus(ts: Seq<Triple>, f: Seq<Seq<char>>, k: int)
    ensures
        forall|m: Seq<char>| #[trigger] structure(ts, Some(f), k).tables.dom().contains(m) ==> f.contains(m),
        forall|j: int|
            0 <= j < structure(ts, Some(f), k).functions.len() ==> f.contains(
                (#[trigger] structure(ts, Some(f), k).functions[j]).0,
            ),
    decreases k,
{
    if k > 0 {
        lemma_structure_in_focus(ts, f, k - 1);
        let st = structure(ts, Some(f), k - 1);
        let t = ts[k - 1];
        let nx = structure(ts, Some(f), k);
        assert(nx == structure_step(ts, Some(f), st, t));
        if t.p@ == "rdf:type"@ && in_focus(Some(f), t.s@) {
            let model = spec_model_of(t.s@);
            assert(f.contains(model));
            assert forall|j: int| 0 <= j < nx.functions.len() implies f.contains((#[trigger] nx.functions[j]).0) by {
                if j < st.functions.len() && nx.functions.len() > st.functions.len() {
                    assert(nx.functions[j] == st.functions[j]);
                }
            }
        }
    }
}

proof fn lemma_wiring_dom(ts: Seq<Triple>, focus: Option<Seq<Seq<char>>>, k: int)
    ensures
        wiring(ts, focus, k).tables.dom() == structure(ts, focus, ts.len() as int).tables.dom(),
    decreases k,
{
    if k > 0 {
        lemma_wiring_dom(ts, focus, k - 1);
        let w = wiring(ts, focus, k - 1);
        let t = ts[k - 1];
        match dep_pair(focus, t) {
            Some((pf, dep)) => {
                let model = spec_model_of(t.s@);
                match split_once(dep, '.') {
                    Some(_) => {},
                    None => {
                        assert(attach_dep(w.tables, model, pf, dep).dom() =~= w.tables.dom());
                    },
                }
            },
            None => {},
        }
    }
}

/// Focus isolation: with a focus set, every table the projection defines,
/// and the model of every function stub, is one of the focus models; no
/// subject outside the set leaks in.
pub proof fn law_focus_isolation(ts: Seq<Triple>, f: Seq<Seq<char>>)
    ensures
        forall|m: Seq<char>| #[trigger] wiring(ts, Some(f), ts.len() as int).tables.dom().contains(m) ==> f.contains(m),
        forall|j: int|
            0 <= j < structure(ts, Some(f), ts.len() as int).functions.len() ==> f.contains(
                (#[trigger] structure(ts, Some(f), ts.len() as int).functions[j]).0,
            ),
{
    lemma_structure_in_focus(ts, f, ts.len() as int);
    lemma_wiring_dom(ts, Some(f), ts.len() as int);
}

/// No event comes after one ordered before it: non-decreasing by
/// `(table, name)`.
pub open spec fn events_ordered(s: Seq<EventModel>) -> bool {
    forall|i: int, j: int| 0 <= i < j < s.len() ==> !event_before(s[j], s[i])
}

proof fn lemma_pair_not_less_trans(x: (Seq<char>, Seq<char>), l: (Seq<char>, Seq<char>), y: (Seq<char>, Seq<char>))
    requires
        !pair_less(x, l),
        !pair_less(l, y),
    ensures
        !pair_less(x, y),
{
    if pair_less(x, y) {
        if x != l {
            if x.0 != l.0 {
                lemma_less_total(x.0, l.0);
            } else {
                lemma_less_total(x.1, l.1);
            }
            assert(pair_less(l, x));
            // l < x < y
            if seq_less(l.0, x.0) {
                if seq_less(x.0, y.0) {
                    lemma_less_transitive(l.0, x.0, y.0);
                }
            } else {
                if seq_less(x.0, y.0) {
                } else {
                    lemma_less_transitive(l.1, x.1, y.1);
                }
            }
        }
    }
}

proof fn lemma_insert_event_ordered(s: Seq<EventModel>, x: EventModel)
    requires
        events_ordered(s),
    ensures
        events_ordered(insert_event(s, x)),
        insert_event(s, x).len() == s.len() + 1,
        forall|e: EventModel| #[trigger] insert_event(s, x).contains(e) <==> (s.contains(e) || e == x),
    decreases s.len(),
{
    let r = insert_event(s, x);
    if s.len() > 0 && event_before(x, s.last()) {
        let d = s.drop_last();
        let l = s.last();
        assert forall|i: int, j: int| 0 <= i < j < d.len() implies !event_before(d[j], d[i]) by {
            assert(d[i] == s[i] && d[j] == s[j]);
        }
        lemma_insert_event_ordered(d, x);
        let q = insert_event(d, x);
        assert(r == q.push(l));
        assert forall|e: EventModel| r.contains(e) <==> (s.contains(e) || e == x) by {
            if r.contains(e) {
                let k = choose|k: int| 0 <= k < r.len() && r[k] == e;
                if k < q.len() {
                    assert(q.contains(e));
                    if d.contains(e) {
                        let m = choose|m: int| 0 <= m < d.len() && d[m] == e;
                        assert(s[m] == e);
                    }
                } else {
                    assert(s[s.len() - 1] == e);
                }
            }
            if s.contains(e) {
                let m = choose|m: int| 0 <= m < s.len() && s[m] == e;
                if m < d.len() {
                    assert(d[m] == e);
                    assert(q.contains(e));
                    let k = choose|k: int| 0 <= k < q.len() && q[k] == e;
                    assert(r[k] == e);
                } else {
                    assert(r[q.len() as int] == e);
                }
            }
            if e == x {
                assert(q.contains(x));
                let k = choose|k: int| 0 <= k < q.len() && q[k] == x;
                assert(r[k] == x);
            }
        }
        assert forall|i: int, j: int| 0 <= i < j < r.len() implies !event_before(r[j], r[i]) by {
            if j == q.len() {
                assert(r[j] == l);
                assert(r[i] == q[i]);
                assert(q.contains(q[i]));
                if q[i] == x {
                    lemma_less_asymmetric_pair((x.table, x.name), (l.table, l.name));
                } else {
                    assert(d.contains(q[i]));
                    let m = choose|m: int| 0 <= m < d.len() && d[m] == q[i];
                    assert(s[m] == q[i]);
                    assert(!event_before(s[s.len() - 1], s[m]));
                }
            } else {
                assert(r[i] == q[i] && r[j] == q[j]);
            }
        }
    } else {
        assert(r == s.push(x));
        assert forall|e: EventModel| r.contains(e) <==> (s.contains(e) || e == x) by {
            if r.contains(e) {
                let k = choose|k: int| 0 <= k < r.len() && r[k] == e;
                if k < s.len() {
                    assert(s[k] == e);
                }
            }
            if s.contains(e) {
                let m = choose|m: int| 0 <= m < s.len() && s[m] == e;
                assert(r[m] == e);
            }
            if e == x {
                assert(r[s.len() as int] == x);
            }
        }
        assert forall|i: int, j: int| 0 <= i < j < r.len() implies !event_before(r[j], r[i]) by {
            if j == s.len() {
                assert(r[j] == x && r[i] == s[i]);
                if s.len() > 0 {
                    let l = s.last();
                    assert(!event_before(x, l));
                    if i < s.len() - 1 {
                        assert(!event_before(s[s.len() - 1], s[i]));
                        lemma_pair_not_less_trans((x.table, x.name), (l.table, l.name), (s[i].table, s[i].name));
                    }
                }
            } else {
                assert(r[i] == s[i] && r[j] == s[j]);
            }
        }
    }
}

proof fn lemma_less_asymmetric_pair(a: (Seq<char>, Seq<char>), b: (Seq<char>, Seq<char>))
    requires
        pair_less(a, b),
    ensures
        !pair_less(b, a),
{
    if seq_less(a.0, b.0) {
        lemma_less_asymmetric(a.0, b.0);
    } else {
        lemma_less_irreflexive(a.0);
        lemma_less_asymmetric(a.1, b.1);
    }
}

proof fn lemma_sort_events(s: Seq<EventModel>)
    ensures
        events_ordered(sort_events(s)),
        sort_events(s).len() == s.len(),
        forall|e: EventModel| #[trigger] sort_events(s).contains(e) <==> s.contains(e),
    decreases s.len(),
{
    if s.len() > 0 {
        let d = s.drop_last();
        lemma_sort_events(d);
        lemma_insert_event_ordered(sort_events(d), s.last());
        assert forall|e: EventModel| #[trigger] sort_events(s).contains(e) <==> s.contains(e) by {
            if sort_events(d).contains(e) {
                assert(d.contains(e));
                let m = choose|m: int| 0 <= m < d.len() && d[m] == e;
                assert(s[m] == e);
            }
            if s.contains(e) {
                let m = choose|m: int| 0 <= m < s.len() && s[m] == e;
                if m < d.len() {
                    assert(d[m] == e);
                    assert(d.contains(e));
                    assert(sort_events(d).contains(e));
                }
            }
        }
    }
}

/// The projection's event list is non-decreasing by `(table, name)` and holds
/// exactly the cross-record and guard events, as many as there are.
pub proof fn law_events_sorted(ts: Seq<Triple>, focus: Option<Seq<Seq<char>>>)
    ensures
        ({
            let raw = cross_events(wiring(ts, focus, ts.len() as int).cross, focus_models(focus)) + guard_events(
                ts,
                focus,
                ts.len() as int,
            );
            &&& events_ordered(sort_events(raw))
            &&& sort_events(raw).len() == raw.len()
            &&& forall|e: EventModel| #[trigger] sort_events(raw).contains(e) <==> raw.contains(e)
        }),
{
    let raw = cross_events(wiring(ts, focus, ts.len() as int).cross, focus_models(focus)) + guard_events(
        ts,
        focus,
        ts.len() as int,
    );
    lemma_sort_events(raw);
}

/// The test that leaf `l` of a child record changed in an update.
pub open spec fn leaf_changed(l: Seq<char>) -> Seq<char> {
    "$before."@ + l + " != $after."@ + l
}

/// The disjunction of the tests `cs`, first to last: `c0 OR c1 OR ...`.
pub open spec fn disjunction(cs: Seq<Seq<char>>) -> Seq<char>
    decreases cs.len(),
{
    if cs.len() == 0 {
        Seq::empty()
    } else if cs.len() == 1 {
        cs[0]
    } else {
        cs[0] + " OR "@ + disjunction(cs.drop_first())
    }
}

/// Joining peels off from the front as well as from the back.
proof fn lemma_join_front(cs: Seq<Seq<char>>, sep: Seq<char>)
    requires
        cs.len() >= 2,
    ensures
        join(cs, sep) == cs[0] + sep + join(cs.drop_first(), sep),
    decreases cs.len(),
{
    if cs.len() == 2 {
        assert(cs.drop_last().len() == 1);
        assert(cs.drop_first().len() == 1);
        assert(cs.drop_last()[0] == cs[0]);
        assert(cs.drop_first()[0] == cs[1]);
        assert(join(cs.drop_last(), sep) == cs[0]);
        assert(join(cs.drop_first(), sep) == cs[1]);
        assert(join(cs, sep) =~= cs[0] + sep + cs[1]);
    } else {
        let d = cs.drop_last();
        lemma_join_front(d, sep);
        assert(d.drop_first() =~= cs.drop_first().drop_last());
        assert(cs.drop_first().last() == cs.last());
        assert(join(cs, sep) =~= cs[0] + sep + join(cs.drop_first(), sep));
    }
}

proof fn lemma_join_disjunction(cs: Seq<Seq<char>>)
    ensures
        join(cs, " OR "@) == disjunction(cs),
    decreases cs.len(),
{
    if cs.len() >= 2 {
        lemma_join_front(cs, " OR "@);
        lemma_join_disjunction(cs.drop_first());
    }
}

/// `x` occurs in `w` at position `i`.
pub open spec fn occurs_at(w: Seq<char>, x: Seq<char>, i: int) -> bool {
    0 <= i && i + x.len() <= w.len() && w.subrange(i, i + x.len()) == x
}

proof fn lemma_occurs_shift(pre: Seq<char>, w: Seq<char>, post: Seq<char>, x: Seq<char>, i: int)
    requires
        occurs_at(w, x, i),
    ensures
        occurs_at(pre + w + post, x, pre.len() + i),
{
    assert((pre + w + post).subrange(pre.len() + i, pre.len() + i + x.len()) =~= w.subrange(i, i + x.len()));
}

/// The condition `w` holds the change test of leaf `l`.
pub open spec fn tests_leaf(w: Seq<char>, l: Seq<char>) -> bool {
    exists|i: int| occurs_at(w, leaf_changed(l), i)
}

/// Each test of a disjunction occurs in it.
proof fn lemma_disjunction_has(cs: Seq<Seq<char>>, k: int) -> (i: int)
    requires
        0 <= k < cs.len(),
    ensures
        occurs_at(disjunction(cs), cs[k], i),
    decreases cs.len(),
{
    if cs.len() == 1 {
        assert(disjunction(cs).subrange(0, cs[0].len() as int) =~= cs[0]);
        0
    } else if k == 0 {
        assert(disjunction(cs).subrange(0, cs[0].len() as int) =~= cs[0]);
        0
    } else {
        let t = cs.drop_first();
        let j = lemma_disjunction_has(t, k - 1);
        assert(t[k - 1] == cs[k]);
        let pre = cs[0] + " OR "@;
        lemma_occurs_shift(pre, disjunction(t), Seq::empty(), cs[k], j);
        assert(pre + disjunction(t) + Seq::<char>::empty() =~= disjunction(cs));
        pre.len() + j
    }
}

/// A cross-record event fires on an update that changes any one of the
/// depended-on child leaves: its condition is the update test and the
/// disjunction, over the leaves in order, of `$before.l != $after.l`, so
/// each leaf's change test occurs in it.
pub proof fn law_cross_event_fires_on_any_leaf(
    model: Seq<char>,
    rel: Seq<char>,
    leaves: Seq<Seq<char>>,
    parents: Seq<Seq<char>>,
    focus: Seq<Seq<char>>,
)
    ensures
        cross_event(model, rel, leaves, parents, focus).when == "$event = \"UPDATE\" AND ("@ + disjunction(
            leaves.map_values(|l: Seq<char>| leaf_changed(l)),
        ) + ")"@,
        forall|k: int|
            0 <= k < leaves.len() ==> tests_leaf(cross_event(model, rel, leaves, parents, focus).when, #[trigger] leaves[k]),
{
    let cs = leaves.map_values(|l: Seq<char>| leaf_changed(l));
    assert(leaves.map_values(|l: Seq<char>| "$before."@ + l + " != $after."@ + l) =~= cs);
    lemma_join_disjunction(cs);
    let w = cross_event(model, rel, leaves, parents, focus).when;
    let pre = "$event = \"UPDATE\" AND ("@;
    assert forall|k: int| 0 <= k < leaves.len() implies tests_leaf(w, #[trigger] leaves[k]) by {
        let j = lemma_disjunction_has(cs, k);
        lemma_occurs_shift(pre, disjunction(cs), ")"@, cs[k], j);
        assert(cs[k] == leaf_changed(leaves[k]));
        assert(w == pre + disjunction(cs) + ")"@);
        assert(occurs_at(w, leaf_changed(leaves[k]), pre.len() + j));
    }
}

} // verus!
