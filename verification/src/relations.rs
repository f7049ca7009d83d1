//! Typed relation overrides: the `(model, field) → (target, inverse)` ground
//! truth of Many2one / One2many / Many2many declarations.
//!
//! The name-heuristic resolver of [`crate::emit`] is right often enough to be
//! useful (`partner_id` → `res_partner`) but wrong on the Odoo cases that
//! don't follow convention (`invoice_line_ids` → `account_move_line`). The
//! canonical target is the first positional argument of the field decorator;
//! this map carries it. Names are underscored (`account_move_line`), matching
//! the SPO corpus IRI form.
use vstd::prelude::*;
use crate::text::str_eq;

verus! {

/// One Many2one / One2many / Many2many declaration.
#[derive(Debug, Clone, PartialEq, Eq)]
pub struct Relation {
    /// Owning model (underscored: `account_move`).
    pub model: String,
    /// Field name (`line_ids`, `partner_id`).
    pub field: String,
    /// Target table (underscored: `account_move_line`, `res_partner`).
    pub target: String,
    /// One2many inverse field on the target; `None` for Many2one / Many2many.
    pub inverse: Option<String>,
}

/// The view of an optional string.
pub open spec fn opt_view(o: Option<String>) -> Option<Seq<char>> {
    match o {
        Some(s) => Some(s@),
        None => None,
    }
}

/// The `(model, field)` key of a relation.
pub open spec fn rel_key(r: Relation) -> (Seq<char>, Seq<char>) {
    (r.model@, r.field@)
}

/// The `(target, inverse)` value of a relation.
pub open spec fn rel_val(r: Relation) -> (Seq<char>, Option<Seq<char>>) {
    (r.target@, opt_view(r.inverse))
}

/// No key occurs twice.
pub open spec fn keys_distinct(e: Seq<Relation>) -> bool {
    forall|i: int, j: int| 0 <= i < e.len() && 0 <= j < e.len() && i != j ==> rel_key(e[i]) != rel_key(e[j])
}

/// `i` holds key `k`.
pub open spec fn holds_key(e: Seq<Relation>, k: (Seq<char>, Seq<char>), i: int) -> bool {
    0 <= i < e.len() && rel_key(e[i]) == k
}

/// The map the entries denote.
pub open spec fn relation_map(e: Seq<Relation>) -> Map<(Seq<char>, Seq<char>), (Seq<char>, Option<Seq<char>>)> {
    Map::new(
        |k: (Seq<char>, Seq<char>)| exists|i: int| holds_key(e, k, i),
        |k: (Seq<char>, Seq<char>)| rel_val(e[choose|i: int| holds_key(e, k, i)]),
    )
}

proof fn lemma_entry_value(e: Seq<Relation>, i: int)
    requires
        keys_distinct(e),
        0 <= i < e.len(),
    ensures
        relation_map(e).dom().contains(rel_key(e[i])),
        relation_map(e)[rel_key(e[i])] == rel_val(e[i]),
{
    let k = rel_key(e[i]);
    assert(holds_key(e, k, i));
    let c = choose|c: int| holds_key(e, k, c);
    assert(c == i);
}

proof fn lemma_map_finite(e: Seq<Relation>)
    requires
        keys_distinct(e),
    ensures
        relation_map(e).dom() == e.map_values(|r: Relation| rel_key(r)).to_set(),
        relation_map(e).dom().len() == e.len(),
{
    let ks = e.map_values(|r: Relation| rel_key(r));
    assert forall|k: (Seq<char>, Seq<char>)| relation_map(e).dom().contains(k) <==> ks.to_set().contains(
        k,
    ) by {
        if relation_map(e).dom().contains(k) {
            let i = choose|i: int| holds_key(e, k, i);
            assert(ks[i] == k);
        }
        if ks.to_set().contains(k) {
            let i = choose|i: int| 0 <= i < ks.len() && ks[i] == k;
            assert(holds_key(e, k, i));
        }
    }
    assert(relation_map(e).dom() =~= ks.to_set());
    assert(ks.no_duplicates());
    ks.unique_seq_to_set();
}

/// A lookup table from `(model, field)` to the declared target table and
/// inverse.
#[derive(Debug)]
pub struct RelationMap {
    by_field: Vec<Relation>,
}

impl View for RelationMap {
    type V = Map<(Seq<char>, Seq<char>), (Seq<char>, Option<Seq<char>>)>;

    /// `(model, field) → (target, inverse)`.
    closed spec fn view(&self) -> Self::V {
        relation_map(self.by_field@)
    }
}

impl RelationMap {
    #[verifier::type_invariant]
    spec fn inv(&self) -> bool {
        keys_distinct(self.by_field@)
    }

    /// An empty map. Consumers treat an empty map and no map alike: both fall
    /// back to the naming-convention ladder.
    pub fn new() -> (m: RelationMap)
        ensures
            m@ == Map::<(Seq<char>, Seq<char>), (Seq<char>, Option<Seq<char>>)>::empty(),
            m@.dom().finite(),
    {
        let m = RelationMap { by_field: Vec::new() };
        assert(m@ =~= Map::<(Seq<char>, Seq<char>), (Seq<char>, Option<Seq<char>>)>::empty());
        m
    }

    fn position(&self, model: &str, field: &str) -> (res: Option<usize>)
        ensures
            match res {
                Some(i) => holds_key(self.by_field@, (model@, field@), i as int),
                None => !(exists|i: int| holds_key(self.by_field@, (model@, field@), i)),
            },
    {
        let mut i: usize = 0;
        while i < self.by_field.len()
            invariant
                i <= self.by_field.len(),
                forall|j: int| 0 <= j < i ==> !holds_key(self.by_field@, (model@, field@), j),
            decreases self.by_field.len() - i,
        {
            if str_eq(self.by_field[i].model.as_str(), model) && str_eq(
                self.by_field[i].field.as_str(),
                field,
            ) {
                return Some(i);
            }
            i += 1;
        }
        None
    }

    /// Add a relation override; a later override of the same `(model, field)`
    /// replaces the earlier one.
    pub fn insert(&mut self, model: String, field: String, target: String, inverse: Option<String>)
        ensures
            final(self)@ == old(self)@.insert((model@, field@), (target@, opt_view(inverse))),
            final(self)@.dom().finite(),
    {
        proof {
            use_type_invariant(&*self);
            lemma_map_finite(self.by_field@);
        }
        let ghost old_e = self.by_field@;
        let ghost k = (model@, field@);
        let ghost val = (target@, opt_view(inverse));
        let pos = self.position(model.as_str(), field.as_str());
        let r = Relation { model, field, target, inverse };
        let mut entries: Vec<Relation> = Vec::new();
        std::mem::swap(&mut entries, &mut self.by_field);
        match pos {
            Some(i) => {
                entries.remove(i);
                entries.insert(i, r);
                proof {
                    let ne = entries@;
                    assert(ne =~= old_e.update(i as int, r));
                    assert forall|a: int, b: int| 0 <= a < ne.len() && 0 <= b < ne.len() && a != b implies rel_key(
                        ne[a],
                    ) != rel_key(ne[b]) by {
                        if a != i && b != i {
                        } else if a == i {
                            assert(rel_key(ne[a]) == rel_key(old_e[a]));
                        } else {
                            assert(rel_key(ne[b]) == rel_key(old_e[b]));
                        }
                    }
                    assert forall|kk: (Seq<char>, Seq<char>)| relation_map(ne).dom().contains(kk) <==> relation_map(
                        old_e,
                    ).insert(k, val).dom().contains(kk) by {
                        if relation_map(ne).dom().contains(kk) {
                            let j = choose|j: int| holds_key(ne, kk, j);
                            if j != i {
                                assert(holds_key(old_e, kk, j));
                            }
                        }
                        if relation_map(old_e).dom().contains(kk) {
                            let j = choose|j: int| holds_key(old_e, kk, j);
                            if j != i {
                                assert(holds_key(ne, kk, j));
                            } else {
                                assert(holds_key(ne, kk, i as int));
                            }
                        }
                        if kk == k {
                            assert(holds_key(ne, kk, i as int));
                        }
                    }
                    assert forall|kk: (Seq<char>, Seq<char>)| relation_map(ne).dom().contains(kk) implies relation_map(
                        ne,
                    )[kk] == relation_map(old_e).insert(k, val)[kk] by {
                        let j = choose|j: int| holds_key(ne, kk, j);
                        lemma_entry_value(ne, j);
                        if j != i {
                            assert(ne[j] == old_e[j]);
                            lemma_entry_value(old_e, j);
                        }
                    }
                    assert(relation_map(ne) =~= relation_map(old_e).insert(k, val));
                }
            },
            None => {
                entries.push(r);
                proof {
                    let ne = entries@;
                    assert(ne =~= old_e.push(r));
                    assert forall|a: int, b: int| 0 <= a < ne.len() && 0 <= b < ne.len() && a != b implies rel_key(
                        ne[a],
                    ) != rel_key(ne[b]) by {
                        if a == old_e.len() {
                            assert(!holds_key(old_e, k, b));
                        } else if b == old_e.len() {
                            assert(!holds_key(old_e, k, a));
                        }
                    }
                    let last = old_e.len() as int;
                    assert forall|kk: (Seq<char>, Seq<char>)| relation_map(ne).dom().contains(kk) <==> relation_map(
                        old_e,
                    ).insert(k, val).dom().contains(kk) by {
                        if relation_map(ne).dom().contains(kk) {
                            let j = choose|j: int| holds_key(ne, kk, j);
                            if j != last {
                                assert(holds_key(old_e, kk, j));
                            }
                        }
                        if relation_map(old_e).dom().contains(kk) {
                            let j = choose|j: int| holds_key(old_e, kk, j);
                            assert(holds_key(ne, kk, j));
                        }
                        if kk == k {
                            assert(holds_key(ne, kk, last));
                        }
                    }
                    assert forall|kk: (Seq<char>, Seq<char>)| relation_map(ne).dom().contains(kk) implies relation_map(
                        ne,
                    )[kk] == relation_map(old_e).insert(k, val)[kk] by {
                        let j = choose|j: int| holds_key(ne, kk, j);
                        lemma_entry_value(ne, j);
                        if j != last {
                            assert(ne[j] == old_e[j]);
                            lemma_entry_value(old_e, j);
                        }
                    }
                    assert(relation_map(ne) =~= relation_map(old_e).insert(k, val));
                }
            },
        }
        self.by_field = entries;
    }

    /// The declared target table for `<model>.<field>`, if known.
    pub fn target(&self, model: &str, field: &str) -> (res: Option<&str>)
        ensures
            match res {
                Some(t) => self@.dom().contains((model@, field@)) && t@ == self@[(model@, field@)].0,
                None => !self@.dom().contains((model@, field@)),
            },
    {
        proof {
            use_type_invariant(self);
        }
        match self.position(model, field) {
            Some(i) => {
                proof {
                    lemma_entry_value(self.by_field@, i as int);
                }
                Some(self.by_field[i].target.as_str())
            },
            None => None,
        }
    }

    /// The declared inverse field on the target (One2many back-ref), if known.
    pub fn inverse(&self, model: &str, field: &str) -> (res: Option<&str>)
        ensures
            match res {
                Some(t) => self@.dom().contains((model@, field@)) && self@[(model@, field@)].1
                    == Some(t@),
                None => !self@.dom().contains((model@, field@)) || self@[(model@,
                field@)].1 is None,
            },
    {
        proof {
            use_type_invariant(self);
        }
        match self.position(model, field) {
            Some(i) => {
                proof {
                    lemma_entry_value(self.by_field@, i as int);
                }
                match &self.by_field[i].inverse {
                    Some(inv) => Some(inv.as_str()),
                    None => None,
                }
            },
            None => None,
        }
    }

    /// Number of declared relations.
    pub fn len(&self) -> (n: usize)
        ensures
            n == self@.dom().len(),
            self@.dom().finite(),
    {
        proof {
            use_type_invariant(self);
            lemma_map_finite(self.by_field@);
        }
        self.by_field.len()
    }

    /// Whether the map carries any overrides.
    pub fn is_empty(&self) -> (b: bool)
        ensures
            b == (self@.dom().len() == 0),
    {
        proof {
            use_type_invariant(self);
            lemma_map_finite(self.by_field@);
        }
        self.by_field.len() == 0
    }
}

/// A later override of the same `(model, field)` replaces the earlier one:
/// after [`RelationMap::insert`], [`RelationMap::target`] and
/// [`RelationMap::inverse`] read back what was written, every other key reads
/// as before, and [`RelationMap::len`] grows only for a new key.
pub proof fn law_override_replaces(
    before: Map<(Seq<char>, Seq<char>), (Seq<char>, Option<Seq<char>>)>,
    model: Seq<char>,
    field: Seq<char>,
    target: Seq<char>,
    inverse: Option<Seq<char>>,
)
    requires
        before.dom().finite(),
    ensures
        ({
            let after = before.insert((model, field), (target, inverse));
            &&& after.dom().contains((model, field))
            &&& after[(model, field)] == (target, inverse)
            &&& forall|k: (Seq<char>, Seq<char>)|
                k != (model, field) ==> (after.dom().contains(k) == before.dom().contains(k) && (before.dom().contains(k)
                    ==> after[k] == before[k]))
            &&& after.dom().len() == before.dom().len() + (if before.dom().contains((model, field)) {
                0int
            } else {
                1int
            })
        }),
{
    let after = before.insert((model, field), (target, inverse));
    if before.dom().contains((model, field)) {
        assert(after.dom() =~= before.dom());
    }
}

} // verus!
