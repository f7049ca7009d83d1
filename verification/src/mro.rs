//! C3 method-resolution order over the corpus's `inherits_from` graph.
//!
//! [`crate::inheritance::InheritanceMap`] keeps each model's bases as a set,
//! which loses the declaration order of the `_inherit` bases. Odoo assembles
//! bases in declaration order and Python's C3 runs over that tuple, so the
//! order is load-bearing for method resolution. This module keeps
//! first-occurrence declaration order and offers both resolutions:
//!
//! - [`Mro::resolve_c3`]: the first definer along the C3 linearization of
//!   the declaration-order base tuple (what Odoo does);
//! - [`Mro::resolve_naive_dfs`]: parent-first pre-order depth-first search
//!   over the declaration-order bases. On single chains it agrees with C3;
//!   on a diamond D(B, C), B(A), C(A) with the method on A and C it picks A
//!   where C3 picks C.
use vstd::prelude::*;
use crate::inheritance::{inherits_pair, inherits_pairs, spec_bare_model, view_strrefs};
use crate::rel::{domain, image, lemma_absent_image, lemma_entry_image, lemma_rel_len, rel_insert, rel_view, rel_wf, RelEntry};
use crate::strset::{contains_str, key_find, keys_of, lemma_sorted_no_dup, sorted, sorted_find, sorted_insert, sorted_remove, view_strs};
use crate::text::{contains_char, first_pos, has_prefix, is_first, rsplit_once, rsplit_once_char, str_eq};
use crate::triple::{spec_strip_ns, strip_ns, Triple};

verus! {

/// Linearization failure over the `inherits_from` graph.
#[derive(Debug, Clone, PartialEq, Eq)]
pub enum MroError {
    /// The C3 merge stalled: no candidate head is free of every other list's
    /// tail while non-empty lists remain (Python raises `TypeError: Cannot
    /// create a consistent method resolution order`).
    Inconsistent {
        /// The class whose linearization was requested.
        class: String,
    },
    /// The `inherits_from` graph cycles through this class.
    Cycle {
        /// The class re-entered while its own linearization was in progress.
        class: String,
    },
}

/// The abstract failure of a linearization.
pub enum LinFail {
    /// The merge for this class stalled.
    Inconsistent(Seq<char>),
    /// This class was re-entered.
    Cycle(Seq<char>),
}

impl MroError {
    /// The abstract failure.
    pub open spec fn fail(&self) -> LinFail {
        match self {
            MroError::Inconsistent { class } => LinFail::Inconsistent(class@),
            MroError::Cycle { class } => LinFail::Cycle(class@),
        }
    }
}

/// The human-readable text of a failure.
pub open spec fn fail_message(f: LinFail) -> Seq<char> {
    match f {
        LinFail::Inconsistent(c) => "no consistent C3 linearization for `"@ + c + "`"@,
        LinFail::Cycle(c) => "inherits_from cycle through `"@ + c + "`"@,
    }
}

impl MroError {
    /// The message this error displays.
    pub fn message(&self) -> (s: String)
        ensures
            s@ == fail_message(self.fail()),
    {
        match self {
            MroError::Inconsistent { class } => {
                let mut s = String::from_str("no consistent C3 linearization for `");
                s.append(class.as_str());
                s.append("`");
                s
            },
            MroError::Cycle { class } => {
                let mut s = String::from_str("inherits_from cycle through `");
                s.append(class.as_str());
                s.append("`");
                s
            },
        }
    }
}

// ── the corpus → graph specification ────────────────────────────────────────

/// The class an IRI names: its local part (after the first `:`), in any
/// namespace. An IRI whose local part holds a member dot names a member, not
/// a class.
pub open spec fn spec_class_name(iri: Seq<char>) -> Option<Seq<char>> {
    let local = spec_strip_ns(iri);
    if local.contains('.') {
        None
    } else {
        Some(local)
    }
}

/// The class an IRI names, if it names one: `odoo:account_move` and
/// `ogit:account_move` give `account_move`; `odoo:account_move.name` gives
/// nothing.
pub fn class_name(iri: &str) -> (res: Option<&str>)
    ensures
        match res {
            Some(c) => spec_class_name(iri@) == Some(c@),
            None => spec_class_name(iri@) is None,
        },
{
    let local = strip_ns(iri);
    if contains_char(local, '.') {
        None
    } else {
        Some(local)
    }
}

/// The `(child, base)` pair an `inherits_from` triple contributes, if both
/// ends name classes.
pub open spec fn base_pair(t: Triple) -> Option<(Seq<char>, Seq<char>)> {
    if t.p@ == "inherits_from"@ {
        match (spec_class_name(t.s@), spec_class_name(t.o@)) {
            (Some(c), Some(b)) => Some((c, b)),
            _ => None,
        }
    } else {
        None
    }
}

/// Every `(child, base)` pair the triples declare.
pub open spec fn base_pairs(ts: Seq<Triple>) -> Set<(Seq<char>, Seq<char>)> {
    Set::new(|pr: (Seq<char>, Seq<char>)| exists|i: int| 0 <= i < ts.len() && base_pair(ts[i]) == Some(pr))
}

/// The bases declared for `c`, in first-occurrence order of the
/// `inherits_from` triples.
pub open spec fn decl_bases(ts: Seq<Triple>, c: Seq<char>) -> Seq<Seq<char>>
    decreases ts.len(),
{
    if ts.len() == 0 {
        Seq::empty()
    } else {
        let d = decl_bases(ts.drop_last(), c);
        match base_pair(ts.last()) {
            Some(pr) => if pr.0 == c && !d.contains(pr.1) {
                d.push(pr.1)
            } else {
                d
            },
            None => d,
        }
    }
}

/// Child → declared bases, for every child with an `inherits_from` triple.
pub open spec fn spec_bases(ts: Seq<Triple>) -> Map<Seq<char>, Seq<Seq<char>>> {
    Map::new(|c: Seq<char>| domain(base_pairs(ts)).contains(c), |c: Seq<char>| decl_bases(ts, c))
}

/// The `(owner, method name)` a `has_function` triple contributes: the class
/// its subject names and the member segment after the object's last dot.
pub open spec fn own_pair(t: Triple) -> Option<(Seq<char>, Seq<char>)> {
    if t.p@ == "has_function"@ {
        match (spec_class_name(t.s@), rsplit_once(spec_strip_ns(t.o@), '.')) {
            (Some(owner), Some((_, name))) => Some((owner, name)),
            _ => None,
        }
    } else {
        None
    }
}

/// Every `(owner, method name)` pair of the triples.
pub open spec fn own_pairs(ts: Seq<Triple>) -> Set<(Seq<char>, Seq<char>)> {
    Set::new(|pr: (Seq<char>, Seq<char>)| exists|i: int| 0 <= i < ts.len() && own_pair(ts[i]) == Some(pr))
}

/// Whether triple `t` names `c` as a child, a base or a method owner.
pub open spec fn names_class(t: Triple, c: Seq<char>) -> bool {
    ||| (base_pair(t) matches Some(pr) && (pr.0 == c || pr.1 == c))
    ||| (own_pair(t) matches Some(q) && q.0 == c)
}

/// Every class seen: children, bases and method owners.
pub open spec fn mro_classes(ts: Seq<Triple>) -> Set<Seq<char>> {
    Set::new(|c: Seq<char>| exists|i: int| 0 <= i < ts.len() && #[trigger] names_class(ts[i], c))
}

/// One child with its bases in declaration order.
pub type BaseEntry = (String, Vec<String>);

/// Keys strictly increasing; every base list duplicate-free and non-empty.
pub open spec fn bases_wf(e: Seq<BaseEntry>) -> bool {
    &&& sorted(keys_of(e))
    &&& forall|i: int| 0 <= i < e.len() ==> view_strs(#[trigger] e[i].1@).no_duplicates() && e[i].1@.len() > 0
}

/// Position `i` holds key `k`.
pub open spec fn base_at(e: Seq<BaseEntry>, k: Seq<char>, i: int) -> bool {
    0 <= i < e.len() && e[i].0@ == k
}

/// The map the entries denote.
pub open spec fn base_map(e: Seq<BaseEntry>) -> Map<Seq<char>, Seq<Seq<char>>> {
    Map::new(
        |k: Seq<char>| exists|i: int| base_at(e, k, i),
        |k: Seq<char>| view_strs(e[choose|i: int| base_at(e, k, i)].1@),
    )
}

proof fn lemma_base_entry(e: Seq<BaseEntry>, i: int)
    requires
        sorted(keys_of(e)),
        0 <= i < e.len(),
    ensures
        base_map(e).dom().contains(e[i].0@),
        base_map(e)[e[i].0@] == view_strs(e[i].1@),
{
    lemma_sorted_no_dup(keys_of(e));
    assert(base_at(e, e[i].0@, i));
    let c = choose|c: int| base_at(e, e[i].0@, c);
    assert(keys_of(e)[c] == keys_of(e)[i]);
}

proof fn lemma_base_absent(e: Seq<BaseEntry>, k: Seq<char>)
    requires
        !keys_of(e).contains(k),
    ensures
        !base_map(e).dom().contains(k),
{
    if base_map(e).dom().contains(k) {
        let c = choose|c: int| base_at(e, k, c);
        assert(keys_of(e)[c] == k);
    }
}

/// Append `base` to the bases of `child` unless it is already declared.
#[verifier::spinoff_prover]
fn add_base(e: &mut Vec<BaseEntry>, child: &str, base: &str)
    requires
        bases_wf(old(e)@),
    ensures
        bases_wf(final(e)@),
        base_map(final(e)@) == base_map(old(e)@).insert(
            child@,
            if base_map(old(e)@).dom().contains(child@) {
                let d = base_map(old(e)@)[child@];
                if d.contains(base@) {
                    d
                } else {
                    d.push(base@)
                }
            } else {
                seq![base@]
            },
        ),
{
    let ghost old_e = e@;
    match key_find(e, child) {
        Ok(i) => {
            proof {
                lemma_base_entry(old_e, i as int);
            }
            if !contains_str(e[i].1.as_slice(), base) {
                let (k, mut vals) = e.remove(i);
                let ghost old_vals = vals@;
                vals.push(base.to_owned());
                e.insert(i, (k, vals));
                proof {
                    let ne = e@;
                    assert(view_strs(vals@) =~= view_strs(old_vals).push(base@));
                    assert forall|j: int| 0 <= j < ne.len() implies ne[j] == (if j == i {
                        (old_e[i as int].0, vals)
                    } else {
                        old_e[j]
                    }) by {}
                    assert(keys_of(ne) =~= keys_of(old_e));
                    assert forall|a: int, b: int| 0 <= a < view_strs(vals@).len() && 0 <= b < view_strs(vals@).len() && a != b
                        implies view_strs(vals@)[a] != view_strs(vals@)[b] by {
                        if b == old_vals.len() {
                            assert(view_strs(old_vals).contains(view_strs(vals@)[a]) ==> view_strs(old_vals)[a] == view_strs(vals@)[a]);
                        }
                        if a == old_vals.len() {
                            assert(view_strs(old_vals)[b] == view_strs(vals@)[b]);
                        }
                    }
                    assert(bases_wf(ne));
                    lemma_base_entry(ne, i as int);
                    assert forall|k: Seq<char>| base_map(ne).dom().contains(k) <==> base_map(old_e).insert(child@, view_strs(old_vals).push(base@)).dom().contains(k) by {
                        if base_map(ne).dom().contains(k) {
                            let c = choose|c: int| base_at(ne, k, c);
                            assert(base_at(old_e, k, c));
                        }
                        if base_map(old_e).dom().contains(k) {
                            let c = choose|c: int| base_at(old_e, k, c);
                            assert(base_at(ne, k, c));
                        }
                    }
                    assert forall|k: Seq<char>| base_map(ne).dom().contains(k) implies base_map(ne)[k] == base_map(old_e).insert(child@, view_strs(old_vals).push(base@))[k] by {
                        let c = choose|c: int| base_at(ne, k, c);
                        lemma_base_entry(ne, c);
                        lemma_base_entry(old_e, c);
                    }
                    assert(base_map(ne) =~= base_map(old_e).insert(child@, view_strs(old_vals).push(base@)));
                }
            } else {
                proof {
                    assert(base_map(old_e).insert(child@, base_map(old_e)[child@]) =~= base_map(old_e));
                }
            }
        },
        Err(p) => {
            let mut vals: Vec<String> = Vec::new();
            vals.push(base.to_owned());
            let entry: BaseEntry = (child.to_owned(), vals);
            let ghost ent = entry;
            e.insert(p, entry);
            proof {
                lemma_base_absent(old_e, child@);
                let ne = e@;
                assert(ne =~= old_e.insert(p as int, ent));
                assert(keys_of(ne) =~= keys_of(old_e).insert(p as int, child@));
                assert forall|a: int, b: int| 0 <= a < b < keys_of(ne).len() implies crate::text::seq_less(keys_of(ne)[a], keys_of(ne)[b]) by {
                    if b < p {
                    } else if b == p {
                        assert(keys_of(ne)[a] == old_e[a].0@);
                    } else if a < p {
                        assert(keys_of(ne)[b] == old_e[b - 1].0@);
                        crate::text::lemma_less_transitive(keys_of(ne)[a], child@, keys_of(ne)[b]);
                    } else if a == p {
                        assert(keys_of(ne)[b] == old_e[b - 1].0@);
                    } else {
                        assert(keys_of(ne)[a] == keys_of(old_e)[a - 1]);
                        assert(keys_of(ne)[b] == keys_of(old_e)[b - 1]);
                    }
                }
                assert(view_strs(vals@) =~= seq![base@]);
                assert forall|j: int| 0 <= j < ne.len() implies view_strs(#[trigger] ne[j].1@).no_duplicates() && ne[j].1@.len() > 0 by {
                    if j < p {
                        assert(ne[j] == old_e[j]);
                    } else if j > p {
                        assert(ne[j] == old_e[j - 1]);
                    }
                }
                assert(bases_wf(ne));
                let target = base_map(old_e).insert(child@, seq![base@]);
                assert forall|k: Seq<char>| base_map(ne).dom().contains(k) <==> target.dom().contains(k) by {
                    if base_map(ne).dom().contains(k) {
                        let c = choose|c: int| base_at(ne, k, c);
                        if c < p {
                            assert(base_at(old_e, k, c));
                        } else if c > p {
                            assert(base_at(old_e, k, c - 1));
                        }
                    }
                    if base_map(old_e).dom().contains(k) {
                        let c = choose|c: int| base_at(old_e, k, c);
                        if c < p {
                            assert(base_at(ne, k, c));
                        } else {
                            assert(base_at(ne, k, c + 1));
                        }
                    }
                    if k == child@ {
                        assert(base_at(ne, k, p as int));
                    }
                }
                assert forall|k: Seq<char>| base_map(ne).dom().contains(k) implies base_map(ne)[k] == target[k] by {
                    let c = choose|c: int| base_at(ne, k, c);
                    lemma_base_entry(ne, c);
                    if c < p {
                        lemma_base_entry(old_e, c);
                    } else if c > p {
                        lemma_base_entry(old_e, c - 1);
                    }
                }
                assert(base_map(ne) =~= target);
            }
        },
    }
}

/// A child with no `inherits_from` triple declares no bases.
proof fn lemma_decl_empty(ts: Seq<Triple>, c: Seq<char>)
    requires
        !domain(base_pairs(ts)).contains(c),
    ensures
        decl_bases(ts, c) == Seq::<Seq<char>>::empty(),
    decreases ts.len(),
{
    if ts.len() > 0 {
        let d = ts.drop_last();
        assert forall|b: Seq<char>| !base_pairs(d).contains((c, b)) by {
            if base_pairs(d).contains((c, b)) {
                let j = choose|j: int| 0 <= j < d.len() && base_pair(d[j]) == Some((c, b));
                assert(ts[j] == d[j]);
                assert(base_pairs(ts).contains((c, b)));
            }
        }
        lemma_decl_empty(d, c);
        if let Some(pr) = base_pair(ts.last()) {
            if pr.0 == c {
                assert(base_pairs(ts).contains(pr));
            }
        }
    }
}

/// The inheritance graph in declaration order and each class's own method
/// names, lifted from `inherits_from` / `has_function` triples.
#[derive(Debug)]
pub struct Mro {
    /// child → declared bases in first-occurrence declaration order.
    bases: Vec<BaseEntry>,
    /// class → method names it defines itself.
    own: Vec<RelEntry>,
    /// Every class seen, ascending.
    classes: Vec<String>,
}

/// The abstract inheritance graph.
pub struct MroModel {
    /// child → declared bases, in declaration order.
    pub bases: Map<Seq<char>, Seq<Seq<char>>>,
    /// `(class, method name)`: the class defines the method itself.
    pub own: Set<(Seq<char>, Seq<char>)>,
    /// Every class seen.
    pub classes: Set<Seq<char>>,
}

impl Mro {
    /// The abstract graph.
    pub closed spec fn model(&self) -> MroModel {
        MroModel { bases: base_map(self.bases@), own: rel_view(self.own@), classes: view_strs(self.classes@).to_set() }
    }

    /// The classes in ascending order.
    pub closed spec fn class_seq(&self) -> Seq<Seq<char>> {
        view_strs(self.classes@)
    }

    #[verifier::type_invariant]
    spec fn inv(&self) -> bool {
        &&& bases_wf(self.bases@)
        &&& rel_wf(self.own@)
        &&& sorted(view_strs(self.classes@))
    }

    /// Build from a triple slice. `inherits_from` edges keep the order in
    /// which they occur (first occurrence wins; duplicates are dropped
    /// without reordering); `has_function` objects contribute the owning
    /// class's method names. A class endpoint may lie in any namespace
    /// (`odoo:`, `ogit:`, ...); one whose local part holds a member dot names
    /// a member and is skipped.
    pub fn from_triples(triples: &[Triple]) -> (mro: Mro)
        ensures
            mro.model().bases == spec_bases(triples@),
            mro.model().own == own_pairs(triples@),
            mro.model().classes == mro_classes(triples@),
            mro.model().bases.dom().finite(),
            mro.model().own.finite(),
            mro.model().classes.finite(),
    {
        let ghost ts = triples@;
        let mut bases: Vec<BaseEntry> = Vec::new();
        let mut own: Vec<RelEntry> = Vec::new();
        let mut classes: Vec<String> = Vec::new();
        let mut i: usize = 0;
        proof {
            assert(base_map(bases@) =~= spec_bases(ts.take(0)));
            assert(rel_view(own@) =~= own_pairs(ts.take(0)));
            assert(view_strs(classes@).to_set() =~= mro_classes(ts.take(0)));
            assert(keys_of(bases@) =~= Seq::<Seq<char>>::empty());
            assert(keys_of(own@) =~= Seq::<Seq<char>>::empty());
        }
        while i < triples.len()
            invariant
                ts == triples@,
                i <= triples.len(),
                bases_wf(bases@),
                rel_wf(own@),
                sorted(view_strs(classes@)),
                base_map(bases@) == spec_bases(ts.take(i as int)),
                rel_view(own@) == own_pairs(ts.take(i as int)),
                view_strs(classes@).to_set() == mro_classes(ts.take(i as int)),
            decreases triples.len() - i,
        {
            let t = &triples[i];
            let ghost tk0 = ts.take(i as int);
            let ghost tk1 = ts.take(i + 1);
            let ghost b0 = base_map(bases@);
            let ghost o0 = rel_view(own@);
            let ghost c0 = view_strs(classes@).to_set();
            proof {
                assert(tk1 =~= tk0.push(ts[i as int]));
                assert(tk1.drop_last() =~= tk0);
            }
            if str_eq(t.p.as_str(), "inherits_from") {
                match (class_name(t.s.as_str()), class_name(t.o.as_str())) {
                    (Some(child), Some(base)) => {
                        sorted_insert(&mut classes, child);
                        sorted_insert(&mut classes, base);
                        proof {
                            if !domain(base_pairs(tk0)).contains(child@) {
                                lemma_decl_empty(tk0, child@);
                            }
                        }
                        add_base(&mut bases, child, base);
                    },
                    _ => {},
                }
            } else if str_eq(t.p.as_str(), "has_function") {
                if let Some(owner) = class_name(t.s.as_str()) {
                    if let Some((_, name)) = rsplit_once_char(strip_ns(t.o.as_str()), '.') {
                        sorted_insert(&mut classes, owner);
                        rel_insert(&mut own, owner, name);
                    }
                }
            }
            proof {
                reveal_strlit("inherits_from");
                reveal_strlit("has_function");
                assert("inherits_from"@.len() != "has_function"@.len());
                self::lemma_from_step(ts, i as int, b0, o0, c0, base_map(bases@), rel_view(own@), view_strs(classes@).to_set());
            }
            i += 1;
        }
        proof {
            assert(ts.take(ts.len() as int) =~= ts);
        }
        proof {
            lemma_base_dom(bases@);
            lemma_rel_len(own@);
        }
        Mro { bases, own, classes }
    }
}

impl Mro {
    /// Every class seen in the corpus, in ascending order.
    pub fn classes(&self) -> (res: Vec<&str>)
        ensures
            view_strrefs(res@) == self.class_seq(),
            sorted(self.class_seq()),
            self.class_seq().to_set() == self.model().classes,
    {
        proof {
            use_type_invariant(self);
        }
        let mut out: Vec<&str> = Vec::new();
        let mut j: usize = 0;
        while j < self.classes.len()
            invariant
                j <= self.classes@.len(),
                view_strrefs(out@) == view_strs(self.classes@).take(j as int),
            decreases self.classes@.len() - j,
        {
            let ghost before = out@;
            let x = self.classes[j].as_str();
            out.push(x);
            proof {
                assert(out@ =~= before.push(x));
                assert(view_strs(self.classes@)[j as int] == x@);
                assert(view_strrefs(out@) =~= view_strrefs(before).push(x@));
                assert(view_strs(self.classes@).take(j + 1) =~= view_strs(self.classes@).take(j as int).push(x@));
                assert(view_strrefs(out@) =~= view_strs(self.classes@).take(j + 1));
            }
            j += 1;
        }
        proof {
            assert(view_strs(self.classes@).take(self.classes@.len() as int) =~= view_strs(self.classes@));
        }
        out
    }

    /// The declared bases of `class` in first-occurrence declaration order;
    /// empty for a class with none.
    pub fn declared_bases(&self, class: &str) -> (res: &[String])
        ensures
            view_strs(res@) == (if self.model().bases.dom().contains(class@) {
                self.model().bases[class@]
            } else {
                Seq::empty()
            }),
    {
        proof {
            use_type_invariant(self);
        }
        match key_find(&self.bases, class) {
            Ok(i) => {
                proof {
                    lemma_base_entry(self.bases@, i as int);
                }
                self.bases[i].1.as_slice()
            },
            Err(_) => {
                proof {
                    lemma_base_absent(self.bases@, class@);
                }
                let none: &[String] = &[];
                proof {
                    assert(view_strs(none@) =~= Seq::<Seq<char>>::empty());
                }
                none
            },
        }
    }

    /// Method names `class` defines itself, ascending.
    pub fn own_method_names(&self, class: &str) -> (res: Vec<&str>)
        ensures
            sorted(view_strrefs(res@)),
            view_strrefs(res@).to_set() == image(self.model().own, class@),
    {
        proof {
            use_type_invariant(self);
        }
        match key_find(&self.own, class) {
            Ok(i) => {
                let vals = &self.own[i].1;
                let mut out: Vec<&str> = Vec::new();
                let mut j: usize = 0;
                while j < vals.len()
                    invariant
                        j <= vals.len(),
                        view_strrefs(out@) == view_strs(vals@).take(j as int),
                    decreases vals.len() - j,
                {
                    let ghost before = out@;
                    let x = vals[j].as_str();
                    out.push(x);
                    proof {
                        assert(out@ =~= before.push(x));
                        assert(view_strs(vals@)[j as int] == x@);
                        assert(view_strrefs(out@) =~= view_strrefs(before).push(x@));
                        assert(view_strs(vals@).take(j + 1) =~= view_strs(vals@).take(j as int).push(x@));
                        assert(view_strrefs(out@) =~= view_strs(vals@).take(j + 1));
                    }
                    j += 1;
                }
                proof {
                    assert(view_strs(vals@).take(vals.len() as int) =~= view_strs(vals@));
                    lemma_entry_image(self.own@, i as int);
                }
                out
            },
            Err(_) => {
                proof {
                    lemma_absent_image(self.own@, class@);
                    assert(view_strrefs(Seq::<&str>::empty()).to_set() =~= Set::<Seq<char>>::empty());
                }
                Vec::new()
            },
        }
    }
}

/// One triple's step of [`Mro::from_triples`].
proof fn lemma_from_step(
    ts: Seq<Triple>,
    i: int,
    b0: Map<Seq<char>, Seq<Seq<char>>>,
    o0: Set<(Seq<char>, Seq<char>)>,
    c0: Set<Seq<char>>,
    b1: Map<Seq<char>, Seq<Seq<char>>>,
    o1: Set<(Seq<char>, Seq<char>)>,
    c1: Set<Seq<char>>,
)
    requires
        0 <= i < ts.len(),
        b0 == spec_bases(ts.take(i)),
        o0 == own_pairs(ts.take(i)),
        c0 == mro_classes(ts.take(i)),
        b1 == (match base_pair(ts[i]) {
            Some(pr) => b0.insert(
                pr.0,
                if b0.dom().contains(pr.0) {
                    if b0[pr.0].contains(pr.1) {
                        b0[pr.0]
                    } else {
                        b0[pr.0].push(pr.1)
                    }
                } else {
                    seq![pr.1]
                },
            ),
            None => b0,
        }),
        o1 == (match own_pair(ts[i]) {
            Some(q) => o0.insert(q),
            None => o0,
        }),
        c1 == (match base_pair(ts[i]) {
            Some(pr) => c0.insert(pr.0).insert(pr.1),
            None => match own_pair(ts[i]) {
                Some(q) => c0.insert(q.0),
                None => c0,
            },
        }),
    ensures
        b1 == spec_bases(ts.take(i + 1)),
        o1 == own_pairs(ts.take(i + 1)),
        c1 == mro_classes(ts.take(i + 1)),
{
    let tk0 = ts.take(i);
    let tk1 = ts.take(i + 1);
    let t = ts[i];
    assert(tk1 =~= tk0.push(t));
    assert(tk1.drop_last() =~= tk0);
    assert(tk1.last() == t);
    // the pair sets grow by the triple's own pair
    assert forall|pr: (Seq<char>, Seq<char>)| base_pairs(tk1).contains(pr) <==> (base_pairs(tk0).contains(pr)
        || base_pair(t) == Some(pr)) by {
        if base_pairs(tk1).contains(pr) {
            let j = choose|j: int| 0 <= j < tk1.len() && base_pair(tk1[j]) == Some(pr);
            if j < i {
                assert(tk0[j] == tk1[j]);
            }
        }
        if base_pairs(tk0).contains(pr) {
            let j = choose|j: int| 0 <= j < tk0.len() && base_pair(tk0[j]) == Some(pr);
            assert(tk1[j] == tk0[j]);
        }
        if base_pair(t) == Some(pr) {
            assert(tk1[i] == t);
        }
    }
    assert forall|c: Seq<char>| domain(base_pairs(tk1)).contains(c) <==> (domain(base_pairs(tk0)).contains(c)
        || (base_pair(t) matches Some(pr) && pr.0 == c)) by {
        if domain(base_pairs(tk1)).contains(c) {
            let b = choose|b: Seq<char>| base_pairs(tk1).contains((c, b));
            if !base_pairs(tk0).contains((c, b)) {
                assert(base_pair(t) == Some((c, b)));
            }
        }
        if domain(base_pairs(tk0)).contains(c) {
            let b = choose|b: Seq<char>| base_pairs(tk0).contains((c, b));
            assert(base_pairs(tk1).contains((c, b)));
        }
        if let Some(pr) = base_pair(t) {
            if pr.0 == c {
                assert(base_pairs(tk1).contains(pr));
            }
        }
    }
    assert forall|c: Seq<char>| b1.dom().contains(c) <==> spec_bases(tk1).dom().contains(c) by {}
    assert forall|c: Seq<char>| b1.dom().contains(c) implies b1[c] == spec_bases(tk1)[c] by {
        assert(spec_bases(tk1)[c] == decl_bases(tk1, c));
        if b0.dom().contains(c) {
            assert(b0[c] == decl_bases(tk0, c));
        } else {
            if !domain(base_pairs(tk0)).contains(c) {
                lemma_decl_empty(tk0, c);
            }
        }
    }
    assert(b1 =~= spec_bases(tk1));
    assert forall|q: (Seq<char>, Seq<char>)| o1.contains(q) <==> own_pairs(tk1).contains(q) by {
        if own_pairs(tk1).contains(q) {
            let j = choose|j: int| 0 <= j < tk1.len() && own_pair(tk1[j]) == Some(q);
            if j < i {
                assert(tk0[j] == tk1[j]);
                assert(o0.contains(q));
            }
        }
        if o0.contains(q) {
            let j = choose|j: int| 0 <= j < tk0.len() && own_pair(tk0[j]) == Some(q);
            assert(tk1[j] == tk0[j]);
        }
        if own_pair(t) == Some(q) {
            assert(tk1[i] == t);
        }
    }
    assert(o1 =~= own_pairs(tk1));
    assert forall|c: Seq<char>| c1.contains(c) <==> mro_classes(tk1).contains(c) by {
        if mro_classes(tk1).contains(c) {
            let j = choose|j: int| 0 <= j < tk1.len() && #[trigger] names_class(tk1[j], c);
            if j < i {
                assert(tk0[j] == tk1[j]);
                assert(c0.contains(c));
            }
        }
        if c0.contains(c) {
            let j = choose|j: int| 0 <= j < tk0.len() && #[trigger] names_class(tk0[j], c);
            assert(tk1[j] == tk0[j]);
        }
        if names_class(t, c) {
            assert(tk1[i] == t);
        }
        if c1.contains(c) && !c0.contains(c) {
            assert(names_class(t, c));
        }
    }
    assert(c1 =~= mro_classes(tk1));
}

// ── C3 merge ─────────────────────────────────────────────────────────────────

/// The number of entries over all lists.
pub open spec fn total(ls: Seq<Seq<Seq<char>>>) -> nat
    decreases ls.len(),
{
    if ls.len() == 0 {
        0
    } else {
        total(ls.drop_last()) + ls.last().len()
    }
}

/// `h` occurs in the tail (all but the head) of some list.
pub open spec fn in_tail(ls: Seq<Seq<Seq<char>>>, h: Seq<char>) -> bool {
    exists|j: int, k: int| 0 <= j < ls.len() && 1 <= k < ls[j].len() && #[trigger] ls[j][k] == h
}

/// The head of the first list from position `i` on whose head occurs in no
/// list's tail.
pub open spec fn good_from(ls: Seq<Seq<Seq<char>>>, i: int) -> Option<Seq<char>>
    decreases ls.len() - i,
{
    if i < 0 || i >= ls.len() {
        None
    } else if ls[i].len() > 0 && !in_tail(ls, ls[i][0]) {
        Some(ls[i][0])
    } else {
        good_from(ls, i + 1)
    }
}

/// `l` with every occurrence of `h` removed.
pub open spec fn without(l: Seq<Seq<char>>, h: Seq<char>) -> Seq<Seq<char>>
    decreases l.len(),
{
    if l.len() == 0 {
        l
    } else if l.last() == h {
        without(l.drop_last(), h)
    } else {
        without(l.drop_last(), h).push(l.last())
    }
}

/// Every list with every occurrence of `h` removed.
pub open spec fn strip(ls: Seq<Seq<Seq<char>>>, h: Seq<char>) -> Seq<Seq<Seq<char>>> {
    ls.map_values(|l: Seq<Seq<char>>| without(l, h))
}

pub proof fn lemma_without_len(l: Seq<Seq<char>>, h: Seq<char>)
    ensures
        without(l, h).len() <= l.len(),
        l.contains(h) ==> without(l, h).len() < l.len(),
    decreases l.len(),
{
    if l.len() > 0 {
        lemma_without_len(l.drop_last(), h);
        if l.contains(h) && l.last() != h {
            let k = choose|k: int| 0 <= k < l.len() && l[k] == h;
            assert(l.drop_last()[k] == h);
        }
    }
}

pub proof fn lemma_total_strip(ls: Seq<Seq<Seq<char>>>, h: Seq<char>)
    ensures
        total(strip(ls, h)) <= total(ls),
        (exists|j: int| 0 <= j < ls.len() && ls[j].contains(h)) ==> total(strip(ls, h)) < total(ls),
    decreases ls.len(),
{
    if ls.len() > 0 {
        let d = ls.drop_last();
        assert(strip(ls, h).drop_last() =~= strip(d, h));
        lemma_total_strip(d, h);
        lemma_without_len(ls.last(), h);
        if exists|j: int| 0 <= j < ls.len() && ls[j].contains(h) {
            let j = choose|j: int| 0 <= j < ls.len() && ls[j].contains(h);
            if j < ls.len() - 1 {
                assert(d[j] == ls[j]);
            }
        }
    }
}

pub proof fn lemma_good_from(ls: Seq<Seq<Seq<char>>>, i: int)
    requires
        good_from(ls, i) is Some,
    ensures
        exists|j: int| 0 <= j < ls.len() && ls[j].len() > 0 && ls[j][0] == good_from(ls, i)->0,
    decreases ls.len() - i,
{
    if 0 <= i < ls.len() && !(ls[i].len() > 0 && !in_tail(ls, ls[i][0])) {
        lemma_good_from(ls, i + 1);
    }
}

/// The C3 merge: repeatedly take the head of the first list whose head
/// occurs in no list's tail and remove it from every list; `None` when no
/// head qualifies while entries remain.
pub open spec fn c3(ls: Seq<Seq<Seq<char>>>) -> Option<Seq<Seq<char>>>
    decreases total(ls),
{
    if total(ls) == 0 {
        Some(Seq::empty())
    } else {
        match good_from(ls, 0) {
            None => None,
            Some(h) => {
                proof {
                    lemma_good_from(ls, 0);
                    let j = choose|j: int| 0 <= j < ls.len() && ls[j].len() > 0 && ls[j][0] == h;
                    assert(ls[j].contains(h));
                    lemma_total_strip(ls, h);
                }
                match c3(strip(ls, h)) {
                    Some(r) => Some(seq![h] + r),
                    None => None,
                }
            },
        }
    }
}

/// The views of a vector of string vectors.
pub open spec fn lists_view(v: Seq<Vec<String>>) -> Seq<Seq<Seq<char>>> {
    v.map_values(|l: Vec<String>| view_strs(l@))
}

proof fn lemma_total_zero(ls: Seq<Seq<Seq<char>>>)
    ensures
        total(ls) == 0 <==> forall|j: int| 0 <= j < ls.len() ==> #[trigger] ls[j].len() == 0,
    decreases ls.len(),
{
    if ls.len() > 0 {
        lemma_total_zero(ls.drop_last());
        if total(ls) == 0 {
            assert forall|j: int| 0 <= j < ls.len() implies #[trigger] ls[j].len() == 0 by {
                if j < ls.len() - 1 {
                    assert(ls.drop_last()[j] == ls[j]);
                }
            }
        }
        if forall|j: int| 0 <= j < ls.len() ==> #[trigger] ls[j].len() == 0 {
            assert forall|j: int| 0 <= j < ls.drop_last().len() implies #[trigger] ls.drop_last()[j].len() == 0 by {
                assert(ls.drop_last()[j] == ls[j]);
            }
            assert(ls[ls.len() - 1].len() == 0);
        }
    }
}

/// Whether every list is empty.
fn exhausted(lists: &Vec<Vec<String>>) -> (b: bool)
    ensures
        b == (total(lists_view(lists@)) == 0),
{
    let mut j: usize = 0;
    while j < lists.len()
        invariant
            j <= lists@.len(),
            forall|k: int| 0 <= k < j ==> #[trigger] lists@[k]@.len() == 0,
        decreases lists@.len() - j,
    {
        if lists[j].len() > 0 {
            proof {
                lemma_total_zero(lists_view(lists@));
                assert(lists_view(lists@)[j as int].len() > 0);
            }
            return false;
        }
        j += 1;
    }
    proof {
        lemma_total_zero(lists_view(lists@));
        assert forall|k: int| 0 <= k < lists_view(lists@).len() implies #[trigger] lists_view(lists@)[k].len() == 0 by {
            assert(lists@[k]@.len() == 0);
        }
    }
    true
}

/// Whether `h` occurs in the tail of some list.
fn occurs_in_tail(lists: &Vec<Vec<String>>, h: &str) -> (b: bool)
    ensures
        b == in_tail(lists_view(lists@), h@),
{
    let ghost ls = lists_view(lists@);
    let mut j: usize = 0;
    while j < lists.len()
        invariant
            ls == lists_view(lists@),
            j <= lists@.len(),
            forall|a: int, k: int| 0 <= a < j && 1 <= k < ls[a].len() ==> #[trigger] ls[a][k] != h@,
        decreases lists@.len() - j,
    {
        let l = &lists[j];
        let mut k: usize = 1;
        while k < l.len()
            invariant
                ls == lists_view(lists@),
                j < lists@.len(),
                l == lists@[j as int],
                1 <= k,
                forall|a: int, k: int| 0 <= a < j && 1 <= k < ls[a].len() ==> #[trigger] ls[a][k] != h@,
                forall|q: int| 1 <= q < k && q < l@.len() ==> #[trigger] ls[j as int][q] != h@,
            decreases l@.len() - k,
        {
            if str_eq(l[k].as_str(), h) {
                proof {
                    assert(ls[j as int][k as int] == l@[k as int]@);
                }
                return true;
            }
            proof {
                assert(ls[j as int][k as int] == l@[k as int]@);
            }
            k += 1;
        }
        j += 1;
    }
    false
}

/// The head of the first list whose head occurs in no list's tail.
fn good_head(lists: &Vec<Vec<String>>) -> (r: Option<String>)
    ensures
        match r {
            Some(h) => good_from(lists_view(lists@), 0) == Some(h@),
            None => good_from(lists_view(lists@), 0) is None,
        },
{
    let ghost ls = lists_view(lists@);
    let mut i: usize = 0;
    while i < lists.len()
        invariant
            ls == lists_view(lists@),
            i <= lists@.len(),
            good_from(ls, 0) == good_from(ls, i as int),
        decreases lists@.len() - i,
    {
        if lists[i].len() > 0 {
            let h = lists[i][0].as_str();
            proof {
                assert(ls[i as int][0] == h@);
            }
            if !occurs_in_tail(lists, h) {
                return Some(h.to_owned());
            }
        }
        i += 1;
    }
    None
}

/// `l` with every occurrence of `h` removed.
fn strip_one(l: &Vec<String>, h: &str) -> (r: Vec<String>)
    ensures
        view_strs(r@) == without(view_strs(l@), h@),
{
    let ghost v = view_strs(l@);
    let mut out: Vec<String> = Vec::new();
    let mut j: usize = 0;
    proof {
        assert(v.take(0) =~= Seq::<Seq<char>>::empty());
        assert(view_strs(out@) =~= Seq::<Seq<char>>::empty());
    }
    while j < l.len()
        invariant
            v == view_strs(l@),
            j <= l@.len(),
            view_strs(out@) == without(v.take(j as int), h@),
        decreases l@.len() - j,
    {
        let ghost before = out@;
        proof {
            assert(v.take(j + 1).drop_last() =~= v.take(j as int));
            assert(v.take(j + 1).last() == l@[j as int]@);
        }
        if !str_eq(l[j].as_str(), h) {
            out.push(l[j].clone());
            proof {
                assert(view_strs(out@) =~= view_strs(before).push(l@[j as int]@));
            }
        }
        j += 1;
    }
    proof {
        assert(v.take(l@.len() as int) =~= v);
    }
    out
}

/// Every list with every occurrence of `h` removed.
fn strip_all(lists: &Vec<Vec<String>>, h: &str) -> (r: Vec<Vec<String>>)
    ensures
        lists_view(r@) == strip(lists_view(lists@), h@),
{
    let mut out: Vec<Vec<String>> = Vec::new();
    let mut j: usize = 0;
    while j < lists.len()
        invariant
            j <= lists@.len(),
            lists_view(out@) == strip(lists_view(lists@), h@).take(j as int),
        decreases lists@.len() - j,
    {
        let ghost before = out@;
        let l = strip_one(&lists[j], h);
        out.push(l);
        proof {
            assert(lists_view(out@) =~= lists_view(before).push(view_strs(l@)));
            assert(strip(lists_view(lists@), h@).take(j + 1) =~= strip(lists_view(lists@), h@).take(j as int).push(
                without(view_strs(lists@[j as int]@), h@),
            ));
        }
        j += 1;
    }
    proof {
        assert(strip(lists_view(lists@), h@).take(lists@.len() as int) =~= strip(lists_view(lists@), h@));
    }
    out
}

/// Run the C3 merge on `lists`.
fn c3_merge(input: Vec<Vec<String>>) -> (r: Option<Vec<String>>)
    ensures
        match r {
            Some(v) => c3(lists_view(input@)) == Some(view_strs(v@)),
            None => c3(lists_view(input@)) is None,
        },
{
    let ghost goal = c3(lists_view(input@));
    let mut lists = input;
    let mut out: Vec<String> = Vec::new();
    loop
        invariant
            goal == c3(lists_view(input@)),
            goal == match c3(lists_view(lists@)) {
                Some(rest) => Some(view_strs(out@) + rest),
                None => None,
            },
        decreases total(lists_view(lists@)),
    {
        if exhausted(&lists) {
            proof {
                assert(view_strs(out@) + Seq::<Seq<char>>::empty() =~= view_strs(out@));
            }
            return Some(out);
        }
        match good_head(&lists) {
            None => {
                return None;
            },
            Some(h) => {
                let ghost ls = lists_view(lists@);
                proof {
                    lemma_good_from(ls, 0);
                    let j = choose|j: int| 0 <= j < ls.len() && ls[j].len() > 0 && ls[j][0] == h@;
                    assert(ls[j].contains(h@));
                    lemma_total_strip(ls, h@);
                }
                let next = strip_all(&lists, h.as_str());
                let ghost before = out@;
                lists = next;
                out.push(h);
                proof {
                    assert(view_strs(out@) =~= view_strs(before).push(h@));
                    match c3(lists_view(lists@)) {
                        Some(rest) => {
                            assert(view_strs(out@) + rest =~= view_strs(before) + (seq![h@] + rest));
                        },
                        None => {},
                    }
                }
            },
        }
    }
}

// ── linearization ────────────────────────────────────────────────────────────

/// Removing a class still to be entered shrinks what is left to enter.
pub proof fn lemma_pending_drop(d: Set<Seq<char>>, vis: Set<Seq<char>>, c: Seq<char>)
    requires
        d.finite(),
        d.contains(c),
        !vis.contains(c),
    ensures
        (d - vis.insert(c)).len() < (d - vis).len(),
{
    assert((d - vis.insert(c)) =~= (d - vis).remove(c));
    assert((d - vis).contains(c));
}

/// The C3 linearization of `c`, with the classes in `vis` in progress:
/// `L(C) = C ++ merge(L(B1), ..., L(Bn), [B1 ... Bn])` over the declared
/// bases; re-entering a class in progress is a cycle, a stalled merge is
/// inconsistent, and the first failure among the bases (in declaration
/// order) is the result.
pub open spec fn lin(m: Map<Seq<char>, Seq<Seq<char>>>, c: Seq<char>, vis: Set<Seq<char>>) -> Result<
    Seq<Seq<char>>,
    LinFail,
>
    decreases (m.dom() - vis).len(), 0nat,
    when m.dom().finite()
{
    if vis.contains(c) {
        Err(LinFail::Cycle(c))
    } else if !m.dom().contains(c) {
        Ok(seq![c])
    } else {
        proof {
            lemma_pending_drop(m.dom(), vis, c);
        }
        match lins(m, m[c], vis.insert(c)) {
            Err(e) => Err(e),
            Ok(ls) => match c3(ls.push(m[c])) {
                None => Err(LinFail::Inconsistent(c)),
                Some(r) => Ok(seq![c] + r),
            },
        }
    }
}

/// The linearizations of `bs` in order, or the first failure.
pub open spec fn lins(m: Map<Seq<char>, Seq<Seq<char>>>, bs: Seq<Seq<char>>, vis: Set<Seq<char>>) -> Result<
    Seq<Seq<Seq<char>>>,
    LinFail,
>
    decreases (m.dom() - vis).len(), bs.len(),
    when m.dom().finite()
{
    if bs.len() == 0 {
        Ok(Seq::empty())
    } else {
        match lin(m, bs[0], vis) {
            Err(e) => Err(e),
            Ok(l) => match lins(m, bs.drop_first(), vis) {
                Err(e) => Err(e),
                Ok(ls) => Ok(seq![l] + ls),
            },
        }
    }
}

/// The abstract outcome of a linearization.
pub open spec fn lin_view(r: Result<Vec<String>, MroError>) -> Result<Seq<Seq<char>>, LinFail> {
    match r {
        Ok(v) => Ok(view_strs(v@)),
        Err(e) => Err(e.fail()),
    }
}

proof fn lemma_lins_ok(m: Map<Seq<char>, Seq<Seq<char>>>, bs: Seq<Seq<char>>, vis: Set<Seq<char>>, ls: Seq<Seq<Seq<char>>>)
    requires
        m.dom().finite(),
        ls.len() == bs.len(),
        forall|k: int| 0 <= k < bs.len() ==> lin(m, #[trigger] bs[k], vis) == Ok::<Seq<Seq<char>>, LinFail>(ls[k]),
    ensures
        lins(m, bs, vis) == Ok::<Seq<Seq<Seq<char>>>, LinFail>(ls),
    decreases bs.len(),
{
    if bs.len() > 0 {
        assert(lin(m, bs[0], vis) == Ok::<Seq<Seq<char>>, LinFail>(ls[0]));
        assert forall|k: int| 0 <= k < bs.drop_first().len() implies lin(m, #[trigger] bs.drop_first()[k], vis) == Ok::<
            Seq<Seq<char>>,
            LinFail,
        >(ls.drop_first()[k]) by {
            assert(bs.drop_first()[k] == bs[k + 1]);
        }
        lemma_lins_ok(m, bs.drop_first(), vis, ls.drop_first());
        assert(seq![ls[0]] + ls.drop_first() =~= ls);
    } else {
        assert(ls =~= Seq::<Seq<Seq<char>>>::empty());
    }
}

proof fn lemma_lins_err(m: Map<Seq<char>, Seq<Seq<char>>>, bs: Seq<Seq<char>>, vis: Set<Seq<char>>, j: int, e: LinFail)
    requires
        m.dom().finite(),
        0 <= j < bs.len(),
        forall|k: int| 0 <= k < j ==> lin(m, #[trigger] bs[k], vis) is Ok,
        lin(m, bs[j], vis) == Err::<Seq<Seq<char>>, LinFail>(e),
    ensures
        lins(m, bs, vis) == Err::<Seq<Seq<Seq<char>>>, LinFail>(e),
    decreases j,
{
    if j > 0 {
        assert(lin(m, bs[0], vis) is Ok);
        assert forall|k: int| 0 <= k < j - 1 implies lin(m, #[trigger] bs.drop_first()[k], vis) is Ok by {
            assert(bs.drop_first()[k] == bs[k + 1]);
        }
        assert(bs.drop_first()[j - 1] == bs[j]);
        lemma_lins_err(m, bs.drop_first(), vis, j - 1, e);
    }
}

proof fn lemma_base_dom(e: Seq<BaseEntry>)
    ensures
        base_map(e).dom() == keys_of(e).to_set(),
        base_map(e).dom().finite(),
{
    assert forall|k: Seq<char>| base_map(e).dom().contains(k) <==> keys_of(e).to_set().contains(k) by {
        if base_map(e).dom().contains(k) {
            let c = choose|c: int| base_at(e, k, c);
            assert(keys_of(e)[c] == k);
        }
        if keys_of(e).to_set().contains(k) {
            let c = choose|c: int| 0 <= c < keys_of(e).len() && keys_of(e)[c] == k;
            assert(base_at(e, k, c));
        }
    }
    assert(base_map(e).dom() =~= keys_of(e).to_set());
    vstd::seq_lib::seq_to_set_is_finite(keys_of(e));
}

/// A copy of a string vector.
fn copy_strs(v: &Vec<String>) -> (r: Vec<String>)
    ensures
        view_strs(r@) == view_strs(v@),
{
    let mut out: Vec<String> = Vec::new();
    let mut j: usize = 0;
    while j < v.len()
        invariant
            j <= v@.len(),
            view_strs(out@) == view_strs(v@).take(j as int),
        decreases v@.len() - j,
    {
        let ghost before = out@;
        out.push(v[j].clone());
        proof {
            assert(view_strs(out@) =~= view_strs(before).push(v@[j as int]@));
            assert(view_strs(v@).take(j + 1) =~= view_strs(v@).take(j as int).push(v@[j as int]@));
        }
        j += 1;
    }
    proof {
        assert(view_strs(v@).take(v@.len() as int) =~= view_strs(v@));
    }
    out
}

impl Mro {
    fn lin_rec(&self, class: &str, visiting: &mut Vec<String>) -> (r: Result<Vec<String>, MroError>)
        requires
            sorted(view_strs(old(visiting)@)),
        ensures
            sorted(view_strs(final(visiting)@)),
            r is Ok ==> view_strs(final(visiting)@).to_set() == view_strs(old(visiting)@).to_set(),
            lin_view(r) == lin(self.model().bases, class@, view_strs(old(visiting)@).to_set()),
        decreases (self.model().bases.dom() - view_strs(old(visiting)@).to_set()).len(),
    {
        proof {
            use_type_invariant(self);
            lemma_base_dom(self.bases@);
        }
        let ghost m = self.model().bases;
        let ghost v0 = view_strs(visiting@).to_set();
        if sorted_find(visiting, class).is_ok() {
            return Err(MroError::Cycle { class: class.to_owned() });
        }
        match key_find(&self.bases, class) {
            Err(_) => {
                proof {
                    lemma_base_absent(self.bases@, class@);
                }
                let mut out: Vec<String> = Vec::new();
                out.push(class.to_owned());
                proof {
                    assert(view_strs(out@) =~= seq![class@]);
                }
                Ok(out)
            },
            Ok(i) => {
                proof {
                    lemma_base_entry(self.bases@, i as int);
                    lemma_pending_drop(m.dom(), v0, class@);
                }
                sorted_insert(visiting, class);
                let ghost v1 = view_strs(visiting@).to_set();
                proof {
                    assert(v0.insert(class@) == v1);
                }
                let declared = &self.bases[i].1;
                let ghost bs = view_strs(declared@);
                let mut lists: Vec<Vec<String>> = Vec::new();
                let mut j: usize = 0;
                while j < declared.len()
                    invariant
                        m == self.model().bases,
                        m.dom().finite(),
                        v0 == view_strs(old(visiting)@).to_set(),
                        m.dom().contains(class@),
                        !v0.contains(class@),
                        v0.insert(class@) == v1,
                        m[class@] == bs,
                        (m.dom() - v1).len() < (m.dom() - v0).len(),
                        bs == view_strs(declared@),
                        sorted(view_strs(visiting@)),
                        view_strs(visiting@).to_set() == v1,
                        j <= declared@.len(),
                        lists@.len() == j,
                        forall|k: int| 0 <= k < j ==> lin(m, #[trigger] bs[k], v1) == Ok::<Seq<Seq<char>>, LinFail>(
                            view_strs(lists@[k]@),
                        ),
                    decreases declared@.len() - j,
                {
                    let base = declared[j].as_str();
                    proof {
                        assert(bs[j as int] == base@);
                    }
                    match self.lin_rec(base, visiting) {
                        Err(e) => {
                            proof {
                                assert forall|k: int| 0 <= k < j implies lin(m, #[trigger] bs[k], v1) is Ok by {}
                                lemma_lins_err(m, bs, v1, j as int, e.fail());
                            }
                            return Err(e);
                        },
                        Ok(l) => {
                            let ghost before = lists@;
                            lists.push(l);
                            proof {
                                assert forall|k: int| 0 <= k < j + 1 implies lin(m, #[trigger] bs[k], v1) == Ok::<
                                    Seq<Seq<char>>,
                                    LinFail,
                                >(view_strs(lists@[k]@)) by {
                                    if k < j {
                                        assert(lists@[k] == before[k]);
                                    }
                                }
                            }
                        },
                    }
                    j += 1;
                }
                proof {
                    let ls = lists_view(lists@);
                    assert forall|k: int| 0 <= k < bs.len() implies lin(m, #[trigger] bs[k], v1) == Ok::<
                        Seq<Seq<char>>,
                        LinFail,
                    >(ls[k]) by {}
                    lemma_lins_ok(m, bs, v1, ls);
                }
                let ghost before = lists@;
                lists.push(copy_strs(declared));
                proof {
                    assert(lists_view(lists@) =~= lists_view(before).push(bs));
                    assert(v0.insert(class@) == v1);
                    assert(m[class@] == bs);
                }
                match c3_merge(lists) {
                    None => Err(MroError::Inconsistent { class: class.to_owned() }),
                    Some(rest) => {
                        let mut out: Vec<String> = Vec::new();
                        out.push(class.to_owned());
                        let mut k: usize = 0;
                        while k < rest.len()
                            invariant
                                k <= rest@.len(),
                                view_strs(out@) == seq![class@] + view_strs(rest@).take(k as int),
                            decreases rest@.len() - k,
                        {
                            let ghost b = out@;
                            out.push(rest[k].clone());
                            proof {
                                assert(view_strs(out@) =~= view_strs(b).push(rest@[k as int]@));
                                assert(view_strs(rest@).take(k + 1) =~= view_strs(rest@).take(k as int).push(
                                    rest@[k as int]@,
                                ));
                            }
                            k += 1;
                        }
                        proof {
                            assert(view_strs(rest@).take(rest@.len() as int) =~= view_strs(rest@));
                        }
                        sorted_remove(visiting, class);
                        proof {
                            assert(v1.remove(class@) =~= v0);
                        }
                        Ok(out)
                    },
                }
            },
        }
    }

    /// Python's C3 linearization over the declaration-order base tuple:
    /// `L(C) = C ++ merge(L(B1), ..., L(Bn), [B1 ... Bn])`, where the merge
    /// repeatedly takes the head of the first list whose head occurs in no
    /// list's tail. `Inconsistent` when the merge stalls with entries left;
    /// `Cycle` when `inherits_from` cycles through a class.
    pub fn linearize(&self, class: &str) -> (r: Result<Vec<String>, MroError>)
        ensures
            self.model().bases.dom().finite(),
            lin_view(r) == lin(self.model().bases, class@, Set::empty()),
    {
        proof {
            lemma_base_dom(self.bases@);
        }
        let mut visiting: Vec<String> = Vec::new();
        proof {
            assert(view_strs(visiting@).to_set() =~= Set::<Seq<char>>::empty());
        }
        self.lin_rec(class, &mut visiting)
    }
}

// ── resolution ───────────────────────────────────────────────────────────────

/// The character view of an optional string slice.
pub open spec fn opt_view(r: Option<&str>) -> Option<Seq<char>> {
    match r {
        Some(s) => Some(s@),
        None => None,
    }
}

/// The first class of `l` that defines `meth` itself.
pub open spec fn first_definer(own: Set<(Seq<char>, Seq<char>)>, l: Seq<Seq<char>>, meth: Seq<char>) -> Option<Seq<char>>
    decreases l.len(),
{
    if l.len() == 0 {
        None
    } else if own.contains((l[0], meth)) {
        Some(l[0])
    } else {
        first_definer(own, l.drop_first(), meth)
    }
}

/// The C3 resolution: the first definer along the linearization, or `None`
/// when there is none or the class has no linearization.
pub open spec fn c3_resolution(md: MroModel, c: Seq<char>, meth: Seq<char>) -> Option<Seq<char>> {
    match lin(md.bases, c, Set::empty()) {
        Ok(l) => first_definer(md.own, l, meth),
        Err(_) => None,
    }
}

/// Parent-first pre-order search from `c` with the classes in `vis`
/// already visited: the first visited class that defines `meth`, and the
/// visited set afterwards. `path` (the classes being expanded) only bounds
/// the recursion.
pub open spec fn dfs(
    m: Map<Seq<char>, Seq<Seq<char>>>,
    own: Set<(Seq<char>, Seq<char>)>,
    meth: Seq<char>,
    c: Seq<char>,
    vis: Set<Seq<char>>,
    path: Set<Seq<char>>,
) -> (Option<Seq<char>>, Set<Seq<char>>)
    decreases (m.dom() - path).len(), 0nat,
    when m.dom().finite() && path.subset_of(vis)
{
    if vis.contains(c) {
        (None, vis)
    } else if own.contains((c, meth)) {
        (Some(c), vis.insert(c))
    } else if !m.dom().contains(c) {
        (None, vis.insert(c))
    } else {
        proof {
            lemma_pending_drop(m.dom(), path, c);
        }
        dfs_list(m, own, meth, m[c], vis.insert(c), path.insert(c))
    }
}

/// [`dfs`] over `bs` left to right, the visited set carried along, stopping
/// at the first hit.
pub open spec fn dfs_list(
    m: Map<Seq<char>, Seq<Seq<char>>>,
    own: Set<(Seq<char>, Seq<char>)>,
    meth: Seq<char>,
    bs: Seq<Seq<char>>,
    vis: Set<Seq<char>>,
    path: Set<Seq<char>>,
) -> (Option<Seq<char>>, Set<Seq<char>>)
    decreases (m.dom() - path).len(), bs.len(),
    when m.dom().finite()
{
    if bs.len() == 0 {
        (None, vis)
    } else {
        let (h, v2) = dfs(m, own, meth, bs[0], vis, path);
        if h is Some {
            (h, v2)
        } else {
            dfs_list(m, own, meth, bs.drop_first(), v2, path)
        }
    }
}

/// The naive resolution: the first definer in parent-first pre-order.
pub open spec fn dfs_resolution(md: MroModel, c: Seq<char>, meth: Seq<char>) -> Option<Seq<char>> {
    dfs(md.bases, md.own, meth, c, Set::empty(), Set::empty()).0
}

impl Mro {
    /// The class string, held by `self`, of `class` when it defines `meth`.
    fn definer(&self, class: &str, meth: &str) -> (r: Option<&str>)
        ensures
            match r {
                Some(d) => d@ == class@ && self.model().own.contains((class@, meth@)),
                None => !self.model().own.contains((class@, meth@)),
            },
    {
        proof {
            use_type_invariant(self);
        }
        match key_find(&self.own, class) {
            Ok(i) => {
                proof {
                    lemma_entry_image(self.own@, i as int);
                }
                let found = sorted_find(&self.own[i].1, meth);
                proof {
                    assert(view_strs(self.own@[i as int].1@).to_set().contains(meth@) == view_strs(self.own@[i as int].1@).contains(meth@));
                    assert(image(self.model().own, class@).contains(meth@) == self.model().own.contains((class@, meth@)));
                }
                if found.is_ok() {
                    Some(self.own[i].0.as_str())
                } else {
                    None
                }
            },
            Err(_) => {
                proof {
                    lemma_absent_image(self.own@, class@);
                    assert(!image(self.model().own, class@).contains(meth@));
                }
                None
            },
        }
    }

    /// The first class along the C3 linearization of `class` that defines
    /// `method_name` itself; `None` when no class there defines it or the
    /// hierarchy has no consistent linearization.
    pub fn resolve_c3(&self, class: &str, method_name: &str) -> (r: Option<&str>)
        ensures
            opt_view(r) == c3_resolution(self.model(), class@, method_name@),
    {
        match self.linearize(class) {
            Err(_) => None,
            Ok(lin_order) => {
                let ghost l = view_strs(lin_order@);
                proof {
                    assert(l.subrange(0, l.len() as int) =~= l);
                }
                let mut k: usize = 0;
                while k < lin_order.len()
                    invariant
                        l == view_strs(lin_order@),
                        lin(self.model().bases, class@, Set::empty()) == Ok::<Seq<Seq<char>>, LinFail>(l),
                        k <= lin_order@.len(),
                        first_definer(self.model().own, l, method_name@) == first_definer(
                            self.model().own,
                            l.subrange(k as int, l.len() as int),
                            method_name@,
                        ),
                    decreases lin_order@.len() - k,
                {
                    let c = lin_order[k].as_str();
                    proof {
                        let rest = l.subrange(k as int, l.len() as int);
                        assert(rest[0] == c@);
                        assert(rest.drop_first() =~= l.subrange(k + 1, l.len() as int));
                    }
                    if let Some(d) = self.definer(c, method_name) {
                        proof {
                            let rest = l.subrange(k as int, l.len() as int);
                            assert(rest[0] == c@);
                            assert(first_definer(self.model().own, rest, method_name@) == Some(c@));
                        }
                        return Some(d);
                    }
                    k += 1;
                }
                proof {
                    assert(l.subrange(l.len() as int, l.len() as int) =~= Seq::<Seq<char>>::empty());
                }
                None
            },
        }
    }

    fn dfs_rec<'a>(
        &'a self,
        class: &str,
        method_name: &str,
        visited: &mut Vec<String>,
        Ghost(path): Ghost<Set<Seq<char>>>,
    ) -> (r: Option<&'a str>)
        requires
            self.model().bases.dom().finite(),
            sorted(view_strs(old(visited)@)),
            path.subset_of(view_strs(old(visited)@).to_set()),
        ensures
            sorted(view_strs(final(visited)@)),
            view_strs(old(visited)@).to_set().subset_of(view_strs(final(visited)@).to_set()),
            (opt_view(r), view_strs(final(visited)@).to_set()) == dfs(
                self.model().bases,
                self.model().own,
                method_name@,
                class@,
                view_strs(old(visited)@).to_set(),
                path,
            ),
        decreases (self.model().bases.dom() - path).len(),
    {
        proof {
            use_type_invariant(self);
        }
        let ghost m = self.model().bases;
        let ghost v0 = view_strs(visited@).to_set();
        if !sorted_insert(visited, class) {
            return None;
        }
        let ghost v1 = view_strs(visited@).to_set();
        proof {
            assert(v1 == v0.insert(class@));
        }
        if let Some(d) = self.definer(class, method_name) {
            return Some(d);
        }
        match key_find(&self.bases, class) {
            Err(_) => {
                proof {
                    lemma_base_absent(self.bases@, class@);
                }
                None
            },
            Ok(i) => {
                proof {
                    lemma_base_entry(self.bases@, i as int);
                    assert(!path.contains(class@));
                    lemma_pending_drop(m.dom(), path, class@);
                    lemma_base_dom(self.bases@);
                }
                let ghost p1 = path.insert(class@);
                let declared = &self.bases[i].1;
                let ghost bs = view_strs(declared@);
                proof {
                    assert(bs.subrange(0, bs.len() as int) =~= bs);
                }
                let mut k: usize = 0;
                while k < declared.len()
                    invariant
                        m == self.model().bases,
                        dfs(m, self.model().own, method_name@, class@, v0, path) == dfs_list(m, self.model().own, method_name@, bs, v1, p1),
                        m.dom().finite(),
                        v0 == view_strs(old(visited)@).to_set(),
                        v1 == v0.insert(class@),
                        p1 == path.insert(class@),
                        (m.dom() - p1).len() < (m.dom() - path).len(),
                        bs == view_strs(declared@),
                        bs == m[class@],
                        sorted(view_strs(visited@)),
                        p1.subset_of(view_strs(visited@).to_set()),
                        v0.subset_of(view_strs(visited@).to_set()),
                        k <= declared@.len(),
                        dfs_list(m, self.model().own, method_name@, bs, v1, p1) == dfs_list(
                            m,
                            self.model().own,
                            method_name@,
                            bs.subrange(k as int, bs.len() as int),
                            view_strs(visited@).to_set(),
                            p1,
                        ),
                    decreases declared@.len() - k,
                {
                    let base = declared[k].as_str();
                    let ghost cur = view_strs(visited@).to_set();
                    proof {
                        let rest = bs.subrange(k as int, bs.len() as int);
                        assert(rest[0] == base@);
                        assert(rest.drop_first() =~= bs.subrange(k + 1, bs.len() as int));
                    }
                    let hit = self.dfs_rec(base, method_name, visited, Ghost(p1));
                    if hit.is_some() {
                        return hit;
                    }
                    k += 1;
                }
                proof {
                    assert(bs.subrange(bs.len() as int, bs.len() as int) =~= Seq::<Seq<char>>::empty());
                }
                None
            },
        }
    }

    /// The naive resolution: parent-first pre-order depth-first search over
    /// the declaration-order bases (self first, then each base's subtree left
    /// to right, each class visited once); the first definer wins. Agrees
    /// with C3 on diamond-free chains; on a diamond it reaches the shared
    /// apex through the first base's subtree before visiting the second base.
    pub fn resolve_naive_dfs(&self, class: &str, method_name: &str) -> (r: Option<&str>)
        ensures
            opt_view(r) == dfs_resolution(self.model(), class@, method_name@),
    {
        proof {
            lemma_base_dom(self.bases@);
        }
        let mut visited: Vec<String> = Vec::new();
        proof {
            assert(view_strs(visited@).to_set() =~= Set::<Seq<char>>::empty());
        }
        self.dfs_rec(class, method_name, &mut visited, Ghost(Set::empty()))
    }
}

// ── laws ─────────────────────────────────────────────────────────────────────

proof fn lemma_decl_bases(ts: Seq<Triple>, c: Seq<char>)
    ensures
        decl_bases(ts, c).no_duplicates(),
        decl_bases(ts, c).to_set() == image(base_pairs(ts), c),
    decreases ts.len(),
{
    if ts.len() == 0 {
        assert(decl_bases(ts, c).to_set() =~= image(base_pairs(ts), c));
    } else {
        let d = ts.drop_last();
        lemma_decl_bases(d, c);
        let dd = decl_bases(d, c);
        assert(ts =~= d.push(ts.last()));
        assert forall|b: Seq<char>| decl_bases(ts, c).to_set().contains(b) <==> image(base_pairs(ts), c).contains(b) by {
            if image(base_pairs(ts), c).contains(b) {
                let j = choose|j: int| 0 <= j < ts.len() && base_pair(ts[j]) == Some((c, b));
                if j < d.len() {
                    assert(d[j] == ts[j]);
                    assert(image(base_pairs(d), c).contains(b));
                    assert(dd.to_set().contains(b));
                    let k = choose|k: int| 0 <= k < dd.len() && dd[k] == b;
                    if dd.contains(b) && decl_bases(ts, c) != dd {
                        assert(decl_bases(ts, c)[k] == b);
                    }
                } else {
                    if !dd.contains(b) {
                        assert(decl_bases(ts, c)[dd.len() as int] == b);
                    } else {
                        let k = choose|k: int| 0 <= k < dd.len() && dd[k] == b;
                        if decl_bases(ts, c) != dd {
                            assert(decl_bases(ts, c)[k] == b);
                        }
                    }
                }
            }
            if decl_bases(ts, c).to_set().contains(b) {
                let k = choose|k: int| 0 <= k < decl_bases(ts, c).len() && decl_bases(ts, c)[k] == b;
                if k < dd.len() && decl_bases(ts, c)[k] == dd[k] {
                    assert(dd.to_set().contains(b));
                    let j = choose|j: int| 0 <= j < d.len() && base_pair(d[j]) == Some((c, b));
                    assert(ts[j] == d[j]);
                } else {
                    assert(base_pair(ts[ts.len() - 1]) == Some((c, b)));
                }
            }
        }
        assert(decl_bases(ts, c).to_set() =~= image(base_pairs(ts), c));
    }
}

/// In the `odoo:` namespace a class name is the inheritance map's model name.
proof fn lemma_odoo_class_name(iri: Seq<char>)
    requires
        has_prefix(iri, "odoo:"@),
    ensures
        spec_class_name(iri) == spec_bare_model(iri),
{
    reveal_strlit("odoo:");
    let p = "odoo:"@;
    assert(iri.subrange(0, 5) == p);
    assert forall|j: int| 0 <= j < 5 implies iri[j] == p[j] by {
        assert(iri.subrange(0, 5)[j] == iri[j]);
    }
    assert(is_first(iri, ':', 4));
    let i = choose|i: int| is_first(iri, ':', i);
    assert(i == 4) by {
        if i < 4 {
            assert(iri[i] == p[i]);
        } else if i > 4 {
            assert(iri[4] != ':');
        }
    }
    assert(first_pos(iri, ':') == Some(4int));
}

/// Over a corpus whose `inherits_from` triples name `odoo:` IRIs, the
/// resolution order and the inheritance map read the same pairs.
proof fn lemma_odoo_base_pairs(ts: Seq<Triple>)
    requires
        forall|i: int|
            0 <= i < ts.len() && #[trigger] ts[i].p@ == "inherits_from"@ ==> has_prefix(ts[i].s@, "odoo:"@) && has_prefix(
                ts[i].o@,
                "odoo:"@,
            ),
    ensures
        base_pairs(ts) == inherits_pairs(ts),
{
    assert forall|i: int| 0 <= i < ts.len() implies #[trigger] base_pair(ts[i]) == inherits_pair(ts[i]) by {
        if ts[i].p@ == "inherits_from"@ {
            lemma_odoo_class_name(ts[i].s@);
            lemma_odoo_class_name(ts[i].o@);
        }
    }
    assert(base_pairs(ts) =~= inherits_pairs(ts));
}

/// Where the search for an admissible head from position `i` stops.
proof fn lemma_good_from_first(ls: Seq<Seq<Seq<char>>>, i: int) -> (j: int)
    requires
        0 <= i,
        good_from(ls, i) is Some,
    ensures
        i <= j < ls.len(),
        ls[j].len() > 0,
        !in_tail(ls, ls[j][0]),
        good_from(ls, i) == Some(ls[j][0]),
        forall|k: int| i <= k < j ==> ls[k].len() == 0 || in_tail(ls, #[trigger] ls[k][0]),
    decreases ls.len() - i,
{
    if ls[i].len() > 0 && !in_tail(ls, ls[i][0]) {
        i
    } else {
        lemma_good_from_first(ls, i + 1)
    }
}

/// C3 merge priority: the merge emits first the head of the earliest list
/// whose head occurs in no list's tail (every earlier list is empty or has
/// its head in some tail), removes it from every list, and merges the rest.
pub proof fn law_c3_takes_first_admissible_head(ls: Seq<Seq<Seq<char>>>)
    requires
        total(ls) > 0,
        c3(ls) is Some,
    ensures
        exists|j: int|
            #![trigger ls[j]]
            0 <= j < ls.len() && ls[j].len() > 0 && !in_tail(ls, ls[j][0]) && (forall|k: int|
                0 <= k < j ==> ls[k].len() == 0 || in_tail(ls, #[trigger] ls[k][0])) && c3(ls)->0.len() > 0
                && c3(ls)->0[0] == ls[j][0] && c3(strip(ls, ls[j][0])) == Some(c3(ls)->0.drop_first()),
{
    let j = lemma_good_from_first(ls, 0);
    let h = ls[j][0];
    let r = c3(ls)->0;
    match c3(strip(ls, h)) {
        Some(rest) => {
            assert(r == seq![h] + rest);
            assert(r.drop_first() =~= rest);
        },
        None => {},
    }
}

/// Declaration order is the only thing the resolution order adds to the
/// inheritance map: for a corpus whose `inherits_from` triples name `odoo:`
/// IRIs, a class has declared bases exactly when the inheritance map lists
/// bases for it, and they are the same bases, each once, in first-occurrence
/// order.
pub proof fn law_declared_bases_match_inheritance_map(ts: Seq<Triple>, c: Seq<char>)
    requires
        forall|i: int|
            0 <= i < ts.len() && #[trigger] ts[i].p@ == "inherits_from"@ ==> has_prefix(ts[i].s@, "odoo:"@) && has_prefix(
                ts[i].o@,
                "odoo:"@,
            ),
    ensures
        spec_bases(ts).dom().contains(c) <==> domain(inherits_pairs(ts)).contains(c),
        spec_bases(ts).dom().contains(c) ==> spec_bases(ts)[c].no_duplicates() && spec_bases(ts)[c].to_set() == image(
            inherits_pairs(ts),
            c,
        ),
{
    lemma_decl_bases(ts, c);
    lemma_odoo_base_pairs(ts);
}

/// A successful linearization starts with the class and lists no class in
/// progress.
proof fn lemma_lin_head(m: Map<Seq<char>, Seq<Seq<char>>>, c: Seq<char>, vis: Set<Seq<char>>)
    requires
        m.dom().finite(),
        lin(m, c, vis) is Ok,
    ensures
        lin(m, c, vis)->Ok_0.len() >= 1,
        lin(m, c, vis)->Ok_0[0] == c,
{
}

/// The merge of one duplicate-free list and an empty one is that list.
proof fn lemma_c3_single(l: Seq<Seq<char>>)
    requires
        l.no_duplicates(),
    ensures
        c3(seq![l, Seq::<Seq<char>>::empty()]) == Some(l),
    decreases l.len(),
{
    let ls = seq![l, Seq::<Seq<char>>::empty()];
    reveal_with_fuel(total, 3);
    if l.len() > 0 {
        let h = l[0];
        assert(!in_tail(ls, h)) by {
            if in_tail(ls, h) {
                let (j, k) = choose|j: int, k: int| 0 <= j < ls.len() && 1 <= k < ls[j].len() && #[trigger] ls[j][k] == h;
                assert(j == 0);
                assert(l[k] == l[0]);
            }
        }
        assert(good_from(ls, 0) == Some(h));
        let t = l.drop_first();
        lemma_without_head(l);
        assert(without(Seq::<Seq<char>>::empty(), h) =~= Seq::<Seq<char>>::empty());
        assert(strip(ls, h) =~= seq![t, Seq::<Seq<char>>::empty()]);
        lemma_c3_single(t);
        assert(seq![h] + t =~= l);
    } else {
        assert(total(ls) == 0);
    }
}

proof fn lemma_without_absent(l: Seq<Seq<char>>, h: Seq<char>)
    requires
        !l.contains(h),
    ensures
        without(l, h) == l,
    decreases l.len(),
{
    if l.len() > 0 {
        assert(!l.drop_last().contains(h)) by {
            if l.drop_last().contains(h) {
                let k = choose|k: int| 0 <= k < l.drop_last().len() && l.drop_last()[k] == h;
                assert(l[k] == h);
            }
        }
        lemma_without_absent(l.drop_last(), h);
        assert(l.drop_last().push(l.last()) =~= l);
    }
}

proof fn lemma_without_head(l: Seq<Seq<char>>)
    requires
        l.no_duplicates(),
        l.len() > 0,
    ensures
        without(l, l[0]) == l.drop_first(),
    decreases l.len(),
{
    if l.len() == 1 {
        assert(l.drop_last() =~= Seq::<Seq<char>>::empty());
        assert(l.drop_first() =~= Seq::<Seq<char>>::empty());
        assert(without(l.drop_last(), l[0]) == l.drop_last());
    } else {
        let d = l.drop_last();
        assert(d.no_duplicates());
        assert(d[0] == l[0]);
        lemma_without_head(d);
        assert(l.last() != l[0]);
        assert(d.drop_first().push(l.last()) =~= l.drop_first());
    }
}

/// The chain invariant: on a single-base hierarchy a successful
/// linearization is the chain itself, duplicate-free and clear of the
/// classes in progress, and the pre-order search from any class outside it
/// finds the first definer along it.
proof fn lemma_chain(
    m: Map<Seq<char>, Seq<Seq<char>>>,
    own: Set<(Seq<char>, Seq<char>)>,
    meth: Seq<char>,
    c: Seq<char>,
    vis: Set<Seq<char>>,
    w: Set<Seq<char>>,
    p: Set<Seq<char>>,
)
    requires
        m.dom().finite(),
        forall|k: Seq<char>| m.dom().contains(k) ==> (#[trigger] m[k]).len() <= 1,
        lin(m, c, vis) is Ok,
        p.subset_of(w),
    ensures
        lin(m, c, vis)->Ok_0.no_duplicates(),
        forall|x: Seq<char>| lin(m, c, vis)->Ok_0.contains(x) ==> !vis.contains(x),
        (forall|x: Seq<char>| lin(m, c, vis)->Ok_0.contains(x) ==> !w.contains(x)) ==> dfs(m, own, meth, c, w, p).0
            == first_definer(own, lin(m, c, vis)->Ok_0, meth),
    decreases (m.dom() - vis).len(),
{
    let l = lin(m, c, vis)->Ok_0;
    if !m.dom().contains(c) {
        assert(l =~= seq![c]);
        assert(l.drop_first() =~= Seq::<Seq<char>>::empty());
        assert forall|x: Seq<char>| l.contains(x) implies !vis.contains(x) by {
            assert(x == l[0]);
        }
        assert(first_definer(own, l.drop_first(), meth) == None::<Seq<char>>);
        if forall|x: Seq<char>| l.contains(x) ==> !w.contains(x) {
            assert(l.contains(c));
            assert(l[0] == c);
            if own.contains((c, meth)) {
                assert(dfs(m, own, meth, c, w, p).0 == Some(c));
            } else {
                assert(dfs(m, own, meth, c, w, p).0 == None::<Seq<char>>);
            }
        }
    } else if m[c].len() == 0 {
        lemma_pending_drop(m.dom(), vis, c);
        let v1 = vis.insert(c);
        assert(lins(m, m[c], v1) == Ok::<Seq<Seq<Seq<char>>>, LinFail>(Seq::empty()));
        let all = Seq::<Seq<Seq<char>>>::empty().push(m[c]);
        assert(total(all) == 0) by {
            assert(all.drop_last() =~= Seq::<Seq<Seq<char>>>::empty());
            assert(total(Seq::<Seq<Seq<char>>>::empty()) == 0);
            assert(all.last() == m[c]);
        }
        assert(c3(all) == Some(Seq::<Seq<char>>::empty()));
        assert(l =~= seq![c]);
        assert(l.drop_first() =~= Seq::<Seq<char>>::empty());
        assert forall|x: Seq<char>| l.contains(x) implies !vis.contains(x) by {
            assert(x == l[0]);
        }
        assert(first_definer(own, l.drop_first(), meth) == None::<Seq<char>>);
        if forall|x: Seq<char>| l.contains(x) ==> !w.contains(x) {
            assert(l.contains(c));
            assert(l[0] == c);
            if own.contains((c, meth)) {
                assert(dfs(m, own, meth, c, w, p).0 == Some(c));
            } else {
                lemma_pending_drop(m.dom(), p, c);
                assert(dfs_list(m, own, meth, m[c], w.insert(c), p.insert(c)).0 == None::<Seq<char>>);
                assert(dfs(m, own, meth, c, w, p).0 == None::<Seq<char>>);
            }
        }
    } else {
        lemma_pending_drop(m.dom(), vis, c);
        let b = m[c][0];
        let v1 = vis.insert(c);
        assert(m[c] =~= seq![b]);
        assert(seq![b].drop_first() =~= Seq::<Seq<char>>::empty());
        assert(lin(m, b, v1) is Ok);
        let lb = lin(m, b, v1)->Ok_0;
        assert(lins(m, seq![b].drop_first(), v1) == Ok::<Seq<Seq<Seq<char>>>, LinFail>(Seq::empty()));
        assert(seq![lb] + Seq::<Seq<Seq<char>>>::empty() =~= seq![lb]);
        assert(seq![b][0] == b);
        assert(lins(m, m[c], v1) == Ok::<Seq<Seq<Seq<char>>>, LinFail>(seq![lb]));
        lemma_chain(m, own, meth, b, v1, w.insert(c), p.insert(c));
        lemma_lin_head(m, b, v1);
        let rest = lb.drop_first();
        let ls = seq![lb, seq![b]];
        assert(seq![lb].push(m[c]) =~= ls);
        // b heads lb and occurs in no tail
        assert(lb =~= seq![b] + rest);
        assert(!rest.contains(b)) by {
            if rest.contains(b) {
                let k = choose|k: int| 0 <= k < rest.len() && rest[k] == b;
                assert(lb[k + 1] == lb[0]);
            }
        }
        assert(!in_tail(ls, b)) by {
            if in_tail(ls, b) {
                let (j, k) = choose|j: int, k: int| 0 <= j < ls.len() && 1 <= k < ls[j].len() && #[trigger] ls[j][k] == b;
                if j == 0 {
                    assert(rest[k - 1] == b);
                }
            }
        }
        reveal_with_fuel(total, 3);
        assert(total(ls) > 0);
        assert(good_from(ls, 0) == Some(b));
        lemma_without_head(lb);
        assert(without(seq![b], b) =~= Seq::<Seq<char>>::empty()) by {
            assert(seq![b].drop_last() =~= Seq::<Seq<char>>::empty());
            assert(seq![b].last() == b);
            assert(without(Seq::<Seq<char>>::empty(), b) == Seq::<Seq<char>>::empty());
        }
        assert(strip(ls, b) =~= seq![rest, Seq::<Seq<char>>::empty()]);
        assert(rest.no_duplicates());
        lemma_c3_single(rest);
        assert(c3(ls) == Some(seq![b] + rest));
        assert(l =~= seq![c] + lb);
        assert(!lb.contains(c)) by {
            if lb.contains(c) {
                assert(v1.contains(c));
            }
        }
        assert(!vis.contains(c));
        assert forall|x: Seq<char>| l.contains(x) implies !vis.contains(x) by {
            let k = choose|k: int| 0 <= k < l.len() && l[k] == x;
            if k == 0 {
                assert(x == c);
            } else {
                assert(lb[k - 1] == x);
                assert(lb.contains(x));
                assert(!v1.contains(x));
                assert(vis.subset_of(v1));
            }
        }
        assert(l.no_duplicates()) by {
            assert forall|i: int, j: int| 0 <= i < l.len() && 0 <= j < l.len() && i != j implies l[i] != l[j] by {
                if i == 0 && j > 0 {
                    assert(lb.contains(l[j]));
                } else if j == 0 && i > 0 {
                    assert(lb.contains(l[i]));
                } else if i > 0 && j > 0 {
                    assert(l[i] == lb[i - 1] && l[j] == lb[j - 1]);
                }
            }
        }
        assert(l.drop_first() =~= lb);
        if forall|x: Seq<char>| l.contains(x) ==> !w.contains(x) {
            assert(l[0] == c);
            assert(!w.contains(c));
            assert(!p.contains(c));
            assert forall|x: Seq<char>| lb.contains(x) implies !w.insert(c).contains(x) by {
                let k = choose|k: int| 0 <= k < lb.len() && lb[k] == x;
                assert(l[k + 1] == x);
            }
            assert(p.insert(c).subset_of(w.insert(c)));
            if !own.contains((c, meth)) {
                let (h, v2) = dfs(m, own, meth, b, w.insert(c), p.insert(c));
                assert(dfs_list(m, own, meth, seq![b].drop_first(), v2, p.insert(c)) == (None::<Seq<char>>, v2));
                assert(dfs_list(m, own, meth, m[c], w.insert(c), p.insert(c)).0 == h);
                assert(dfs(m, own, meth, c, w, p).0 == h);
                assert(first_definer(own, l, meth) == first_definer(own, lb, meth));
            } else {
                assert(dfs(m, own, meth, c, w, p).0 == Some(c));
            }
        }
    }
}

/// On a single-inheritance chain (every class declares at most one base)
/// the naive parent-first search resolves every method to the same class
/// as C3, whenever the class has a linearization.
pub proof fn law_chain_c3_agrees_with_naive_dfs(md: MroModel, c: Seq<char>, meth: Seq<char>)
    requires
        md.bases.dom().finite(),
        forall|k: Seq<char>| md.bases.dom().contains(k) ==> (#[trigger] md.bases[k]).len() <= 1,
        lin(md.bases, c, Set::empty()) is Ok,
    ensures
        c3_resolution(md, c, meth) == dfs_resolution(md, c, meth),
{
    lemma_chain(md.bases, md.own, meth, c, Set::empty(), Set::empty(), Set::empty());
}

/// Every C3 linearization starts with the class itself.
pub proof fn law_linearization_starts_with_class(m: Map<Seq<char>, Seq<Seq<char>>>, c: Seq<char>)
    requires
        m.dom().finite(),
        lin(m, c, Set::empty()) is Ok,
    ensures
        lin(m, c, Set::empty())->Ok_0.len() >= 1,
        lin(m, c, Set::empty())->Ok_0[0] == c,
{
    lemma_lin_head(m, c, Set::empty());
}

/// A method a class defines itself fires locally: both the C3 resolution
/// (when the class has a linearization) and the naive parent-first search
/// resolve it to the class.
pub proof fn law_own_method_fires_locally(md: MroModel, c: Seq<char>, meth: Seq<char>)
    requires
        md.bases.dom().finite(),
        md.own.contains((c, meth)),
    ensures
        lin(md.bases, c, Set::empty()) is Ok ==> c3_resolution(md, c, meth) == Some(c),
        dfs_resolution(md, c, meth) == Some(c),
{
    if lin(md.bases, c, Set::empty()) is Ok {
        lemma_lin_head(md.bases, c, Set::empty());
    }
}

/// The classes the lists hold.
pub open spec fn elems(ls: Seq<Seq<Seq<char>>>) -> Set<Seq<char>> {
    Set::new(|x: Seq<char>| exists|j: int| 0 <= j < ls.len() && (#[trigger] ls[j]).contains(x))
}

proof fn lemma_without_contains(l: Seq<Seq<char>>, h: Seq<char>, x: Seq<char>)
    ensures
        without(l, h).contains(x) <==> (l.contains(x) && x != h),
    decreases l.len(),
{
    if l.len() > 0 {
        lemma_without_contains(l.drop_last(), h, x);
        let d = l.drop_last();
        if l.contains(x) && x != h {
            let k = choose|k: int| 0 <= k < l.len() && l[k] == x;
            if k < l.len() - 1 {
                assert(d[k] == x);
            }
        }
        if d.contains(x) {
            let k = choose|k: int| 0 <= k < d.len() && d[k] == x;
            assert(l[k] == x);
        }
        if without(l, h).contains(x) && l.last() != h && !without(d, h).contains(x) {
            assert(without(l, h) == without(d, h).push(l.last()));
            let k = choose|k: int| 0 <= k < without(l, h).len() && without(l, h)[k] == x;
            assert(k == without(d, h).len());
        }
        if l.last() != h && without(d, h).contains(x) {
            let k = choose|k: int| 0 <= k < without(d, h).len() && without(d, h)[k] == x;
            assert(without(l, h)[k] == x);
        }
        if l.last() != h && x == l.last() {
            assert(without(l, h)[without(d, h).len() as int] == x);
        }
    }
}

proof fn lemma_strip_elems(ls: Seq<Seq<Seq<char>>>, h: Seq<char>)
    ensures
        elems(strip(ls, h)) == elems(ls).remove(h),
{
    assert forall|x: Seq<char>| elems(strip(ls, h)).contains(x) <==> elems(ls).remove(h).contains(x) by {
        if elems(strip(ls, h)).contains(x) {
            let j = choose|j: int| 0 <= j < strip(ls, h).len() && (#[trigger] strip(ls, h)[j]).contains(x);
            lemma_without_contains(ls[j], h, x);
        }
        if elems(ls).remove(h).contains(x) {
            let j = choose|j: int| 0 <= j < ls.len() && (#[trigger] ls[j]).contains(x);
            lemma_without_contains(ls[j], h, x);
            assert(strip(ls, h)[j].contains(x));
        }
    }
    assert(elems(strip(ls, h)) =~= elems(ls).remove(h));
}

/// A successful C3 merge emits every class of its lists exactly once.
proof fn lemma_c3_emits_each_once(ls: Seq<Seq<Seq<char>>>)
    requires
        c3(ls) is Some,
    ensures
        c3(ls)->0.no_duplicates(),
        c3(ls)->0.to_set() == elems(ls),
    decreases total(ls),
{
    if total(ls) == 0 {
        lemma_total_zero(ls);
        assert(elems(ls) =~= Set::<Seq<char>>::empty()) by {
            assert forall|x: Seq<char>| !elems(ls).contains(x) by {
                if elems(ls).contains(x) {
                    let j = choose|j: int| 0 <= j < ls.len() && (#[trigger] ls[j]).contains(x);
                    assert(ls[j].len() == 0);
                }
            }
        }
        assert(c3(ls)->0.to_set() =~= Set::<Seq<char>>::empty());
    } else {
        let h = good_from(ls, 0)->0;
        lemma_good_from(ls, 0);
        let j = choose|j: int| 0 <= j < ls.len() && ls[j].len() > 0 && ls[j][0] == h;
        assert(ls[j].contains(h));
        lemma_total_strip(ls, h);
        let st = strip(ls, h);
        lemma_c3_emits_each_once(st);
        lemma_strip_elems(ls, h);
        let r = c3(st)->0;
        assert(c3(ls)->0 == seq![h] + r);
        assert(!r.contains(h)) by {
            if r.contains(h) {
                assert(r.to_set().contains(h));
            }
        }
        let out = seq![h] + r;
        assert forall|a: int, b: int| 0 <= a < b < out.len() implies out[a] != out[b] by {
            if a == 0 {
                assert(out[b] == r[b - 1]);
            } else {
                assert(out[a] == r[a - 1] && out[b] == r[b - 1]);
            }
        }
        assert forall|x: Seq<char>| out.to_set().contains(x) <==> elems(ls).contains(x) by {
            if out.to_set().contains(x) && x != h {
                let k = choose|k: int| 0 <= k < out.len() && out[k] == x;
                assert(r[k - 1] == x);
                assert(r.to_set().contains(x));
            }
            if elems(ls).contains(x) && x != h {
                assert(elems(st).contains(x));
                assert(r.to_set().contains(x));
                let k = choose|k: int| 0 <= k < r.len() && r[k] == x;
                assert(out[k + 1] == x);
            }
            if x == h {
                assert(out[0] == h);
            }
        }
        assert(out.to_set() =~= elems(ls));
    }
}

proof fn lemma_lin_once(m: Map<Seq<char>, Seq<Seq<char>>>, c: Seq<char>, vis: Set<Seq<char>>)
    requires
        m.dom().finite(),
        lin(m, c, vis) is Ok,
    ensures
        !vis.contains(c),
        lin(m, c, vis)->Ok_0.no_duplicates(),
        forall|x: Seq<char>| lin(m, c, vis)->Ok_0.contains(x) ==> !vis.contains(x),
        m.dom().contains(c) ==> forall|i: int| 0 <= i < m[c].len() ==> lin(m, c, vis)->Ok_0.contains(#[trigger] m[c][i]),
    decreases (m.dom() - vis).len(), 0nat,
{
    if !m.dom().contains(c) {
        let l = lin(m, c, vis)->Ok_0;
        assert(l == seq![c]);
        assert forall|x: Seq<char>| l.contains(x) implies !vis.contains(x) by {
            let k = choose|k: int| 0 <= k < l.len() && l[k] == x;
        }
    } else {
        lemma_pending_drop(m.dom(), vis, c);
        let v1 = vis.insert(c);
        let ls = lins(m, m[c], v1)->Ok_0;
        lemma_lins_once(m, m[c], v1);
        let all = ls.push(m[c]);
        let r = c3(all)->0;
        lemma_c3_emits_each_once(all);
        let l = seq![c] + r;
        assert(lin(m, c, vis)->Ok_0 == l);
        assert forall|x: Seq<char>| elems(all).contains(x) implies !v1.contains(x) by {
            let j = choose|j: int| 0 <= j < all.len() && (#[trigger] all[j]).contains(x);
            if j < ls.len() {
                assert(all[j] == ls[j]);
            } else {
                let i = choose|i: int| 0 <= i < m[c].len() && m[c][i] == x;
            }
        }
        assert forall|x: Seq<char>| r.contains(x) implies !v1.contains(x) by {
            assert(r.to_set().contains(x));
        }
        assert forall|a: int, b: int| 0 <= a < b < l.len() implies l[a] != l[b] by {
            if a == 0 {
                assert(l[b] == r[b - 1]);
                assert(r.contains(r[b - 1]));
            } else {
                assert(l[a] == r[a - 1] && l[b] == r[b - 1]);
            }
        }
        assert forall|x: Seq<char>| l.contains(x) implies !vis.contains(x) by {
            let k = choose|k: int| 0 <= k < l.len() && l[k] == x;
            if k > 0 {
                assert(r[k - 1] == x);
                assert(r.contains(x));
            }
        }
        assert forall|i: int| 0 <= i < m[c].len() implies l.contains(#[trigger] m[c][i]) by {
            let x = m[c][i];
            assert(all[ls.len() as int] == m[c]);
            assert(m[c].contains(x));
            assert(elems(all).contains(x));
            assert(r.to_set().contains(x));
            let k = choose|k: int| 0 <= k < r.len() && r[k] == x;
            assert(l[k + 1] == x);
        }
    }
}

proof fn lemma_lins_once(m: Map<Seq<char>, Seq<Seq<char>>>, bs: Seq<Seq<char>>, vis: Set<Seq<char>>)
    requires
        m.dom().finite(),
        lins(m, bs, vis) is Ok,
    ensures
        lins(m, bs, vis)->Ok_0.len() == bs.len(),
        forall|i: int| 0 <= i < bs.len() ==> !vis.contains(#[trigger] bs[i]),
        forall|i: int|
            0 <= i < bs.len() ==> (#[trigger] lins(m, bs, vis)->Ok_0[i]).no_duplicates() && forall|x: Seq<char>|
                lins(m, bs, vis)->Ok_0[i].contains(x) ==> !vis.contains(x),
    decreases (m.dom() - vis).len(), bs.len(),
{
    if bs.len() > 0 {
        lemma_lin_once(m, bs[0], vis);
        lemma_lins_once(m, bs.drop_first(), vis);
        let l = lin(m, bs[0], vis)->Ok_0;
        let rest = lins(m, bs.drop_first(), vis)->Ok_0;
        let out = lins(m, bs, vis)->Ok_0;
        assert(out == seq![l] + rest);
        assert forall|i: int| 0 <= i < bs.len() implies !vis.contains(#[trigger] bs[i]) by {
            if i > 0 {
                assert(bs.drop_first()[i - 1] == bs[i]);
            }
        }
        assert forall|i: int| 0 <= i < bs.len() implies (#[trigger] out[i]).no_duplicates() && forall|x: Seq<char>|
            out[i].contains(x) ==> !vis.contains(x) by {
            if i > 0 {
                assert(out[i] == rest[i - 1]);
            }
        }
    }
}

/// A C3 linearization lists every class once, and lists each declared base
/// of the class.
pub proof fn law_linearization_lists_each_class_once(m: Map<Seq<char>, Seq<Seq<char>>>, c: Seq<char>)
    requires
        m.dom().finite(),
        lin(m, c, Set::empty()) is Ok,
    ensures
        lin(m, c, Set::empty())->Ok_0.no_duplicates(),
        m.dom().contains(c) ==> forall|i: int| 0 <= i < m[c].len() ==> lin(m, c, Set::empty())->Ok_0.contains(#[trigger] m[c][i]),
{
    lemma_lin_once(m, c, Set::empty());
}

/// `x` occurs before `y` in `l`.
pub open spec fn precedes(l: Seq<Seq<char>>, x: Seq<char>, y: Seq<char>) -> bool {
    exists|a: int, b: int| 0 <= a < b < l.len() && l[a] == x && l[b] == y
}

proof fn lemma_good_not_in_tail(ls: Seq<Seq<Seq<char>>>, i: int)
    requires
        good_from(ls, i) is Some,
    ensures
        !in_tail(ls, good_from(ls, i)->0),
    decreases ls.len() - i,
{
    if 0 <= i < ls.len() && !(ls[i].len() > 0 && !in_tail(ls, ls[i][0])) {
        lemma_good_not_in_tail(ls, i + 1);
    }
}

proof fn lemma_without_keeps_order(l: Seq<Seq<char>>, h: Seq<char>, x: Seq<char>, y: Seq<char>)
    requires
        precedes(l, x, y),
        x != h,
        y != h,
    ensures
        precedes(without(l, h), x, y),
    decreases l.len(),
{
    let (a, b) = choose|a: int, b: int| 0 <= a < b < l.len() && l[a] == x && l[b] == y;
    let d = l.drop_last();
    let wd = without(d, h);
    if b == l.len() - 1 {
        assert(d[a] == x);
        lemma_without_contains(d, h, x);
        let a2 = choose|k: int| 0 <= k < wd.len() && wd[k] == x;
        assert(without(l, h) == wd.push(y));
        assert(without(l, h)[a2] == x);
        assert(without(l, h)[wd.len() as int] == y);
    } else {
        assert(d[a] == x && d[b] == y);
        assert(precedes(d, x, y));
        lemma_without_keeps_order(d, h, x, y);
        let (a2, b2) = choose|a2: int, b2: int| 0 <= a2 < b2 < wd.len() && wd[a2] == x && wd[b2] == y;
        if l.last() != h {
            assert(without(l, h) == wd.push(l.last()));
            assert(without(l, h)[a2] == x && without(l, h)[b2] == y);
        }
    }
}

/// The C3 merge keeps the order of every input list.
proof fn lemma_c3_keeps_order(ls: Seq<Seq<Seq<char>>>, j: int, x: Seq<char>, y: Seq<char>)
    requires
        c3(ls) is Some,
        0 <= j < ls.len(),
        precedes(ls[j], x, y),
    ensures
        precedes(c3(ls)->0, x, y),
    decreases total(ls),
{
    let (a, b) = choose|a: int, b: int| 0 <= a < b < ls[j].len() && ls[j][a] == x && ls[j][b] == y;
    if total(ls) == 0 {
        lemma_total_zero(ls);
        assert(ls[j].len() == 0);
    } else {
        let h = good_from(ls, 0)->0;
        lemma_good_from(ls, 0);
        lemma_good_not_in_tail(ls, 0);
        let i = choose|i: int| 0 <= i < ls.len() && ls[i].len() > 0 && ls[i][0] == h;
        assert(ls[i].contains(h));
        lemma_total_strip(ls, h);
        let st = strip(ls, h);
        let r = c3(st)->0;
        let out = seq![h] + r;
        assert(c3(ls)->0 == out);
        assert(y != h) by {
            if y == h {
                assert(ls[j][b] == h);
                assert(in_tail(ls, h));
            }
        }
        if x == h {
            lemma_c3_emits_each_once(st);
            lemma_strip_elems(ls, h);
            assert(ls[j].contains(y));
            assert(elems(ls).contains(y));
            assert(elems(st).contains(y));
            assert(r.to_set().contains(y));
            let k = choose|k: int| 0 <= k < r.len() && r[k] == y;
            assert(out[0] == x && out[k + 1] == y);
        } else {
            lemma_without_keeps_order(ls[j], h, x, y);
            assert(st[j] == without(ls[j], h));
            lemma_c3_keeps_order(st, j, x, y);
            let (a2, b2) = choose|a2: int, b2: int| 0 <= a2 < b2 < r.len() && r[a2] == x && r[b2] == y;
            assert(out[a2 + 1] == x && out[b2 + 1] == y);
        }
    }
}

/// Local precedence: the declared bases of a class keep their declaration
/// order in its C3 linearization.
pub proof fn law_linearization_keeps_declaration_order(m: Map<Seq<char>, Seq<Seq<char>>>, c: Seq<char>)
    requires
        m.dom().finite(),
        m.dom().contains(c),
        lin(m, c, Set::empty()) is Ok,
    ensures
        forall|a: int, b: int|
            0 <= a < b < m[c].len() ==> precedes(lin(m, c, Set::empty())->Ok_0, #[trigger] m[c][a], #[trigger] m[c][b]),
{
    let vis = Set::<Seq<char>>::empty();
    lemma_pending_drop(m.dom(), vis, c);
    let ls = lins(m, m[c], vis.insert(c))->Ok_0;
    let all = ls.push(m[c]);
    let r = c3(all)->0;
    let l = seq![c] + r;
    assert(lin(m, c, vis)->Ok_0 == l);
    assert forall|a: int, b: int| 0 <= a < b < m[c].len() implies precedes(l, #[trigger] m[c][a], #[trigger] m[c][b]) by {
        assert(all[ls.len() as int] == m[c]);
        assert(precedes(all[ls.len() as int], m[c][a], m[c][b]));
        lemma_c3_keeps_order(all, ls.len() as int, m[c][a], m[c][b]);
        let (a2, b2) = choose|a2: int, b2: int| 0 <= a2 < b2 < r.len() && r[a2] == m[c][a] && r[b2] == m[c][b];
        assert(l[a2 + 1] == m[c][a] && l[b2 + 1] == m[c][b]);
    }
}

proof fn lemma_lins_index(m: Map<Seq<char>, Seq<Seq<char>>>, bs: Seq<Seq<char>>, vis: Set<Seq<char>>, i: int)
    requires
        m.dom().finite(),
        lins(m, bs, vis) is Ok,
        0 <= i < bs.len(),
    ensures
        lin(m, bs[i], vis) is Ok,
        lins(m, bs, vis)->Ok_0[i] == lin(m, bs[i], vis)->Ok_0,
    decreases bs.len(),
{
    let l = lin(m, bs[0], vis)->Ok_0;
    let rest = lins(m, bs.drop_first(), vis)->Ok_0;
    assert(lins(m, bs, vis)->Ok_0 == seq![l] + rest);
    lemma_lins_once(m, bs.drop_first(), vis);
    if i > 0 {
        lemma_lins_index(m, bs.drop_first(), vis, i - 1);
        assert(bs.drop_first()[i - 1] == bs[i]);
        assert((seq![l] + rest)[i] == rest[i - 1]);
    }
}

proof fn lemma_lin_fewer_visited(m: Map<Seq<char>, Seq<Seq<char>>>, c: Seq<char>, v: Set<Seq<char>>, w: Set<Seq<char>>)
    requires
        m.dom().finite(),
        lin(m, c, v) is Ok,
        w.subset_of(v),
    ensures
        lin(m, c, w) == lin(m, c, v),
    decreases (m.dom() - v).len(), 0nat,
{
    if m.dom().contains(c) {
        lemma_pending_drop(m.dom(), v, c);
        lemma_lins_fewer_visited(m, m[c], v.insert(c), w.insert(c));
    }
}

proof fn lemma_lins_fewer_visited(m: Map<Seq<char>, Seq<Seq<char>>>, bs: Seq<Seq<char>>, v: Set<Seq<char>>, w: Set<Seq<char>>)
    requires
        m.dom().finite(),
        lins(m, bs, v) is Ok,
        w.subset_of(v),
    ensures
        lins(m, bs, w) == lins(m, bs, v),
    decreases (m.dom() - v).len(), bs.len(),
{
    if bs.len() > 0 {
        lemma_lin_fewer_visited(m, bs[0], v, w);
        lemma_lins_fewer_visited(m, bs.drop_first(), v, w);
    }
}

/// Monotonicity: whatever order a base's own linearization puts two classes
/// in, the class's linearization keeps.
pub proof fn law_linearization_is_monotonic(
    m: Map<Seq<char>, Seq<Seq<char>>>,
    c: Seq<char>,
    i: int,
    x: Seq<char>,
    y: Seq<char>,
)
    requires
        m.dom().finite(),
        m.dom().contains(c),
        lin(m, c, Set::empty()) is Ok,
        0 <= i < m[c].len(),
    ensures
        lin(m, m[c][i], Set::empty()) is Ok,
        precedes(lin(m, m[c][i], Set::empty())->Ok_0, x, y) ==> precedes(lin(m, c, Set::empty())->Ok_0, x, y),
{
    let vis = Set::<Seq<char>>::empty();
    let v1 = vis.insert(c);
    lemma_pending_drop(m.dom(), vis, c);
    let ls = lins(m, m[c], v1)->Ok_0;
    lemma_lins_once(m, m[c], v1);
    lemma_lins_index(m, m[c], v1, i);
    lemma_lin_fewer_visited(m, m[c][i], v1, vis);
    let all = ls.push(m[c]);
    let r = c3(all)->0;
    let l = seq![c] + r;
    assert(lin(m, c, vis)->Ok_0 == l);
    if precedes(lin(m, m[c][i], vis)->Ok_0, x, y) {
        assert(all[i] == ls[i]);
        lemma_c3_keeps_order(all, i, x, y);
        let (a2, b2) = choose|a2: int, b2: int| 0 <= a2 < b2 < r.len() && r[a2] == x && r[b2] == y;
        assert(l[a2 + 1] == x && l[b2 + 1] == y);
    }
}

/// `p` walks declared bases: each class after the first is a declared base
/// of the one before it.
pub open spec fn is_base_path(m: Map<Seq<char>, Seq<Seq<char>>>, p: Seq<Seq<char>>) -> bool {
    &&& p.len() >= 1
    &&& forall|k: int| 0 <= k < p.len() - 1 ==> m.dom().contains(#[trigger] p[k]) && m[p[k]].contains(p[k + 1])
}

/// `x` is `c` or reachable from `c` through declared bases.
pub open spec fn reaches(m: Map<Seq<char>, Seq<Seq<char>>>, c: Seq<char>, x: Seq<char>) -> bool {
    exists|p: Seq<Seq<char>>| is_base_path(m, p) && p[0] == c && p.last() == x
}

proof fn lemma_lin_elems(m: Map<Seq<char>, Seq<Seq<char>>>, c: Seq<char>, vis: Set<Seq<char>>, x: Seq<char>)
    requires
        m.dom().finite(),
        lin(m, c, vis) is Ok,
    ensures
        lin(m, c, vis)->Ok_0.contains(x) <==> (x == c || (m.dom().contains(c) && exists|i: int|
            0 <= i < m[c].len() && (#[trigger] lin(m, m[c][i], vis.insert(c)))->Ok_0.contains(x))),
        m.dom().contains(c) ==> forall|i: int| 0 <= i < m[c].len() ==> (#[trigger] lin(m, m[c][i], vis.insert(c))) is Ok,
{
    lemma_lin_head(m, c, vis);
    let l = lin(m, c, vis)->Ok_0;
    if m.dom().contains(c) {
        lemma_lin_once(m, c, vis);
        let v1 = vis.insert(c);
        lemma_pending_drop(m.dom(), vis, c);
        let ls = lins(m, m[c], v1)->Ok_0;
        lemma_lins_once(m, m[c], v1);
        let all = ls.push(m[c]);
        let r = c3(all)->0;
        lemma_c3_emits_each_once(all);
        assert(l == seq![c] + r);
        assert forall|i: int| 0 <= i < m[c].len() implies (#[trigger] lin(m, m[c][i], v1)) is Ok && ls[i] == lin(m, m[c][i], v1)->Ok_0 by {
            lemma_lins_index(m, m[c], v1, i);
        }
        let ex = exists|i: int| 0 <= i < m[c].len() && (#[trigger] lin(m, m[c][i], v1))->Ok_0.contains(x);
        if l.contains(x) && x != c {
            let k = choose|k: int| 0 <= k < l.len() && l[k] == x;
            assert(r[k - 1] == x);
            assert(r.to_set().contains(x));
            assert(elems(all).contains(x));
            let j = choose|j: int| 0 <= j < all.len() && (#[trigger] all[j]).contains(x);
            if j < ls.len() {
                assert(all[j] == ls[j]);
                assert(lin(m, m[c][j], v1)->Ok_0.contains(x));
            } else {
                assert(all[j] == m[c]);
                let i = choose|i: int| 0 <= i < m[c].len() && m[c][i] == x;
                lemma_lin_head(m, m[c][i], v1);
                assert(lin(m, m[c][i], v1)->Ok_0[0] == x);
                assert(lin(m, m[c][i], v1)->Ok_0.contains(x));
            }
        }
        if x == c {
            assert(l[0] == c);
        }
        if ex {
            let i = choose|i: int| 0 <= i < m[c].len() && (#[trigger] lin(m, m[c][i], v1))->Ok_0.contains(x);
            assert(all[i] == ls[i]);
            assert(elems(all).contains(x));
            assert(r.to_set().contains(x));
            let k = choose|k: int| 0 <= k < r.len() && r[k] == x;
            assert(l[k + 1] == x);
        }
    } else {
        if l.contains(x) {
            let k = choose|k: int| 0 <= k < l.len() && l[k] == x;
        }
        if x == c {
            assert(l[0] == c);
        }
    }
}

proof fn lemma_lin_reaches(m: Map<Seq<char>, Seq<Seq<char>>>, c: Seq<char>, vis: Set<Seq<char>>, x: Seq<char>)
    requires
        m.dom().finite(),
        lin(m, c, vis) is Ok,
        lin(m, c, vis)->Ok_0.contains(x),
    ensures
        reaches(m, c, x),
    decreases (m.dom() - vis).len(),
{
    lemma_lin_elems(m, c, vis, x);
    if x == c {
        let p = seq![c];
        assert(is_base_path(m, p) && p[0] == c && p.last() == x);
    } else {
        lemma_lin_once(m, c, vis);
        lemma_pending_drop(m.dom(), vis, c);
        let v1 = vis.insert(c);
        let i = choose|i: int| 0 <= i < m[c].len() && (#[trigger] lin(m, m[c][i], v1))->Ok_0.contains(x);
        let b = m[c][i];
        lemma_lin_reaches(m, b, v1, x);
        let q = choose|q: Seq<Seq<char>>| is_base_path(m, q) && q[0] == b && q.last() == x;
        let p = seq![c] + q;
        assert(m[c].contains(b));
        assert forall|k: int| 0 <= k < p.len() - 1 implies m.dom().contains(#[trigger] p[k]) && m[p[k]].contains(p[k + 1]) by {
            if k > 0 {
                assert(p[k] == q[k - 1] && p[k + 1] == q[k]);
            }
        }
        assert(is_base_path(m, p) && p[0] == c && p.last() == x);
    }
}

proof fn lemma_reaches_lin(m: Map<Seq<char>, Seq<Seq<char>>>, p: Seq<Seq<char>>, vis: Set<Seq<char>>)
    requires
        m.dom().finite(),
        is_base_path(m, p),
        lin(m, p[0], vis) is Ok,
    ensures
        lin(m, p[0], vis)->Ok_0.contains(p.last()),
    decreases p.len(),
{
    let c = p[0];
    let x = p.last();
    lemma_lin_elems(m, c, vis, x);
    if p.len() == 1 {
    } else {
        assert(m.dom().contains(p[0]) && m[p[0]].contains(p[1]));
        let i = choose|i: int| 0 <= i < m[c].len() && m[c][i] == p[1];
        let v1 = vis.insert(c);
        assert(lin(m, m[c][i], v1) is Ok);
        let q = p.drop_first();
        assert forall|k: int| 0 <= k < q.len() - 1 implies m.dom().contains(#[trigger] q[k]) && m[q[k]].contains(q[k + 1]) by {
            assert(q[k] == p[k + 1] && q[k + 1] == p[k + 2]);
        }
        assert(q[0] == m[c][i]);
        lemma_reaches_lin(m, q, v1);
        assert(q.last() == x);
    }
}

/// A linearization holds exactly the class and the classes reachable from it
/// through declared bases, and every class of each declared base's own
/// linearization.
pub proof fn law_linearization_covers_reachable(m: Map<Seq<char>, Seq<Seq<char>>>, c: Seq<char>)
    requires
        m.dom().finite(),
        lin(m, c, Set::empty()) is Ok,
    ensures
        forall|x: Seq<char>| #[trigger] lin(m, c, Set::empty())->Ok_0.contains(x) <==> reaches(m, c, x),
        m.dom().contains(c) ==> forall|i: int, x: Seq<char>|
            0 <= i < m[c].len() && #[trigger] lin(m, m[c][i], Set::empty())->Ok_0.contains(x) ==> lin(
                m,
                c,
                Set::empty(),
            )->Ok_0.contains(x),
{
    let e = Set::<Seq<char>>::empty();
    assert forall|x: Seq<char>| #[trigger] lin(m, c, e)->Ok_0.contains(x) <==> reaches(m, c, x) by {
        if lin(m, c, e)->Ok_0.contains(x) {
            lemma_lin_reaches(m, c, e, x);
        }
        if reaches(m, c, x) {
            let p = choose|p: Seq<Seq<char>>| is_base_path(m, p) && p[0] == c && p.last() == x;
            lemma_reaches_lin(m, p, e);
        }
    }
    if m.dom().contains(c) {
        assert forall|i: int, x: Seq<char>|
            0 <= i < m[c].len() && #[trigger] lin(m, m[c][i], e)->Ok_0.contains(x) implies lin(m, c, e)->Ok_0.contains(x) by {
            lemma_lin_elems(m, c, e, x);
            lemma_lin_fewer_visited(m, m[c][i], e.insert(c), e);
        }
    }
}

} // verus!
