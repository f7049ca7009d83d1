//! Inheritance map: `(model → bases)` lifted from the corpus's
//! `inherits_from` triples.
//!
//! Both `_inherit` (mixin composition) and `_inherits` (delegation) lift to
//! the same predicate. This is the direct-bases lookup (which mixins'
//! definitions union into a model's table), not a method-resolution order;
//! see [`crate::mro`] for that.
use vstd::prelude::*;
use crate::rel::{
    domain, image, lemma_absent_image, lemma_domain_keys, lemma_entry_image, lemma_rel_len, rel_insert,
    rel_view, rel_wf, RelEntry,
};
use crate::strset::{key_find, keys_of, lemma_sorted_no_dup, sorted, view_strs};
use crate::text::{contains_char, has_prefix, str_eq, strip_prefix};
use crate::triple::Triple;

verus! {

/// `odoo:<model>` gives the model. An IRI outside the `odoo:` namespace, and
/// one whose local part has a member dot (a field), is not a model.
pub open spec fn spec_bare_model(iri: Seq<char>) -> Option<Seq<char>> {
    if has_prefix(iri, "odoo:"@) {
        let local = iri.subrange("odoo:"@.len() as int, iri.len() as int);
        if local.contains('.') {
            None
        } else {
            Some(local)
        }
    } else {
        None
    }
}

/// `odoo:<model>` → `Some("model")`; `odoo:<model>.<field>` and any IRI
/// outside the `odoo:` namespace → `None`.
pub fn bare_model(iri: &str) -> (res: Option<&str>)
    ensures
        match res {
            Some(m) => spec_bare_model(iri@) == Some(m@),
            None => spec_bare_model(iri@) is None,
        },
{
    match strip_prefix(iri, "odoo:") {
        Some(local) => {
            if contains_char(local, '.') {
                None
            } else {
                Some(local)
            }
        },
        None => None,
    }
}

/// The `(child, base)` pair an `inherits_from` triple contributes, if any.
pub open spec fn inherits_pair(t: Triple) -> Option<(Seq<char>, Seq<char>)> {
    if t.p@ == "inherits_from"@ {
        match (spec_bare_model(t.s@), spec_bare_model(t.o@)) {
            (Some(c), Some(b)) => Some((c, b)),
            _ => None,
        }
    } else {
        None
    }
}

/// Every `(child, base)` pair the triples declare.
pub open spec fn inherits_pairs(ts: Seq<Triple>) -> Set<(Seq<char>, Seq<char>)> {
    Set::new(
        |pr: (Seq<char>, Seq<char>)| exists|i: int| 0 <= i < ts.len() && inherits_pair(ts[i]) == Some(pr),
    )
}

/// The views of a vector of string slices.
pub open spec fn view_strrefs(v: Seq<&str>) -> Seq<Seq<char>> {
    v.map_values(|s: &str| s@)
}

/// A lookup from underscored model name (`account_move`) to its declared
/// `_inherit` / `_inherits` bases (`mail_thread`, `mail_activity_mixin`).
#[derive(Debug)]
pub struct InheritanceMap {
    bases: Vec<RelEntry>,
}

impl View for InheritanceMap {
    type V = Set<(Seq<char>, Seq<char>)>;

    /// The `(model, base)` pairs the map holds.
    closed spec fn view(&self) -> Set<(Seq<char>, Seq<char>)> {
        rel_view(self.bases@)
    }
}

impl InheritanceMap {
    #[verifier::type_invariant]
    spec fn inv(&self) -> bool {
        rel_wf(self.bases@)
    }

    /// An empty map.
    pub fn new() -> (m: InheritanceMap)
        ensures
            m@ == Set::<(Seq<char>, Seq<char>)>::empty(),
            m@.finite(),
    {
        let v: Vec<RelEntry> = Vec::new();
        assert(keys_of(v@) =~= Seq::<Seq<char>>::empty());
        proof {
            lemma_rel_len(v@);
        }
        let m = InheritanceMap { bases: v };
        assert(m@ =~= Set::<(Seq<char>, Seq<char>)>::empty());
        m
    }

    /// Build from the SPO triples, consuming `inherits_from` edges. Triples
    /// whose subject or object is not a bare `odoo:<model>` IRI are skipped;
    /// both endpoints are namespace-stripped.
    pub fn from_corpus(triples: &[Triple]) -> (m: InheritanceMap)
        ensures
            m@ == inherits_pairs(triples@),
            m@.finite(),
    {
        let mut bases: Vec<RelEntry> = Vec::new();
        let mut i: usize = 0;
        proof {
            assert(rel_view(bases@) =~= inherits_pairs(triples@.take(0)));
        }
        while i < triples.len()
            invariant
                i <= triples.len(),
                rel_wf(bases@),
                rel_view(bases@) == inherits_pairs(triples@.take(i as int)),
            decreases triples.len() - i,
        {
            let t = &triples[i];
            let ghost before = rel_view(bases@);
            if str_eq(t.p.as_str(), "inherits_from") {
                if let Some(child) = bare_model(t.s.as_str()) {
                    if let Some(base) = bare_model(t.o.as_str()) {
                        rel_insert(&mut bases, child, base);
                    }
                }
            }
            proof {
                let ts = triples@;
                let tk0 = ts.take(i as int);
                let tk1 = ts.take(i + 1);
                assert(tk1 =~= tk0.push(ts[i as int]));
                let next = inherits_pairs(tk1);
                let prev = inherits_pairs(tk0);
                assert forall|pr: (Seq<char>, Seq<char>)| next.contains(pr) implies rel_view(
                    bases@,
                ).contains(pr) by {
                    let j = choose|j: int| 0 <= j < tk1.len() && inherits_pair(tk1[j]) == Some(pr);
                    if j < i {
                        assert(tk0[j] == tk1[j]);
                        assert(prev.contains(pr));
                    }
                }
                assert forall|pr: (Seq<char>, Seq<char>)| rel_view(bases@).contains(pr) implies next.contains(
                    pr,
                ) by {
                    if before.contains(pr) {
                        let j = choose|j: int| 0 <= j < tk0.len() && inherits_pair(tk0[j]) == Some(pr);
                        assert(tk1[j] == tk0[j]);
                    } else {
                        assert(tk1[i as int] == ts[i as int]);
                    }
                }
                assert(rel_view(bases@) =~= next);
            }
            i += 1;
        }
        proof {
            assert(triples@.take(triples.len() as int) =~= triples@);
        }
        proof {
            lemma_rel_len(bases@);
        }
        InheritanceMap { bases }
    }

    /// The direct bases of `model`, sorted; empty when the model has no
    /// `_inherit` declarations or isn't in the corpus.
    pub fn bases(&self, model: &str) -> (res: Vec<&str>)
        ensures
            sorted(view_strrefs(res@)),
            view_strrefs(res@).to_set() == image(self@, model@),
    {
        proof {
            use_type_invariant(self);
        }
        match key_find(&self.bases, model) {
            Ok(i) => {
                let vals = &self.bases[i].1;
                let mut out: Vec<&str> = Vec::new();
                let mut j: usize = 0;
                while j < vals.len()
                    invariant
                        j <= vals.len(),
                        view_strrefs(out@) == view_strs(vals@).take(j as int),
                    decreases vals.len() - j,
                {
                    let ghost before = out@;
                    let x = vals[j].as_str();
                    out.push(x);
                    proof {
                        assert(out@ =~= before.push(x));
                        assert(view_strs(vals@)[j as int] == x@);
                        assert(view_strrefs(out@) =~= view_strrefs(before).push(x@));
                        assert(view_strs(vals@).take(j + 1) =~= view_strs(vals@).take(j as int).push(
                            x@,
                        ));
                        assert(view_strrefs(out@) =~= view_strs(vals@).take(j + 1));
                    }
                    j += 1;
                }
                proof {
                    assert(view_strs(vals@).take(vals.len() as int) =~= view_strs(vals@));
                    lemma_entry_image(self.bases@, i as int);
                }
                out
            },
            Err(_) => {
                proof {
                    lemma_absent_image(self.bases@, model@);
                    assert(view_strrefs(Seq::<&str>::empty()).to_set() =~= Set::<
                        Seq<char>,
                    >::empty());
                }
                Vec::new()
            },
        }
    }

    /// Whether `model` has any declared bases.
    pub fn has_bases(&self, model: &str) -> (b: bool)
        ensures
            b == domain(self@).contains(model@),
    {
        proof {
            use_type_invariant(self);
            lemma_domain_keys(self.bases@);
        }
        key_find(&self.bases, model).is_ok()
    }

    /// Total number of models with at least one declared base.
    pub fn len(&self) -> (n: usize)
        ensures
            n == domain(self@).len(),
            self@.finite(),
            domain(self@).finite(),
    {
        proof {
            use_type_invariant(self);
            lemma_rel_len(self.bases@);
            lemma_domain_keys(self.bases@);
            lemma_sorted_no_dup(keys_of(self.bases@));
            keys_of(self.bases@).unique_seq_to_set();
        }
        self.bases.len()
    }

    /// Whether the map is empty.
    pub fn is_empty(&self) -> (b: bool)
        ensures
            b == (self@ == Set::<(Seq<char>, Seq<char>)>::empty()),
    {
        proof {
            use_type_invariant(self);
            if self.bases.len() > 0 {
                let e = self.bases@;
                assert(e[0].1@.len() > 0);
                assert(view_strs(e[0].1@)[0] == e[0].1@[0]@);
                assert(self@.contains((e[0].0@, e[0].1@[0]@)));
            } else {
                assert(self@ =~= Set::<(Seq<char>, Seq<char>)>::empty());
            }
        }
        self.bases.len() == 0
    }
}

} // verus!
