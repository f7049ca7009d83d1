//! Behavioral-arm lowering: Odoo's reactive lifecycle facts in the corpus
//! become one action per `_compute_*` method (the recompute arm, carrying the
//! method's `reads_field` paths) and one per guard method that `raises` (the
//! constrains arm, a `before_save` lifecycle trigger whose failure rejects).
//!
//! | Odoo source | corpus fact | action |
//! |---|---|---|
//! | `_compute_*` + `@api.depends` | `(method, reads_field, field)` | depends on the read paths, on commit, triggered |
//! | `@api.constrains` guard | `(method, raises, exc:...)` | `before_save` lifecycle trigger, failure rejects |
//!
//! A `raises` fact wins over the `_compute_` prefix. `_onchange_*`,
//! `_inverse_*`, `_search_*` and plain methods are not lowered. The
//! `action_*` state-crossing arm needs a transition fact the corpus does not
//! carry and is not synthesized.
use vstd::prelude::*;
use crate::recompute_dag::{spec_classify, MethodKind};
use crate::rel::{image, lemma_absent_image, lemma_entry_image, rel_insert, rel_view, rel_wf, RelEntry};
use crate::strset::{
    join, join_strs, key_find, keys_of, lemma_sorted_unique, sorted, sorted_find, sorted_insert, sorted_of,
    view_strs,
};
use crate::text::str_eq;
use crate::triple::{member_of, model_of, spec_member_of, spec_model_of, spec_strip_ns, strip_ns, Triple};

verus! {

/// Which behavioral arm an action belongs to.
#[derive(Debug, Clone, PartialEq, Eq)]
pub enum ActionArm {
    /// `@api.depends` recompute: the dependency paths, ascending; runs on
    /// commit, triggered reactively.
    Depends {
        /// The method's `reads_field` paths.
        paths: Vec<String>,
    },
    /// `@api.constrains` guard: fires on this lifecycle event; a raise
    /// rejects.
    Guard {
        /// The lifecycle event (`before_save`).
        event: String,
    },
}

/// One lowered action.
#[derive(Debug, Clone, PartialEq, Eq)]
pub struct LoweredAction {
    /// `odoo/<model>::action_def::<member>`.
    pub identity: String,
    /// The method's member name (`_compute_amount`).
    pub predicate: String,
    /// The owning model (`account_move`).
    pub object_class: String,
    /// The arm and its payload.
    pub arm: ActionArm,
    /// The Odoo decorator the arm comes from (`api.depends`,
    /// `api.constrains`).
    pub decorators: Vec<String>,
}

/// The abstract arm.
pub enum ArmModel {
    /// Recompute over these paths.
    Depends(Seq<Seq<char>>),
    /// Guard on this event.
    Guard(Seq<char>),
}

/// The abstract action.
pub struct ActionModel {
    /// Its identity.
    pub identity: Seq<char>,
    /// Its member name.
    pub predicate: Seq<char>,
    /// Its model.
    pub object_class: Seq<char>,
    /// Its arm.
    pub arm: ArmModel,
    /// Its decorators.
    pub decorators: Seq<Seq<char>>,
}

impl LoweredAction {
    /// The abstract action.
    pub open spec fn model(&self) -> ActionModel {
        ActionModel {
            identity: self.identity@,
            predicate: self.predicate@,
            object_class: self.object_class@,
            arm: match self.arm {
                ActionArm::Depends { paths } => ArmModel::Depends(view_strs(paths@)),
                ActionArm::Guard { event } => ArmModel::Guard(event@),
            },
            decorators: view_strs(self.decorators@),
        }
    }
}

/// The abstract actions of a vector.
pub open spec fn actions_view(v: Seq<LoweredAction>) -> Seq<ActionModel> {
    v.map_values(|a: LoweredAction| a.model())
}

/// The methods the corpus declares: `has_function` objects, stripped.
pub open spec fn declared_methods(ts: Seq<Triple>) -> Set<Seq<char>> {
    Set::new(
        |m: Seq<char>|
            exists|i: int| 0 <= i < ts.len() && #[trigger] ts[i].p@ == "has_function"@ && spec_strip_ns(ts[i].o@) == m,
    )
}

/// The `(method, path)` pairs of `reads_field` triples, stripped.
pub open spec fn read_pairs(ts: Seq<Triple>) -> Set<(Seq<char>, Seq<char>)> {
    Set::new(
        |pr: (Seq<char>, Seq<char>)|
            exists|i: int|
                0 <= i < ts.len() && #[trigger] ts[i].p@ == "reads_field"@ && spec_strip_ns(ts[i].s@) == pr.0
                    && spec_strip_ns(ts[i].o@) == pr.1,
    )
}

/// The methods some `raises` triple names as subject, stripped.
pub open spec fn raisers(ts: Seq<Triple>) -> Set<Seq<char>> {
    Set::new(
        |m: Seq<char>| exists|i: int| 0 <= i < ts.len() && #[trigger] ts[i].p@ == "raises"@ && spec_strip_ns(ts[i].s@) == m,
    )
}

/// The action a method lowers to, if any: a guard when it raises, else a
/// recompute when it is a `_compute_*` method.
pub open spec fn action_of(ts: Seq<Triple>, m: Seq<char>) -> Option<ActionModel> {
    let model = spec_model_of(m);
    let member = match spec_member_of(m) {
        Some(x) => x,
        None => m,
    };
    let identity = "odoo/"@ + model + "::action_def::"@ + member;
    if raisers(ts).contains(m) {
        Some(
            ActionModel {
                identity,
                predicate: member,
                object_class: model,
                arm: ArmModel::Guard("before_save"@),
                decorators: seq!["api.constrains"@],
            },
        )
    } else if spec_classify(m) == MethodKind::Compute {
        Some(
            ActionModel {
                identity,
                predicate: member,
                object_class: model,
                arm: ArmModel::Depends(sorted_of(image(read_pairs(ts), m))),
                decorators: seq!["api.depends"@],
            },
        )
    } else {
        None
    }
}

/// The actions of the methods `ms`, in order.
pub open spec fn lower_all(ts: Seq<Triple>, ms: Seq<Seq<char>>) -> Seq<ActionModel>
    decreases ms.len(),
{
    if ms.len() == 0 {
        Seq::empty()
    } else {
        lower_all(ts, ms.drop_last()) + match action_of(ts, ms.last()) {
            Some(a) => seq![a],
            None => Seq::empty(),
        }
    }
}

/// Every action of the corpus, by ascending method identity.
pub open spec fn corpus_actions(ts: Seq<Triple>) -> Seq<ActionModel> {
    lower_all(ts, sorted_of(declared_methods(ts)))
}

proof fn lemma_sorted_of(q: Seq<Seq<char>>)
    requires
        sorted(q),
    ensures
        sorted_of(q.to_set()) == q,
{
    let r = sorted_of(q.to_set());
    assert(sorted(q) && q.to_set() == q.to_set());
    lemma_sorted_unique(r, q);
}

/// The stripped relation of `reads_field` triples and the stripped sets of
/// declared methods and raisers.
fn index_corpus(triples: &[Triple]) -> (r: (Vec<String>, Vec<RelEntry>, Vec<String>))
    ensures
        sorted(view_strs(r.0@)),
        view_strs(r.0@).to_set() == declared_methods(triples@),
        rel_wf(r.1@),
        rel_view(r.1@) == read_pairs(triples@),
        sorted(view_strs(r.2@)),
        view_strs(r.2@).to_set() == raisers(triples@),
{
    let ghost ts = triples@;
    let mut methods: Vec<String> = Vec::new();
    let mut reads: Vec<RelEntry> = Vec::new();
    let mut raises: Vec<String> = Vec::new();
    let mut i: usize = 0;
    proof {
        assert(view_strs(methods@).to_set() =~= declared_methods(ts.take(0)));
        assert(rel_view(reads@) =~= read_pairs(ts.take(0)));
        assert(view_strs(raises@).to_set() =~= raisers(ts.take(0)));
        assert(keys_of(reads@) =~= Seq::<Seq<char>>::empty());
    }
    while i < triples.len()
        invariant
            ts == triples@,
            i <= ts.len(),
            sorted(view_strs(methods@)),
            view_strs(methods@).to_set() == declared_methods(ts.take(i as int)),
            rel_wf(reads@),
            rel_view(reads@) == read_pairs(ts.take(i as int)),
            sorted(view_strs(raises@)),
            view_strs(raises@).to_set() == raisers(ts.take(i as int)),
        decreases ts.len() - i,
    {
        let t = &triples[i];
        let ghost m0 = view_strs(methods@).to_set();
        let ghost r0 = rel_view(reads@);
        let ghost x0 = view_strs(raises@).to_set();
        let ghost tk0 = ts.take(i as int);
        let ghost tk1 = ts.take(i + 1);
        proof {
            assert(tk1 =~= tk0.push(ts[i as int]));
            assert(tk1[i as int] == ts[i as int]);
        }
        if str_eq(t.p.as_str(), "has_function") {
            sorted_insert(&mut methods, strip_ns(t.o.as_str()));
        } else if str_eq(t.p.as_str(), "reads_field") {
            rel_insert(&mut reads, strip_ns(t.s.as_str()), strip_ns(t.o.as_str()));
        } else if str_eq(t.p.as_str(), "raises") {
            sorted_insert(&mut raises, strip_ns(t.s.as_str()));
        }
        proof {
            reveal_strlit("has_function");
            reveal_strlit("reads_field");
            reveal_strlit("raises");
            assert("has_function"@.len() != "reads_field"@.len());
            assert("has_function"@.len() != "raises"@.len());
            assert("reads_field"@.len() != "raises"@.len());
            assert forall|m: Seq<char>| view_strs(methods@).to_set().contains(m) <==> declared_methods(tk1).contains(m) by {
                if declared_methods(tk1).contains(m) {
                    let j = choose|j: int| 0 <= j < tk1.len() && #[trigger] tk1[j].p@ == "has_function"@ && spec_strip_ns(tk1[j].o@) == m;
                    if j < i {
                        assert(tk0[j] == tk1[j]);
                        assert(declared_methods(tk0).contains(m));
                    }
                }
                if m0.contains(m) {
                    let j = choose|j: int| 0 <= j < tk0.len() && #[trigger] tk0[j].p@ == "has_function"@ && spec_strip_ns(tk0[j].o@) == m;
                    assert(tk1[j] == tk0[j]);
                }
            }
            assert(view_strs(methods@).to_set() =~= declared_methods(tk1));
            assert forall|pr: (Seq<char>, Seq<char>)| rel_view(reads@).contains(pr) <==> read_pairs(tk1).contains(pr) by {
                if read_pairs(tk1).contains(pr) {
                    let j = choose|j: int| 0 <= j < tk1.len() && #[trigger] tk1[j].p@ == "reads_field"@ && spec_strip_ns(tk1[j].s@) == pr.0 && spec_strip_ns(tk1[j].o@) == pr.1;
                    if j < i {
                        assert(tk0[j] == tk1[j]);
                        assert(read_pairs(tk0).contains(pr));
                    }
                }
                if r0.contains(pr) {
                    let j = choose|j: int| 0 <= j < tk0.len() && #[trigger] tk0[j].p@ == "reads_field"@ && spec_strip_ns(tk0[j].s@) == pr.0 && spec_strip_ns(tk0[j].o@) == pr.1;
                    assert(tk1[j] == tk0[j]);
                }
            }
            assert(rel_view(reads@) =~= read_pairs(tk1));
            assert forall|m: Seq<char>| view_strs(raises@).to_set().contains(m) <==> raisers(tk1).contains(m) by {
                if raisers(tk1).contains(m) {
                    let j = choose|j: int| 0 <= j < tk1.len() && #[trigger] tk1[j].p@ == "raises"@ && spec_strip_ns(tk1[j].s@) == m;
                    if j < i {
                        assert(tk0[j] == tk1[j]);
                        assert(raisers(tk0).contains(m));
                    }
                }
                if x0.contains(m) {
                    let j = choose|j: int| 0 <= j < tk0.len() && #[trigger] tk0[j].p@ == "raises"@ && spec_strip_ns(tk0[j].s@) == m;
                    assert(tk1[j] == tk0[j]);
                }
            }
            assert(view_strs(raises@).to_set() =~= raisers(tk1));
        }
        i += 1;
    }
    proof {
        assert(ts.take(ts.len() as int) =~= ts);
    }
    (methods, reads, raises)
}

/// A one-element string vector.
fn single(s: &str) -> (v: Vec<String>)
    ensures
        view_strs(v@) == seq![s@],
{
    let mut v: Vec<String> = Vec::new();
    v.push(s.to_owned());
    proof {
        assert(view_strs(v@) =~= seq![s@]);
    }
    v
}

/// A copy of the values related to `key`, ascending.
fn related(reads: &Vec<RelEntry>, key: &str) -> (v: Vec<String>)
    requires
        rel_wf(reads@),
    ensures
        sorted(view_strs(v@)),
        view_strs(v@).to_set() == image(rel_view(reads@), key@),
{
    match key_find(reads, key) {
        Ok(i) => {
            proof {
                lemma_entry_image(reads@, i as int);
            }
            let vals = &reads[i].1;
            let mut out: Vec<String> = Vec::new();
            let mut j: usize = 0;
            while j < vals.len()
                invariant
                    j <= vals@.len(),
                    view_strs(out@) == view_strs(vals@).take(j as int),
                decreases vals@.len() - j,
            {
                let ghost before = out@;
                out.push(vals[j].clone());
                proof {
                    assert(view_strs(out@) =~= view_strs(before).push(vals@[j as int]@));
                    assert(view_strs(vals@).take(j + 1) =~= view_strs(vals@).take(j as int).push(vals@[j as int]@));
                }
                j += 1;
            }
            proof {
                assert(view_strs(vals@).take(vals@.len() as int) =~= view_strs(vals@));
            }
            out
        },
        Err(_) => {
            proof {
                lemma_absent_image(reads@, key@);
                assert(view_strs(Seq::<String>::empty()).to_set() =~= Set::<Seq<char>>::empty());
            }
            Vec::new()
        },
    }
}

/// Lower the corpus's behavioral facts: one action per `_compute_*` method
/// (recompute arm, over its `reads_field` paths) and one per method that
/// `raises` (guard arm), by ascending method identity. A raise wins over the
/// `_compute_` prefix; other methods are not lowered.
pub fn corpus_to_actions(triples: &[Triple]) -> (actions: Vec<LoweredAction>)
    ensures
        actions_view(actions@) == corpus_actions(triples@),
{
    let ghost ts = triples@;
    let (methods, reads, raises) = index_corpus(triples);
    let ghost ms = view_strs(methods@);
    proof {
        lemma_sorted_of(ms);
    }
    let mut out: Vec<LoweredAction> = Vec::new();
    let mut k: usize = 0;
    proof {
        assert(actions_view(out@) =~= lower_all(ts, ms.take(0)));
    }
    while k < methods.len()
        invariant
            ts == triples@,
            ms == view_strs(methods@),
            rel_wf(reads@),
            rel_view(reads@) == read_pairs(ts),
            sorted(view_strs(raises@)),
            view_strs(raises@).to_set() == raisers(ts),
            k <= methods@.len(),
            actions_view(out@) == lower_all(ts, ms.take(k as int)),
        decreases methods@.len() - k,
    {
        let method = methods[k].as_str();
        let ghost before = out@;
        proof {
            assert(ms.take(k + 1).drop_last() =~= ms.take(k as int));
            assert(ms.take(k + 1).last() == method@);
            assert(ms[k as int] == method@);
        }
        let model = model_of(method);
        let member = match member_of(method) {
            Some(x) => x,
            None => method,
        };
        let mut identity = String::from_str("odoo/");
        identity.append(model);
        identity.append("::action_def::");
        identity.append(member);
        let raised = sorted_find(&raises, method).is_ok();
        proof {
            assert(view_strs(raises@).to_set().contains(method@) == view_strs(raises@).contains(method@));
        }
        if raised {
            let a = LoweredAction {
                identity,
                predicate: member.to_owned(),
                object_class: model.to_owned(),
                arm: ActionArm::Guard { event: String::from_str("before_save") },
                decorators: single("api.constrains"),
            };
            out.push(a);
            proof {
                assert(actions_view(out@) =~= actions_view(before).push(a.model()));
            }
        } else if MethodKind::classify(method) == MethodKind::Compute {
            let paths = related(&reads, method);
            proof {
                lemma_sorted_of(view_strs(paths@));
            }
            let a = LoweredAction {
                identity,
                predicate: member.to_owned(),
                object_class: model.to_owned(),
                arm: ActionArm::Depends { paths },
                decorators: single("api.depends"),
            };
            out.push(a);
            proof {
                assert(actions_view(out@) =~= actions_view(before).push(a.model()));
            }
        } else {
            proof {
                assert(actions_view(out@) =~= actions_view(before) + Seq::<ActionModel>::empty());
            }
        }
        k += 1;
    }
    proof {
        assert(ms.take(methods@.len() as int) =~= ms);
    }
    out
}

/// The abstract inspection row of an action: model, member, arm kind and
/// detail (the joined paths, or `event (reject)`).
pub open spec fn row_of(a: ActionModel) -> (Seq<char>, Seq<char>, Seq<char>, Seq<char>) {
    match a.arm {
        ArmModel::Depends(paths) => (a.object_class, a.predicate, "depends"@, join(paths, ", "@)),
        ArmModel::Guard(event) => (a.object_class, a.predicate, "guard"@, event + " (reject)"@),
    }
}

/// The views of a vector of string quadruples.
pub open spec fn rows_view(v: Seq<(String, String, String, String)>) -> Seq<(Seq<char>, Seq<char>, Seq<char>, Seq<char>)> {
    v.map_values(|r: (String, String, String, String)| (r.0@, r.1@, r.2@, r.3@))
}

/// Inspection rows over [`corpus_to_actions`]: one
/// `(object_class, predicate, kind, detail)` per action, where `kind` is
/// `depends` or `guard` and `detail` is the comma-joined dependency paths or
/// `event (reject)`. Same order as [`corpus_to_actions`].
pub fn corpus_action_rows(triples: &[Triple]) -> (rows: Vec<(String, String, String, String)>)
    ensures
        rows_view(rows@) == corpus_actions(triples@).map_values(|a: ActionModel| row_of(a)),
{
    let actions = corpus_to_actions(triples);
    let ghost av = actions_view(actions@);
    let mut rows: Vec<(String, String, String, String)> = Vec::new();
    let mut k: usize = 0;
    while k < actions.len()
        invariant
            av == actions_view(actions@),
            k <= actions@.len(),
            rows_view(rows@) == av.take(k as int).map_values(|a: ActionModel| row_of(a)),
        decreases actions@.len() - k,
    {
        let a = &actions[k];
        let ghost before = rows@;
        let row = match &a.arm {
            ActionArm::Depends { paths } => (
                a.object_class.clone(),
                a.predicate.clone(),
                String::from_str("depends"),
                join_strs(paths.as_slice(), ", "),
            ),
            ActionArm::Guard { event } => {
                let mut detail = event.clone();
                detail.append(" (reject)");
                (a.object_class.clone(), a.predicate.clone(), String::from_str("guard"), detail)
            },
        };
        rows.push(row);
        proof {
            assert(av[k as int] == a.model());
            assert(rows_view(rows@) =~= rows_view(before).push(row_of(a.model())));
            assert(av.take(k + 1).map_values(|a: ActionModel| row_of(a)) =~= av.take(k as int).map_values(
                |a: ActionModel| row_of(a),
            ).push(row_of(av[k as int])));
        }
        k += 1;
    }
    proof {
        assert(av.take(actions@.len() as int) =~= av);
    }
    rows
}

} // verus!
