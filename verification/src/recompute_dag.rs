//! Recompute DAG: the method-level dependency graph of the corpus.
//!
//! For every read-emit chain `(method_a, reads_field, field)` +
//! `(field, emitted_by, method_b)` an edge `method_b → method_a` is added:
//! `method_a` must run after `method_b`. A method reading a field it itself
//! emits is not an edge (an extractor artifact of `@api.depends` listing the
//! computed field, not an ordering constraint).
//!
//! Cross-record dependencies are visible here only where the corpus carries
//! the deep `reads_field` enrichment; restricted to
//! [`MethodKind::Compute`] the graph must be a DAG or reactive recompute
//! loops at runtime. `_onchange_*` cooperative loops are legitimate and are
//! why the restriction exists.
use vstd::prelude::*;
use crate::digraph::{
    adj, first_cycle, detect_cycle_idx, graph_ok, lemma_cycle_nodes, greedy_topo, iadj, idx_cycle, lemma_ranked_has_ready,
    lemma_ranked_no_cycle, lemma_topo_ranks, listed, ranks, ready, topo_idx,
};
use crate::rel::{image, lemma_absent_image, lemma_entry_image, lemma_rel_len, lemma_rel_view_push, lemma_total_len_prefix, total_len, rel_insert, rel_view, rel_wf, RelEntry};
use crate::smap::{smap_get, smap_insert, smap_view, smap_wf, SEntry};
use crate::strset::{
    key_find, keys_of, lemma_sorted_no_dup, lemma_sorted_unique, sorted, sorted_find, sorted_insert, sorted_of, view_strs,
};
use crate::text::{has_prefix, lemma_less_asymmetric, lemma_less_irreflexive, rsplit_once, rsplit_once_char, seq_less, starts_with, str_eq};
use crate::triple::{model_of, spec_model_of, spec_strip_ns, strip_ns, Triple};

verus! {

/// A method identifier: `account_move._compute_amount`, without the `odoo:`
/// namespace prefix.
pub type MethodId = String;

/// Method kinds that need different ordering semantics.
#[derive(Debug, Clone, Copy, PartialEq, Eq, Structural)]
pub enum MethodKind {
    /// `_compute_*`: reactive, must be DAG-ordered.
    Compute,
    /// `_check_*`: `@api.constrains` invariant guard.
    Check,
    /// `_onchange_*`: UI trigger handler; cycles legitimate.
    Onchange,
    /// `_inverse_*`: compute write-back partner.
    Inverse,
    /// `_search_*`: search-domain materialiser.
    Search,
    /// Anything else.
    Other,
}

/// The member segment of a method IRI: the local part after its last dot,
/// or the whole local part.
pub open spec fn spec_method_member(iri: Seq<char>) -> Seq<char> {
    let local = spec_strip_ns(iri);
    match rsplit_once(local, '.') {
        Some((_, m)) => m,
        None => local,
    }
}

/// The kind of a method by its underscore-prefix convention.
pub open spec fn spec_classify(iri: Seq<char>) -> MethodKind {
    let m = spec_method_member(iri);
    if has_prefix(m, "_compute_"@) {
        MethodKind::Compute
    } else if has_prefix(m, "_check_"@) {
        MethodKind::Check
    } else if has_prefix(m, "_onchange_"@) {
        MethodKind::Onchange
    } else if has_prefix(m, "_inverse_"@) {
        MethodKind::Inverse
    } else if has_prefix(m, "_search_"@) {
        MethodKind::Search
    } else {
        MethodKind::Other
    }
}

impl MethodKind {
    /// Classify a method IRI by its underscore-prefix convention, looking at
    /// the member segment only: `account_move._compute_amount` is `Compute`,
    /// `account_move.action_post` is `Other`.
    pub fn classify(method_iri: &str) -> (k: MethodKind)
        ensures
            k == spec_classify(method_iri@),
    {
        let local = strip_ns(method_iri);
        let member = match rsplit_once_char(local, '.') {
            Some((_, m)) => m,
            None => local,
        };
        if starts_with(member, "_compute_") {
            MethodKind::Compute
        } else if starts_with(member, "_check_") {
            MethodKind::Check
        } else if starts_with(member, "_onchange_") {
            MethodKind::Onchange
        } else if starts_with(member, "_inverse_") {
            MethodKind::Inverse
        } else if starts_with(member, "_search_") {
            MethodKind::Search
        } else {
            MethodKind::Other
        }
    }
}

// ── the corpus → graph specification ────────────────────────────────────────

/// The namespace-stripped view of a corpus string.
pub open spec fn sv(s: String) -> Seq<char> {
    spec_strip_ns(s@)
}

/// The method that emits `field`: the object of the last `emitted_by`
/// triple whose subject is `field` (a later row overrides an earlier one).
pub open spec fn emitter(ts: Seq<Triple>, field: Seq<char>) -> Option<Seq<char>>
    decreases ts.len(),
{
    if ts.len() == 0 {
        None
    } else if ts.last().p@ == "emitted_by"@ && sv(ts.last().s) == field {
        Some(sv(ts.last().o))
    } else {
        emitter(ts.drop_last(), field)
    }
}

/// The field → emitter index of a corpus.
pub open spec fn emitter_map(ts: Seq<Triple>) -> Map<Seq<char>, Seq<char>> {
    Map::new(|f: Seq<char>| emitter(ts, f) is Some, |f: Seq<char>| emitter(ts, f)->0)
}

/// The ordering edges `(emit_method, read_method)` of the triples in `ts`,
/// resolved against the emitters of `all`.
pub open spec fn dag_edges(all: Seq<Triple>, ts: Seq<Triple>) -> Set<(Seq<char>, Seq<char>)> {
    Set::new(
        |e: (Seq<char>, Seq<char>)|
            exists|i: int|
                0 <= i < ts.len() && #[trigger] ts[i].p@ == "reads_field"@ && emitter(all, sv(ts[i].o))
                    == Some(e.0) && sv(ts[i].s) == e.1 && e.0 != e.1,
    )
}

/// The methods the triples in `ts` declare: `has_function` and `emitted_by`
/// objects.
pub open spec fn declared_methods(ts: Seq<Triple>) -> Set<Seq<char>> {
    Set::new(
        |m: Seq<char>|
            exists|i: int|
                0 <= i < ts.len() && (#[trigger] ts[i].p@ == "has_function"@ || ts[i].p@
                    == "emitted_by"@) && sv(ts[i].o) == m,
    )
}

/// Every endpoint of an edge set.
pub open spec fn endpoints(e: Set<(Seq<char>, Seq<char>)>) -> Set<Seq<char>> {
    Set::new(|m: Seq<char>| exists|o: Seq<char>| e.contains((m, o)) || e.contains((o, m)))
}

/// The method set of the graph a corpus yields.
pub open spec fn dag_methods(ts: Seq<Triple>) -> Set<Seq<char>> {
    declared_methods(ts).union(endpoints(dag_edges(ts, ts)))
}

/// The positions `v < n` (ascending) of the successors of the `u`-th of the
/// methods `ms`.
pub open spec fn succ_positions(e: Set<(Seq<char>, Seq<char>)>, ms: Seq<Seq<char>>, u: int, n: int) -> Seq<usize>
    decreases n,
{
    if n <= 0 {
        Seq::empty()
    } else {
        succ_positions(e, ms, u, n - 1) + if e.contains((ms[u], ms[n - 1])) {
            seq![(n - 1) as usize]
        } else {
            Seq::empty()
        }
    }
}

/// The graph over the positions of the methods `ms`: each method's
/// successor positions, ascending.
pub open spec fn position_graph(e: Set<(Seq<char>, Seq<char>)>, ms: Seq<Seq<char>>) -> Seq<Seq<usize>> {
    Seq::new(ms.len(), |u: int| succ_positions(e, ms, u, ms.len() as int))
}

/// The cycle a depth-first search finds first (starting points and
/// successors in ascending name order), as a path of methods closed by its
/// start.
pub open spec fn first_cycle_of(e: Set<(Seq<char>, Seq<char>)>, m: Set<Seq<char>>) -> Option<Seq<Seq<char>>> {
    let ms = sorted_of(m);
    match first_cycle(position_graph(e, ms)) {
        Some(ci) => Some(ci.map_values(|i: usize| ms[i as int])),
        None => None,
    }
}

proof fn lemma_succ_positions(e: Set<(Seq<char>, Seq<char>)>, ms: Seq<Seq<char>>, u: int, n: int)
    requires
        0 <= n <= usize::MAX + 1,
    ensures
        forall|a: int, b: int|
            0 <= a < b < succ_positions(e, ms, u, n).len() ==> succ_positions(e, ms, u, n)[a] < succ_positions(e, ms, u, n)[b],
        forall|k: int| 0 <= k < succ_positions(e, ms, u, n).len() ==> (succ_positions(e, ms, u, n)[k] as int) < n,
        forall|v: int|
            (exists|k: int| 0 <= k < succ_positions(e, ms, u, n).len() && succ_positions(e, ms, u, n)[k] as int == v) <==> (0
                <= v < n && e.contains((ms[u], ms[v]))),
    decreases n,
{
    if n > 0 {
        lemma_succ_positions(e, ms, u, n - 1);
        let p = succ_positions(e, ms, u, n - 1);
        let q = succ_positions(e, ms, u, n);
        if e.contains((ms[u], ms[n - 1])) {
            assert(q == p.push((n - 1) as usize));
            assert forall|v: int|
                (exists|k: int| 0 <= k < q.len() && q[k] as int == v) <==> (0 <= v < n && e.contains((ms[u], ms[v]))) by {
                if 0 <= v < n && e.contains((ms[u], ms[v])) {
                    if v == n - 1 {
                        assert(q[p.len() as int] as int == v);
                    } else {
                        let k = choose|k: int| 0 <= k < p.len() && p[k] as int == v;
                        assert(q[k] == p[k]);
                    }
                }
                if exists|k: int| 0 <= k < q.len() && q[k] as int == v {
                    let k = choose|k: int| 0 <= k < q.len() && q[k] as int == v;
                    if k < p.len() {
                        assert(q[k] == p[k]);
                    }
                }
            }
        } else {
            assert(q == p + Seq::<usize>::empty());
            assert(q =~= p);
        }
    }
}

proof fn lemma_increasing_unique(a: Seq<usize>, b: Seq<usize>)
    requires
        forall|i: int, j: int| 0 <= i < j < a.len() ==> a[i] < a[j],
        forall|i: int, j: int| 0 <= i < j < b.len() ==> b[i] < b[j],
        forall|v: usize| a.contains(v) <==> b.contains(v),
    ensures
        a == b,
    decreases a.len() + b.len(),
{
    if a.len() == 0 {
        if b.len() > 0 {
            assert(b.contains(b[0]));
        }
        assert(a =~= b);
    } else if b.len() == 0 {
        assert(a.contains(a[0]));
    } else {
        let x = a.last();
        let y = b.last();
        assert(a.contains(x));
        assert(b.contains(y));
        let i = choose|i: int| 0 <= i < b.len() && b[i] == x;
        let j = choose|j: int| 0 <= j < a.len() && a[j] == y;
        assert(x == y) by {
            if x < y {
                assert(a[j] <= a[a.len() - 1]);
            } else if y < x {
                assert(b[i] <= b[b.len() - 1]);
            }
        }
        let a2 = a.drop_last();
        let b2 = b.drop_last();
        assert forall|v: usize| a2.contains(v) <==> b2.contains(v) by {
            if a2.contains(v) {
                let k = choose|k: int| 0 <= k < a2.len() && a2[k] == v;
                assert(a[k] == v && a[k] < x);
                assert(b.contains(v));
                let m = choose|m: int| 0 <= m < b.len() && b[m] == v;
                assert(m != b.len() - 1);
                assert(b2[m] == v);
            }
            if b2.contains(v) {
                let k = choose|k: int| 0 <= k < b2.len() && b2[k] == v;
                assert(b[k] == v && b[k] < y);
                assert(a.contains(v));
                let m = choose|m: int| 0 <= m < a.len() && a[m] == v;
                assert(m != a.len() - 1);
                assert(a2[m] == v);
            }
        }
        lemma_increasing_unique(a2, b2);
        assert(a =~= a2.push(x));
        assert(b =~= b2.push(y));
    }
}

/// The method-level dependency graph derived from a corpus. Edges `a → b`
/// mean "method `b` must run after method `a`" (`b` reads a field `a` emits).
#[derive(Debug)]
pub struct RecomputeDag {
    /// Adjacency: `a → {b1, b2, ...}` where each `bi` must run after `a`.
    edges: Vec<RelEntry>,
    /// All known method IRIs, so isolated methods still appear in the order.
    methods: Vec<String>,
}

/// The abstract graph: its edge set and its method set.
pub struct DagModel {
    /// `(a, b)`: `b` must run after `a`.
    pub edges: Set<(Seq<char>, Seq<char>)>,
    /// Every method node.
    pub methods: Set<Seq<char>>,
}

impl RecomputeDag {
    /// The abstract graph.
    pub closed spec fn model(&self) -> DagModel {
        DagModel { edges: rel_view(self.edges@), methods: view_strs(self.methods@).to_set() }
    }

    /// The methods in ascending order.
    pub closed spec fn method_seq(&self) -> Seq<Seq<char>> {
        view_strs(self.methods@)
    }

    #[verifier::type_invariant]
    spec fn inv(&self) -> bool {
        &&& rel_wf(self.edges@)
        &&& sorted(view_strs(self.methods@))
        &&& endpoints(rel_view(self.edges@)).subset_of(view_strs(self.methods@).to_set())
        &&& rel_view(self.edges@).len() <= usize::MAX
        &&& forall|a: Seq<char>| !rel_view(self.edges@).contains((a, a))
    }

    /// Build the graph from the corpus in two passes: index
    /// `field → emit_method` from `emitted_by` triples (a later row wins),
    /// then for each `reads_field` triple add `emit_method → read_method`.
    /// `reads_field` objects with no emitter (framework calls such as
    /// `filtered` or `browse`) are skipped; a method reading what it emits
    /// adds no edge.
    pub fn from_triples(triples: &[Triple]) -> (dag: RecomputeDag)
        ensures
            dag.model().edges == dag_edges(triples@, triples@),
            dag.model().methods == dag_methods(triples@),
            dag.model().edges.finite(),
            dag.model().methods.finite(),
    {
        let ghost ts = triples@;
        let mut field_emitter: Vec<SEntry> = Vec::new();
        let mut methods: Vec<String> = Vec::new();
        let mut i: usize = 0;
        proof {
            assert(smap_view(field_emitter@) =~= emitter_map(ts.take(0)));
            assert(view_strs(methods@).to_set() =~= declared_methods(ts.take(0)));
        }
        while i < triples.len()
            invariant
                ts == triples@,
                i <= triples.len(),
                smap_wf(field_emitter@),
                smap_view(field_emitter@) == emitter_map(ts.take(i as int)),
                sorted(view_strs(methods@)),
                view_strs(methods@).to_set() == declared_methods(ts.take(i as int)),
            decreases triples.len() - i,
        {
            let t = &triples[i];
            let ghost before_m = view_strs(methods@).to_set();
            let is_fn = str_eq(t.p.as_str(), "has_function");
            let is_emit = str_eq(t.p.as_str(), "emitted_by");
            if is_fn {
                sorted_insert(&mut methods, strip_ns(t.o.as_str()));
            }
            if is_emit {
                smap_insert(&mut field_emitter, strip_ns(t.s.as_str()), strip_ns(t.o.as_str()));
                sorted_insert(&mut methods, strip_ns(t.o.as_str()));
            }
            proof {
                let tk0 = ts.take(i as int);
                let tk1 = ts.take(i + 1);
                assert(tk1 =~= tk0.push(ts[i as int]));
                assert(tk1.drop_last() =~= tk0);
                assert(smap_view(field_emitter@) =~= emitter_map(tk1));
                let dm1 = declared_methods(tk1);
                let dm0 = declared_methods(tk0);
                assert forall|m: Seq<char>| dm1.contains(m) <==> view_strs(methods@).to_set().contains(
                    m,
                ) by {
                    if dm1.contains(m) {
                        let j = choose|j: int|
                            0 <= j < tk1.len() && (#[trigger] tk1[j].p@ == "has_function"@ || tk1[j].p@
                                == "emitted_by"@) && sv(tk1[j].o) == m;
                        if j < i {
                            assert(tk0[j] == tk1[j]);
                            assert(dm0.contains(m));
                        }
                    }
                    if before_m.contains(m) {
                        let j = choose|j: int|
                            0 <= j < tk0.len() && (#[trigger] tk0[j].p@ == "has_function"@ || tk0[j].p@
                                == "emitted_by"@) && sv(tk0[j].o) == m;
                        assert(tk1[j] == tk0[j]);
                    }
                    if view_strs(methods@).to_set().contains(m) && !before_m.contains(m) {
                        assert(tk1[i as int] == ts[i as int]);
                    }
                }
                assert(dm1 =~= view_strs(methods@).to_set());
            }
            i += 1;
        }
        proof {
            assert(ts.take(ts.len() as int) =~= ts);
        }
        let mut edges: Vec<RelEntry> = Vec::new();
        let mut k: usize = 0;
        proof {
            assert(keys_of(edges@) =~= Seq::<Seq<char>>::empty());
            assert(rel_view(edges@) =~= dag_edges(ts, ts.take(0)));
            lemma_rel_len(edges@);
        }
        while k < triples.len()
            invariant
                ts == triples@,
                k <= triples.len(),
                smap_wf(field_emitter@),
                smap_view(field_emitter@) == emitter_map(ts),
                sorted(view_strs(methods@)),
                rel_wf(edges@),
                rel_view(edges@) == dag_edges(ts, ts.take(k as int)),
                view_strs(methods@).to_set() == declared_methods(ts).union(
                    endpoints(rel_view(edges@)),
                ),
                rel_view(edges@).finite(),
                rel_view(edges@).len() <= k,
            decreases triples.len() - k,
        {
            let t = &triples[k];
            let ghost before_e = rel_view(edges@);
            let ghost before_m = view_strs(methods@).to_set();
            if str_eq(t.p.as_str(), "reads_field") {
                let read_method = strip_ns(t.s.as_str());
                let field = strip_ns(t.o.as_str());
                if let Some(emit_method) = smap_get(&field_emitter, field) {
                    if !str_eq(emit_method, read_method) {
                        rel_insert(&mut edges, emit_method, read_method);
                        proof {
                            assert(rel_view(edges@).len() <= before_e.len() + 1);
                        }
                        sorted_insert(&mut methods, read_method);
                        sorted_insert(&mut methods, emit_method);
                    }
                }
            }
            proof {
                let tk0 = ts.take(k as int);
                let tk1 = ts.take(k + 1);
                assert(tk1 =~= tk0.push(ts[k as int]));
                let d1 = dag_edges(ts, tk1);
                let d0 = dag_edges(ts, tk0);
                assert forall|e: (Seq<char>, Seq<char>)| d1.contains(e) <==> rel_view(edges@).contains(
                    e,
                ) by {
                    if d1.contains(e) {
                        let j = choose|j: int|
                            0 <= j < tk1.len() && #[trigger] tk1[j].p@ == "reads_field"@ && emitter(
                                ts,
                                sv(tk1[j].o),
                            ) == Some(e.0) && sv(tk1[j].s) == e.1 && e.0 != e.1;
                        if j < k {
                            assert(tk0[j] == tk1[j]);
                            assert(d0.contains(e));
                        } else {
                            assert(tk1[j] == ts[k as int]);
                            assert(emitter_map(ts).dom().contains(sv(ts[k as int].o)));
                        }
                    }
                    if rel_view(edges@).contains(e) {
                        if before_e.contains(e) {
                            let j = choose|j: int|
                                0 <= j < tk0.len() && #[trigger] tk0[j].p@ == "reads_field"@ && emitter(
                                    ts,
                                    sv(tk0[j].o),
                                ) == Some(e.0) && sv(tk0[j].s) == e.1 && e.0 != e.1;
                            assert(tk1[j] == tk0[j]);
                        } else {
                            assert(tk1[k as int] == ts[k as int]);
                        }
                    }
                }
                assert(d1 =~= rel_view(edges@));
                let ep = endpoints(rel_view(edges@));
                let ep0 = endpoints(before_e);
                assert forall|m: Seq<char>| view_strs(methods@).to_set().contains(m) <==> declared_methods(
                    ts,
                ).union(ep).contains(m) by {
                    if ep0.contains(m) {
                        let o = choose|o: Seq<char>| before_e.contains((m, o)) || before_e.contains(
                            (o, m),
                        );
                        if before_e.contains((m, o)) {
                            assert(rel_view(edges@).contains((m, o)));
                        } else {
                            assert(rel_view(edges@).contains((o, m)));
                        }
                    }
                    if ep.contains(m) {
                        let o = choose|o: Seq<char>| rel_view(edges@).contains((m, o)) || rel_view(
                            edges@,
                        ).contains((o, m));
                        if before_e.contains((m, o)) || before_e.contains((o, m)) {
                            assert(ep0.contains(m));
                        }
                    }
                    if view_strs(methods@).to_set().contains(m) && !before_m.contains(m) {
                        let em = smap_view(field_emitter@)[sv(ts[k as int].o)];
                        assert(rel_view(edges@).contains((em, sv(ts[k as int].s))));
                    }
                }
                assert(view_strs(methods@).to_set() =~= declared_methods(ts).union(ep));
            }
            k += 1;
        }
        proof {
            assert(ts.take(ts.len() as int) =~= ts);
            assert forall|m: Seq<char>| endpoints(rel_view(edges@)).contains(m) implies view_strs(
                methods@,
            ).to_set().contains(m) by {}
            law_no_self_loops_all(ts);
        }
        RecomputeDag { edges, methods }
    }

    /// Number of method nodes in the graph.
    pub fn method_count(&self) -> (n: usize)
        ensures
            n == self.model().methods.len(),
            self.model().methods.finite(),
    {
        proof {
            use_type_invariant(self);
            lemma_sorted_no_dup(view_strs(self.methods@));
            view_strs(self.methods@).unique_seq_to_set();
        }
        self.methods.len()
    }

    /// Number of `(emit_method → read_method)` ordering edges.
    pub fn edge_count(&self) -> (n: usize)
        ensures
            n == self.model().edges.len(),
            self.model().edges.finite(),
    {
        proof {
            use_type_invariant(self);
            lemma_rel_len(self.edges@);
        }
        let mut total: usize = 0;
        let mut i: usize = 0;
        while i < self.edges.len()
            invariant
                i <= self.edges@.len(),
                total == total_len(self.edges@.take(i as int)),
                total_len(self.edges@) <= usize::MAX,
            decreases self.edges@.len() - i,
        {
            proof {
                assert(self.edges@.take(i + 1).drop_last() =~= self.edges@.take(i as int));
                lemma_total_len_prefix(self.edges@, i + 1);
            }
            total = total + self.edges[i].1.len();
            i += 1;
        }
        proof {
            assert(self.edges@.take(self.edges@.len() as int) =~= self.edges@);
        }
        total
    }

    /// Whether `a → b` (`b` reads what `a` emits).
    pub fn has_edge(&self, a: &str, b: &str) -> (res: bool)
        ensures
            res == self.model().edges.contains((a@, b@)),
            res ==> self.model().methods.contains(a@) && self.model().methods.contains(b@),
    {
        proof {
            use_type_invariant(self);
        }
        match key_find(&self.edges, a) {
            Ok(i) => {
                proof {
                    crate::rel::lemma_entry_image(self.edges@, i as int);
                }
                let r = sorted_find(&self.edges[i].1, b);
                proof {
                    assert(view_strs(self.edges@[i as int].1@).to_set().contains(b@)
                        == view_strs(self.edges@[i as int].1@).contains(b@));
                    assert(crate::rel::image(rel_view(self.edges@), a@).contains(b@)
                        == rel_view(self.edges@).contains((a@, b@)));
                }
                r.is_ok()
            },
            Err(_) => {
                proof {
                    crate::rel::lemma_absent_image(self.edges@, a@);
                    assert(!crate::rel::image(rel_view(self.edges@), a@).contains(b@));
                }
                false
            },
        }
    }

    /// The qualifying model of a method IRI (`account_move._compute_amount`
    /// gives `account_move`).
    pub fn method_model(method: &str) -> (res: &str)
        ensures
            res@ == spec_model_of(method@),
    {
        model_of(method)
    }

    /// The graph over method positions: `g[u]` lists the positions of the
    /// successors of the `u`-th method, ascending.
    fn index_graph(&self) -> (g: Vec<Vec<usize>>)
        ensures
            g@.len() == self.methods@.len(),
            g@.len() <= usize::MAX,
            graph_ok(g@),
            forall|u: int, v: int| 0 <= u < g@.len() && 0 <= v < g@.len() ==> (iadj(g@, u, v) <==> self.model().edges.contains(
                (self.method_seq()[u], self.method_seq()[v]),
            )),
            adj(g@) == position_graph(self.model().edges, self.method_seq()),
    {
        proof {
            use_type_invariant(self);
        }
        let ghost ms = view_strs(self.methods@);
        let ghost e = rel_view(self.edges@);
        let n = self.methods.len();
        let mut g: Vec<Vec<usize>> = Vec::new();
        let mut u: usize = 0;
        while u < n
            invariant
                n == self.methods@.len(),
                ms == view_strs(self.methods@),
                ms == self.method_seq(),
                rel_wf(self.edges@),
                sorted(ms),
                crate::recompute_dag::endpoints(rel_view(self.edges@)).subset_of(ms.to_set()),
                u <= n,
                g@.len() == u,
                forall|a: int, k: int| 0 <= a < u && 0 <= k < g@[a]@.len() ==> (g@[a]@[k] as int) < n,
                forall|a: int, v: int| 0 <= a < u && 0 <= v < n ==> (iadj(g@, a, v) <==> rel_view(self.edges@).contains(
                    (ms[a], ms[v]),
                )),
                e == rel_view(self.edges@),
                forall|a: int| 0 <= a < u ==> (#[trigger] g@[a])@ == succ_positions(e, ms, a, n as int),
            decreases n - u,
        {
            let mut row: Vec<usize> = Vec::new();
            let name = self.methods[u].as_str();
            proof {
                assert(ms[u as int] == name@);
            }
            match key_find(&self.edges, name) {
                Ok(i) => {
                    let vals = &self.edges[i].1;
                    proof {
                        lemma_entry_image(self.edges@, i as int);
                    }
                    let mut j: usize = 0;
                    while j < vals.len()
                        invariant
                            n == self.methods@.len(),
                            ms == view_strs(self.methods@),
                            sorted(ms),
                            crate::recompute_dag::endpoints(rel_view(self.edges@)).subset_of(ms.to_set()),
                            (i as int) < self.edges@.len(),
                            self.edges@[i as int].0@ == ms[u as int],
                            vals@ == self.edges@[i as int].1@,
                            view_strs(vals@).to_set() == image(rel_view(self.edges@), ms[u as int]),
                            j <= vals.len(),
                            row@.len() == j,
                            forall|k: int| 0 <= k < j ==> (row@[k] as int) < n && ms[row@[k] as int] == vals@[k]@,
                            sorted(view_strs(vals@)),
                            forall|k1: int, k2: int| 0 <= k1 < k2 < j ==> row@[k1] < row@[k2],
                        decreases vals.len() - j,
                    {
                        let t = vals[j].as_str();
                        proof {
                            assert(view_strs(vals@)[j as int] == t@);
                            assert(rel_view(self.edges@).contains((ms[u as int], t@)));
                            assert(crate::recompute_dag::endpoints(rel_view(self.edges@)).contains(t@));
                            assert(view_strs(self.methods@).contains(t@));
                        }
                        match sorted_find(&self.methods, t) {
                            Ok(idx) => {
                                proof {
                                    assert forall|k: int| 0 <= k < j implies row@[k] < idx by {
                                        assert(view_strs(vals@)[k] == vals@[k]@);
                                        assert(seq_less(vals@[k]@, t@));
                                        if row@[k] == idx {
                                            lemma_less_irreflexive(t@);
                                        } else if row@[k] > idx {
                                            assert(seq_less(ms[idx as int], ms[row@[k] as int]));
                                            lemma_less_asymmetric(t@, vals@[k]@);
                                        }
                                    }
                                }
                                let ghost rb = row@;
                                row.push(idx);
                                proof {
                                    assert forall|k1: int, k2: int| 0 <= k1 < k2 < j + 1 implies row@[k1] < row@[k2] by {
                                        assert(row@[k1] == rb.push(idx)[k1]);
                                    }
                                }
                            },
                            Err(_) => {
                                proof {
                                    assert(false);
                                }
                                row.push(0);
                            },
                        }
                        j += 1;
                    }
                    proof {
                        assert forall|v: int| 0 <= v < n implies (exists|k: int| 0 <= k < row@.len() && row@[k] as int == v) <==> rel_view(
                            self.edges@,
                        ).contains((ms[u as int], ms[v])) by {
                            lemma_sorted_no_dup(ms);
                            if exists|k: int| 0 <= k < row@.len() && row@[k] as int == v {
                                let k = choose|k: int| 0 <= k < row@.len() && row@[k] as int == v;
                                assert(view_strs(vals@)[k] == vals@[k]@);
                                assert(view_strs(vals@).to_set().contains(ms[v]));
                            }
                            if rel_view(self.edges@).contains((ms[u as int], ms[v])) {
                                assert(image(rel_view(self.edges@), ms[u as int]).contains(ms[v]));
                                let k = choose|k: int| 0 <= k < view_strs(vals@).len() && view_strs(vals@)[k] == ms[v];
                                assert(ms[row@[k] as int] == ms[v]);
                                assert(row@[k] as int == v);
                            }
                        }
                    }
                },
                Err(_) => {
                    proof {
                        lemma_absent_image(self.edges@, name@);
                        assert forall|v: int| 0 <= v < n implies !rel_view(self.edges@).contains((ms[u as int], ms[v])) by {
                            assert(!image(rel_view(self.edges@), name@).contains(ms[v]));
                        }
                    }
                },
            }
            proof {
                lemma_succ_positions(e, ms, u as int, n as int);
                let sp = succ_positions(e, ms, u as int, n as int);
                assert forall|v: usize| row@.contains(v) <==> sp.contains(v) by {
                    if row@.contains(v) {
                        let k = choose|k: int| 0 <= k < row@.len() && row@[k] == v;
                        assert((v as int) < n);
                        assert(exists|k: int| 0 <= k < row@.len() && row@[k] as int == v as int);
                        assert(e.contains((ms[u as int], ms[v as int])));
                        let m = choose|m: int| 0 <= m < sp.len() && sp[m] as int == v as int;
                        assert(sp[m] == v);
                    }
                    if sp.contains(v) {
                        let m = choose|m: int| 0 <= m < sp.len() && sp[m] == v;
                        assert(exists|m: int| 0 <= m < sp.len() && sp[m] as int == v as int);
                        assert(0 <= v < n && e.contains((ms[u as int], ms[v as int])));
                        let k = choose|k: int| 0 <= k < row@.len() && row@[k] as int == v as int;
                        assert(row@[k] == v);
                    }
                }
                lemma_increasing_unique(row@, sp);
            }
            let ghost before = g@;
            g.push(row);
            proof {
                assert forall|a: int, v: int| 0 <= a < u + 1 && 0 <= v < n implies (iadj(g@, a, v) <==> rel_view(self.edges@).contains(
                    (ms[a], ms[v]),
                )) by {
                    if a < u {
                        assert(g@[a] == before[a]);
                        assert(iadj(g@, a, v) == iadj(before, a, v));
                    } else {
                        assert(g@[a] == row);
                    }
                }
            }
            proof {
                assert forall|a: int| 0 <= a < u + 1 implies (#[trigger] g@[a])@ == succ_positions(e, ms, a, n as int) by {
                    if a < u {
                        assert(g@[a] == before[a]);
                    }
                }
            }
            u += 1;
        }
        proof {
            assert(adj(g@) =~= position_graph(self.model().edges, self.method_seq()));
        }
        g
    }

    /// A string cycle of the graph gives an index cycle of its position graph.
    proof fn lemma_cycle_to_index(&self, g: Seq<Vec<usize>>, c: Seq<Seq<char>>) -> (ci: Seq<usize>)
        requires
            g.len() == self.methods@.len(),
            g.len() <= usize::MAX,
            sorted(self.method_seq()),
            endpoints(self.model().edges).subset_of(self.model().methods),
            forall|u: int, v: int| 0 <= u < g.len() && 0 <= v < g.len() ==> (iadj(g, u, v) <==> self.model().edges.contains(
                (self.method_seq()[u], self.method_seq()[v]),
            )),
            is_cycle_path(self.model().edges, c),
        ensures
            idx_cycle(g, ci),
    {
        let ms = self.method_seq();
        lemma_sorted_no_dup(ms);
        let ci = Seq::new(c.len(), |k: int| ms.index_of(c[k]) as usize);
        assert forall|k: int| 0 <= k < c.len() implies ms.contains(#[trigger] c[k]) by {
            let e = self.model().edges;
            if k < c.len() - 1 {
                assert(e.contains((c[k], c[k + 1])));
                assert(endpoints(e).contains(c[k]));
            } else {
                assert(e.contains((c[0], c[0int + 1])));
                assert(endpoints(e).contains(c[0]));
            }
            assert(ms.to_set().contains(c[k]));
        }
        assert forall|k: int| 0 <= k < c.len() implies ms[ci[k] as int] == c[k] && (ci[k] as int) < g.len() by {
            assert(ms.contains(c[k]));
            let i = ms.index_of(c[k]);
            assert(0 <= i < ms.len() && ms[i] == c[k]);
            assert(ci[k] as int == i);
        }
        assert forall|k: int| 0 <= k < ci.len() - 1 implies #[trigger] iadj(g, ci[k] as int, ci[k + 1] as int) by {
            assert(ms[ci[k] as int] == c[k]);
            assert(ms[ci[k + 1] as int] == c[k + 1]);
        }
        ci
    }

    /// Depth-first cycle detection, starting points and successors in
    /// ascending order. Returns the first cycle found as a path of methods,
    /// in traversal order with the back-edge target repeated at the end, or
    /// `None` when the graph is acyclic.
    pub fn detect_cycle(&self) -> (res: Option<Vec<MethodId>>)
        ensures
            match res {
                Some(c) => is_cycle_path(self.model().edges, view_strs(c@)) && first_cycle_of(
                    self.model().edges,
                    self.model().methods,
                ) == Some(view_strs(c@)) && view_strs(c@).len() >= 3
                    && view_strs(c@).drop_last().no_duplicates(),
                None => no_cycle(self.model().edges) && first_cycle_of(self.model().edges, self.model().methods) is None,
            },
    {
        proof {
            use_type_invariant(self);
            self.lemma_method_seq();
        }
        let g = self.index_graph();
        let (r, Ghost(rk)) = detect_cycle_idx(&g);
        match r {
            Some(ci) => Some(self.names_of(&ci, &g)),
            None => {
                proof {
                    assert forall|c: Seq<Seq<char>>| !is_cycle_path(self.model().edges, c) by {
                        if is_cycle_path(self.model().edges, c) {
                            let ci = self.lemma_cycle_to_index(g@, c);
                            lemma_ranked_no_cycle(g@, rk, ci);
                        }
                    }
                }
                None
            },
        }
    }

    /// The method names of an index cycle.
    fn names_of(&self, ci: &Vec<usize>, g: &Vec<Vec<usize>>) -> (c: Vec<MethodId>)
        requires
            g@.len() == self.methods@.len(),
            forall|u: int, v: int| 0 <= u < g@.len() && 0 <= v < g@.len() ==> (iadj(g@, u, v) <==> self.model().edges.contains(
                (self.method_seq()[u], self.method_seq()[v]),
            )),
            idx_cycle(g@, ci@),
            ci@.drop_last().no_duplicates(),
            sorted(self.method_seq()),
            forall|a: Seq<char>| !self.model().edges.contains((a, a)),
        ensures
            is_cycle_path(self.model().edges, view_strs(c@)),
            view_strs(c@) == ci@.map_values(|i: usize| self.method_seq()[i as int]),
            view_strs(c@).len() >= 3,
            view_strs(c@).drop_last().no_duplicates(),
    {
        proof {
            lemma_cycle_nodes(g@, ci@);
        }
        let mut out: Vec<MethodId> = Vec::new();
        let mut k: usize = 0;
        while k < ci.len()
            invariant
                g@.len() == self.methods@.len(),
                idx_cycle(g@, ci@),
                forall|m: int| 0 <= m < ci@.len() ==> (#[trigger] ci@[m] as int) < g@.len(),
                k <= ci@.len(),
                out@.len() == k,
                forall|m: int| 0 <= m < k ==> out@[m]@ == self.method_seq()[ci@[m] as int],
            decreases ci@.len() - k,
        {
            let x = ci[k];
            proof {
                assert((ci@[k as int] as int) < g@.len());
            }
            out.push(self.methods[x].clone());
            proof {
                assert(view_strs(self.methods@)[x as int] == self.methods@[x as int]@);
            }
            k += 1;
        }
        proof {
            let v = view_strs(out@);
            assert forall|m: int| 0 <= m < v.len() - 1 implies self.model().edges.contains((v[m], #[trigger] v[m + 1])) by {
                assert(iadj(g@, ci@[m] as int, ci@[m + 1] as int));
                assert((ci@[m] as int) < g@.len());
                assert((ci@[m + 1] as int) < g@.len());
            }
        }
        proof {
            let v = view_strs(out@);
            let ms = self.method_seq();
            assert(v =~= ci@.map_values(|i: usize| ms[i as int]));
            lemma_sorted_no_dup(ms);
            assert(v.len() >= 3) by {
                if v.len() == 2 {
                    assert(self.model().edges.contains((v[0], v[0int + 1])));
                    assert(v[1] == v[0]);
                }
            }
            assert forall|x: int, y: int| 0 <= x < y < v.drop_last().len() implies v.drop_last()[x] != v.drop_last()[y] by {
                assert(ci@.drop_last()[x] == ci@[x] && ci@.drop_last()[y] == ci@[y]);
                assert(ci@[x] != ci@[y]);
                assert((ci@[x] as int) < ms.len() && (ci@[y] as int) < ms.len());
            }
        }
        out
    }

    /// The methods in ascending order are the sorted method set.
    proof fn lemma_method_seq(&self)
        requires
            sorted(self.method_seq()),
        ensures
            self.method_seq() == sorted_of(self.model().methods),
    {
        let ms = self.method_seq();
        assert(ms.to_set() == self.model().methods);
        let q = sorted_of(self.model().methods);
        assert(sorted(q) && q.to_set() == self.model().methods);
        lemma_sorted_unique(q, ms);
    }

    /// Kahn's topological order: the least ready method (ascending name
    /// order) comes next. `Err` carries a witness cycle when the graph is not
    /// a DAG.
    pub fn topological_order(&self) -> (res: Result<Vec<MethodId>, Vec<MethodId>>)
        ensures
            match res {
                Ok(order) => greedy_order(self.model().edges, self.model().methods, view_strs(order@)),
                Err(c) => is_cycle_path(self.model().edges, view_strs(c@)) && first_cycle_of(
                    self.model().edges,
                    self.model().methods,
                ) == Some(view_strs(c@)) && view_strs(c@).len() >= 3
                    && view_strs(c@).drop_last().no_duplicates(),
            },
            res is Ok <==> no_cycle(self.model().edges),
            endpoints(self.model().edges).subset_of(self.model().methods),
    {
        proof {
            use_type_invariant(self);
            self.lemma_method_seq();
        }
        let g = self.index_graph();
        match topo_idx(&g) {
            Ok(order) => {
                let out = self.order_names(&order, &g);
                proof {
                    let rk = lemma_topo_ranks(g@, order@);
                    assert forall|c: Seq<Seq<char>>| !is_cycle_path(self.model().edges, c) by {
                        if is_cycle_path(self.model().edges, c) {
                            let ci = self.lemma_cycle_to_index(g@, c);
                            lemma_ranked_no_cycle(g@, rk, ci);
                        }
                    }
                }
                Ok(out)
            },
            Err(p) => {
                let ghost popped = p@;
                let (r, Ghost(rk)) = detect_cycle_idx(&g);
                match r {
                    Some(ci) => {
                        let c = self.names_of(&ci, &g);
                        proof {
                            assert(!no_cycle(self.model().edges));
                        }
                        Err(c)
                    },
                    None => {
                        proof {
                            let v = choose|v: int| 0 <= v < g@.len() && !popped[v];
                            lemma_ranked_has_ready(g@, popped, rk, v);
                            let x = choose|x: int| 0 <= x < g@.len() && !popped[x] && forall|u: int| #[trigger] iadj(g@, u, x) ==> popped[u];
                            let u = choose|u: int| #[trigger] iadj(g@, u, x) && !popped[u];
                            assert(false);
                        }
                        Err(Vec::new())
                    },
                }
            },
        }
    }

    /// The method names of a least-first index order.
    fn order_names(&self, order: &Vec<usize>, g: &Vec<Vec<usize>>) -> (out: Vec<MethodId>)
        requires
            g@.len() == self.methods@.len(),
            sorted(self.method_seq()),
            endpoints(self.model().edges).subset_of(self.model().methods),
            forall|u: int, v: int| 0 <= u < g@.len() && 0 <= v < g@.len() ==> (iadj(g@, u, v) <==> self.model().edges.contains(
                (self.method_seq()[u], self.method_seq()[v]),
            )),
            greedy_topo(g@, order@),
        ensures
            greedy_order(self.model().edges, self.model().methods, view_strs(out@)),
    {
        let ghost ms = self.method_seq();
        let mut out: Vec<MethodId> = Vec::new();
        let mut k: usize = 0;
        while k < order.len()
            invariant
                g@.len() == self.methods@.len(),
                ms == self.method_seq(),
                ms == view_strs(self.methods@),
                greedy_topo(g@, order@),
                k <= order@.len(),
                out@.len() == k,
                forall|m: int| 0 <= m < k ==> out@[m]@ == ms[order@[m] as int],
            decreases order@.len() - k,
        {
            let x = order[k];
            proof {
                assert(ready(g@, listed(order@.take(k as int)), order@[k as int] as int));
            }
            out.push(self.methods[x].clone());
            k += 1;
        }
        proof {
            self.lemma_order_names(g@, order@, view_strs(out@));
        }
        out
    }

    proof fn lemma_order_names(&self, g: Seq<Vec<usize>>, order: Seq<usize>, names: Seq<Seq<char>>)
        requires
            g.len() == self.methods@.len(),
            sorted(self.method_seq()),
            endpoints(self.model().edges).subset_of(self.model().methods),
            forall|u: int, v: int| 0 <= u < g.len() && 0 <= v < g.len() ==> (iadj(g, u, v) <==> self.model().edges.contains(
                (self.method_seq()[u], self.method_seq()[v]),
            )),
            greedy_topo(g, order),
            names.len() == order.len(),
            forall|m: int| 0 <= m < order.len() ==> names[m] == self.method_seq()[order[m] as int],
        ensures
            greedy_order(self.model().edges, self.model().methods, names),
    {
        let ms = self.method_seq();
        let e = self.model().edges;
        let mset = self.model().methods;
        let n = g.len();
        lemma_sorted_no_dup(ms);
        ms.unique_seq_to_set();
        assert forall|k: int| 0 <= k < names.len() implies sready(e, mset, names.take(k).to_set(), #[trigger] names[k]) && forall|w: Seq<char>|
            sready(e, mset, names.take(k).to_set(), w) ==> names[k] == w || seq_less(names[k], w) by {
            let d = listed(order.take(k));
            let ds = names.take(k).to_set();
            assert(ready(g, d, order[k] as int));
            assert forall|x: int| 0 <= x < n implies (d.contains(x) <==> ds.contains(ms[x])) by {
                if d.contains(x) {
                    let j = choose|j: int| 0 <= j < order.take(k).len() && order.take(k)[j] as int == x;
                    assert(names.take(k)[j] == names[j]);
                }
                if ds.contains(ms[x]) {
                    let j = choose|j: int| 0 <= j < names.take(k).len() && names.take(k)[j] == ms[x];
                    assert(names[j] == ms[order[j] as int]);
                    assert(ready(g, listed(order.take(j)), order[j] as int));
                    assert(order.take(k)[j] == order[j]);
                }
            }
            assert forall|s: Seq<char>| ds.contains(s) implies mset.contains(s) by {
                let j = choose|j: int| 0 <= j < names.take(k).len() && names.take(k)[j] == s;
                assert(ready(g, listed(order.take(j)), order[j] as int));
            }
            let v = order[k] as int;
            assert(names[k] == ms[v]);
            assert forall|u: Seq<char>| e.contains((u, names[k])) implies ds.contains(u) by {
                assert(endpoints(e).contains(u));
                let ui = ms.index_of(u);
                assert(ms[ui] == u);
                assert(iadj(g, ui, v));
            }
            assert forall|w: Seq<char>| sready(e, mset, ds, w) implies names[k] == w || seq_less(names[k], w) by {
                let wi = ms.index_of(w);
                assert(ms[wi] == w);
                assert forall|u: int| #[trigger] iadj(g, u, wi) implies d.contains(u) by {
                    assert(0 <= u < n);
                    assert(e.contains((ms[u], ms[wi])));
                }
                assert(ready(g, d, wi));
                assert(v <= wi);
                if v < wi {
                    assert(seq_less(ms[v], ms[wi]));
                }
            }
        }
        assert(names.len() == mset.len());
    }
}

/// Whether a method's kind is among `kinds`.
pub open spec fn kept(kinds: Seq<MethodKind>, m: Seq<char>) -> bool {
    kinds.contains(spec_classify(m))
}

/// Whether `k` occurs in `kinds`.
fn kind_in(kinds: &[MethodKind], k: MethodKind) -> (b: bool)
    ensures
        b == kinds@.contains(k),
{
    let mut i: usize = 0;
    while i < kinds.len()
        invariant
            i <= kinds@.len(),
            forall|j: int| 0 <= j < i ==> kinds@[j] != k,
        decreases kinds@.len() - i,
    {
        if kinds[i] == k {
            return true;
        }
        i += 1;
    }
    false
}

/// The strings of a sorted vector whose method kind is among `kinds`, in
/// order.
fn keep_kinds(items: &Vec<String>, kinds: &[MethodKind]) -> (out: Vec<String>)
    requires
        sorted(view_strs(items@)),
    ensures
        sorted(view_strs(out@)),
        view_strs(out@).to_set() == view_strs(items@).to_set().filter(|m: Seq<char>| kept(kinds@, m)),
{
    let ghost v = view_strs(items@);
    let mut out: Vec<String> = Vec::new();
    let mut i: usize = 0;
    while i < items.len()
        invariant
            v == view_strs(items@),
            sorted(v),
            i <= items.len(),
            sorted(view_strs(out@)),
            view_strs(out@).to_set() == v.take(i as int).to_set().filter(|m: Seq<char>| kept(kinds@, m)),
        decreases items.len() - i,
    {
        let name = items[i].as_str();
        let ghost before = view_strs(out@);
        proof {
            assert(v[i as int] == name@);
            assert(v.take(i + 1) =~= v.take(i as int).push(name@));
        }
        if kind_in(kinds, MethodKind::classify(name)) {
            out.push(items[i].clone());
            proof {
                let nv = view_strs(out@);
                assert(nv =~= before.push(name@));
                assert forall|a: int, b: int| 0 <= a < b < nv.len() implies seq_less(nv[a], nv[b]) by {
                    if b == nv.len() - 1 {
                        assert(before.to_set().contains(before[a]));
                        let t0 = v.take(i as int);
                        let k = choose|k: int| 0 <= k < t0.len() && t0[k] == before[a];
                        assert(v[k] == before[a]);
                    } else {
                        assert(nv[a] == before[a] && nv[b] == before[b]);
                    }
                }
                assert(kept(kinds@, name@));
                assert forall|z: Seq<char>| nv.to_set().contains(z) <==> v.take(i + 1).to_set().filter(|m: Seq<char>| kept(kinds@, m)).contains(z) by {
                    if nv.to_set().contains(z) {
                        let k = choose|k: int| 0 <= k < nv.len() && nv[k] == z;
                        if k < before.len() {
                            assert(before[k] == z);
                            assert(before.to_set().contains(z));
                            let t0 = v.take(i as int);
                            let j = choose|j: int| 0 <= j < t0.len() && t0[j] == z;
                            assert(v.take(i + 1)[j] == z);
                        } else {
                            assert(v.take(i + 1)[i as int] == z);
                        }
                    }
                    if v.take(i + 1).to_set().filter(|m: Seq<char>| kept(kinds@, m)).contains(z) {
                        let t1 = v.take(i + 1);
                        let j = choose|j: int| 0 <= j < t1.len() && t1[j] == z;
                        if j < i {
                            assert(v.take(i as int)[j] == z);
                            assert(v.take(i as int).to_set().contains(z));
                            assert(before.to_set().contains(z));
                            let k = choose|k: int| 0 <= k < before.len() && before[k] == z;
                            assert(nv[k] == z);
                        } else {
                            assert(nv[before.len() as int] == z);
                        }
                    }
                }
                assert(nv.to_set() =~= v.take(i + 1).to_set().filter(|m: Seq<char>| kept(kinds@, m)));
            }
        } else {
            proof {
                assert(!kept(kinds@, name@));
                assert forall|z: Seq<char>| before.to_set().contains(z) <==> v.take(i + 1).to_set().filter(|m: Seq<char>| kept(kinds@, m)).contains(z) by {
                    if before.to_set().contains(z) {
                        let t0 = v.take(i as int);
                            let j = choose|j: int| 0 <= j < t0.len() && t0[j] == z;
                        assert(v.take(i + 1)[j] == z);
                    }
                    if v.take(i + 1).to_set().filter(|m: Seq<char>| kept(kinds@, m)).contains(z) {
                        let t1 = v.take(i + 1);
                        let j = choose|j: int| 0 <= j < t1.len() && t1[j] == z;
                        if j < i {
                            assert(v.take(i as int)[j] == z);
                        }
                    }
                }
                assert(view_strs(out@).to_set() =~= v.take(i + 1).to_set().filter(|m: Seq<char>| kept(kinds@, m)));
            }
        }
        i += 1;
    }
    proof {
        assert(v.take(items@.len() as int) =~= v);
    }
    out
}

/// The edges of `e` between methods whose kinds are among `kinds`.
pub open spec fn kept_edges(kinds: Seq<MethodKind>, e: Set<(Seq<char>, Seq<char>)>) -> Set<(Seq<char>, Seq<char>)> {
    e.filter(|pr: (Seq<char>, Seq<char>)| kept(kinds, pr.0) && kept(kinds, pr.1))
}

impl RecomputeDag {
    /// Restrict the graph to the methods whose kind is in `kinds`; edges to
    /// or from dropped methods are dropped too. `restrict_to(&[Compute])` is
    /// the reactive subset that must form a DAG.
    pub fn restrict_to(&self, kinds: &[MethodKind]) -> (r: RecomputeDag)
        ensures
            r.model().methods == self.model().methods.filter(|m: Seq<char>| kept(kinds@, m)),
            r.model().edges == kept_edges(kinds@, self.model().edges),
            r.model().edges.finite(),
            r.model().methods.finite(),
    {
        proof {
            use_type_invariant(self);
        }
        let methods = keep_kinds(&self.methods, kinds);
        let ghost old_e = self.edges@;
        let mut edges: Vec<RelEntry> = Vec::new();
        let mut i: usize = 0;
        proof {
            assert(rel_view(edges@) =~= kept_edges(kinds@, rel_view(old_e.take(0))));
        }
        while i < self.edges.len()
            invariant
                old_e == self.edges@,
                rel_wf(old_e),
                i <= old_e.len(),
                rel_wf(edges@),
                keys_of(edges@).to_set().subset_of(keys_of(old_e.take(i as int)).to_set()),
                rel_view(edges@) == kept_edges(kinds@, rel_view(old_e.take(i as int))),
            decreases old_e.len() - i,
        {
            let key = self.edges[i].0.as_str();
            let ghost before = edges@;
            proof {
                assert(old_e.take(i + 1) =~= old_e.take(i as int).push(old_e[i as int]));
                assert(rel_wf(old_e));
                assert(sorted(view_strs(old_e[i as int].1@)));
            }
            if kind_in(kinds, MethodKind::classify(key)) {
                let tos = keep_kinds(&self.edges[i].1, kinds);
                if tos.len() > 0 {
                    edges.push((self.edges[i].0.clone(), tos));
                    proof {
                        assert(edges@.drop_last() =~= before);
                        self.lemma_restrict_push(kinds@, before, edges@, i as int);
                    }
                } else {
                    proof {
                        assert(view_strs(tos@).to_set().is_empty()) by {
                            assert(view_strs(tos@) =~= Seq::<Seq<char>>::empty());
                        }
                        self.lemma_restrict_skip(kinds@, before, i as int);
                    }
                }
            } else {
                proof {
                    self.lemma_restrict_skip(kinds@, before, i as int);
                }
            }
            i += 1;
        }
        proof {
            assert(old_e.take(old_e.len() as int) =~= old_e);
            lemma_rel_len(old_e);
            assert(rel_view(edges@).subset_of(rel_view(old_e)));
            vstd::set_lib::lemma_len_subset(rel_view(edges@), rel_view(old_e));
            let rm = view_strs(methods@).to_set();
            assert forall|m: Seq<char>| endpoints(rel_view(edges@)).contains(m) implies rm.contains(m) by {
                let o = choose|o: Seq<char>| rel_view(edges@).contains((m, o)) || rel_view(edges@).contains((o, m));
                if rel_view(edges@).contains((m, o)) {
                    assert(endpoints(rel_view(old_e)).contains(m));
                } else {
                    assert(endpoints(rel_view(old_e)).contains(m));
                }
            }
        }
        RecomputeDag { edges, methods }
    }

    /// Entry `i` adds nothing to the restriction.
    proof fn lemma_restrict_skip(&self, kinds: Seq<MethodKind>, before: Seq<RelEntry>, i: int)
        requires
            rel_wf(self.edges@),
            0 <= i < self.edges@.len(),
            keys_of(before).to_set().subset_of(keys_of(self.edges@.take(i)).to_set()),
            rel_view(before) == kept_edges(kinds, rel_view(self.edges@.take(i))),
            !kept(kinds, self.edges@[i].0@) || view_strs(self.edges@[i].1@).to_set().filter(
                |m: Seq<char>| kept(kinds, m),
            ).is_empty(),
        ensures
            keys_of(before).to_set().subset_of(keys_of(self.edges@.take(i + 1)).to_set()),
            rel_view(before) == kept_edges(kinds, rel_view(self.edges@.take(i + 1))),
    {
        let e = self.edges@;
        let x = e[i];
        assert(e.take(i + 1) =~= e.take(i).push(x));
        lemma_rel_view_push(e.take(i), x);
        assert(keys_of(e.take(i + 1)) =~= keys_of(e.take(i)).push(x.0@));
        assert forall|pr: (Seq<char>, Seq<char>)| kept_edges(kinds, rel_view(e.take(i + 1))).contains(pr)
            implies kept_edges(kinds, rel_view(e.take(i))).contains(pr) by {
            if !rel_view(e.take(i)).contains(pr) {
                assert(pr.0 == x.0@ && view_strs(x.1@).contains(pr.1));
                assert(view_strs(x.1@).to_set().filter(|m: Seq<char>| kept(kinds, m)).contains(pr.1));
            }
        }
        assert(kept_edges(kinds, rel_view(e.take(i + 1))) =~= kept_edges(kinds, rel_view(e.take(i))));
        assert forall|k: Seq<char>| keys_of(before).to_set().contains(k) implies keys_of(e.take(i + 1)).to_set().contains(k) by {
            assert(keys_of(e.take(i)).to_set().contains(k));
            let j = choose|j: int| 0 <= j < keys_of(e.take(i)).len() && keys_of(e.take(i))[j] == k;
            assert(keys_of(e.take(i + 1))[j] == k);
        }
    }

    /// Entry `i`, cut to its kept values, extends the restriction.
    proof fn lemma_restrict_push(&self, kinds: Seq<MethodKind>, before: Seq<RelEntry>, after: Seq<RelEntry>, i: int)
        requires
            rel_wf(self.edges@),
            0 <= i < self.edges@.len(),
            rel_wf(before),
            keys_of(before).to_set().subset_of(keys_of(self.edges@.take(i)).to_set()),
            rel_view(before) == kept_edges(kinds, rel_view(self.edges@.take(i))),
            kept(kinds, self.edges@[i].0@),
            after.len() == before.len() + 1,
            after.drop_last() == before,
            after.last().0@ == self.edges@[i].0@,
            sorted(view_strs(after.last().1@)),
            after.last().1@.len() > 0,
            view_strs(after.last().1@).to_set() == view_strs(self.edges@[i].1@).to_set().filter(
                |m: Seq<char>| kept(kinds, m),
            ),
        ensures
            rel_wf(after),
            keys_of(after).to_set().subset_of(keys_of(self.edges@.take(i + 1)).to_set()),
            rel_view(after) == kept_edges(kinds, rel_view(self.edges@.take(i + 1))),
    {
        let e = self.edges@;
        let x = e[i];
        let y = after.last();
        assert(after =~= before.push(y));
        assert(e.take(i + 1) =~= e.take(i).push(x));
        lemma_rel_view_push(e.take(i), x);
        lemma_rel_view_push(before, y);
        assert(keys_of(e.take(i + 1)) =~= keys_of(e.take(i)).push(x.0@));
        assert(keys_of(after) =~= keys_of(before).push(x.0@));
        // keys stay strictly increasing
        assert forall|a: int, b: int| 0 <= a < b < keys_of(after).len() implies seq_less(
            keys_of(after)[a],
            keys_of(after)[b],
        ) by {
            if b == keys_of(after).len() - 1 {
                let k = keys_of(before)[a];
                assert(keys_of(before).to_set().contains(k));
                let j = choose|j: int| 0 <= j < keys_of(e.take(i)).len() && keys_of(e.take(i))[j] == k;
                assert(keys_of(e)[j] == k);
                assert(keys_of(e)[i] == x.0@);
            } else {
                assert(keys_of(after)[a] == keys_of(before)[a]);
                assert(keys_of(after)[b] == keys_of(before)[b]);
            }
        }
        assert forall|j: int| 0 <= j < after.len() implies sorted(view_strs(#[trigger] after[j].1@))
            && after[j].1@.len() > 0 by {
            if j < before.len() {
                assert(after[j] == before[j]);
            }
        }
        assert forall|k: Seq<char>| keys_of(after).to_set().contains(k) implies keys_of(e.take(i + 1)).to_set().contains(k) by {
            let j = choose|j: int| 0 <= j < keys_of(after).len() && keys_of(after)[j] == k;
            if j < before.len() {
                assert(keys_of(before)[j] == k);
                assert(keys_of(before).to_set().contains(k));
                let m = choose|m: int| 0 <= m < keys_of(e.take(i)).len() && keys_of(e.take(i))[m] == k;
                assert(keys_of(e.take(i + 1))[m] == k);
            } else {
                assert(keys_of(e.take(i + 1))[i] == k);
            }
        }
        assert forall|pr: (Seq<char>, Seq<char>)| rel_view(after).contains(pr)
            <==> kept_edges(kinds, rel_view(e.take(i + 1))).contains(pr) by {
            if pr.0 == x.0@ && view_strs(y.1@).contains(pr.1) {
                assert(view_strs(y.1@).to_set().contains(pr.1));
            }
            if pr.0 == x.0@ && view_strs(x.1@).contains(pr.1) && kept(kinds, pr.1) {
                assert(view_strs(x.1@).to_set().contains(pr.1));
                assert(view_strs(y.1@).to_set().contains(pr.1));
            }
        }
        assert(rel_view(after) =~= kept_edges(kinds, rel_view(e.take(i + 1))));
    }
}

/// `c` walks edges of `e` and returns to its start.
pub open spec fn is_cycle_path(e: Set<(Seq<char>, Seq<char>)>, c: Seq<Seq<char>>) -> bool {
    &&& c.len() >= 2
    &&& c[0] == c.last()
    &&& forall|k: int| 0 <= k < c.len() - 1 ==> e.contains((c[k], #[trigger] c[k + 1]))
}

/// No cycle path exists.
pub open spec fn no_cycle(e: Set<(Seq<char>, Seq<char>)>) -> bool {
    forall|c: Seq<Seq<char>>| !is_cycle_path(e, c)
}

/// `v` may come next once `done` has run.
pub open spec fn sready(e: Set<(Seq<char>, Seq<char>)>, m: Set<Seq<char>>, done: Set<Seq<char>>, v: Seq<char>) -> bool {
    &&& m.contains(v)
    &&& !done.contains(v)
    &&& forall|u: Seq<char>| e.contains((u, v)) ==> done.contains(u)
}

/// Every method exactly once, each entry the least (in name order) method
/// ready after the entries before it.
pub open spec fn greedy_order(e: Set<(Seq<char>, Seq<char>)>, m: Set<Seq<char>>, order: Seq<Seq<char>>) -> bool {
    &&& order.len() == m.len()
    &&& forall|k: int|
        0 <= k < order.len() ==> sready(e, m, order.take(k).to_set(), #[trigger] order[k]) && forall|w: Seq<char>|
            sready(e, m, order.take(k).to_set(), w) ==> order[k] == w || seq_less(order[k], w)
}


// ── laws ────────────────────────────────────────────────────────────────────

/// No method must run after itself: a method reading a field it emits adds
/// no edge, so the graph a corpus yields has no self-loop.
pub proof fn law_no_self_loops(ts: Seq<Triple>, m: Seq<char>)
    ensures
        !dag_edges(ts, ts).contains((m, m)),
{
}

proof fn law_no_self_loops_all(ts: Seq<Triple>)
    ensures
        forall|m: Seq<char>| !dag_edges(ts, ts).contains((m, m)),
{
}

/// A topological order runs every method of the graph exactly once, and every
/// method that emits a field before each method that reads it.
pub proof fn law_topological_order_respects_edges(
    e: Set<(Seq<char>, Seq<char>)>,
    m: Set<Seq<char>>,
    order: Seq<Seq<char>>,
)
    requires
        m.finite(),
        greedy_order(e, m, order),
    ensures
        order.no_duplicates(),
        order.to_set() == m,
        forall|a: Seq<char>, k: int|
            0 <= k < order.len() && #[trigger] e.contains((a, order[k])) ==> exists|j: int| 0 <= j < k && order[j] == a,
        endpoints(e).subset_of(m) ==> forall|a: Seq<char>, b: Seq<char>|
            #[trigger] e.contains((a, b)) ==> exists|i: int, j: int|
                0 <= i < j < order.len() && order[i] == a && order[j] == b,
{
    assert forall|i: int, j: int| 0 <= i < order.len() && 0 <= j < order.len() && i != j implies order[i] != order[j] by {
        let (lo, hi) = if i < j {
            (i, j)
        } else {
            (j, i)
        };
        assert(sready(e, m, order.take(hi).to_set(), order[hi]));
        assert(order.take(hi)[lo] == order[lo]);
        assert(order.take(hi).to_set().contains(order[lo]));
    }
    assert(order.to_set().subset_of(m)) by {
        assert forall|x: Seq<char>| order.to_set().contains(x) implies m.contains(x) by {
            let k = choose|k: int| 0 <= k < order.len() && order[k] == x;
            assert(sready(e, m, order.take(k).to_set(), order[k]));
        }
    }
    order.unique_seq_to_set();
    vstd::set_lib::lemma_len_subset(order.to_set(), m);
    vstd::set_lib::lemma_subset_equality(order.to_set(), m);
    assert forall|a: Seq<char>, k: int|
        0 <= k < order.len() && #[trigger] e.contains((a, order[k])) implies exists|j: int| 0 <= j < k && order[j] == a by {
        assert(sready(e, m, order.take(k).to_set(), order[k]));
        assert(order.take(k).to_set().contains(a));
        let j = choose|j: int| 0 <= j < order.take(k).len() && order.take(k)[j] == a;
        assert(order[j] == a);
    }
    if endpoints(e).subset_of(m) {
        assert forall|a: Seq<char>, b: Seq<char>| #[trigger] e.contains((a, b)) implies exists|i: int, j: int|
            0 <= i < j < order.len() && order[i] == a && order[j] == b by {
            assert(endpoints(e).contains(b));
            assert(order.to_set().contains(b));
            let k = choose|k: int| 0 <= k < order.len() && order[k] == b;
            assert(e.contains((a, order[k])));
            let j = choose|j: int| 0 <= j < k && order[j] == a;
            assert(0 <= j < k < order.len() && order[j] == a && order[k] == b);
        }
    }
}

/// `o` runs every method of `m` once, each after every method it depends on.
pub open spec fn topo_order(e: Set<(Seq<char>, Seq<char>)>, m: Set<Seq<char>>, o: Seq<Seq<char>>) -> bool {
    &&& o.no_duplicates()
    &&& o.to_set() == m
    &&& forall|a: Seq<char>, k: int|
        0 <= k < o.len() && #[trigger] e.contains((a, o[k])) ==> exists|j: int| 0 <= j < k && o[j] == a
}

/// `a` comes before `b` lexicographically: at their first difference,
/// `a`'s method name is the lesser.
pub open spec fn orders_less(a: Seq<Seq<char>>, b: Seq<Seq<char>>) -> bool {
    exists|k: int| 0 <= k < a.len() && k < b.len() && a.take(k) == b.take(k) && seq_less(a[k], b[k])
}

proof fn lemma_first_difference(a: Seq<Seq<char>>, b: Seq<Seq<char>>, i: int) -> (k: int)
    requires
        a.len() == b.len(),
        a != b,
        0 <= i <= a.len(),
        a.take(i) == b.take(i),
    ensures
        i <= k < a.len(),
        a.take(k) == b.take(k),
        a[k] != b[k],
    decreases a.len() - i,
{
    if i == a.len() {
        assert(a =~= a.take(i));
        assert(b =~= b.take(i));
        i
    } else if a[i] == b[i] {
        assert(a.take(i + 1) =~= a.take(i).push(a[i]));
        assert(b.take(i + 1) =~= b.take(i).push(b[i]));
        lemma_first_difference(a, b, i + 1)
    } else {
        i
    }
}

/// The order [`RecomputeDag::topological_order`] returns is a topological
/// order, and the lexicographically least one: any other order that runs
/// every method once after its dependencies differs first at a position
/// where this one holds the lesser method name.
pub proof fn law_topological_order_is_least(
    e: Set<(Seq<char>, Seq<char>)>,
    m: Set<Seq<char>>,
    o: Seq<Seq<char>>,
    o2: Seq<Seq<char>>,
)
    requires
        m.finite(),
        greedy_order(e, m, o),
        topo_order(e, m, o2),
    ensures
        topo_order(e, m, o),
        o2 != o ==> orders_less(o, o2),
{
    law_topological_order_respects_edges(e, m, o);
    if o2 != o {
        o2.unique_seq_to_set();
        assert(o.take(0) =~= o2.take(0));
        let k = lemma_first_difference(o, o2, 0);
        let w = o2[k];
        let done = o.take(k).to_set();
        assert(o2.take(k) == o.take(k));
        assert(o2.to_set().contains(w));
        assert(!done.contains(w)) by {
            if done.contains(w) {
                let j = choose|j: int| 0 <= j < o.take(k).len() && o.take(k)[j] == w;
                assert(o2.take(k)[j] == o2[j]);
                assert(o2[j] == o2[k]);
            }
        }
        assert forall|u: Seq<char>| e.contains((u, w)) implies done.contains(u) by {
            let j = choose|j: int| 0 <= j < k && o2[j] == u;
            assert(o2.take(k)[j] == u);
            assert(o.take(k)[j] == u);
        }
        assert(sready(e, m, done, w));
        assert(sready(e, m, o.take(k).to_set(), o[k]));
        assert(o[k] == w || seq_less(o[k], w));
        assert(o.take(k) == o2.take(k) && seq_less(o[k], o2[k]));
    }
}

/// Restricting an acyclic graph to some method kinds keeps it acyclic: the
/// restriction only drops edges.
pub proof fn law_restriction_keeps_acyclicity(kinds: Seq<MethodKind>, e: Set<(Seq<char>, Seq<char>)>)
    requires
        no_cycle(e),
    ensures
        no_cycle(kept_edges(kinds, e)),
{
    assert forall|c: Seq<Seq<char>>| !is_cycle_path(kept_edges(kinds, e), c) by {
        if is_cycle_path(kept_edges(kinds, e), c) {
            assert forall|k: int| 0 <= k < c.len() - 1 implies e.contains((c[k], #[trigger] c[k + 1])) by {
                assert(kept_edges(kinds, e).contains((c[k], c[k + 1])));
            }
            assert(is_cycle_path(e, c));
        }
    }
}

/// The position of `x` in `order`.
pub open spec fn pos_in(order: Seq<Seq<char>>, x: Seq<char>) -> int {
    choose|k: int| 0 <= k < order.len() && order[k] == x
}

proof fn lemma_positions_climb(e: Set<(Seq<char>, Seq<char>)>, m: Set<Seq<char>>, c: Seq<Seq<char>>, order: Seq<Seq<char>>, k: int)
    requires
        m.finite(),
        greedy_order(e, m, order),
        is_cycle_path(e, c),
        c.to_set().subset_of(m),
        1 <= k < c.len(),
    ensures
        pos_in(order, c[0]) < pos_in(order, c[k]),
    decreases k,
{
    law_topological_order_respects_edges(e, m, order);
    if k > 1 {
        lemma_positions_climb(e, m, c, order, k - 1);
    }
    assert(c.to_set().contains(c[k]));
    assert(c.to_set().contains(c[k - 1]));
    assert(order.to_set().contains(c[k]));
    assert(order.to_set().contains(c[k - 1]));
    let kb = pos_in(order, c[k]);
    let ka = pos_in(order, c[k - 1]);
    assert(0 <= kb < order.len() && order[kb] == c[k]);
    assert(0 <= ka < order.len() && order[ka] == c[k - 1]);
    let i = k - 1;
    assert(e.contains((c[i], c[i + 1])));
    assert(e.contains((c[k - 1], order[kb])));
    let j = choose|j: int| 0 <= j < kb && order[j] == c[k - 1];
    assert(j == ka);
}

/// A graph with a cycle path is not acyclic and has no topological order.
pub proof fn law_cycle_excludes_order(e: Set<(Seq<char>, Seq<char>)>, m: Set<Seq<char>>, c: Seq<Seq<char>>, order: Seq<Seq<char>>)
    requires
        m.finite(),
        is_cycle_path(e, c),
        c.to_set().subset_of(m),
    ensures
        !no_cycle(e),
        !greedy_order(e, m, order),
{
    if greedy_order(e, m, order) {
        lemma_positions_climb(e, m, c, order, c.len() - 1);
        assert(c[c.len() - 1] == c[0]);
    }
}

} // verus!
