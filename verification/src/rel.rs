//! A binary relation over strings, held as sorted keys each with a sorted,
//! non-empty set of related values.
use vstd::prelude::*;
use crate::strset::{
    key_find, keys_of, lemma_sorted_no_dup, sorted, sorted_insert, view_strs,
};
use crate::text::{lemma_less_irreflexive, lemma_less_transitive, seq_less};

verus! {

/// One key with its related values.
pub type RelEntry = (String, Vec<String>);

/// The pairs a relation holds.
pub open spec fn rel_view(e: Seq<RelEntry>) -> Set<(Seq<char>, Seq<char>)> {
    Set::new(
        |pr: (Seq<char>, Seq<char>)|
            exists|i: int| 0 <= i < e.len() && e[i].0@ == pr.0 && view_strs(e[i].1@).contains(pr.1),
    )
}

/// Keys strictly increasing; every value set strictly increasing and
/// non-empty.
pub open spec fn rel_wf(e: Seq<RelEntry>) -> bool {
    &&& sorted(keys_of(e))
    &&& forall|i: int| 0 <= i < e.len() ==> sorted(view_strs(#[trigger] e[i].1@)) && e[i].1@.len() > 0
}

/// The values related to `k`.
pub open spec fn image(r: Set<(Seq<char>, Seq<char>)>, k: Seq<char>) -> Set<Seq<char>> {
    Set::new(|b: Seq<char>| r.contains((k, b)))
}

/// The keys that relate to something.
pub open spec fn domain(r: Set<(Seq<char>, Seq<char>)>) -> Set<Seq<char>> {
    Set::new(|k: Seq<char>| exists|b: Seq<char>| r.contains((k, b)))
}

/// The entry at key position `i` holds exactly the image of its key.
pub proof fn lemma_entry_image(e: Seq<RelEntry>, i: int)
    requires
        rel_wf(e),
        0 <= i < e.len(),
    ensures
        view_strs(e[i].1@).to_set() == image(rel_view(e), e[i].0@),
{
    lemma_sorted_no_dup(keys_of(e));
    assert(keys_of(e)[i] == e[i].0@);
    assert forall|b: Seq<char>| image(rel_view(e), e[i].0@).contains(b) implies view_strs(
        e[i].1@,
    ).to_set().contains(b) by {
        let j = choose|j: int|
            0 <= j < e.len() && e[j].0@ == e[i].0@ && view_strs(e[j].1@).contains(b);
        assert(keys_of(e)[j] == e[j].0@);
        assert(i == j);
    }
    assert forall|b: Seq<char>| view_strs(e[i].1@).to_set().contains(b) implies image(
        rel_view(e),
        e[i].0@,
    ).contains(b) by {
        assert(rel_view(e).contains((e[i].0@, b)));
    }
    assert(view_strs(e[i].1@).to_set() =~= image(rel_view(e), e[i].0@));
}

/// A key absent from the entries relates to nothing.
pub proof fn lemma_absent_image(e: Seq<RelEntry>, k: Seq<char>)
    requires
        rel_wf(e),
        !keys_of(e).contains(k),
    ensures
        image(rel_view(e), k) == Set::<Seq<char>>::empty(),
{
    assert forall|b: Seq<char>| !image(rel_view(e), k).contains(b) by {
        if rel_view(e).contains((k, b)) {
            let j = choose|j: int| 0 <= j < e.len() && e[j].0@ == k && view_strs(e[j].1@).contains(b);
            assert(keys_of(e)[j] == k);
        }
    }
    assert(image(rel_view(e), k) =~= Set::<Seq<char>>::empty());
}

/// The domain of the relation is the key set.
pub proof fn lemma_domain_keys(e: Seq<RelEntry>)
    requires
        rel_wf(e),
    ensures
        domain(rel_view(e)) == keys_of(e).to_set(),
{
    assert forall|k: Seq<char>| domain(rel_view(e)).contains(k) implies keys_of(e).to_set().contains(
        k,
    ) by {
        let b = choose|b: Seq<char>| rel_view(e).contains((k, b));
        let j = choose|j: int| 0 <= j < e.len() && e[j].0@ == k && view_strs(e[j].1@).contains(b);
        assert(keys_of(e)[j] == k);
    }
    assert forall|k: Seq<char>| keys_of(e).to_set().contains(k) implies domain(
        rel_view(e),
    ).contains(k) by {
        let j = choose|j: int| 0 <= j < keys_of(e).len() && keys_of(e)[j] == k;
        assert(e[j].1@.len() > 0);
        assert(view_strs(e[j].1@)[0] == e[j].1@[0]@);
        assert(rel_view(e).contains((k, e[j].1@[0]@)));
    }
    assert(domain(rel_view(e)) =~= keys_of(e).to_set());
}

/// The pairs of entries with one more entry appended.
pub proof fn lemma_rel_view_push(e: Seq<RelEntry>, x: RelEntry)
    ensures
        rel_view(e.push(x)) == rel_view(e).union(
            Set::new(|pr: (Seq<char>, Seq<char>)| pr.0 == x.0@ && view_strs(x.1@).contains(pr.1)),
        ),
{
    let f = e.push(x);
    assert forall|pr: (Seq<char>, Seq<char>)| rel_view(f).contains(pr) implies rel_view(e).contains(pr) || (pr.0 == x.0@
        && view_strs(x.1@).contains(pr.1)) by {
        let j = choose|j: int| 0 <= j < f.len() && f[j].0@ == pr.0 && view_strs(f[j].1@).contains(pr.1);
        if j < e.len() {
            assert(f[j] == e[j]);
        }
    }
    assert forall|pr: (Seq<char>, Seq<char>)| rel_view(e).contains(pr) implies rel_view(f).contains(pr) by {
        let j = choose|j: int| 0 <= j < e.len() && e[j].0@ == pr.0 && view_strs(e[j].1@).contains(pr.1);
        assert(f[j] == e[j]);
    }
    assert forall|pr: (Seq<char>, Seq<char>)| pr.0 == x.0@ && view_strs(x.1@).contains(pr.1) implies rel_view(f).contains(pr) by {
        assert(f[e.len() as int] == x);
    }
    assert(rel_view(f) =~= rel_view(e).union(
        Set::new(|pr: (Seq<char>, Seq<char>)| pr.0 == x.0@ && view_strs(x.1@).contains(pr.1)),
    ));
}

/// The total number of values over all entries.
pub open spec fn total_len(e: Seq<RelEntry>) -> nat
    decreases e.len(),
{
    if e.len() == 0 {
        0
    } else {
        total_len(e.drop_last()) + e.last().1@.len()
    }
}

/// A prefix holds no more values than the whole.
pub proof fn lemma_total_len_prefix(e: Seq<RelEntry>, i: int)
    requires
        0 <= i <= e.len(),
    ensures
        total_len(e.take(i)) <= total_len(e),
    decreases e.len() - i,
{
    if i < e.len() {
        lemma_total_len_prefix(e, i + 1);
        assert(e.take(i + 1).drop_last() =~= e.take(i));
    } else {
        assert(e.take(i) =~= e);
    }
}

/// A well-formed relation holds exactly as many pairs as its entries hold
/// values.
pub proof fn lemma_rel_len(e: Seq<RelEntry>)
    requires
        rel_wf(e),
    ensures
        rel_view(e).finite(),
        rel_view(e).len() == total_len(e),
    decreases e.len(),
{
    if e.len() == 0 {
        assert(rel_view(e) =~= Set::empty());
        broadcast use vstd::set::axiom_set_empty_finite;
        broadcast use vstd::set::axiom_set_empty_len;
    } else {
        let d = e.drop_last();
        let x = e.last();
        assert(e =~= d.push(x));
        assert(keys_of(d) =~= keys_of(e).drop_last());
        assert forall|j: int| 0 <= j < d.len() implies sorted(view_strs(#[trigger] d[j].1@)) && d[j].1@.len() > 0 by {
            assert(d[j] == e[j]);
        }
        lemma_rel_len(d);
        lemma_rel_view_push(d, x);
        let vs = view_strs(x.1@);
        let k = x.0@;
        let tail = Set::new(|pr: (Seq<char>, Seq<char>)| pr.0 == k && vs.contains(pr.1));
        let ps = vs.map_values(|v: Seq<char>| (k, v));
        lemma_sorted_no_dup(vs);
        assert(ps.no_duplicates()) by {
            assert forall|a: int, b: int| 0 <= a < ps.len() && 0 <= b < ps.len() && a != b implies ps[a] != ps[b] by {
                assert(vs[a] != vs[b]);
            }
        }
        assert forall|pr: (Seq<char>, Seq<char>)| tail.contains(pr) <==> ps.to_set().contains(pr) by {
            if tail.contains(pr) {
                let j = choose|j: int| 0 <= j < vs.len() && vs[j] == pr.1;
                assert(ps[j] == pr);
            }
            if ps.to_set().contains(pr) {
                let j = choose|j: int| 0 <= j < ps.len() && ps[j] == pr;
                assert(vs[j] == pr.1);
            }
        }
        assert(tail =~= ps.to_set());
        ps.unique_seq_to_set();
        vstd::seq_lib::seq_to_set_is_finite(ps);
        assert(rel_view(d).disjoint(tail)) by {
            assert forall|pr: (Seq<char>, Seq<char>)| rel_view(d).contains(pr) implies !tail.contains(pr) by {
                let j = choose|j: int| 0 <= j < d.len() && d[j].0@ == pr.0 && view_strs(d[j].1@).contains(pr.1);
                assert(keys_of(e)[j] == pr.0);
                assert(keys_of(e)[e.len() - 1] == k);
                if pr.0 == k {
                    lemma_less_irreflexive(k);
                }
            }
        }
        vstd::set_lib::lemma_set_disjoint_lens(rel_view(d), tail);
        vstd::set_lib::lemma_set_union_finite_iff(rel_view(d), tail);
        assert(rel_view(e) == rel_view(d).union(tail));
        assert(rel_view(d) + tail == rel_view(d).union(tail));
        assert(ps.len() == x.1@.len());
        assert(total_len(e) == total_len(d) + x.1@.len());
    }
}

/// Relate `k` to `v`.
pub fn rel_insert(e: &mut Vec<RelEntry>, k: &str, v: &str)
    requires
        rel_wf(old(e)@),
    ensures
        rel_wf(final(e)@),
        rel_view(final(e)@) == rel_view(old(e)@).insert((k@, v@)),
{
    let ghost old_e = e@;
    match key_find(e, k) {
        Ok(i) => {
            let (key, mut vals) = e.remove(i);
            let ghost old_vals = vals@;
            sorted_insert(&mut vals, v);
            e.insert(i, (key, vals));
            proof {
                assert(old_e[i as int].1@ == old_vals);
                assert(keys_of(e@) =~= keys_of(old_e));
                assert forall|j: int| 0 <= j < e@.len() implies sorted(view_strs(#[trigger] e@[j].1@))
                    && e@[j].1@.len() > 0 by {
                    if j != i {
                        assert(e@[j] == old_e[j]);
                    } else {
                        assert(view_strs(vals@).to_set().contains(v@));
                        if vals@.len() == 0 {
                            assert(view_strs(vals@).to_set() =~= Set::<Seq<char>>::empty());
                        }
                    }
                }
                let nv = rel_view(e@);
                let ov = rel_view(old_e).insert((k@, v@));
                assert forall|pr: (Seq<char>, Seq<char>)| nv.contains(pr) implies ov.contains(pr) by {
                    let j = choose|j: int|
                        0 <= j < e@.len() && e@[j].0@ == pr.0 && view_strs(e@[j].1@).contains(pr.1);
                    if j != i {
                        assert(e@[j] == old_e[j]);
                    } else {
                        assert(view_strs(vals@).to_set().contains(pr.1));
                        if pr.1 != v@ {
                            assert(view_strs(old_vals).to_set().contains(pr.1));
                        }
                    }
                }
                assert forall|pr: (Seq<char>, Seq<char>)| ov.contains(pr) implies nv.contains(pr) by {
                    if pr == (k@, v@) {
                        assert(view_strs(vals@).to_set().contains(v@));
                        assert(e@[i as int].0@ == pr.0 && view_strs(e@[i as int].1@).contains(pr.1));
                    } else {
                        let j = choose|j: int|
                            0 <= j < old_e.len() && old_e[j].0@ == pr.0 && view_strs(
                                old_e[j].1@,
                            ).contains(pr.1);
                        if j != i {
                            assert(e@[j] == old_e[j]);
                        } else {
                            assert(view_strs(old_vals).to_set().contains(pr.1));
                            assert(view_strs(vals@).to_set().contains(pr.1));
                            assert(e@[i as int].0@ == pr.0 && view_strs(e@[i as int].1@).contains(
                                pr.1,
                            ));
                        }
                    }
                }
                assert(nv =~= ov);
            }
        },
        Err(p) => {
            let mut vals: Vec<String> = Vec::new();
            vals.push(v.to_owned());
            e.insert(p, (k.to_owned(), vals));
            proof {
                let ok = keys_of(old_e);
                let nk = keys_of(e@);
                assert(nk =~= ok.insert(p as int, k@));
                assert forall|a: int, b: int| 0 <= a < b < nk.len() implies seq_less(nk[a], nk[b]) by {
                    if b < p {
                    } else if b == p {
                    } else if a < p {
                        assert(nk[b] == ok[b - 1]);
                        lemma_less_transitive(nk[a], k@, nk[b]);
                    } else if a == p {
                    } else {
                        assert(nk[a] == ok[a - 1]);
                        assert(nk[b] == ok[b - 1]);
                    }
                }
                assert forall|j: int| 0 <= j < e@.len() implies sorted(view_strs(#[trigger] e@[j].1@))
                    && e@[j].1@.len() > 0 by {
                    if j < p {
                        assert(e@[j] == old_e[j]);
                    } else if j > p {
                        assert(e@[j] == old_e[j - 1]);
                    }
                }
                let nv = rel_view(e@);
                let ov = rel_view(old_e).insert((k@, v@));
                assert forall|pr: (Seq<char>, Seq<char>)| nv.contains(pr) implies ov.contains(pr) by {
                    let j = choose|j: int|
                        0 <= j < e@.len() && e@[j].0@ == pr.0 && view_strs(e@[j].1@).contains(pr.1);
                    if j < p {
                        assert(e@[j] == old_e[j]);
                    } else if j > p {
                        assert(e@[j] == old_e[j - 1]);
                    } else {
                        let q = choose|q: int| 0 <= q < view_strs(vals@).len() && view_strs(vals@)[q] == pr.1;
                        assert(view_strs(vals@)[0] == v@);
                    }
                }
                assert forall|pr: (Seq<char>, Seq<char>)| ov.contains(pr) implies nv.contains(pr) by {
                    if pr == (k@, v@) {
                        assert(view_strs(vals@)[0] == v@);
                        assert(e@[p as int].0@ == k@);
                    } else {
                        let j = choose|j: int|
                            0 <= j < old_e.len() && old_e[j].0@ == pr.0 && view_strs(
                                old_e[j].1@,
                            ).contains(pr.1);
                        if j < p {
                            assert(e@[j] == old_e[j]);
                        } else {
                            assert(e@[j + 1] == old_e[j]);
                        }
                    }
                }
                assert(nv =~= ov);
            }
        },
    }
}

} // verus!
