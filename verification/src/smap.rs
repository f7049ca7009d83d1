//! A string → string map with overwrite-on-insert, held as a vector of
//! distinct-keyed pairs.
use vstd::prelude::*;
use crate::text::str_eq;

verus! {

/// One key/value pair.
pub type SEntry = (String, String);

/// No key occurs twice.
pub open spec fn smap_wf(e: Seq<SEntry>) -> bool {
    forall|i: int, j: int| 0 <= i < e.len() && 0 <= j < e.len() && i != j ==> e[i].0@ != e[j].0@
}

/// Position `i` holds key `k`.
pub open spec fn at_key(e: Seq<SEntry>, k: Seq<char>, i: int) -> bool {
    0 <= i < e.len() && e[i].0@ == k
}

/// The map the pairs denote.
pub open spec fn smap_view(e: Seq<SEntry>) -> Map<Seq<char>, Seq<char>> {
    Map::new(
        |k: Seq<char>| exists|i: int| at_key(e, k, i),
        |k: Seq<char>| e[choose|i: int| at_key(e, k, i)].1@,
    )
}

proof fn lemma_smap_entry(e: Seq<SEntry>, i: int)
    requires
        smap_wf(e),
        0 <= i < e.len(),
    ensures
        smap_view(e).dom().contains(e[i].0@),
        smap_view(e)[e[i].0@] == e[i].1@,
{
    assert(at_key(e, e[i].0@, i));
    let c = choose|c: int| at_key(e, e[i].0@, c);
    assert(c == i);
}

fn smap_position(e: &Vec<SEntry>, k: &str) -> (res: Option<usize>)
    ensures
        match res {
            Some(i) => at_key(e@, k@, i as int),
            None => !(exists|i: int| at_key(e@, k@, i)),
        },
{
    let mut i: usize = 0;
    while i < e.len()
        invariant
            i <= e.len(),
            forall|j: int| 0 <= j < i ==> !at_key(e@, k@, j),
        decreases e.len() - i,
    {
        if str_eq(e[i].0.as_str(), k) {
            return Some(i);
        }
        i += 1;
    }
    None
}

/// The value stored under `k`.
pub fn smap_get<'a>(e: &'a Vec<SEntry>, k: &str) -> (res: Option<&'a str>)
    requires
        smap_wf(e@),
    ensures
        match res {
            Some(v) => smap_view(e@).dom().contains(k@) && smap_view(e@)[k@] == v@,
            None => !smap_view(e@).dom().contains(k@),
        },
{
    match smap_position(e, k) {
        Some(i) => {
            proof {
                lemma_smap_entry(e@, i as int);
            }
            Some(e[i].1.as_str())
        },
        None => None,
    }
}

/// Store `v` under `k`, replacing any earlier value.
pub fn smap_insert(e: &mut Vec<SEntry>, k: &str, v: &str)
    requires
        smap_wf(old(e)@),
    ensures
        smap_wf(final(e)@),
        smap_view(final(e)@) == smap_view(old(e)@).insert(k@, v@),
{
    let ghost old_e = e@;
    let pair: SEntry = (k.to_owned(), v.to_owned());
    match smap_position(e, k) {
        Some(i) => {
            e.remove(i);
            e.insert(i, pair);
            proof {
                let ne = e@;
                assert(ne =~= old_e.update(i as int, pair));
                assert forall|kk: Seq<char>| smap_view(ne).dom().contains(kk) <==> smap_view(
                    old_e,
                ).insert(k@, v@).dom().contains(kk) by {
                    if smap_view(ne).dom().contains(kk) {
                        let j = choose|j: int| at_key(ne, kk, j);
                        if j != i {
                            assert(at_key(old_e, kk, j));
                        }
                    }
                    if smap_view(old_e).dom().contains(kk) {
                        let j = choose|j: int| at_key(old_e, kk, j);
                        if j != i {
                            assert(at_key(ne, kk, j));
                        } else {
                            assert(at_key(ne, kk, i as int));
                        }
                    }
                    if kk == k@ {
                        assert(at_key(ne, kk, i as int));
                    }
                }
                assert forall|kk: Seq<char>| smap_view(ne).dom().contains(kk) implies smap_view(
                    ne,
                )[kk] == smap_view(old_e).insert(k@, v@)[kk] by {
                    let j = choose|j: int| at_key(ne, kk, j);
                    lemma_smap_entry(ne, j);
                    if j != i {
                        lemma_smap_entry(old_e, j);
                    }
                }
                assert(smap_view(ne) =~= smap_view(old_e).insert(k@, v@));
            }
        },
        None => {
            e.push(pair);
            proof {
                let ne = e@;
                let last = old_e.len() as int;
                assert(ne =~= old_e.push(pair));
                assert forall|a: int, b: int| 0 <= a < ne.len() && 0 <= b < ne.len() && a != b implies ne[a].0@
                    != ne[b].0@ by {
                    if a == last {
                        assert(!at_key(old_e, k@, b));
                    } else if b == last {
                        assert(!at_key(old_e, k@, a));
                    }
                }
                assert forall|kk: Seq<char>| smap_view(ne).dom().contains(kk) <==> smap_view(
                    old_e,
                ).insert(k@, v@).dom().contains(kk) by {
                    if smap_view(ne).dom().contains(kk) {
                        let j = choose|j: int| at_key(ne, kk, j);
                        if j != last {
                            assert(at_key(old_e, kk, j));
                        }
                    }
                    if smap_view(old_e).dom().contains(kk) {
                        let j = choose|j: int| at_key(old_e, kk, j);
                        assert(at_key(ne, kk, j));
                    }
                    if kk == k@ {
                        assert(at_key(ne, kk, last));
                    }
                }
                assert forall|kk: Seq<char>| smap_view(ne).dom().contains(kk) implies smap_view(
                    ne,
                )[kk] == smap_view(old_e).insert(k@, v@)[kk] by {
                    let j = choose|j: int| at_key(ne, kk, j);
                    lemma_smap_entry(ne, j);
                    if j != last {
                        lemma_smap_entry(old_e, j);
                    }
                }
                assert(smap_view(ne) =~= smap_view(old_e).insert(k@, v@));
            }
        },
    }
}

} // verus!
