//! Sorted string vectors: the ordered-set and ordered-map representation the
//! graph structures of this library are built on. Order is `seq_less`, the
//! order Rust gives `String`.
use vstd::prelude::*;
use crate::text::{
    lemma_less_asymmetric, lemma_less_irreflexive, lemma_less_total, lemma_less_transitive,
    seq_less, str_eq, str_less,
};

verus! {

/// The character views of a vector of strings.
pub open spec fn view_strs(v: Seq<String>) -> Seq<Seq<char>> {
    v.map_values(|s: String| s@)
}

/// The key views of a vector of keyed entries.
pub open spec fn keys_of<V>(v: Seq<(String, V)>) -> Seq<Seq<char>> {
    v.map_values(|e: (String, V)| e.0@)
}

/// Strictly increasing under `seq_less`.
pub open spec fn sorted(s: Seq<Seq<char>>) -> bool {
    forall|i: int, j: int| 0 <= i < j < s.len() ==> seq_less(s[i], s[j])
}

/// The ascending, duplicate-free strings with exactly the members of `s`.
pub open spec fn sorted_of(s: Set<Seq<char>>) -> Seq<Seq<char>> {
    choose|q: Seq<Seq<char>>| sorted(q) && q.to_set() == s
}

/// A strictly increasing sequence holds no element twice.
pub proof fn lemma_sorted_no_dup(s: Seq<Seq<char>>)
    requires
        sorted(s),
    ensures
        s.no_duplicates(),
{
    assert forall|i: int, j: int| 0 <= i < s.len() && 0 <= j < s.len() && i != j implies s[i]
        != s[j] by {
        if i < j {
            if s[i] == s[j] {
                lemma_less_irreflexive(s[i]);
            }
        } else {
            if s[i] == s[j] {
                lemma_less_irreflexive(s[i]);
            }
        }
    }
}

/// Two strictly increasing sequences with the same elements are equal.
pub proof fn lemma_sorted_unique(a: Seq<Seq<char>>, b: Seq<Seq<char>>)
    requires
        sorted(a),
        sorted(b),
        a.to_set() == b.to_set(),
    ensures
        a == b,
    decreases a.len(),
{
    if a.len() > 0 {
        let x = a[0];
        let y = b[0];
        assert(a.to_set().contains(x));
        assert(b.to_set().contains(x));
        assert(a.to_set().contains(y));
        let jb = choose|j: int| 0 <= j < b.len() && b[j] == x;
        let ja = choose|j: int| 0 <= j < a.len() && a[j] == y;
        if x != y {
            lemma_less_total(x, y);
            if seq_less(x, y) {
                // y = b[0] is below every other element of b, including x.
                if jb > 0 {
                    lemma_less_asymmetric(y, x);
                }
            } else {
                if ja > 0 {
                    lemma_less_asymmetric(x, y);
                }
            }
        }
        assert(x == y);
        let a1 = a.drop_first();
        let b1 = b.drop_first();
        assert(a1.to_set() =~= b1.to_set()) by {
            assert forall|z: Seq<char>| a1.to_set().contains(z) implies b1.to_set().contains(z) by {
                let i = choose|i: int| 0 <= i < a1.len() && a1[i] == z;
                assert(a[i + 1] == z);
                assert(b.to_set().contains(z));
                let k = choose|k: int| 0 <= k < b.len() && b[k] == z;
                if k == 0 {
                    lemma_less_irreflexive(x);
                }
                assert(b1[k - 1] == z);
            }
            assert forall|z: Seq<char>| b1.to_set().contains(z) implies a1.to_set().contains(z) by {
                let i = choose|i: int| 0 <= i < b1.len() && b1[i] == z;
                assert(b[i + 1] == z);
                assert(a.to_set().contains(z));
                let k = choose|k: int| 0 <= k < a.len() && a[k] == z;
                if k == 0 {
                    lemma_less_irreflexive(x);
                }
                assert(a1[k - 1] == z);
            }
        }
        lemma_sorted_unique(a1, b1);
        assert(a =~= seq![x] + a1);
        assert(b =~= seq![y] + b1);
    } else {
        if b.len() > 0 {
            assert(b.to_set().contains(b[0]));
        }
        assert(b =~= a);
    }
}

/// Position of `x` in the sorted `items`, or where it would go.
pub fn sorted_find(items: &Vec<String>, x: &str) -> (r: Result<usize, usize>)
    requires
        sorted(view_strs(items@)),
    ensures
        r matches Ok(i) ==> i < items.len() && items@[i as int]@ == x@,
        r matches Err(p) ==> p <= items.len() && (forall|j: int| 0 <= j < p ==> seq_less(
            items@[j]@,
            x@,
        )) && (forall|j: int| p <= j < items.len() ==> seq_less(x@, items@[j]@)),
        r is Err <==> !view_strs(items@).contains(x@),
{
    let ghost v = view_strs(items@);
    let mut i: usize = 0;
    while i < items.len() && str_less(items[i].as_str(), x)
        invariant
            i <= items.len(),
            v == view_strs(items@),
            sorted(v),
            forall|j: int| 0 <= j < i ==> seq_less(items@[j]@, x@),
        decreases items.len() - i,
    {
        i += 1;
    }
    if i < items.len() && str_eq(items[i].as_str(), x) {
        assert(v[i as int] == x@);
        return Ok(i);
    }
    proof {
        if i < items.len() {
            assert(v[i as int] == items@[i as int]@);
            lemma_less_total(items@[i as int]@, x@);
            assert forall|j: int| i <= j < items.len() implies seq_less(x@, items@[j]@) by {
                if j > i {
                    assert(v[j] == items@[j]@);
                    lemma_less_transitive(x@, items@[i as int]@, items@[j]@);
                }
            }
        }
        assert forall|j: int| 0 <= j < v.len() implies v[j] != x@ by {
            if j < i {
                if v[j] == x@ {
                    lemma_less_irreflexive(x@);
                }
            } else {
                if v[j] == x@ {
                    lemma_less_irreflexive(x@);
                }
            }
        }
    }
    Err(i)
}

/// Insert `x` into the sorted `items` unless it is already there.
pub fn sorted_insert(items: &mut Vec<String>, x: &str) -> (inserted: bool)
    requires
        sorted(view_strs(old(items)@)),
    ensures
        sorted(view_strs(final(items)@)),
        view_strs(final(items)@).to_set() == view_strs(old(items)@).to_set().insert(x@),
        inserted == !view_strs(old(items)@).contains(x@),
        !inserted ==> final(items)@ == old(items)@,
{
    match sorted_find(items, x) {
        Ok(_) => {
            proof {
                assert(view_strs(items@).to_set().contains(x@));
                assert(view_strs(items@).to_set().insert(x@) =~= view_strs(items@).to_set());
            }
            false
        },
        Err(p) => {
            let ghost old_items = items@;
            items.insert(p, x.to_owned());
            proof {
                let ov = view_strs(old_items);
                let nv = view_strs(items@);
                assert(nv =~= ov.insert(p as int, x@));
                assert forall|i: int, j: int| 0 <= i < j < nv.len() implies seq_less(
                    nv[i],
                    nv[j],
                ) by {
                    if j < p {
                    } else if j == p {
                    } else if i < p {
                        assert(nv[j] == ov[j - 1]);
                        lemma_less_transitive(nv[i], x@, nv[j]);
                    } else if i == p {
                    } else {
                        assert(nv[i] == ov[i - 1]);
                        assert(nv[j] == ov[j - 1]);
                    }
                }
                assert(nv.to_set() =~= ov.to_set().insert(x@)) by {
                    assert forall|z: Seq<char>| nv.to_set().contains(z) implies ov.to_set().insert(
                        x@,
                    ).contains(z) by {
                        let k = choose|k: int| 0 <= k < nv.len() && nv[k] == z;
                        if k < p {
                            assert(ov[k] == z);
                        } else if k > p {
                            assert(ov[k - 1] == z);
                        }
                    }
                    assert forall|z: Seq<char>| ov.to_set().insert(x@).contains(z) implies nv.to_set().contains(
                        z,
                    ) by {
                        if z == x@ {
                            assert(nv[p as int] == z);
                        } else {
                            let k = choose|k: int| 0 <= k < ov.len() && ov[k] == z;
                            if k < p {
                                assert(nv[k] == z);
                            } else {
                                assert(nv[k + 1] == z);
                            }
                        }
                    }
                }
            }
            true
        },
    }
}

/// Position of key `k` among the sorted keys of `entries`, or where it would go.
pub fn key_find<V>(entries: &Vec<(String, V)>, k: &str) -> (r: Result<usize, usize>)
    requires
        sorted(keys_of(entries@)),
    ensures
        r matches Ok(i) ==> i < entries.len() && entries@[i as int].0@ == k@,
        r matches Err(p) ==> p <= entries.len() && (forall|j: int| 0 <= j < p ==> seq_less(
            entries@[j].0@,
            k@,
        )) && (forall|j: int| p <= j < entries.len() ==> seq_less(k@, entries@[j].0@)),
        r is Err <==> !keys_of(entries@).contains(k@),
{
    let ghost v = keys_of(entries@);
    let mut i: usize = 0;
    while i < entries.len() && str_less(entries[i].0.as_str(), k)
        invariant
            i <= entries.len(),
            v == keys_of(entries@),
            sorted(v),
            forall|j: int| 0 <= j < i ==> seq_less(entries@[j].0@, k@),
        decreases entries.len() - i,
    {
        i += 1;
    }
    if i < entries.len() && str_eq(entries[i].0.as_str(), k) {
        assert(v[i as int] == k@);
        return Ok(i);
    }
    proof {
        if i < entries.len() {
            assert(v[i as int] == entries@[i as int].0@);
            lemma_less_total(entries@[i as int].0@, k@);
            assert forall|j: int| i <= j < entries.len() implies seq_less(k@, entries@[j].0@) by {
                if j > i {
                    assert(v[j] == entries@[j].0@);
                    lemma_less_transitive(k@, entries@[i as int].0@, entries@[j].0@);
                }
            }
        }
        assert forall|j: int| 0 <= j < v.len() implies v[j] != k@ by {
            if v[j] == k@ {
                lemma_less_irreflexive(k@);
            }
        }
    }
    Err(i)
}

/// Remove `x` from the sorted `items` if it is there.
pub fn sorted_remove(items: &mut Vec<String>, x: &str)
    requires
        sorted(view_strs(old(items)@)),
    ensures
        sorted(view_strs(final(items)@)),
        view_strs(final(items)@).to_set() == view_strs(old(items)@).to_set().remove(x@),
{
    match sorted_find(items, x) {
        Ok(p) => {
            let ghost old_items = items@;
            items.remove(p);
            proof {
                let ov = view_strs(old_items);
                let nv = view_strs(items@);
                lemma_sorted_no_dup(ov);
                assert(ov[p as int] == x@);
                assert(nv =~= ov.remove(p as int));
                assert forall|i: int, j: int| 0 <= i < j < nv.len() implies seq_less(nv[i], nv[j]) by {
                    if j < p {
                    } else if i < p {
                        assert(nv[j] == ov[j + 1]);
                    } else {
                        assert(nv[i] == ov[i + 1]);
                        assert(nv[j] == ov[j + 1]);
                    }
                }
                assert forall|z: Seq<char>| nv.to_set().contains(z) <==> ov.to_set().remove(x@).contains(z) by {
                    if nv.to_set().contains(z) {
                        let k = choose|k: int| 0 <= k < nv.len() && nv[k] == z;
                        if k < p {
                            assert(ov[k] == z);
                            assert(ov[k] != ov[p as int]);
                        } else {
                            assert(ov[k + 1] == z);
                            assert(ov[k + 1] != ov[p as int]);
                        }
                    }
                    if ov.to_set().remove(x@).contains(z) {
                        let k = choose|k: int| 0 <= k < ov.len() && ov[k] == z;
                        assert(k != p);
                        if k < p {
                            assert(nv[k] == z);
                        } else {
                            assert(nv[k - 1] == z);
                        }
                    }
                }
                assert(nv.to_set() =~= ov.to_set().remove(x@));
            }
        },
        Err(_) => {
            proof {
                assert(view_strs(items@).to_set().remove(x@) =~= view_strs(items@).to_set());
            }
        },
    }
}

/// Whether `x` is among `items`.
pub fn contains_str(items: &[String], x: &str) -> (b: bool)
    ensures
        b == view_strs(items@).contains(x@),
{
    let mut i: usize = 0;
    while i < items.len()
        invariant
            i <= items@.len(),
            forall|j: int| 0 <= j < i ==> items@[j]@ != x@,
        decreases items@.len() - i,
    {
        if str_eq(items[i].as_str(), x) {
            assert(view_strs(items@)[i as int] == x@);
            return true;
        }
        i += 1;
    }
    false
}

/// `parts` joined with `sep` between consecutive parts.
pub open spec fn join(parts: Seq<Seq<char>>, sep: Seq<char>) -> Seq<char>
    decreases parts.len(),
{
    if parts.len() == 0 {
        Seq::empty()
    } else if parts.len() == 1 {
        parts[0]
    } else {
        join(parts.drop_last(), sep) + sep + parts.last()
    }
}

/// Append `parts` joined with `sep` to `out`.
pub fn append_joined(out: &mut String, parts: &[String], sep: &str)
    ensures
        final(out)@ == old(out)@ + join(view_strs(parts@), sep@),
{
    let ghost start = out@;
    let ghost v = view_strs(parts@);
    let mut i: usize = 0;
    proof {
        assert(v.take(0) =~= Seq::<Seq<char>>::empty());
        assert(start + join(v.take(0), sep@) =~= start);
    }
    while i < parts.len()
        invariant
            v == view_strs(parts@),
            i <= parts@.len(),
            out@ == start + join(v.take(i as int), sep@),
        decreases parts@.len() - i,
    {
        let ghost t1 = v.take(i + 1);
        proof {
            assert(t1.drop_last() =~= v.take(i as int));
            assert(t1.last() == parts@[i as int]@);
        }
        if i > 0 {
            out.append(sep);
        } else {
            proof {
                assert(t1.len() == 1);
            }
        }
        out.append(parts[i].as_str());
        proof {
            if i > 0 {
                assert(out@ =~= start + join(t1, sep@));
            } else {
                assert(out@ =~= start + join(t1, sep@));
            }
        }
        i += 1;
    }
    proof {
        assert(v.take(parts@.len() as int) =~= v);
    }
}

/// `parts` joined with `sep`.
pub fn join_strs(parts: &[String], sep: &str) -> (s: String)
    ensures
        s@ == join(view_strs(parts@), sep@),
{
    let mut s = String::new();
    append_joined(&mut s, parts, sep);
    proof {
        assert(Seq::<char>::empty() + join(view_strs(parts@), sep@) =~= join(view_strs(parts@), sep@));
    }
    s
}

/// Whether `x` is among the string slices `items`.
pub fn contains_strref(items: &[&str], x: &str) -> (b: bool)
    ensures
        b == crate::inheritance::view_strrefs(items@).contains(x@),
{
    let mut i: usize = 0;
    while i < items.len()
        invariant
            i <= items@.len(),
            forall|j: int| 0 <= j < i ==> items@[j]@ != x@,
        decreases items@.len() - i,
    {
        if str_eq(items[i], x) {
            assert(crate::inheritance::view_strrefs(items@)[i as int] == x@);
            return true;
        }
        i += 1;
    }
    false
}

} // verus!
