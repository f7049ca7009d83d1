//! Index-level directed graphs: depth-first cycle detection and Kahn's
//! topological order, each with its correctness proof.
//!
//! Nodes are `0..n`; `succ[u]` lists the successors of `u` in ascending
//! order.
use vstd::prelude::*;

verus! {

/// `u → v` is an edge.
pub open spec fn iadj(g: Seq<Vec<usize>>, u: int, v: int) -> bool {
    0 <= u < g.len() && exists|k: int| 0 <= k < g[u]@.len() && g[u]@[k] as int == v
}

/// Every successor index names a node.
pub open spec fn graph_ok(g: Seq<Vec<usize>>) -> bool {
    forall|u: int, k: int| 0 <= u < g.len() && 0 <= k < g[u]@.len() ==> (g[u]@[k] as int) < g.len()
}

/// `c` walks edges of `g` and returns to its start.
pub open spec fn idx_cycle(g: Seq<Vec<usize>>, c: Seq<usize>) -> bool {
    &&& c.len() >= 2
    &&& c[0] == c.last()
    &&& forall|k: int| 0 <= k < c.len() - 1 ==> #[trigger] iadj(g, c[k] as int, c[k + 1] as int)
}

/// `r` strictly decreases along every edge.
pub open spec fn ranks(g: Seq<Vec<usize>>, r: Seq<int>) -> bool {
    &&& r.len() == g.len()
    &&& forall|u: int, v: int| #[trigger] iadj(g, u, v) ==> r[v] < r[u]
}

/// The number of entries of `s` equal to `x`.
pub open spec fn count(s: Seq<u8>, x: u8) -> nat
    decreases s.len(),
{
    if s.len() == 0 {
        0
    } else {
        count(s.drop_last(), x) + if s.last() == x {
            1nat
        } else {
            0nat
        }
    }
}

proof fn lemma_count_bound(s: Seq<u8>, x: u8)
    ensures
        count(s, x) <= s.len(),
    decreases s.len(),
{
    if s.len() > 0 {
        lemma_count_bound(s.drop_last(), x);
    }
}

proof fn lemma_count_update(s: Seq<u8>, i: int, y: u8, x: u8)
    requires
        0 <= i < s.len(),
    ensures
        count(s.update(i, y), x) + (if s[i] == x {
            1nat
        } else {
            0nat
        }) == count(s, x) + (if y == x {
            1nat
        } else {
            0nat
        }),
    decreases s.len(),
{
    let t = s.update(i, y);
    if i == s.len() - 1 {
        assert(t.drop_last() =~= s.drop_last());
    } else {
        assert(t.drop_last() =~= s.drop_last().update(i, y));
        lemma_count_update(s.drop_last(), i, y, x);
    }
}

proof fn lemma_count_pos(s: Seq<u8>, i: int, x: u8)
    requires
        0 <= i < s.len(),
        s[i] == x,
    ensures
        count(s, x) > 0,
    decreases s.len(),
{
    if i < s.len() - 1 {
        lemma_count_pos(s.drop_last(), i, x);
    }
}

/// The DFS bookkeeping invariant: gray nodes are exactly the stack, the
/// stack walks edges, and every black node has only black successors that
/// finished before it.
pub open spec fn dfs_inv(g: Seq<Vec<usize>>, color: Seq<u8>, stack: Seq<usize>, fin: Seq<usize>, cnt: usize) -> bool {
    &&& color.len() == g.len()
    &&& fin.len() == g.len()
    &&& forall|x: int| 0 <= x < color.len() ==> color[x] <= 2
    &&& stack.no_duplicates()
    &&& forall|k: int| 0 <= k < stack.len() ==> (stack[k] as int) < g.len()
    &&& forall|x: usize| (x as int) < g.len() ==> (color[x as int] == 1 <==> stack.contains(x))
    &&& forall|k: int| 0 <= k < stack.len() - 1 ==> #[trigger] iadj(g, stack[k] as int, stack[k + 1] as int)
    &&& forall|u: int, v: int| 0 <= u < g.len() && color[u] == 2 && #[trigger] iadj(g, u, v) ==> color[v] == 2 && fin[v] < fin[u]
    &&& forall|u: int| 0 <= u < g.len() && color[u] == 2 ==> fin[u] < cnt
    &&& cnt == count(color, 2)
}

/// Colors only advance: a gray node stays gray, a black one stays black with
/// its finish time.
pub open spec fn advanced(c0: Seq<u8>, f0: Seq<usize>, c1: Seq<u8>, f1: Seq<usize>) -> bool {
    &&& c1.len() == c0.len()
    &&& f1.len() == f0.len()
    &&& forall|x: int| 0 <= x < c0.len() && c0[x] == 1 ==> c1[x] == 1
    &&& forall|x: int| 0 <= x < c0.len() && c0[x] == 2 ==> c1[x] == 2 && f1[x] == f0[x]
    &&& forall|x: int| 0 <= x < c0.len() && c0[x] == 0 ==> c1[x] != 1
}

/// The adjacency lists of a graph.
pub open spec fn adj(g: Seq<Vec<usize>>) -> Seq<Seq<usize>> {
    g.map_values(|r: Vec<usize>| r@)
}

/// The first position of `x` in `q` (`q.len()` when absent).
pub open spec fn first_index(q: Seq<usize>, x: usize) -> int
    decreases q.len(),
{
    if q.len() == 0 {
        0
    } else if q[0] == x {
        0
    } else {
        1 + first_index(q.drop_first(), x)
    }
}

proof fn lemma_first_index(q: Seq<usize>, x: usize, i: int)
    requires
        0 <= i < q.len(),
        q[i] == x,
        forall|k: int| 0 <= k < i ==> q[k] != x,
    ensures
        first_index(q, x) == i,
    decreases q.len(),
{
    if i > 0 {
        assert(q[0] != x);
        assert forall|k: int| 0 <= k < i - 1 implies q.drop_first()[k] != x by {
            assert(q.drop_first()[k] == q[k + 1]);
        }
        lemma_first_index(q.drop_first(), x, i - 1);
    }
}

/// Depth-first visit of the white node `u` with `stack` the gray path to
/// it (colors: 0 white, 1 gray, 2 black): the first back edge's cycle, or
/// the colors after `u` finished. `fuel` bounds the nesting.
pub open spec fn dfs_visit(a: Seq<Seq<usize>>, u: usize, color: Seq<u8>, stack: Seq<usize>, fuel: nat) -> (
    Option<Seq<usize>>,
    Seq<u8>,
)
    decreases fuel, 0nat,
{
    if fuel == 0 {
        (None, color)
    } else {
        let (r, c) = dfs_succs(a, u, 0, color.update(u as int, 1), stack.push(u), (fuel - 1) as nat);
        match r {
            Some(cy) => (Some(cy), c),
            None => (None, c.update(u as int, 2)),
        }
    }
}

/// The successors of `u` from the `j`-th on, in order: a gray successor
/// closes a cycle (the gray path from it, then it again), a white one is
/// visited, a black one skipped.
pub open spec fn dfs_succs(a: Seq<Seq<usize>>, u: usize, j: int, color: Seq<u8>, stack: Seq<usize>, fuel: nat) -> (
    Option<Seq<usize>>,
    Seq<u8>,
)
    decreases fuel, (a[u as int].len() - j + 1) as nat,
{
    if j < 0 || j >= a[u as int].len() {
        (None, color)
    } else {
        let s = a[u as int][j];
        if color[s as int] == 1 {
            (Some(stack.subrange(first_index(stack, s), stack.len() as int).push(s)), color)
        } else if color[s as int] == 0 {
            let (r, c2) = dfs_visit(a, s, color, stack, fuel);
            match r {
                Some(cy) => (Some(cy), c2),
                None => dfs_succs(a, u, j + 1, c2, stack, fuel),
            }
        } else {
            dfs_succs(a, u, j + 1, color, stack, fuel)
        }
    }
}

/// Depth-first search from every still-white node from `start` on, in
/// ascending order: the first cycle found, if any.
pub open spec fn dfs_from(a: Seq<Seq<usize>>, start: int, color: Seq<u8>, fuel: nat) -> Option<Seq<usize>>
    decreases a.len() - start,
{
    if start < 0 || start >= a.len() {
        None
    } else if color[start] == 0 {
        let (r, c2) = dfs_visit(a, start as usize, color, Seq::empty(), fuel);
        match r {
            Some(cy) => Some(cy),
            None => dfs_from(a, start + 1, c2, fuel),
        }
    } else {
        dfs_from(a, start + 1, color, fuel)
    }
}

/// The cycle a depth-first search over the whole graph finds first:
/// starting points and successors in ascending order.
pub open spec fn first_cycle(a: Seq<Seq<usize>>) -> Option<Seq<usize>> {
    dfs_from(a, 0, Seq::new(a.len(), |i: int| 0u8), a.len())
}

#[verifier::rlimit(60)]
fn dfs_cycle(
    g: &Vec<Vec<usize>>,
    u: usize,
    color: &mut Vec<u8>,
    stack: &mut Vec<usize>,
    fin: &mut Vec<usize>,
    cnt: &mut usize,
    Ghost(budget): Ghost<nat>,
) -> (res: Option<Vec<usize>>)
    requires
        budget >= count(old(color)@, 0),
        graph_ok(g@),
        dfs_inv(g@, old(color)@, old(stack)@, old(fin)@, *old(cnt)),
        (u as int) < g@.len(),
        old(color)@[u as int] == 0,
        old(stack)@.len() > 0 ==> iadj(g@, old(stack)@.last() as int, u as int),
    ensures
        match res {
            Some(c) => dfs_visit(adj(g@), u, old(color)@, old(stack)@, budget).0 == Some(c@),
            None => dfs_visit(adj(g@), u, old(color)@, old(stack)@, budget) == (None::<Seq<usize>>, final(color)@),
        },
        match res {
            Some(c) => idx_cycle(g@, c@) && c@.drop_last().no_duplicates(),
            None => {
                &&& dfs_inv(g@, final(color)@, final(stack)@, final(fin)@, *final(cnt))
                &&& final(stack)@ == old(stack)@
                &&& final(color)@[u as int] == 2
                &&& advanced(old(color)@, old(fin)@, final(color)@, final(fin)@)
            },
        },
    decreases budget,
{
    let ghost c0 = color@;
    let ghost f0 = fin@;
    let ghost s0 = stack@;
    proof {
        lemma_count_update(color@, u as int, 1, 0);
        lemma_count_update(color@, u as int, 1, 2);
    }
    color.set(u, 1);
    stack.push(u);
    proof {
        assert(stack@ =~= s0.push(u));
        assert forall|k: int| 0 <= k < stack@.len() - 1 implies #[trigger] iadj(
            g@,
            stack@[k] as int,
            stack@[k + 1] as int,
        ) by {
            if k == stack@.len() - 2 {
                assert(stack@[k] == s0.last());
            } else {
                assert(stack@[k] == s0[k]);
                assert(stack@[k + 1] == s0[k + 1]);
            }
        }
        assert forall|x: usize| (x as int) < g@.len() implies (color@[x as int] == 1 <==> stack@.contains(
            x,
        )) by {
            if x == u {
                assert(stack@[stack@.len() - 1] == u);
            } else {
                if s0.contains(x) {
                    let k = choose|k: int| 0 <= k < s0.len() && s0[k] == x;
                    assert(stack@[k] == x);
                }
                if stack@.contains(x) {
                    let k = choose|k: int| 0 <= k < stack@.len() && stack@[k] == x;
                    if k == s0.len() {
                        assert(stack@[k] == u);
                    }
                    assert(k < s0.len());
                    assert(s0[k] == x);
                }
            }
        }
        assert(!s0.contains(u));
        assert(stack@.no_duplicates()) by {
            assert forall|a: int, b: int| 0 <= a < stack@.len() && 0 <= b < stack@.len() && a != b implies stack@[a]
                != stack@[b] by {
                if a == s0.len() {
                    assert(stack@[b] == s0[b]);
                } else if b == s0.len() {
                    assert(stack@[a] == s0[a]);
                } else {
                    assert(stack@[a] == s0[a]);
                    assert(stack@[b] == s0[b]);
                }
            }
        }
        let c = color@;
        assert forall|a: int, b: int| 0 <= a < g@.len() && c[a] == 2 && #[trigger] iadj(g@, a, b) implies c[b]
            == 2 && fin@[b] < fin@[a] by {
            assert(a != u);
            assert(c0[a] == 2);
            if b == u {
                assert(c0[b] == 2);
            }
        }
        assert forall|x: int| 0 <= x < g@.len() implies c[x] <= 2 by {}
        assert(dfs_inv(g@, color@, stack@, fin@, *cnt));
        assert(advanced(c0.update(u as int, 1), f0, color@, fin@));
    }
    let succs = &g[u];
    let ghost a = adj(g@);
    proof {
        lemma_count_pos(c0, u as int, 0);
        assert(a[u as int] == succs@);
        assert(color@ == c0.update(u as int, 1));
    }
    let ghost whole = dfs_succs(a, u, 0, color@, stack@, (budget - 1) as nat);
    proof {
        assert(dfs_visit(a, u, c0, s0, budget) == match whole.0 {
            Some(cy) => (Some(cy), whole.1),
            None => (None, whole.1.update(u as int, 2)),
        });
    }
    let mut j: usize = 0;
    while j < succs.len()
        invariant
            a == adj(g@),
            c0 == old(color)@,
            s0 == old(stack)@,
            a[u as int] == succs@,
            budget >= 1,
            dfs_succs(a, u, j as int, color@, stack@, (budget - 1) as nat) == whole,
            dfs_visit(a, u, c0, s0, budget) == match whole.0 {
                Some(cy) => (Some(cy), whole.1),
                None => (None, whole.1.update(u as int, 2)),
            },
            graph_ok(g@),
            succs@ == g@[u as int]@,
            (u as int) < g@.len(),
            j <= succs.len(),
            dfs_inv(g@, color@, stack@, fin@, *cnt),
            stack@ == s0.push(u),
            color@[u as int] == 1,
            forall|k: int| 0 <= k < j ==> color@[succs@[k] as int] == 2,
            advanced(c0.update(u as int, 1), f0, color@, fin@),
            count(color@, 0) < count(c0, 0),
            budget >= count(c0, 0),
        decreases succs.len() - j,
    {
        let s = succs[j];
        proof {
            assert(g@[u as int]@[j as int] as int == s as int);
            assert(iadj(g@, u as int, s as int));
            assert((s as int) < g@.len());
        }
        if color[s] == 1 {
            // back edge: the stack from `s` to `u`, closed by `s`.
            let mut start: usize = 0;
            while start < stack.len() && stack[start] != s
                invariant
                    stack@.contains(s),
                    start <= stack@.len(),
                    forall|k: int| 0 <= k < start ==> stack@[k] != s,
                decreases stack@.len() - start,
            {
                start += 1;
            }
            proof {
                if start == stack@.len() {
                    let k = choose|k: int| 0 <= k < stack@.len() && stack@[k] == s;
                    assert(false);
                }
            }
            let mut cyc: Vec<usize> = Vec::new();
            let mut k = start;
            while k < stack.len()
                invariant
                    start <= k <= stack@.len(),
                    cyc@ == stack@.subrange(start as int, k as int),
                decreases stack@.len() - k,
            {
                cyc.push(stack[k]);
                k += 1;
                proof {
                    assert(cyc@ =~= stack@.subrange(start as int, k as int));
                }
            }
            cyc.push(s);
            proof {
                lemma_first_index(stack@, s, start as int);
                assert(cyc@ == stack@.subrange(first_index(stack@, s), stack@.len() as int).push(s));
                assert(a[u as int][j as int] == s);
                assert(whole.0 == Some(cyc@));
                assert(dfs_visit(a, u, c0, s0, budget).0 == Some(cyc@));
                assert(cyc@.drop_last() =~= stack@.subrange(start as int, stack@.len() as int));
                assert(stack@.no_duplicates());
                let st = stack@;
                let c = cyc@;
                assert(c.len() == st.len() - start + 1);
                assert(c[0] == st[start as int]);
                assert(st.last() == u);
                assert forall|m: int| 0 <= m < c.len() - 1 implies #[trigger] iadj(
                    g@,
                    c[m] as int,
                    c[m + 1] as int,
                ) by {
                    if m < c.len() - 2 {
                        assert(c[m] == st[start + m]);
                        assert(c[m + 1] == st[start + m + 1]);
                        assert(iadj(g@, st[start + m] as int, st[start + m + 1] as int));
                    } else {
                        assert(c[m] == st[st.len() - 1]);
                    }
                }
            }
            return Some(cyc);
        } else if color[s] == 0 {
            proof {
                assert(stack@.last() == u);
            }
            let ghost cb = color@;
            let ghost fb = fin@;
            let ghost sb = stack@;
            let r = dfs_cycle(g, s, color, stack, fin, cnt, Ghost((budget - 1) as nat));
            proof {
                assert(a[u as int][j as int] == s);
                assert(cb[s as int] == 0);
            }
            match r {
                Some(c) => {
                    proof {
                        assert(dfs_visit(a, s, cb, sb, (budget - 1) as nat).0 == Some(c@));
                        assert(whole.0 == Some(c@));
                        assert(dfs_visit(a, u, c0, s0, budget).0 == Some(c@));
                    }
                    return Some(c);
                },
                None => {
                    proof {
                        assert(dfs_succs(a, u, j + 1, color@, stack@, (budget - 1) as nat) == whole);
                        assert forall|k: int| 0 <= k < j + 1 implies color@[succs@[k] as int] == 2 by {
                            if k < j {
                                assert(cb[succs@[k] as int] == 2);
                            }
                        }
                        assert(count(color@, 0) <= count(cb, 0)) by {
                            lemma_count_mono(cb, color@);
                        }
                    }
                },
            }
        }
        proof {
            assert(color@[s as int] == 2);
            assert(dfs_succs(a, u, j + 1, color@, stack@, (budget - 1) as nat) == whole);
        }
        j += 1;
    }
    // every successor is black: finish `u`.
    let ghost cb = color@;
    proof {
        assert(whole == (None::<Seq<usize>>, cb));
    }
    proof {
        lemma_count_update(color@, u as int, 2, 2);
        lemma_count_update(color@, u as int, 2, 0);
        lemma_count_pos(color@, u as int, 1);
        lemma_count_update(color@, u as int, 2, 1);
        lemma_count_bound(color@.update(u as int, 2), 2);
    }
    let _len = color.len();
    let now = *cnt;
    fin.set(u, now);
    color.set(u, 2);
    *cnt = now + 1;
    stack.pop();
    proof {
        assert(stack@ =~= s0);
        let c = color@;
        let f = fin@;
        assert forall|a: int, b: int| 0 <= a < g@.len() && c[a] == 2 && #[trigger] iadj(g@, a, b) implies c[b]
            == 2 && f[b] < f[a] by {
            if a == u {
                let k = choose|k: int| 0 <= k < g@[a]@.len() && g@[a]@[k] as int == b;
                assert(cb[succs@[k] as int] == 2);
                assert(b != u);
            } else {
                assert(cb[a] == 2);
                if b == u {
                    assert(cb[b] == 1);
                }
            }
        }
        assert forall|x: usize| (x as int) < g@.len() implies (c[x as int] == 1 <==> stack@.contains(x)) by {
            if x == u {
                assert(!s0.contains(u));
            } else {
                if stack@.contains(x) {
                    let k = choose|k: int| 0 <= k < s0.len() && s0[k] == x;
                    assert(s0.push(u)[k] == x);
                    assert(cb[x as int] == 1);
                }
                if c[x as int] == 1 {
                    assert(cb[x as int] == 1);
                    assert(s0.push(u).contains(x));
                    let k = choose|k: int| 0 <= k < s0.push(u).len() && s0.push(u)[k] == x;
                    if k == s0.len() {
                        assert(s0.push(u)[k] == u);
                    }
                    assert(k < s0.len());
                    assert(s0[k] == x);
                }
            }
        }
        assert forall|x: int| 0 <= x < c0.len() && c0[x] == 2 implies c[x] == 2 && f[x] == f0[x] by {
            assert(x != u);
        }
    }
    None
}

proof fn lemma_count_mono(c0: Seq<u8>, c1: Seq<u8>)
    requires
        c0.len() == c1.len(),
        forall|x: int| 0 <= x < c0.len() && c0[x] != 0 ==> c1[x] != 0,
    ensures
        count(c1, 0) <= count(c0, 0),
    decreases c0.len(),
{
    if c0.len() > 0 {
        lemma_count_mono(c0.drop_last(), c1.drop_last());
    }
}

proof fn lemma_count_zero(c: Seq<u8>, x: u8)
    requires
        count(c, x) == 0,
    ensures
        forall|i: int| 0 <= i < c.len() ==> c[i] != x,
    decreases c.len(),
{
    if c.len() > 0 {
        lemma_count_zero(c.drop_last(), x);
        assert forall|i: int| 0 <= i < c.len() implies c[i] != x by {
            if i < c.len() - 1 {
                assert(c.drop_last()[i] == c[i]);
            }
        }
    }
}

proof fn lemma_count_all(c: Seq<u8>, x: u8)
    requires
        forall|i: int| 0 <= i < c.len() ==> c[i] == x,
    ensures
        count(c, x) == c.len(),
    decreases c.len(),
{
    if c.len() > 0 {
        lemma_count_all(c.drop_last(), x);
    }
}

/// Depth-first search from every node in ascending order; the first back
/// edge closes the returned cycle. With no cycle, the finish times rank the
/// graph.
pub fn detect_cycle_idx(g: &Vec<Vec<usize>>) -> (res: (Option<Vec<usize>>, Ghost<Seq<int>>))
    requires
        graph_ok(g@),
    ensures
        match res.0 {
            Some(c) => idx_cycle(g@, c@) && first_cycle(adj(g@)) == Some(c@) && c@.drop_last().no_duplicates(),
            None => ranks(g@, res.1@) && first_cycle(adj(g@)) is None,
        },
{
    let n = g.len();
    let mut color: Vec<u8> = Vec::new();
    let mut fin: Vec<usize> = Vec::new();
    let mut i: usize = 0;
    while i < n
        invariant
            n == g@.len(),
            i <= n,
            color@.len() == i,
            fin@.len() == i,
            forall|x: int| 0 <= x < i ==> color@[x] == 0,
        decreases n - i,
    {
        color.push(0);
        fin.push(0);
        i += 1;
    }
    let mut stack: Vec<usize> = Vec::new();
    let mut cnt: usize = 0;
    proof {
        lemma_count_all(color@, 0);
        assert(count(color@, 2) == 0) by {
            lemma_count_zero_of_all(color@);
        }
    }
    let ghost a = adj(g@);
    proof {
        assert(color@ =~= Seq::new(a.len(), |i: int| 0u8));
    }
    let mut start: usize = 0;
    while start < n
        invariant
            a == adj(g@),
            dfs_from(a, start as int, color@, n as nat) == first_cycle(a),
            graph_ok(g@),
            n == g@.len(),
            start <= n,
            dfs_inv(g@, color@, stack@, fin@, cnt),
            stack@.len() == 0,
            forall|x: int| 0 <= x < start ==> color@[x] == 2,
        decreases n - start,
    {
        if color[start] == 0 {
            let ghost cb = color@;
            proof {
                lemma_count_bound(color@, 0);
                assert(stack@ =~= Seq::<usize>::empty());
            }
            let r = dfs_cycle(g, start, &mut color, &mut stack, &mut fin, &mut cnt, Ghost(n as nat));
            if let Some(c) = r {
                return (Some(c), Ghost(Seq::empty()));
            }
            proof {
                assert forall|x: int| 0 <= x < start + 1 implies color@[x] == 2 by {
                    if x < start {
                        assert(cb[x] == 2);
                    }
                }
            }
        } else {
            proof {
                assert(!stack@.contains(start));
                assert(color@[start as int] != 1);
                assert(color@[start as int] <= 2);
            }
        }
        start += 1;
    }
    let ghost r = Seq::new(n as nat, |x: int| fin@[x] as int);
    proof {
        assert forall|u: int, v: int| #[trigger] iadj(g@, u, v) implies r[v] < r[u] by {
            assert(color@[u] == 2);
            assert(v < n) by {
                let k = choose|k: int| 0 <= k < g@[u]@.len() && g@[u]@[k] as int == v;
                assert((g@[u]@[k] as int) < g@.len());
            }
        }
    }
    (None, Ghost(r))
}

proof fn lemma_count_zero_of_all(c: Seq<u8>)
    requires
        forall|i: int| 0 <= i < c.len() ==> c[i] == 0,
    ensures
        count(c, 2) == 0,
    decreases c.len(),
{
    if c.len() > 0 {
        lemma_count_zero_of_all(c.drop_last());
    }
}

/// A ranked graph has no cycle.
pub proof fn lemma_ranked_no_cycle(g: Seq<Vec<usize>>, r: Seq<int>, c: Seq<usize>)
    requires
        ranks(g, r),
    ensures
        !idx_cycle(g, c),
{
    if idx_cycle(g, c) {
        lemma_rank_descends(g, r, c, c.len() - 1);
    }
}

/// Every entry of an index cycle names a node.
pub proof fn lemma_cycle_nodes(g: Seq<Vec<usize>>, c: Seq<usize>)
    requires
        idx_cycle(g, c),
    ensures
        forall|k: int| 0 <= k < c.len() ==> (#[trigger] c[k] as int) < g.len(),
{
    assert forall|k: int| 0 <= k < c.len() implies (#[trigger] c[k] as int) < g.len() by {
        if k < c.len() - 1 {
            assert(iadj(g, c[k] as int, c[k + 1] as int));
        } else {
            assert(iadj(g, c[0] as int, c[0int + 1] as int));
        }
    }
}

proof fn lemma_rank_descends(g: Seq<Vec<usize>>, r: Seq<int>, c: Seq<usize>, k: int)
    requires
        ranks(g, r),
        c.len() >= 1,
        forall|m: int| 0 <= m < c.len() - 1 ==> #[trigger] iadj(g, c[m] as int, c[m + 1] as int),
        1 <= k < c.len(),
    ensures
        r[c[k] as int] < r[c[0] as int],
    decreases k,
{
    let m = k - 1;
    assert(iadj(g, c[m] as int, c[m + 1] as int));
    if k > 1 {
        lemma_rank_descends(g, r, c, k - 1);
    }
}

// ── Kahn's topological order ─────────────────────────────────────────────────

/// The set of nodes a sequence lists.
pub open spec fn listed(s: Seq<usize>) -> Set<int> {
    Set::new(|x: int| exists|k: int| 0 <= k < s.len() && s[k] as int == x)
}

/// Every predecessor of `v` is in `done`.
pub open spec fn preds_done(g: Seq<Vec<usize>>, done: Set<int>, v: int) -> bool {
    forall|u: int| #[trigger] iadj(g, u, v) ==> done.contains(u)
}

/// `v` may come next after `done`.
pub open spec fn ready(g: Seq<Vec<usize>>, done: Set<int>, v: int) -> bool {
    &&& 0 <= v < g.len()
    &&& !done.contains(v)
    &&& preds_done(g, done, v)
}

/// Each entry is the least node ready after the entries before it.
pub open spec fn greedy_prefix(g: Seq<Vec<usize>>, order: Seq<usize>) -> bool {
    forall|k: int|
        0 <= k < order.len() ==> ready(g, listed(order.take(k)), #[trigger] order[k] as int) && forall|w: int|
            ready(g, listed(order.take(k)), w) ==> order[k] as int <= w
}

/// The least-first topological order of all nodes.
pub open spec fn greedy_topo(g: Seq<Vec<usize>>, order: Seq<usize>) -> bool {
    order.len() == g.len() && greedy_prefix(g, order)
}

proof fn lemma_listed_push(s: Seq<usize>, x: usize)
    ensures
        listed(s.push(x)) == listed(s).insert(x as int),
{
    let t = s.push(x);
    assert forall|y: int| listed(t).contains(y) <==> listed(s).insert(x as int).contains(y) by {
        if listed(t).contains(y) {
            let k = choose|k: int| 0 <= k < t.len() && t[k] as int == y;
            if k < s.len() {
                assert(s[k] == t[k]);
            }
        }
        if listed(s).contains(y) {
            let k = choose|k: int| 0 <= k < s.len() && s[k] as int == y;
            assert(t[k] == s[k]);
        }
        if y == x as int {
            assert(t[s.len() as int] == x);
        }
    }
    assert(listed(t) =~= listed(s).insert(x as int));
}

/// The node with the greatest rank among the unfinished nodes below `k`.
pub open spec fn argmax_open(popped: Seq<bool>, r: Seq<int>, k: int) -> int
    decreases k,
{
    if k <= 0 {
        -1
    } else {
        let prev = argmax_open(popped, r, k - 1);
        if popped[k - 1] {
            prev
        } else if prev < 0 || r[prev] < r[k - 1] {
            k - 1
        } else {
            prev
        }
    }
}

proof fn lemma_argmax_open(popped: Seq<bool>, r: Seq<int>, k: int)
    requires
        0 <= k <= popped.len(),
        r.len() == popped.len(),
    ensures
        argmax_open(popped, r, k) < k,
        argmax_open(popped, r, k) >= 0 ==> !popped[argmax_open(popped, r, k)],
        forall|x: int| 0 <= x < k && !popped[x] ==> argmax_open(popped, r, k) >= 0 && r[x] <= r[argmax_open(popped, r, k)],
    decreases k,
{
    if k > 0 {
        lemma_argmax_open(popped, r, k - 1);
    }
}

/// In a ranked graph, some unfinished node has all its predecessors finished.
pub proof fn lemma_ranked_has_ready(g: Seq<Vec<usize>>, popped: Seq<bool>, r: Seq<int>, v: int)
    requires
        ranks(g, r),
        popped.len() == g.len(),
        0 <= v < g.len(),
        !popped[v],
    ensures
        exists|x: int| 0 <= x < g.len() && !popped[x] && forall|u: int| #[trigger] iadj(g, u, x) ==> popped[u],
{
    lemma_argmax_open(popped, r, g.len() as int);
    let m = argmax_open(popped, r, g.len() as int);
    assert forall|u: int| #[trigger] iadj(g, u, m) implies popped[u] by {
        assert(0 <= u < g.len());
        assert(r[m] < r[u]);
    }
}

/// A least-first topological order ranks the graph.
pub proof fn lemma_topo_ranks(g: Seq<Vec<usize>>, order: Seq<usize>) -> (r: Seq<int>)
    requires
        greedy_topo(g, order),
        graph_ok(g),
    ensures
        ranks(g, r),
{
    let n = g.len();
    let r = Seq::new(n, |x: int| n - order.index_of(x as usize));
    assert forall|u: int, v: int| #[trigger] iadj(g, u, v) implies r[v] < r[u] by {
        let kk = choose|k: int| 0 <= k < g[u]@.len() && g[u]@[k] as int == v;
        assert(v < n);
        // every node appears in the order
        lemma_all_listed(g, order, v);
        let pv = order.index_of(v as usize);
        assert(ready(g, listed(order.take(pv)), order[pv] as int));
        assert(listed(order.take(pv)).contains(u));
        let pu = choose|k: int| 0 <= k < order.take(pv).len() && order.take(pv)[k] as int == u;
        assert(order[pu] as int == u);
        assert(order.contains(u as usize));
        assert(order.index_of(u as usize) <= pu);
    }
    r
}

proof fn lemma_all_listed(g: Seq<Vec<usize>>, order: Seq<usize>, v: int)
    requires
        greedy_topo(g, order),
        0 <= v < g.len(),
    ensures
        order.contains(v as usize),
{
    // the entries are distinct nodes below n, and there are n of them
    assert forall|a: int, b: int| 0 <= a < b < order.len() implies order[a] != order[b] by {
        assert(ready(g, listed(order.take(b)), order[b] as int));
        assert(order.take(b)[a] == order[a]);
        assert(listed(order.take(b)).contains(order[a] as int));
    }
    let s = order.map_values(|x: usize| x as int);
    assert(s.no_duplicates()) by {
        assert forall|a: int, b: int| 0 <= a < s.len() && 0 <= b < s.len() && a != b implies s[a] != s[b] by {
            if a < b {
                assert(order[a] != order[b]);
            } else {
                assert(order[b] != order[a]);
            }
        }
    }
    s.unique_seq_to_set();
    let full = Set::new(|x: int| 0 <= x < g.len());
    assert(s.to_set().subset_of(full)) by {
        assert forall|x: int| s.to_set().contains(x) implies full.contains(x) by {
            let k = choose|k: int| 0 <= k < s.len() && s[k] == x;
            assert(ready(g, listed(order.take(k)), order[k] as int));
        }
    }
    vstd::set_lib::lemma_int_range(0, g.len() as int);
    assert(full =~= vstd::set_lib::set_int_range(0, g.len() as int));
    vstd::set_lib::lemma_subset_equality(s.to_set(), full);
    assert(full.contains(v));
    let k = choose|k: int| 0 <= k < s.len() && s[k] == v;
    assert(order[k] == v as usize);
}

/// `preds[x]` lists exactly the predecessors of `x`.
pub open spec fn preds_of(g: Seq<Vec<usize>>, preds: Seq<Vec<usize>>) -> bool {
    &&& preds.len() == g.len()
    &&& forall|x: int, w: usize| 0 <= x < g.len() ==> (#[trigger] preds[x]@.contains(w) <==> iadj(g, w as int, x))
}

fn build_preds(g: &Vec<Vec<usize>>) -> (preds: Vec<Vec<usize>>)
    requires
        graph_ok(g@),
    ensures
        preds_of(g@, preds@),
{
    let n = g.len();
    let mut preds: Vec<Vec<usize>> = Vec::new();
    let mut i: usize = 0;
    while i < n
        invariant
            n == g@.len(),
            i <= n,
            preds@.len() == i,
            forall|x: int| 0 <= x < i ==> (#[trigger] preds@[x])@.len() == 0,
        decreases n - i,
    {
        let e: Vec<usize> = Vec::new();
        preds.push(e);
        proof {
            assert(preds@[i as int]@.len() == 0);
        }
        i += 1;
    }
    let mut u: usize = 0;
    while u < n
        invariant
            graph_ok(g@),
            n == g@.len(),
            u <= n,
            preds@.len() == n,
            forall|x: int, w: usize| 0 <= x < n ==> (#[trigger] preds@[x]@.contains(w) <==> ((w as int) < u && iadj(g@, w as int, x))),
        decreases n - u,
    {
        let succs = &g[u];
        let mut j: usize = 0;
        while j < succs.len()
            invariant
                graph_ok(g@),
                n == g@.len(),
                u < n,
                succs@ == g@[u as int]@,
                j <= succs.len(),
                preds@.len() == n,
                forall|x: int, w: usize| 0 <= x < n ==> (#[trigger] preds@[x]@.contains(w) <==> (((w as int) < u && iadj(g@, w as int, x))
                    || (w == u && exists|k: int| 0 <= k < j && succs@[k] as int == x))),
            decreases succs.len() - j,
        {
            let v = succs[j];
            proof {
                assert((succs@[j as int] as int) < g@.len());
            }
            let ghost before = preds@;
            let mut pl = preds.remove(v);
            let ghost pl0 = pl@;
            pl.push(u);
            preds.insert(v, pl);
            proof {
                assert(preds@ =~= before.update(v as int, pl));
                assert forall|x: int, w: usize| 0 <= x < n implies (#[trigger] preds@[x]@.contains(w) <==> (((w as int) < u && iadj(g@, w as int, x))
                    || (w == u && exists|k: int| 0 <= k < j + 1 && succs@[k] as int == x))) by {
                    if x == v as int {
                        assert(pl@ == pl0.push(u));
                        assert(pl0 == before[x]@);
                        if w == u {
                            assert(pl@[pl0.len() as int] == u);
                            assert(succs@[j as int] as int == x);
                        }
                        if preds@[x]@.contains(w) {
                            let k = choose|k: int| 0 <= k < pl@.len() && pl@[k] == w;
                            if k < pl0.len() {
                                assert(pl0[k] == w);
                                assert(before[x]@.contains(w));
                            }
                        }
                        if before[x]@.contains(w) {
                            let k = choose|k: int| 0 <= k < pl0.len() && pl0[k] == w;
                            assert(pl@[k] == w);
                        }
                    } else {
                        assert(preds@[x] == before[x]);
                        if w == u && exists|k: int| 0 <= k < j + 1 && succs@[k] as int == x {
                            let k = choose|k: int| 0 <= k < j + 1 && succs@[k] as int == x;
                            assert(k < j);
                        }
                    }
                }
            }
            j += 1;
        }
        proof {
            assert forall|x: int, w: usize| 0 <= x < n implies (#[trigger] preds@[x]@.contains(w) <==> ((w as int) < u + 1 && iadj(g@, w as int, x))) by {
                if w == u && iadj(g@, w as int, x) {
                    let k = choose|k: int| 0 <= k < g@[w as int]@.len() && g@[w as int]@[k] as int == x;
                }
            }
        }
        u += 1;
    }
    preds
}

fn preds_placed(preds: &Vec<Vec<usize>>, popped: &Vec<bool>, v: usize) -> (b: bool)
    requires
        (v as int) < preds@.len(),
        forall|w: usize| #[trigger] preds@[v as int]@.contains(w) ==> (w as int) < popped@.len(),
    ensures
        b == forall|w: usize| #[trigger] preds@[v as int]@.contains(w) ==> popped@[w as int],
{
    let pl = &preds[v];
    let mut k: usize = 0;
    while k < pl.len()
        invariant
            pl@ == preds@[v as int]@,
            k <= pl@.len(),
            forall|w: usize| #[trigger] preds@[v as int]@.contains(w) ==> (w as int) < popped@.len(),
            forall|kk: int| 0 <= kk < k ==> popped@[pl@[kk] as int],
        decreases pl@.len() - k,
    {
        let w = pl[k];
        proof {
            assert(preds@[v as int]@.contains(w));
        }
        if !popped[w] {
            return false;
        }
        k += 1;
    }
    proof {
        assert forall|w: usize| #[trigger] preds@[v as int]@.contains(w) implies popped@[w as int] by {
            let kk = choose|kk: int| 0 <= kk < pl@.len() && pl@[kk] == w;
        }
    }
    true
}

/// Kahn's algorithm, least ready node first. `Err` when some nodes can never
/// become ready; then every unfinished node has an unfinished predecessor.
pub fn topo_idx(g: &Vec<Vec<usize>>) -> (res: Result<Vec<usize>, Ghost<Seq<bool>>>)
    requires
        graph_ok(g@),
    ensures
        match res {
            Ok(order) => greedy_topo(g@, order@),
            Err(p) => {
                &&& p@.len() == g@.len()
                &&& exists|v: int| 0 <= v < g@.len() && !p@[v]
                &&& forall|x: int| 0 <= x < g@.len() && !p@[x] ==> exists|u: int| #[trigger] iadj(g@, u, x) && !p@[u]
            },
        },
{
    let n = g.len();
    let preds = build_preds(g);
    let mut popped: Vec<bool> = Vec::new();
    let mut i: usize = 0;
    while i < n
        invariant
            i <= n,
            popped@.len() == i,
            forall|x: int| 0 <= x < i ==> !popped@[x],
        decreases n - i,
    {
        popped.push(false);
        i += 1;
    }
    let mut order: Vec<usize> = Vec::new();
    proof {
        assert(listed(order@) =~= Set::<int>::empty());
    }
    while order.len() < n
        invariant
            graph_ok(g@),
            n == g@.len(),
            preds_of(g@, preds@),
            popped@.len() == n,
            forall|x: int| 0 <= x < n ==> (popped@[x] <==> listed(order@).contains(x)),
            greedy_prefix(g@, order@),
            order@.len() <= n,
            forall|k: int| 0 <= k < order@.len() ==> (order@[k] as int) < n,
        decreases n - order@.len(),
    {
        // the least node not yet placed whose predecessors are all placed
        let mut v: usize = 0;
        let mut found = false;
        while v < n
            invariant_except_break
                !found,
            invariant
                n == g@.len(),
                v <= n,
                preds_of(g@, preds@),
                popped@.len() == n,
                forall|x: int| 0 <= x < n ==> (popped@[x] <==> listed(order@).contains(x)),
                forall|w: int| 0 <= w < v ==> !ready(g@, listed(order@), w),
            ensures
                found ==> v < n && ready(g@, listed(order@), v as int),
                !found ==> forall|w: int| 0 <= w < n ==> !ready(g@, listed(order@), w),
            decreases n - v,
        {
            proof {
                assert forall|w: usize| #[trigger] preds@[v as int]@.contains(w) implies (w as int) < popped@.len() by {
                    assert(iadj(g@, w as int, v as int));
                }
            }
            if !popped[v] && preds_placed(&preds, &popped, v) {
                proof {
                    assert forall|u: int| #[trigger] iadj(g@, u, v as int) implies listed(order@).contains(u) by {
                        assert(0 <= u < n);
                        assert(preds@[v as int]@.contains(u as usize));
                    }
                }
                found = true;
                break;
            }
            proof {
                if !popped@[v as int] {
                    let w = choose|w: usize| #[trigger] preds@[v as int]@.contains(w) && !popped@[w as int];
                    assert(iadj(g@, w as int, v as int));
                    assert(!ready(g@, listed(order@), v as int));
                }
            }
            v += 1;
        }
        if !found {
            proof {
                lemma_some_open(g@, order@, popped@);
                assert forall|x: int| 0 <= x < n && !popped@[x] implies exists|u: int| #[trigger] iadj(g@, u, x) && !popped@[u] by {
                    assert(!ready(g@, listed(order@), x));
                    let u = choose|u: int| #[trigger] iadj(g@, u, x) && !listed(order@).contains(u);
                    assert(0 <= u < n);
                }
            }
            return Err(Ghost(popped@));
        }
        let ghost before = order@;
        popped.set(v, true);
        order.push(v);
        proof {
            lemma_listed_push(before, v);
            assert(order@.take(before.len() as int) =~= before);
            assert forall|k: int| 0 <= k < order@.len() implies ready(g@, listed(order@.take(k)), #[trigger] order@[k] as int)
                && forall|w: int| ready(g@, listed(order@.take(k)), w) ==> order@[k] as int <= w by {
                if k < before.len() {
                    assert(order@.take(k) =~= before.take(k));
                    assert(order@[k] == before[k]);
                } else {
                    assert(order@[k] == v);
                }
            }
        }
    }
    Ok(order)
}

proof fn lemma_some_open(g: Seq<Vec<usize>>, order: Seq<usize>, popped: Seq<bool>)
    requires
        greedy_prefix(g, order),
        order.len() < g.len(),
        popped.len() == g.len(),
        forall|k: int| 0 <= k < order.len() ==> (order[k] as int) < g.len(),
        forall|x: int| 0 <= x < g.len() ==> (popped[x] <==> listed(order).contains(x)),
    ensures
        exists|v: int| 0 <= v < g.len() && !popped[v],
{
    let s = order.map_values(|x: usize| x as int);
    assert(s.no_duplicates()) by {
        assert forall|a: int, b: int| 0 <= a < s.len() && 0 <= b < s.len() && a != b implies s[a] != s[b] by {
            let (lo, hi) = if a < b { (a, b) } else { (b, a) };
            assert(ready(g, listed(order.take(hi)), order[hi] as int));
            assert(order.take(hi)[lo] == order[lo]);
            assert(listed(order.take(hi)).contains(order[lo] as int));
        }
    }
    s.unique_seq_to_set();
    let full = Set::new(|x: int| 0 <= x < g.len());
    vstd::set_lib::lemma_int_range(0, g.len() as int);
    assert(full =~= vstd::set_lib::set_int_range(0, g.len() as int));
    if forall|v: int| 0 <= v < g.len() ==> popped[v] {
        assert(full.subset_of(s.to_set())) by {
            assert forall|x: int| full.contains(x) implies s.to_set().contains(x) by {
                assert(popped[x]);
                let k = choose|k: int| 0 <= k < order.len() && order[k] as int == x;
                assert(s[k] == x);
            }
        }
        vstd::set_lib::lemma_len_subset(full, s.to_set());
    }
}

} // verus!
