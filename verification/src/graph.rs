//! A directed graph with traversals and two acyclicity checks.
//!
//! The graph is built once from routes `(target, source)` — each route is
//! an edge from its second component to its first — and kept in adjacency
//! representation together with the indegree of every node.

use vstd::prelude::*;

verus! {

/// There is an edge from `u` to `v`.
pub open spec fn g_has_edge(adj: Seq<Seq<usize>>, u: usize, v: usize) -> bool {
    exists|k: int| 0 <= k < adj[u as int].len() && (#[trigger] adj[u as int][k]) == v
}

/// `p` walks through the graph along directed edges.
pub open spec fn g_is_path(adj: Seq<Seq<usize>>, n: usize, p: Seq<usize>) -> bool {
    &&& p.len() >= 1
    &&& forall|j: int| 0 <= j < p.len() ==> (#[trigger] p[j]) < n
    &&& forall|j: int| 0 <= j < p.len() - 1 ==> g_has_edge(adj, #[trigger] p[j], p[j + 1])
}

/// Node `t` can be reached from node `s` along directed edges.
pub open spec fn g_reaches(adj: Seq<Seq<usize>>, n: usize, s: usize, t: usize) -> bool {
    exists|p: Seq<usize>| g_is_path(adj, n, p) && p.first() == s && p.last() == t
}

/// There is a round trip of at least one edge from `v` back to itself.
pub open spec fn cycle_at(adj: Seq<Seq<usize>>, n: usize, v: usize) -> bool {
    exists|p: Seq<usize>|
        g_is_path(adj, n, p) && p.len() >= 2 && p.first() == v && p.last() == v
}

/// Some node lies on a round trip.
pub open spec fn g_has_cycle(adj: Seq<Seq<usize>>, n: usize) -> bool {
    exists|v: usize| v < n && cycle_at(adj, n, v)
}

/// One adjacency row per node and every edge target in range.
pub open spec fn g_adj_wf(adj: Seq<Seq<usize>>, n: usize) -> bool {
    &&& adj.len() == n
    &&& forall|u: int, k: int|
        0 <= u < n && 0 <= k < adj[u].len() ==> ((#[trigger] adj[u][k]) as int) < n
}

/// The adjacency row of node `u` after inserting `routes` in order: the
/// first component of a route is the target, the second the source.
pub open spec fn g_adj_of(routes: Seq<(usize, usize)>, u: usize) -> Seq<usize>
    decreases routes.len(),
{
    if routes.len() == 0 {
        Seq::empty()
    } else {
        let init = g_adj_of(routes.drop_last(), u);
        let rt = routes.last();
        if rt.1 == u {
            init.push(rt.0)
        } else {
            init
        }
    }
}

/// How many entries of the row point at `t`.
pub open spec fn count_in_row(row: Seq<usize>, t: usize) -> int
    decreases row.len(),
{
    if row.len() == 0 {
        0
    } else {
        count_in_row(row.drop_last(), t) + if row.last() == t {
            1int
        } else {
            0int
        }
    }
}

/// How many edges point at `t` from nodes below `ub` that are not done.
pub open spec fn remaining_in(adj: Seq<Seq<usize>>, done: Seq<bool>, t: usize, ub: int) -> int
    decreases ub,
{
    if ub <= 0 {
        0
    } else {
        remaining_in(adj, done, t, ub - 1) + if !done[ub - 1] {
            count_in_row(adj[ub - 1], t)
        } else {
            0int
        }
    }
}

/// How many entries of `s` are false.
pub open spec fn count_false(s: Seq<bool>) -> int
    decreases s.len(),
{
    if s.len() == 0 {
        0
    } else {
        count_false(s.drop_first()) + if s[0] {
            0int
        } else {
            1int
        }
    }
}

/// The number of edges of the whole graph.
pub open spec fn g_total_deg(adj: Seq<Seq<usize>>) -> int
    decreases adj.len(),
{
    if adj.len() == 0 {
        0
    } else {
        adj[0].len() + g_total_deg(adj.drop_first())
    }
}

proof fn lemma_count_in_row_push(row: Seq<usize>, x: usize, t: usize)
    ensures
        count_in_row(row.push(x), t) == count_in_row(row, t) + if x == t {
            1int
        } else {
            0int
        },
{
    assert(row.push(x).drop_last() =~= row);
}

proof fn lemma_count_in_row_nonneg(row: Seq<usize>, t: usize)
    ensures
        count_in_row(row, t) >= 0,
    decreases row.len(),
{
    if row.len() > 0 {
        lemma_count_in_row_nonneg(row.drop_last(), t);
    }
}

proof fn lemma_count_in_row_pos(row: Seq<usize>, t: usize, k: int)
    requires
        0 <= k < row.len(),
        row[k] == t,
    ensures
        count_in_row(row, t) >= 1,
    decreases row.len(),
{
    lemma_count_in_row_nonneg(row.drop_last(), t);
    if k < row.len() - 1 {
        lemma_count_in_row_pos(row.drop_last(), t, k);
        lemma_count_in_row_nonneg(row, t);
    }
}

/// Replacing the row of one node changes every remaining-indegree count by
/// the difference that the new row makes, when that node is not done.
proof fn lemma_remaining_in_update(
    adj: Seq<Seq<usize>>,
    done: Seq<bool>,
    t: usize,
    ub: int,
    u: int,
    row: Seq<usize>,
)
    requires
        0 <= u < adj.len(),
        ub <= adj.len(),
        ub <= done.len(),
    ensures
        remaining_in(adj.update(u, row), done, t, ub) == remaining_in(adj, done, t, ub) + if u < ub
            && !done[u] {
            count_in_row(row, t) - count_in_row(adj[u], t)
        } else {
            0int
        },
    decreases ub,
{
    if ub > 0 {
        lemma_remaining_in_update(adj, done, t, ub - 1, u, row);
        if u == ub - 1 {
            assert(adj.update(u, row)[ub - 1] == row);
        } else {
            assert(adj.update(u, row)[ub - 1] == adj[ub - 1]);
        }
    }
}

/// Marking one node done removes exactly its row from every remaining
/// indegree.
proof fn lemma_remaining_in_mark(
    adj: Seq<Seq<usize>>,
    done: Seq<bool>,
    t: usize,
    ub: int,
    u: int,
)
    requires
        0 <= u < done.len(),
        !done[u],
        ub <= done.len(),
        ub <= adj.len(),
    ensures
        remaining_in(adj, done.update(u, true), t, ub) == remaining_in(adj, done, t, ub) - if u
            < ub {
            count_in_row(adj[u], t)
        } else {
            0int
        },
    decreases ub,
{
    if ub > 0 {
        lemma_remaining_in_mark(adj, done, t, ub - 1, u);
    }
}

proof fn lemma_remaining_in_nonneg(adj: Seq<Seq<usize>>, done: Seq<bool>, t: usize, ub: int)
    ensures
        remaining_in(adj, done, t, ub) >= 0,
    decreases ub,
{
    if ub > 0 {
        lemma_remaining_in_nonneg(adj, done, t, ub - 1);
        lemma_count_in_row_nonneg(adj[ub - 1], t);
    }
}

/// An edge from a node that is not done keeps the remaining indegree of
/// its target positive.
proof fn lemma_remaining_in_pos(
    adj: Seq<Seq<usize>>,
    done: Seq<bool>,
    t: usize,
    ub: int,
    u: int,
    k: int,
)
    requires
        0 <= u < ub,
        !done[u],
        0 <= k < adj[u].len(),
        adj[u][k] == t,
    ensures
        remaining_in(adj, done, t, ub) >= 1,
    decreases ub,
{
    lemma_remaining_in_nonneg(adj, done, t, ub - 1);
    if u == ub - 1 {
        lemma_count_in_row_pos(adj[u], t, k);
    } else {
        lemma_remaining_in_pos(adj, done, t, ub - 1, u, k);
        if !done[ub - 1] {
            lemma_count_in_row_nonneg(adj[ub - 1], t);
        }
    }
}

proof fn lemma_count_false_nonneg(s: Seq<bool>)
    ensures
        count_false(s) >= 0,
    decreases s.len(),
{
    if s.len() > 0 {
        lemma_count_false_nonneg(s.drop_first());
    }
}

/// Marking one false entry true lowers the count of false entries by one.
proof fn lemma_count_false_update(s: Seq<bool>, i: int)
    requires
        0 <= i < s.len(),
        !s[i],
    ensures
        count_false(s.update(i, true)) == count_false(s) - 1,
    decreases s.len(),
{
    if i == 0 {
        assert(s.update(0, true).drop_first() =~= s.drop_first());
    } else {
        assert(s.update(i, true).drop_first() =~= s.drop_first().update(i - 1, true));
        lemma_count_false_update(s.drop_first(), i - 1);
    }
}

proof fn lemma_total_deg_nonneg(adj: Seq<Seq<usize>>)
    ensures
        g_total_deg(adj) >= 0,
    decreases adj.len(),
{
    if adj.len() > 0 {
        lemma_total_deg_nonneg(adj.drop_first());
    }
}

/// One row is never longer than the edge count of the whole graph.
proof fn lemma_row_le_total_deg(adj: Seq<Seq<usize>>, u: int)
    requires
        0 <= u < adj.len(),
    ensures
        adj[u].len() <= g_total_deg(adj),
    decreases adj.len(),
{
    lemma_total_deg_nonneg(adj.drop_first());
    if u > 0 {
        lemma_row_le_total_deg(adj.drop_first(), u - 1);
    }
}

/// A node reaches itself.
proof fn lemma_g_reaches_self(adj: Seq<Seq<usize>>, n: usize, s: usize)
    requires
        s < n,
    ensures
        g_reaches(adj, n, s, s),
{
    let p = seq![s];
    assert(g_is_path(adj, n, p) && p.first() == s && p.last() == s);
}

/// Reachability extends along one more edge.
proof fn lemma_g_reaches_step(adj: Seq<Seq<usize>>, n: usize, s: usize, u: usize, v: usize)
    requires
        g_reaches(adj, n, s, u),
        v < n,
        g_has_edge(adj, u, v),
    ensures
        g_reaches(adj, n, s, v),
{
    let p = choose|p: Seq<usize>| g_is_path(adj, n, p) && p.first() == s && p.last() == u;
    let p2 = p.push(v);
    assert forall|j: int| 0 <= j < p2.len() - 1 implies g_has_edge(adj, #[trigger] p2[j], p2[j + 1]) by {
        if j < p.len() - 1 {
            assert(g_has_edge(adj, p[j], p[j + 1]));
        } else {
            assert(p2[j] == u && p2[j + 1] == v);
        }
    }
    assert(g_is_path(adj, n, p2) && p2.first() == s && p2.last() == v);
}

/// A round trip of at least one edge extends along a path back to its
/// start: used to turn a found start node into a cycle witness.
proof fn lemma_reach2_step(adj: Seq<Seq<usize>>, n: usize, s: usize, u: usize, v: usize)
    requires
        reach2(adj, n, s, u),
        v < n,
        g_has_edge(adj, u, v),
    ensures
        reach2(adj, n, s, v),
{
    let p = choose|p: Seq<usize>|
        g_is_path(adj, n, p) && p.len() >= 2 && p.first() == s && p.last() == u;
    let p2 = p.push(v);
    assert forall|j: int| 0 <= j < p2.len() - 1 implies g_has_edge(adj, #[trigger] p2[j], p2[j + 1]) by {
        if j < p.len() - 1 {
            assert(g_has_edge(adj, p[j], p[j + 1]));
        } else {
            assert(p2[j] == u && p2[j + 1] == v);
        }
    }
    assert(g_is_path(adj, n, p2) && p2.len() >= 2 && p2.first() == s && p2.last() == v);
}

/// There is a walk of at least one edge from `s` to `t`.
pub open spec fn reach2(adj: Seq<Seq<usize>>, n: usize, s: usize, t: usize) -> bool {
    exists|p: Seq<usize>|
        g_is_path(adj, n, p) && p.len() >= 2 && p.first() == s && p.last() == t
}

/// `ord` lines the nodes up so that every edge points forward.
pub open spec fn topo_ok(adj: Seq<Seq<usize>>, n: usize, ord: Seq<usize>) -> bool {
    &&& ord.len() == n
    &&& ord.no_duplicates()
    &&& forall|j: int| 0 <= j < ord.len() ==> (#[trigger] ord[j]) < n
    &&& forall|j1: int, j2: int|
        0 <= j1 < n && 0 <= j2 < n && #[trigger] g_has_edge(adj, ord[j1], ord[j2]) ==> j1 < j2
}

proof fn lemma_count_in_row_witness(row: Seq<usize>, t: usize)
    requires
        count_in_row(row, t) > 0,
    ensures
        exists|kx: int| 0 <= kx < row.len() && row[kx] == t,
    decreases row.len(),
{
    if row.len() > 0 {
        if row.last() == t {
            assert(row[row.len() - 1] == t);
        } else {
            lemma_count_in_row_witness(row.drop_last(), t);
            let kx = choose|kx: int| 0 <= kx < row.len() - 1 && row.drop_last()[kx] == t;
            assert(row[kx] == t);
        }
    }
}

/// A positive remaining indegree names an edge from a node that is not
/// done.
proof fn lemma_remaining_in_witness(adj: Seq<Seq<usize>>, done: Seq<bool>, t: usize, ub: int)
    requires
        remaining_in(adj, done, t, ub) > 0,
    ensures
        exists|u: int, kx: int|
            0 <= u < ub && !done[u] && 0 <= kx < adj[u].len() && (#[trigger] adj[u][kx]) == t,
    decreases ub,
{
    if ub > 0 {
        if !done[ub - 1] && count_in_row(adj[ub - 1], t) > 0 {
            lemma_count_in_row_witness(adj[ub - 1], t);
            let kx = choose|kx: int|
                0 <= kx < adj[ub - 1].len() && (#[trigger] adj[ub - 1][kx]) == t;
            assert(0 <= ub - 1 < ub && !done[ub - 1] && adj[ub - 1][kx] == t);
        } else {
            lemma_count_in_row_nonneg(adj[ub - 1], t);
            lemma_remaining_in_witness(adj, done, t, ub - 1);
        }
    }
}

proof fn lemma_count_in_row_first(s: Seq<usize>, t: usize)
    requires
        s.len() >= 1,
    ensures
        count_in_row(s, t) == count_in_row(s.drop_first(), t) + if s[0] == t {
            1int
        } else {
            0int
        },
    decreases s.len(),
{
    if s.len() == 1 {
        assert(s.drop_last() =~= Seq::<usize>::empty());
        assert(s.drop_first() =~= Seq::<usize>::empty());
    } else {
        lemma_count_in_row_first(s.drop_last(), t);
        assert(s.drop_last().drop_first() =~= s.drop_first().drop_last());
        assert(s.drop_last()[0] == s[0]);
        assert(s.drop_first().last() == s.last());
    }
}

/// Distinct nodes that cover all of `0 .. n` number at least `n`.
proof fn lemma_covers_ge(s: Seq<usize>, n: usize)
    requires
        s.no_duplicates(),
        forall|v: usize| v < n ==> s.contains(v),
    ensures
        s.len() >= n,
{
    broadcast use vstd::set::group_set_axioms;

    let m = s.map_values(|x: usize| x as int);
    assert(m.no_duplicates()) by {
        assert forall|i: int, j: int|
            0 <= i < m.len() && 0 <= j < m.len() && i != j implies m[i] != m[j] by {
            assert(s[i] != s[j]);
        }
    }
    m.unique_seq_to_set();
    assert(vstd::set_lib::set_int_range(0, n as int).subset_of(m.to_set())) by {
        assert forall|x: int| 0 <= x < n implies m.to_set().contains(x) by {
            assert(s.contains(x as usize));
            let j = choose|j: int| 0 <= j < s.len() && s[j] == x as usize;
            assert(m[j] == x);
            assert(m.contains(x));
        }
    }
    vstd::set_lib::lemma_int_range(0, n as int);
    vstd::set_lib::lemma_len_subset(vstd::set_lib::set_int_range(0, n as int), m.to_set());
}

/// Distinct nodes below `n` that miss some node number fewer than `n`.
proof fn lemma_distinct_missing(s: Seq<usize>, n: usize, v: usize)
    requires
        s.no_duplicates(),
        forall|j: int| 0 <= j < s.len() ==> (#[trigger] s[j]) < n,
        v < n,
        !s.contains(v),
    ensures
        s.len() < n,
{
    broadcast use vstd::set::group_set_axioms;

    let m = s.map_values(|x: usize| x as int);
    assert(m.no_duplicates()) by {
        assert forall|i: int, j: int|
            0 <= i < m.len() && 0 <= j < m.len() && i != j implies m[i] != m[j] by {
            assert(s[i] != s[j]);
        }
    }
    m.unique_seq_to_set();
    let range = vstd::set_lib::set_int_range(0, n as int).remove(v as int);
    assert(m.to_set().subset_of(range)) by {
        assert forall|x: int| m.to_set().contains(x) implies range.contains(x) by {
            let j = choose|j: int| 0 <= j < m.len() && m[j] == x;
            assert(s[j] < n);
            if s[j] == v {
                assert(s.contains(v));
            }
        }
    }
    vstd::set_lib::lemma_int_range(0, n as int);
    vstd::set_lib::lemma_len_subset(m.to_set(), range);
}

/// Distinct nodes below `n`, at least `n` of them, cover every node.
proof fn lemma_distinct_covers(s: Seq<usize>, n: usize)
    requires
        s.no_duplicates(),
        forall|j: int| 0 <= j < s.len() ==> (#[trigger] s[j]) < n,
        s.len() >= n,
    ensures
        forall|v: usize| v < n ==> s.contains(v),
{
    assert forall|v: usize| v < n implies s.contains(v) by {
        if !s.contains(v) {
            lemma_distinct_missing(s, n, v);
        }
    }
}

/// The first position of `ord` holding a node that is not done.
proof fn lemma_first_undone(ord: Seq<usize>, done: Seq<bool>, k: int) -> (jm: int)
    requires
        0 <= k <= ord.len(),
        exists|j: int| 0 <= j < k && !done[(#[trigger] ord[j]) as int],
    ensures
        0 <= jm < k,
        !done[ord[jm] as int],
        forall|j: int| 0 <= j < jm ==> done[(#[trigger] ord[j]) as int],
    decreases k,
{
    if exists|j: int| 0 <= j < k - 1 && !done[(#[trigger] ord[j]) as int] {
        lemma_first_undone(ord, done, k - 1)
    } else {
        let j0 = choose|j: int| 0 <= j < k && !done[(#[trigger] ord[j]) as int];
        assert(j0 == k - 1);
        k - 1
    }
}

/// A set of nodes that holds the start of a walk and is closed under the
/// graph's edges holds its end as well.
proof fn lemma_g_path_in_closed_set(
    adj: Seq<Seq<usize>>,
    n: usize,
    closed_marks: Seq<bool>,
    p: Seq<usize>,
)
    requires
        g_adj_wf(adj, n),
        closed_marks.len() == n,
        g_is_path(adj, n, p),
        closed_marks[p.first() as int],
        forall|u: usize, v: usize|
            u < n && closed_marks[u as int] && #[trigger] g_has_edge(adj, u, v) && v < n
                ==> closed_marks[v as int],
    ensures
        closed_marks[p.last() as int],
    decreases p.len(),
{
    if p.len() > 1 {
        let p2 = p.drop_first();
        assert(g_has_edge(adj, p[0], p[1]));
        assert(closed_marks[p[1] as int]);
        assert forall|j: int| 0 <= j < p2.len() - 1 implies g_has_edge(
            adj,
            #[trigger] p2[j],
            p2[j + 1],
        ) by {
            assert(g_has_edge(adj, p[j + 1], p[j + 2]));
        }
        lemma_g_path_in_closed_set(adj, n, closed_marks, p2);
    }
}

/// The nodes reachable from `s`, as a set of node numbers.
pub open spec fn reach_set(adj: Seq<Seq<usize>>, n: usize, s: usize) -> Set<int> {
    Set::new(|t: int| 0 <= t < n && g_reaches(adj, n, s, t as usize))
}

/// Reachability extends backwards along one edge.
proof fn lemma_g_reaches_prepend(adj: Seq<Seq<usize>>, n: usize, v: usize, w: usize, t: usize)
    requires
        v < n,
        g_has_edge(adj, v, w),
        g_reaches(adj, n, w, t),
    ensures
        g_reaches(adj, n, v, t),
{
    let p = choose|p: Seq<usize>| g_is_path(adj, n, p) && p.first() == w && p.last() == t;
    let p2 = seq![v] + p;
    assert forall|j: int| 0 <= j < p2.len() - 1 implies g_has_edge(adj, #[trigger] p2[j], p2[j + 1]) by {
        if j == 0 {
            assert(p2[0] == v && p2[1] == p[0]);
        } else {
            assert(p2[j] == p[j - 1] && p2[j + 1] == p[j]);
            assert(g_has_edge(adj, p[j - 1], p[j]));
        }
    }
    assert(g_is_path(adj, n, p2) && p2.first() == v && p2.last() == t);
}

/// Walking one edge forward from `v` shrinks the set of reachable nodes,
/// as long as nothing reachable from `v` lies on a round trip.
proof fn lemma_reach_set_step(adj: Seq<Seq<usize>>, n: usize, v: usize, w: usize)
    requires
        v < n,
        w < n,
        g_has_edge(adj, v, w),
        forall|u: usize| u < n && g_reaches(adj, n, v, u) ==> !(#[trigger] cycle_at(adj, n, u)),
    ensures
        reach_set(adj, n, w).len() < reach_set(adj, n, v).len(),
        reach_set(adj, n, v).finite(),
{
    broadcast use vstd::set::group_set_axioms;

    vstd::set_lib::lemma_int_range(0, n as int);
    assert(reach_set(adj, n, v).subset_of(vstd::set_lib::set_int_range(0, n as int)));
    vstd::set_lib::lemma_len_subset(
        reach_set(adj, n, v),
        vstd::set_lib::set_int_range(0, n as int),
    );
    lemma_g_reaches_self(adj, n, v);
    assert(reach_set(adj, n, v).contains(v as int));
    assert(reach_set(adj, n, w).subset_of(reach_set(adj, n, v).remove(v as int))) by {
        assert forall|t: int| reach_set(adj, n, w).contains(t) implies reach_set(
            adj,
            n,
            v,
        ).remove(v as int).contains(t) by {
            lemma_g_reaches_prepend(adj, n, v, w, t as usize);
            if t == v as int {
                // a path back to `v` would close a round trip through `v`
                let p = choose|p: Seq<usize>|
                    g_is_path(adj, n, p) && p.first() == w && p.last() == v;
                let p2 = seq![v] + p;
                assert forall|j: int| 0 <= j < p2.len() - 1 implies g_has_edge(
                    adj,
                    #[trigger] p2[j],
                    p2[j + 1],
                ) by {
                    if j == 0 {
                        assert(p2[0] == v && p2[1] == p[0]);
                    } else {
                        assert(p2[j] == p[j - 1] && p2[j + 1] == p[j]);
                        assert(g_has_edge(adj, p[j - 1], p[j]));
                    }
                }
                assert(g_is_path(adj, n, p2) && p2.len() >= 2 && p2.first() == v && p2.last()
                    == v);
                assert(cycle_at(adj, n, v));
                assert(g_reaches(adj, n, v, v));
            }
        }
    }
    vstd::set_lib::lemma_len_subset(
        reach_set(adj, n, w),
        reach_set(adj, n, v).remove(v as int),
    );
    assert(reach_set(adj, n, v).remove(v as int).len() == reach_set(adj, n, v).len() - 1);
}

/// A directed graph in adjacency representation with an indegree table.
#[derive(Debug)]
pub struct Graph {
    adjacent_list: Vec<Vec<usize>>,
    indegree: Vec<usize>,
    num_nodes: usize,
}

impl Graph {
    /// The adjacency rows: for each node, the targets of its outgoing
    /// edges.
    pub closed spec fn adj_view(&self) -> Seq<Seq<usize>> {
        self.adjacent_list@.map_values(|row: Vec<usize>| row@)
    }

    /// The number of nodes of the graph.
    pub closed spec fn node_count(&self) -> usize {
        self.num_nodes
    }

    /// The recorded indegrees.
    pub closed spec fn indegree_view(&self) -> Seq<usize> {
        self.indegree@
    }

    /// The graph is well formed: rows and indegrees for every node, edge
    /// targets in range.
    pub open spec fn wf(&self) -> bool {
        &&& g_adj_wf(self.adj_view(), self.node_count())
        &&& self.indegree_view().len() == self.node_count()
    }

    /// The indegree table counts the incoming edges of every node, none of
    /// them consumed yet.
    pub open spec fn indegree_fresh(&self) -> bool {
        forall|t: usize|
            t < self.node_count() ==> (#[trigger] self.indegree_view()[t as int]) as int
                == remaining_in(
                self.adj_view(),
                Seq::new(self.node_count() as nat, |i: int| false),
                t,
                self.node_count() as int,
            )
    }

    /// Build the graph from routes `(target, source)` over the nodes
    /// `0 .. num_nodes`.
    pub fn new(num_nodes: usize, routes: Vec<(usize, usize)>) -> (g: Self)
        requires
            forall|j: int|
                0 <= j < routes@.len() ==> (#[trigger] routes@[j]).0 < num_nodes && routes@[j].1
                    < num_nodes,
        ensures
            g.wf(),
            g.node_count() == num_nodes,
            forall|u: usize|
                u < num_nodes ==> #[trigger] g.adj_view()[u as int] == g_adj_of(routes@, u),
            g.indegree_fresh(),
    {
        let ghost none_done = Seq::new(num_nodes as nat, |i: int| false);
        let mut adjacent_list: Vec<Vec<usize>> = Vec::new();
        let mut indegree: Vec<usize> = Vec::new();
        let mut i: usize = 0;
        while i < num_nodes
            invariant
                i <= num_nodes,
                adjacent_list@.len() == i,
                indegree@.len() == i,
                forall|u: int| 0 <= u < i ==> (#[trigger] adjacent_list@[u])@ =~= Seq::<usize>::empty(),
                forall|u: int| 0 <= u < i ==> (#[trigger] indegree@[u]) == 0,
            decreases num_nodes - i,
        {
            adjacent_list.push(Vec::new());
            indegree.push(0);
            i = i + 1;
        }
        proof {
            let adj0 = adjacent_list@.map_values(|row: Vec<usize>| row@);
            assert forall|t: usize| t < num_nodes implies remaining_in(
                adj0,
                none_done,
                t,
                num_nodes as int,
            ) == 0 by {
                lemma_remaining_in_zero(adj0, none_done, t, num_nodes as int);
            }
        }
        let mut k: usize = 0;
        while k < routes.len()
            invariant
                k <= routes@.len(),
                adjacent_list@.len() == num_nodes,
                indegree@.len() == num_nodes,
                forall|u: usize|
                    u < num_nodes ==> (#[trigger] adjacent_list@[u as int])@ == g_adj_of(
                        routes@.subrange(0, k as int),
                        u,
                    ),
                forall|t: usize|
                    t < num_nodes ==> (#[trigger] indegree@[t as int]) as int == remaining_in(
                        adjacent_list@.map_values(|row: Vec<usize>| row@),
                        none_done,
                        t,
                        num_nodes as int,
                    ),
                forall|t: int| 0 <= t < num_nodes ==> (#[trigger] indegree@[t]) <= k,
            decreases routes@.len() - k,
        {
            let route: (usize, usize) = routes[k];
            let source: usize = route.1;
            let target: usize = route.0;
            let ghost adj_before = adjacent_list@.map_values(|row: Vec<usize>| row@);
            adjacent_list[source].push(target);
            let cur: usize = indegree[target];
            indegree[target] = cur + 1;
            proof {
                let adj_after = adjacent_list@.map_values(|row: Vec<usize>| row@);
                assert(adj_after =~= adj_before.update(
                    source as int,
                    adj_before[source as int].push(target),
                ));
                assert forall|u: usize| u < num_nodes implies (#[trigger] adjacent_list@[u as int])@
                    == g_adj_of(routes@.subrange(0, k as int + 1), u) by {
                    let sub2 = routes@.subrange(0, k as int + 1);
                    assert(sub2.drop_last() =~= routes@.subrange(0, k as int));
                    assert(sub2.last() == routes@[k as int]);
                }
                assert forall|t: usize| t < num_nodes implies (#[trigger] indegree@[t as int]) as int
                    == remaining_in(adj_after, none_done, t, num_nodes as int) by {
                    lemma_remaining_in_update(
                        adj_before,
                        none_done,
                        t,
                        num_nodes as int,
                        source as int,
                        adj_before[source as int].push(target),
                    );
                    lemma_count_in_row_push(adj_before[source as int], target, t);
                }
            }
            k = k + 1;
        }
        let g = Graph { adjacent_list, indegree, num_nodes };
        proof {
            assert forall|u: usize| u < num_nodes implies #[trigger] g.adj_view()[u as int]
                == g_adj_of(routes@, u) by {
                assert(routes@.subrange(0, routes@.len() as int) =~= routes@);
            }
            assert forall|u: int, kk: int|
                0 <= u < num_nodes && 0 <= kk < g.adj_view()[u].len() implies ((
            #[trigger] g.adj_view()[u][kk]) as int) < num_nodes by {
                lemma_g_adj_of_targets(routes@, u as usize, kk, num_nodes);
            }
        }
        g
    }

    /// Whether no node lies on a directed round trip, checked by one
    /// traversal per node that watches for the start node reappearing.
    pub fn is_acyclic_bfs(&self) -> (r: bool)
        requires
            self.wf(),
        ensures
            r == !g_has_cycle(self.adj_view(), self.node_count()),
    {
        let n: usize = self.num_nodes;
        let ghost adj = self.adj_view();
        let mut v: usize = 0;
        while v < n
            invariant
                v <= n,
                forall|w: usize| w < v ==> !(#[trigger] cycle_at(adj, n, w)),
            decreases n - v,
        {
            let mut queue: Vec<usize> = Vec::new();
            let mut seens: Vec<bool> = Vec::new();
            let mut s: usize = 0;
            while s < n
                invariant
                    s <= n,
                    seens@.len() == s,
                    forall|j: int| 0 <= j < s ==> !(#[trigger] seens@[j]),
                decreases n - s,
            {
                seens.push(false);
                s = s + 1;
            }
            let row_len: usize = self.adjacent_list[v].len();
            proof {
                assert(adj[v as int] == self.adjacent_list@[v as int]@);
            }
            let mut k: usize = 0;
            while k < row_len
                invariant
                    k <= row_len,
                    row_len == adj[v as int].len(),
                    v < n,
                    seens@.len() == n,
                    forall|j: int| 0 <= j < n ==> !(#[trigger] seens@[j]),
                    forall|j: int|
                        0 <= j < queue@.len() ==> (#[trigger] queue@[j]) < n && reach2(
                            adj,
                            n,
                            v,
                            queue@[j],
                        ),
                    forall|kx: int|
                        0 <= kx < k ==> queue@.contains(#[trigger] adj[v as int][kx]),
                decreases row_len - k,
            {
                let neighbor: usize = self.adjacent_list[v][k];
                let ghost queue_prev = queue@;
                queue.push(neighbor);
                proof {
                    assert(adj[v as int][k as int] == neighbor);
                    assert(neighbor < n);
                    let p = seq![v, neighbor];
                    assert(g_has_edge(adj, v, neighbor)) by {
                        assert(adj[v as int][k as int] == neighbor);
                    }
                    assert(g_is_path(adj, n, p) && p.len() >= 2 && p.first() == v && p.last()
                        == neighbor);
                    assert(reach2(adj, n, v, neighbor));
                    assert forall|kx: int| 0 <= kx < k + 1 implies queue@.contains(
                        #[trigger] adj[v as int][kx],
                    ) by {
                        if kx < k {
                            let j = choose|j: int|
                                0 <= j < queue_prev.len() && queue_prev[j] == adj[v as int][kx];
                            assert(queue@[j] == adj[v as int][kx]);
                        } else {
                            assert(queue@[queue@.len() - 1] == neighbor);
                        }
                    }
                }
                k = k + 1;
            }
            while queue.len() > 0
                invariant
                    v < n,
                    row_len == adj[v as int].len(),
                    seens@.len() == n,
                    !seens@[v as int],
                    forall|j: int|
                        0 <= j < queue@.len() ==> (#[trigger] queue@[j]) < n && reach2(
                            adj,
                            n,
                            v,
                            queue@[j],
                        ),
                    forall|u: usize| u < n && seens@[u as int] ==> reach2(adj, n, v, u),
                    forall|u: usize, kx: int|
                        u < n && seens@[u as int] && 0 <= kx < adj[u as int].len() ==> seens@[(
                        #[trigger] adj[u as int][kx]) as int] || queue@.contains(
                            adj[u as int][kx],
                        ),
                    forall|kx: int|
                        0 <= kx < row_len ==> seens@[(#[trigger] adj[v as int][kx]) as int]
                            || queue@.contains(adj[v as int][kx]),
                decreases count_false(seens@) * (g_total_deg(adj) + 1) + queue@.len(),
            {
                let ghost seens0 = seens@;
                let ghost queue0 = queue@;
                proof {
                    lemma_count_false_nonneg(seens@);
                    lemma_total_deg_nonneg(adj);
                    let c0 = count_false(seens0);
                    let dd = g_total_deg(adj);
                    assert(c0 * (dd + 1) >= 0) by (nonlinear_arith)
                        requires
                            c0 >= 0,
                            dd >= 0,
                    {}
                }
                let vertex: usize = queue.pop().unwrap();
                proof {
                    assert(vertex == queue0.last());
                    assert(queue@ == queue0.drop_last());
                }
                if vertex == v {
                    proof {
                        assert(reach2(adj, n, v, v));
                        assert(cycle_at(adj, n, v));
                        assert(g_has_cycle(adj, n));
                    }
                    return false;
                }
                if !seens[vertex] {
                    seens[vertex] = true;
                    proof {
                        lemma_count_false_update(seens0, vertex as int);
                    }
                    let vrow_len: usize = self.adjacent_list[vertex].len();
                    proof {
                        assert(adj[vertex as int] == self.adjacent_list@[vertex as int]@);
                        lemma_row_le_total_deg(adj, vertex as int);
                    }
                    let ghost queue1 = queue@;
                    proof {
                        assert forall|u: usize, kx: int|
                            u < n && seens@[u as int] && u != vertex && 0 <= kx
                                < adj[u as int].len() implies seens@[(
                            #[trigger] adj[u as int][kx]) as int] || queue1.contains(
                            adj[u as int][kx],
                        ) by {
                            let t = adj[u as int][kx];
                            if !seens@[t as int] {
                                assert(queue0.contains(t));
                                let j = choose|j: int| 0 <= j < queue0.len() && queue0[j] == t;
                                assert(t != vertex);
                                assert(j < queue0.len() - 1);
                                assert(queue1[j] == t);
                            }
                        }
                        assert forall|kx: int|
                            0 <= kx < row_len && !seens@[(#[trigger] adj[v as int][kx]) as int]
                                implies queue1.contains(adj[v as int][kx]) by {
                            let t = adj[v as int][kx];
                            assert(queue0.contains(t));
                            let j = choose|j: int| 0 <= j < queue0.len() && queue0[j] == t;
                            assert(t != vertex);
                            assert(j < queue0.len() - 1);
                            assert(queue1[j] == t);
                        }
                    }
                    let mut kk: usize = 0;
                    while kk < vrow_len
                        invariant
                            kk <= vrow_len,
                            vrow_len == adj[vertex as int].len(),
                            vertex < n,
                            vertex != v,
                            seens@ == seens0.update(vertex as int, true),
                            queue@.len() <= queue1.len() + kk,
                            queue@.len() >= queue1.len(),
                            queue@.subrange(0, queue1.len() as int) == queue1,
                            forall|j: int|
                                0 <= j < queue@.len() ==> (#[trigger] queue@[j]) < n && reach2(
                                    adj,
                                    n,
                                    v,
                                    queue@[j],
                                ),
                            forall|kx: int|
                                0 <= kx < kk ==> seens@[(#[trigger] adj[vertex as int][kx]) as int]
                                    || queue@.contains(adj[vertex as int][kx]),
                        decreases vrow_len - kk,
                    {
                        let neighbor: usize = self.adjacent_list[vertex][kk];
                        let ghost queue_prev = queue@;
                        proof {
                            assert(adj[vertex as int][kk as int] == neighbor);
                            assert(neighbor < n);
                        }
                        if !seens[neighbor] {
                            queue.push(neighbor);
                            proof {
                                assert(reach2(adj, n, v, vertex));
                                assert(g_has_edge(adj, vertex, neighbor)) by {
                                    assert(adj[vertex as int][kk as int] == neighbor);
                                }
                                lemma_reach2_step(adj, n, v, vertex, neighbor);
                            }
                        }
                        proof {
                            assert(queue@.subrange(0, queue1.len() as int)
                                =~= queue_prev.subrange(0, queue1.len() as int));
                            assert forall|kx: int|
                                0 <= kx < kk + 1 implies seens@[(
                            #[trigger] adj[vertex as int][kx]) as int] || queue@.contains(
                                adj[vertex as int][kx],
                            ) by {
                                let t = adj[vertex as int][kx];
                                if kx < kk {
                                    if !seens@[t as int] {
                                        assert(queue_prev.contains(t));
                                        let j = choose|j: int|
                                            0 <= j < queue_prev.len() && queue_prev[j] == t;
                                        assert(queue@[j] == queue_prev[j]);
                                        assert(queue@[j] == t);
                                    }
                                } else {
                                    if !seens@[neighbor as int] {
                                        assert(queue@[queue@.len() - 1] == neighbor);
                                    }
                                }
                            }
                        }
                        kk = kk + 1;
                    }
                    proof {
                        assert forall|u: usize, kx: int|
                            u < n && seens@[u as int] && 0 <= kx < adj[u as int].len() implies seens@[(
                            #[trigger] adj[u as int][kx]) as int] || queue@.contains(
                            adj[u as int][kx],
                        ) by {
                            let t = adj[u as int][kx];
                            if u != vertex && !seens@[t as int] {
                                assert(queue1.contains(t));
                                let j = choose|j: int| 0 <= j < queue1.len() && queue1[j] == t;
                                assert(queue@.subrange(0, queue1.len() as int)[j] == queue1[j]);
                                assert(queue@[j] == t);
                            }
                        }
                        assert forall|kx: int|
                            0 <= kx < row_len implies seens@[(#[trigger] adj[v as int][kx]) as int]
                            || queue@.contains(adj[v as int][kx]) by {
                            let t = adj[v as int][kx];
                            if !seens@[t as int] {
                                assert(!seens0[t as int]);
                                assert(queue1.contains(t));
                                let j = choose|j: int| 0 <= j < queue1.len() && queue1[j] == t;
                                assert(queue@.subrange(0, queue1.len() as int)[j] == queue1[j]);
                                assert(queue@[j] == t);
                            }
                        }
                        let c0 = count_false(seens0);
                        let dd = g_total_deg(adj);
                        lemma_count_false_nonneg(seens@);
                        assert((c0 - 1) * (dd + 1) == c0 * (dd + 1) - (dd + 1))
                            by (nonlinear_arith);
                    }
                } else {
                    proof {
                        assert forall|u: usize, kx: int|
                            u < n && seens@[u as int] && 0 <= kx < adj[u as int].len() implies seens@[(
                            #[trigger] adj[u as int][kx]) as int] || queue@.contains(
                            adj[u as int][kx],
                        ) by {
                            let t = adj[u as int][kx];
                            if !seens@[t as int] {
                                assert(queue0.contains(t));
                                let j = choose|j: int| 0 <= j < queue0.len() && queue0[j] == t;
                                assert(t != vertex);
                                assert(j < queue0.len() - 1);
                                assert(queue@[j] == t);
                            }
                        }
                        assert forall|kx: int|
                            0 <= kx < row_len implies seens@[(#[trigger] adj[v as int][kx]) as int]
                            || queue@.contains(adj[v as int][kx]) by {
                            let t = adj[v as int][kx];
                            if !seens@[t as int] {
                                assert(queue0.contains(t));
                                let j = choose|j: int| 0 <= j < queue0.len() && queue0[j] == t;
                                assert(t != vertex);
                                assert(j < queue0.len() - 1);
                                assert(queue@[j] == t);
                            }
                        }
                    }
                }
            }
            proof {
                if cycle_at(adj, n, v) {
                    let p = choose|p: Seq<usize>|
                        g_is_path(adj, n, p) && p.len() >= 2 && p.first() == v && p.last() == v;
                    assert(g_has_edge(adj, p[0], p[1]));
                    assert(seens@[p[1] as int]) by {
                        let kx = choose|kx: int|
                            0 <= kx < adj[v as int].len() && (#[trigger] adj[v as int][kx]) == p[1];
                        assert(seens@[p[1] as int] || queue@.contains(p[1]));
                    }
                    let p2 = p.drop_first();
                    assert forall|j: int| 0 <= j < p2.len() - 1 implies g_has_edge(
                        adj,
                        #[trigger] p2[j],
                        p2[j + 1],
                    ) by {
                        assert(g_has_edge(adj, p[j + 1], p[j + 2]));
                    }
                    assert forall|u: usize, w: usize|
                        u < n && seens@[u as int] && #[trigger] g_has_edge(adj, u, w) && w < n
                            implies seens@[w as int] by {
                        let kx = choose|kx: int|
                            0 <= kx < adj[u as int].len() && (#[trigger] adj[u as int][kx]) == w;
                        assert(seens@[w as int] || queue@.contains(w));
                    }
                    lemma_g_path_in_closed_set(adj, n, seens@, p2);
                    assert(seens@[v as int]);
                }
            }
            v = v + 1;
        }
        proof {
            if g_has_cycle(adj, n) {
                let w = choose|w: usize| w < n && cycle_at(adj, n, w);
                assert(!cycle_at(adj, n, w));
            }
        }
        true
    }

    /// Whether the nodes can be lined up so that every edge points
    /// forward, decided by consuming indegrees: true exactly when a
    /// topological order exists.  The indegree table is consumed by the
    /// run.
    pub fn is_acyclic_top_sort(&mut self) -> (r: bool)
        requires
            old(self).wf(),
            old(self).indegree_fresh(),
        ensures
            final(self).adj_view() == old(self).adj_view(),
            final(self).node_count() == old(self).node_count(),
            final(self).wf(),
            r == exists|ord: Seq<usize>|
                topo_ok(old(self).adj_view(), old(self).node_count(), ord),
    {
        let n: usize = self.num_nodes;
        let ghost adj = self.adj_view();
        let ghost mut done: Seq<bool> = Seq::new(n as nat, |i: int| false);
        let ghost mut ord: Seq<usize> = Seq::<usize>::empty();
        let mut queue: Vec<usize> = Vec::new();
        let mut i: usize = 0;
        while i < n
            invariant
                i <= n,
                queue@.no_duplicates(),
                forall|j: int|
                    0 <= j < queue@.len() ==> (#[trigger] queue@[j]) < i
                        && self.indegree@[queue@[j] as int] == 0,
                forall|u: usize|
                    u < i && self.indegree@[u as int] == 0 ==> queue@.contains(u),
            decreases n - i,
        {
            let ghost queue_prev = queue@;
            if self.indegree[i] == 0 {
                queue.push(i);
            }
            proof {
                assert forall|u: usize|
                    u < i + 1 && self.indegree@[u as int] == 0 implies queue@.contains(u) by {
                    if u < i {
                        assert(queue_prev.contains(u));
                        let j = choose|j: int| 0 <= j < queue_prev.len() && queue_prev[j] == u;
                        assert(queue@[j] == u);
                    } else {
                        assert(queue@[queue@.len() - 1] == i);
                    }
                }
                assert forall|jj: int, ll: int|
                    0 <= jj < queue@.len() && 0 <= ll < queue@.len() && jj != ll implies queue@[jj]
                    != queue@[ll] by {
                    if jj < queue_prev.len() && ll < queue_prev.len() {
                    } else if jj == queue_prev.len() {
                        assert(queue@[ll] < i);
                    } else if ll == queue_prev.len() {
                        assert(queue@[jj] < i);
                    }
                }
            }
            i = i + 1;
        }
        let mut count: usize = 0;
        while queue.len() > 0
            invariant
                self.adj_view() == adj,
                self.num_nodes == n,
                self.indegree@.len() == n,
                done.len() == n,
                ord.len() == count,
                count <= n,
                ord.no_duplicates(),
                forall|j: int|
                    0 <= j < ord.len() ==> (#[trigger] ord[j]) < n && done[ord[j] as int],
                forall|u: usize| u < n && done[u as int] ==> ord.contains(u),
                forall|t: usize|
                    t < n ==> (#[trigger] self.indegree@[t as int]) as int == remaining_in(
                        adj,
                        done,
                        t,
                        n as int,
                    ),
                queue@.no_duplicates(),
                forall|j: int|
                    0 <= j < queue@.len() ==> (#[trigger] queue@[j]) < n && !done[queue@[j] as int]
                        && self.indegree@[queue@[j] as int] == 0,
                forall|u: usize|
                    u < n && !done[u as int] && self.indegree@[u as int] == 0 ==> queue@.contains(
                        u,
                    ),
                forall|j2: int, u: usize, kx: int|
                    0 <= j2 < ord.len() && u < n && 0 <= kx < adj[u as int].len() && (
                    #[trigger] adj[u as int][kx]) == (#[trigger] ord[j2]) ==> exists|j1: int|
                        0 <= j1 < j2 && ord[j1] == u,
            decreases n - count,
        {
            let ghost queue0 = queue@;
            let ghost done0 = done;
            let ghost ord0 = ord;
            let vertex: usize = queue.pop().unwrap();
            proof {
                assert(vertex == queue0.last());
                assert(!ord.contains(vertex)) by {
                    if ord.contains(vertex) {
                        let j = choose|j: int| 0 <= j < ord.len() && ord[j] == vertex;
                        assert(done[vertex as int]);
                    }
                }
                lemma_distinct_missing(ord, n, vertex);
                // every edge into the settled node comes from an earlier
                // settled node
                assert forall|u: usize, kx: int|
                    u < n && 0 <= kx < adj[u as int].len() && (#[trigger] adj[u as int][kx])
                        == vertex implies exists|j1: int| 0 <= j1 < ord0.len() && ord0[j1] == u by {
                    if !done[u as int] {
                        lemma_remaining_in_pos(adj, done, vertex, n as int, u as int, kx);
                    }
                    let j1 = choose|j1: int| 0 <= j1 < ord0.len() && ord0[j1] == u;
                }
                done = done.update(vertex as int, true);
                ord = ord.push(vertex);
                assert forall|jj: int, ll: int|
                    0 <= jj < ord.len() && 0 <= ll < ord.len() && jj != ll implies ord[jj]
                    != ord[ll] by {
                    if jj == ord0.len() && ord[ll] == vertex {
                        assert(ord0.contains(vertex));
                    }
                    if ll == ord0.len() && ord[jj] == vertex {
                        assert(ord0.contains(vertex));
                    }
                }
                assert forall|u: usize| u < n && done[u as int] implies ord.contains(u) by {
                    if u == vertex {
                        assert(ord[ord0.len() as int] == vertex);
                    } else {
                        let j = choose|j: int| 0 <= j < ord0.len() && ord0[j] == u;
                        assert(ord[j] == u);
                    }
                }
                assert forall|t: usize| t < n implies (#[trigger] self.indegree@[t as int]) as int
                    == remaining_in(adj, done, t, n as int) + count_in_row(
                    adj[vertex as int],
                    t,
                ) by {
                    lemma_remaining_in_mark(adj, done0, t, n as int, vertex as int);
                }
                assert forall|u: usize|
                    u < n && !done[u as int] && self.indegree@[u as int] == 0
                        implies queue@.contains(u) by {
                    assert(u != vertex);
                    let j = choose|j: int| 0 <= j < queue0.len() && queue0[j] == u;
                    assert(j < queue0.len() - 1);
                    assert(queue@[j] == u);
                }
                assert forall|j2: int, u: usize, kx: int|
                    0 <= j2 < ord.len() && u < n && 0 <= kx < adj[u as int].len() && (
                    #[trigger] adj[u as int][kx]) == (#[trigger] ord[j2]) implies exists|j1: int|
                    0 <= j1 < j2 && ord[j1] == u by {
                    if j2 < ord0.len() {
                        assert(ord0[j2] == ord[j2]);
                        let j1 = choose|j1: int| 0 <= j1 < j2 && ord0[j1] == u;
                        assert(ord[j1] == u);
                    } else {
                        let j1 = choose|j1: int| 0 <= j1 < ord0.len() && ord0[j1] == u;
                        assert(ord[j1] == u);
                    }
                }
            }
            count = count + 1;
            let row_len: usize = self.adjacent_list[vertex].len();
            proof {
                assert(adj[vertex as int] == self.adjacent_list@[vertex as int]@);
                assert(adj[vertex as int].subrange(0, row_len as int) =~= adj[vertex as int]);
            }
            let mut kx: usize = 0;
            while kx < row_len
                invariant
                    kx <= row_len,
                    row_len == adj[vertex as int].len(),
                    vertex < n,
                    done[vertex as int],
                    done == done0.update(vertex as int, true),
                    ord == ord0.push(vertex),
                    ord.len() == count,
                    count <= n,
                    self.adj_view() == adj,
                    self.num_nodes == n,
                    self.indegree@.len() == n,
                    done.len() == n,
                    ord.no_duplicates(),
                    forall|j: int|
                        0 <= j < ord.len() ==> (#[trigger] ord[j]) < n && done[ord[j] as int],
                    forall|u: usize| u < n && done[u as int] ==> ord.contains(u),
                    forall|t: usize|
                        t < n ==> (#[trigger] self.indegree@[t as int]) as int == remaining_in(
                            adj,
                            done,
                            t,
                            n as int,
                        ) + count_in_row(
                            adj[vertex as int].subrange(kx as int, row_len as int),
                            t,
                        ),
                    queue@.no_duplicates(),
                    forall|j: int|
                        0 <= j < queue@.len() ==> (#[trigger] queue@[j]) < n && !done[queue@[j] as int]
                            && self.indegree@[queue@[j] as int] == 0,
                    forall|u: usize|
                        u < n && !done[u as int] && self.indegree@[u as int] == 0
                            ==> queue@.contains(u),
                    forall|j2: int, u: usize, kk2: int|
                        0 <= j2 < ord.len() && u < n && 0 <= kk2 < adj[u as int].len() && (
                        #[trigger] adj[u as int][kk2]) == (#[trigger] ord[j2]) ==> exists|j1: int|
                            0 <= j1 < j2 && ord[j1] == u,
                decreases row_len - kx,
            {
                let neighbor: usize = self.adjacent_list[vertex][kx];
                let ghost sub = adj[vertex as int].subrange(kx as int, row_len as int);
                proof {
                    assert(adj[vertex as int][kx as int] == neighbor);
                    assert(neighbor < n);
                    assert(sub[0] == neighbor);
                    lemma_count_in_row_pos(sub, neighbor, 0);
                    lemma_remaining_in_nonneg(adj, done, neighbor, n as int);
                }
                let cur: usize = self.indegree[neighbor];
                self.indegree[neighbor] = cur - 1;
                proof {
                    assert(sub.drop_first() =~= adj[vertex as int].subrange(
                        kx as int + 1,
                        row_len as int,
                    ));
                    assert forall|t: usize| t < n implies (
                    #[trigger] self.indegree@[t as int]) as int == remaining_in(
                        adj,
                        done,
                        t,
                        n as int,
                    ) + count_in_row(
                        adj[vertex as int].subrange(kx as int + 1, row_len as int),
                        t,
                    ) by {
                        lemma_count_in_row_first(sub, t);
                    }
                }
                if self.indegree[neighbor] == 0 {
                    proof {
                        assert(!done[neighbor as int]) by {
                            if neighbor == vertex {
                                // a loop on the settled node would have kept
                                // its indegree positive when it was popped
                                lemma_remaining_in_pos(
                                    adj,
                                    done0,
                                    vertex,
                                    n as int,
                                    vertex as int,
                                    kx as int,
                                );
                            } else if done[neighbor as int] {
                                // an edge into an earlier settled node must
                                // come from a node settled before it
                                let j2 = choose|j2: int|
                                    0 <= j2 < ord0.len() && ord0[j2] == neighbor;
                                assert(ord[j2] == neighbor);
                                assert(adj[vertex as int][kx as int] == ord[j2]);
                                let j1 = choose|j1: int| 0 <= j1 < j2 && ord[j1] == vertex;
                                assert(ord[ord0.len() as int] == vertex);
                            }
                        }
                        assert(!queue@.contains(neighbor)) by {
                            if queue@.contains(neighbor) {
                                let j = choose|j: int|
                                    0 <= j < queue@.len() && queue@[j] == neighbor;
                            }
                        }
                    }
                    let ghost queue_prev = queue@;
                    queue.push(neighbor);
                    proof {
                        assert forall|jj: int, ll: int|
                            0 <= jj < queue@.len() && 0 <= ll < queue@.len() && jj != ll
                                implies queue@[jj] != queue@[ll] by {
                            if jj == queue_prev.len() && queue@[ll] == neighbor {
                                assert(queue_prev.contains(neighbor));
                            }
                            if ll == queue_prev.len() && queue@[jj] == neighbor {
                                assert(queue_prev.contains(neighbor));
                            }
                        }
                        assert forall|u: usize|
                            u < n && !done[u as int] && self.indegree@[u as int] == 0
                                implies queue@.contains(u) by {
                            if u == neighbor {
                                assert(queue@[queue@.len() - 1] == neighbor);
                            } else {
                                let j = choose|j: int|
                                    0 <= j < queue_prev.len() && queue_prev[j] == u;
                                assert(queue@[j] == u);
                            }
                        }
                    }
                }
                kx = kx + 1;
            }
            proof {
                assert(adj[vertex as int].subrange(row_len as int, row_len as int) =~= Seq::<
                    usize,
                >::empty());
            }
        }
        let r: bool = n == count;
        proof {
            if count == n {
                assert(topo_ok(adj, n, ord)) by {
                    assert forall|j1: int, j2: int|
                        0 <= j1 < n && 0 <= j2 < n && #[trigger] g_has_edge(adj, ord[j1], ord[j2])
                            implies j1 < j2 by {
                        let kx = choose|kx: int|
                            0 <= kx < adj[ord[j1] as int].len() && (#[trigger] adj[ord[j1] as int][kx])
                                == ord[j2];
                        let j1b = choose|j1b: int| 0 <= j1b < j2 && ord[j1b] == ord[j1];
                        assert(j1b == j1);
                    }
                }
            } else {
                if exists|ord2: Seq<usize>| topo_ok(adj, n, ord2) {
                    let ord2 = choose|ord2: Seq<usize>| topo_ok(adj, n, ord2);
                    // some node is left unsettled
                    assert(exists|j: int|
                        0 <= j < ord2.len() && !done[(#[trigger] ord2[j]) as int]) by {
                        if forall|u: usize| u < n ==> #[trigger] done[u as int] {
                            assert(forall|u: usize| u < n ==> ord.contains(u));
                            lemma_covers_ge(ord, n);
                        } else {
                            let u = choose|u: usize| u < n && !done[u as int];
                            lemma_distinct_covers(ord2, n);
                            assert(ord2.contains(u));
                            let j = choose|j: int| 0 <= j < ord2.len() && ord2[j] == u;
                        }
                    }
                    let jm = lemma_first_undone(ord2, done, ord2.len() as int);
                    let um = ord2[jm];
                    assert(um < n && !done[um as int]);
                    assert(self.indegree@[um as int] != 0) by {
                        if self.indegree@[um as int] == 0 {
                            assert(queue@.contains(um));
                        }
                    }
                    lemma_remaining_in_witness(adj, done, um, n as int);
                    let (u2, kx2): (int, int) = choose|u2: int, kx2: int|
                        0 <= u2 < n && !done[u2] && 0 <= kx2 < adj[u2].len() && (
                        #[trigger] adj[u2][kx2]) == um;
                    let w = u2 as usize;
                    lemma_distinct_covers(ord2, n);
                    assert(ord2.contains(w));
                    let jw = choose|jw: int| 0 <= jw < ord2.len() && ord2[jw] == w;
                    assert(jw >= jm);
                    assert(g_has_edge(adj, ord2[jw], ord2[jm])) by {
                        assert(adj[ord2[jw] as int][kx2] == um);
                    }
                    assert(jw < jm);
                }
            }
        }
        r
    }

    /// The nodes reachable from `vertex` in depth-first postorder, the
    /// start node last.  A node reachable along several routes appears
    /// once per route; the traversal requires that nothing reachable from
    /// `vertex` lies on a round trip, since it would otherwise not
    /// terminate.
    pub fn depth_first_search(&self, vertex: usize) -> (visit: Vec<usize>)
        requires
            self.wf(),
            vertex < self.node_count(),
            forall|u: usize|
                u < self.node_count() && g_reaches(self.adj_view(), self.node_count(), vertex, u)
                    ==> !(#[trigger] cycle_at(self.adj_view(), self.node_count(), u)),
        ensures
            visit@.len() >= 1,
            visit@.last() == vertex,
            forall|t: usize|
                #[trigger] visit@.contains(t) <==> g_reaches(
                    self.adj_view(),
                    self.node_count(),
                    vertex,
                    t,
                ),
        decreases reach_set(self.adj_view(), self.node_count(), vertex).len(),
    {
        let n: usize = self.num_nodes;
        let ghost adj = self.adj_view();
        let row_len: usize = self.adjacent_list[vertex].len();
        proof {
            assert(adj[vertex as int] == self.adjacent_list@[vertex as int]@);
            lemma_g_reaches_self(adj, n, vertex);
        }
        if row_len == 0 {
            let mut visit: Vec<usize> = Vec::new();
            visit.push(vertex);
            proof {
                assert forall|t: usize| #[trigger] visit@.contains(t) <==> g_reaches(
                    adj,
                    n,
                    vertex,
                    t,
                ) by {
                    if g_reaches(adj, n, vertex, t) {
                        let p = choose|p: Seq<usize>|
                            g_is_path(adj, n, p) && p.first() == vertex && p.last() == t;
                        if p.len() >= 2 {
                            assert(g_has_edge(adj, p[0], p[1]));
                            let kx = choose|kx: int|
                                0 <= kx < adj[vertex as int].len() && (
                                #[trigger] adj[vertex as int][kx]) == p[1];
                            assert(false);
                        } else {
                            assert(t == vertex);
                            assert(visit@[0] == vertex);
                        }
                    }
                    if visit@.contains(t) {
                        let j = choose|j: int| 0 <= j < visit@.len() && visit@[j] == t;
                        assert(t == vertex);
                    }
                }
            }
            return visit;
        }
        let mut visit: Vec<usize> = Vec::new();
        let mut k: usize = 0;
        while k < row_len
            invariant
                k <= row_len,
                row_len == adj[vertex as int].len(),
                vertex < n,
                forall|t: usize|
                    #[trigger] visit@.contains(t) <==> exists|kx: int|
                        0 <= kx < k && g_reaches(adj, n, (#[trigger] adj[vertex as int][kx]) as usize, t),
            decreases row_len - k,
        {
            let neighbor: usize = self.adjacent_list[vertex][k];
            proof {
                assert(adj[vertex as int][k as int] == neighbor);
                assert(neighbor < n);
                assert(g_has_edge(adj, vertex, neighbor)) by {
                    assert(adj[vertex as int][k as int] == neighbor);
                }
                assert forall|u: usize|
                    u < n && g_reaches(adj, n, neighbor, u) implies !(#[trigger] cycle_at(
                    adj,
                    n,
                    u,
                )) by {
                    lemma_g_reaches_prepend(adj, n, vertex, neighbor, u);
                }
                lemma_reach_set_step(adj, n, vertex, neighbor);
            }
            let mut sub: Vec<usize> = self.depth_first_search(neighbor);
            let ghost visit0 = visit@;
            let ghost sub_view = sub@;
            visit.append(&mut sub);
            proof {
                assert(visit@ == visit0 + sub_view);
                assert forall|t: usize| #[trigger] visit@.contains(t) <==> exists|kx: int|
                    0 <= kx < k + 1 && g_reaches(
                        adj,
                        n,
                        (#[trigger] adj[vertex as int][kx]) as usize,
                        t,
                    ) by {
                    if visit@.contains(t) {
                        let j = choose|j: int| 0 <= j < visit@.len() && visit@[j] == t;
                        if j < visit0.len() {
                            assert(visit0[j] == t);
                            assert(visit0.contains(t));
                            let kx = choose|kx: int|
                                0 <= kx < k && g_reaches(
                                    adj,
                                    n,
                                    (#[trigger] adj[vertex as int][kx]) as usize,
                                    t,
                                );
                        } else {
                            assert(sub_view[j - visit0.len()] == t);
                            assert(sub_view.contains(t));
                            assert(g_reaches(adj, n, neighbor, t));
                            assert(adj[vertex as int][k as int] == neighbor);
                        }
                    }
                    if exists|kx: int|
                        0 <= kx < k + 1 && g_reaches(
                            adj,
                            n,
                            (#[trigger] adj[vertex as int][kx]) as usize,
                            t,
                        ) {
                        let kx = choose|kx: int|
                            0 <= kx < k + 1 && g_reaches(
                                adj,
                                n,
                                (#[trigger] adj[vertex as int][kx]) as usize,
                                t,
                            );
                        if kx < k {
                            assert(visit0.contains(t));
                            let j = choose|j: int| 0 <= j < visit0.len() && visit0[j] == t;
                            assert(visit@[j] == t);
                        } else {
                            assert(sub_view.contains(t));
                            let j = choose|j: int|
                                0 <= j < sub_view.len() && sub_view[j] == t;
                            assert(visit@[visit0.len() + j] == t);
                        }
                    }
                }
            }
            k = k + 1;
        }
        let ghost before_push = visit@;
        visit.push(vertex);
        proof {
            assert(visit@.last() == vertex);
            assert forall|t: usize| #[trigger] visit@.contains(t) <==> g_reaches(
                adj,
                n,
                vertex,
                t,
            ) by {
                if visit@.contains(t) {
                    let j = choose|j: int| 0 <= j < visit@.len() && visit@[j] == t;
                    if j < before_push.len() {
                        assert(before_push.contains(t));
                        let kx = choose|kx: int|
                            0 <= kx < row_len && g_reaches(
                                adj,
                                n,
                                (#[trigger] adj[vertex as int][kx]) as usize,
                                t,
                            );
                        assert(g_has_edge(adj, vertex, adj[vertex as int][kx])) by {
                            assert(adj[vertex as int][kx] == adj[vertex as int][kx]);
                        }
                        lemma_g_reaches_prepend(adj, n, vertex, adj[vertex as int][kx], t);
                    } else {
                        assert(t == vertex);
                    }
                }
                if g_reaches(adj, n, vertex, t) {
                    let p = choose|p: Seq<usize>|
                        g_is_path(adj, n, p) && p.first() == vertex && p.last() == t;
                    if p.len() == 1 {
                        assert(t == vertex);
                        assert(visit@[visit@.len() - 1] == vertex);
                    } else {
                        assert(g_has_edge(adj, p[0], p[1]));
                        let kx = choose|kx: int|
                            0 <= kx < adj[vertex as int].len() && (#[trigger] adj[vertex as int][kx])
                                == p[1];
                        let p2 = p.drop_first();
                        assert forall|j: int| 0 <= j < p2.len() - 1 implies g_has_edge(
                            adj,
                            #[trigger] p2[j],
                            p2[j + 1],
                        ) by {
                            assert(g_has_edge(adj, p[j + 1], p[j + 2]));
                        }
                        assert(g_is_path(adj, n, p2) && p2.first() == p[1] && p2.last() == t);
                        assert(g_reaches(adj, n, p[1], t));
                        assert(before_push.contains(t));
                        let j = choose|j: int|
                            0 <= j < before_push.len() && before_push[j] == t;
                        assert(visit@[j] == t);
                    }
                }
            }
        }
        visit
    }

    /// The nodes reachable from `start`, in the order this traversal
    /// settles them: `start` first, every reachable node exactly once.
    pub fn breadth_first_search(&self, start: usize) -> (visit: Vec<usize>)
        requires
            self.wf(),
            start < self.node_count(),
        ensures
            visit@.len() >= 1,
            visit@[0] == start,
            visit@.no_duplicates(),
            forall|v: usize|
                v < self.node_count() ==> (#[trigger] visit@.contains(v) <==> g_reaches(
                    self.adj_view(),
                    self.node_count(),
                    start,
                    v,
                )),
            forall|j: int| 0 <= j < visit@.len() ==> (#[trigger] visit@[j]) < self.node_count(),
    {
        let n: usize = self.num_nodes;
        let ghost adj = self.adj_view();
        let mut queue: Vec<usize> = Vec::new();
        let mut visit: Vec<usize> = Vec::new();
        let mut seens: Vec<bool> = Vec::new();
        let mut s: usize = 0;
        while s < n
            invariant
                s <= n,
                seens@.len() == s,
                forall|j: int| 0 <= j < s ==> !(#[trigger] seens@[j]),
            decreases n - s,
        {
            seens.push(false);
            s = s + 1;
        }
        queue.push(start);
        proof {
            lemma_g_reaches_self(adj, n, start);
        }
        while queue.len() > 0
            invariant
                seens@.len() == n,
                visit@.no_duplicates(),
                forall|j: int|
                    0 <= j < visit@.len() ==> (#[trigger] visit@[j]) < n && seens@[visit@[j] as int],
                forall|v: usize| v < n && seens@[v as int] ==> visit@.contains(v),
                forall|j: int|
                    0 <= j < queue@.len() ==> (#[trigger] queue@[j]) < n && g_reaches(
                        adj,
                        n,
                        start,
                        queue@[j],
                    ),
                forall|v: usize| v < n && seens@[v as int] ==> g_reaches(adj, n, start, v),
                forall|u: usize, kk: int|
                    u < n && seens@[u as int] && 0 <= kk < adj[u as int].len() ==> seens@[(
                    #[trigger] adj[u as int][kk]) as int] || queue@.contains(adj[u as int][kk]),
                visit@.len() == 0 ==> queue@ == seq![start] && !seens@[start as int],
                visit@.len() >= 1 ==> visit@[0] == start,
            decreases count_false(seens@) * (g_total_deg(adj) + 1) + queue@.len(),
        {
            let ghost seens0 = seens@;
            let ghost queue0 = queue@;
            let ghost measure0 = count_false(seens@) * (g_total_deg(adj) + 1) + queue@.len();
            proof {
                lemma_count_false_nonneg(seens@);
                lemma_total_deg_nonneg(adj);
                assert(measure0 >= 0) by (nonlinear_arith)
                    requires
                        measure0 == count_false(seens0) * (g_total_deg(adj) + 1) + queue0.len(),
                        count_false(seens0) >= 0,
                        g_total_deg(adj) >= 0,
                {}
            }
            let vertex: usize = queue.pop().unwrap();
            proof {
                assert(vertex == queue0.last());
                assert(queue@ == queue0.drop_last());
            }
            if seens[vertex] {
                // a stale copy of an already settled node
                proof {
                    assert forall|u: usize, kx: int|
                        u < n && seens@[u as int] && 0 <= kx < adj[u as int].len() implies seens@[(
                        #[trigger] adj[u as int][kx]) as int] || queue@.contains(
                        adj[u as int][kx],
                    ) by {
                        let t = adj[u as int][kx];
                        if !seens@[t as int] {
                            assert(queue0.contains(t));
                            let j = choose|j: int| 0 <= j < queue0.len() && queue0[j] == t;
                            assert(t != vertex);
                            assert(j < queue0.len() - 1);
                            assert(queue@[j] == t);
                        }
                    }
                }
            } else {
                seens[vertex] = true;
                let ghost visit0 = visit@;
                proof {
                    assert(!visit0.contains(vertex)) by {
                        if visit0.contains(vertex) {
                            let j = choose|j: int| 0 <= j < visit0.len() && visit0[j] == vertex;
                            assert(seens0[vertex as int]);
                        }
                    }
                }
                visit.push(vertex);
                proof {
                    assert forall|jj: int, ll: int|
                        0 <= jj < visit@.len() && 0 <= ll < visit@.len() && jj != ll implies visit@[jj]
                        != visit@[ll] by {
                        if jj == visit0.len() && visit@[ll] == vertex {
                            assert(visit0.contains(vertex));
                        }
                        if ll == visit0.len() && visit@[jj] == vertex {
                            assert(visit0.contains(vertex));
                        }
                    }
                    assert forall|v: usize| v < n && seens@[v as int] implies visit@.contains(v) by {
                        if v == vertex {
                            assert(visit@[visit0.len() as int] == vertex);
                        } else {
                            let j = choose|j: int| 0 <= j < visit0.len() && visit0[j] == v;
                            assert(visit@[j] == v);
                        }
                    }
                    lemma_count_false_update(seens0, vertex as int);
                }
                let row_len: usize = self.adjacent_list[vertex].len();
                proof {
                    assert(adj[vertex as int] == self.adjacent_list@[vertex as int]@);
                    lemma_row_le_total_deg(adj, vertex as int);
                }
                let ghost queue1 = queue@;
                proof {
                    // pairs aimed at other settled nodes stay covered after
                    // the pop: the popped copy was the settled node itself
                    assert forall|u: usize, kx: int|
                        u < n && seens@[u as int] && u != vertex && 0 <= kx < adj[u as int].len()
                            implies seens@[(#[trigger] adj[u as int][kx]) as int] || queue1.contains(
                        adj[u as int][kx],
                    ) by {
                        let t = adj[u as int][kx];
                        if !seens@[t as int] {
                            assert(queue0.contains(t));
                            let j = choose|j: int| 0 <= j < queue0.len() && queue0[j] == t;
                            assert(t != vertex);
                            assert(j < queue0.len() - 1);
                            assert(queue1[j] == t);
                        }
                    }
                }
                let mut kk: usize = 0;
                while kk < row_len
                    invariant
                        kk <= row_len,
                        row_len == adj[vertex as int].len(),
                        vertex < n,
                        seens@ == seens0.update(vertex as int, true),
                        queue@.len() <= queue1.len() + kk,
                        queue@.len() >= queue1.len(),
                        queue@.subrange(0, queue1.len() as int) == queue1,
                        forall|j: int|
                            0 <= j < queue@.len() ==> (#[trigger] queue@[j]) < n && g_reaches(
                                adj,
                                n,
                                start,
                                queue@[j],
                            ),
                        forall|kx: int|
                            0 <= kx < kk ==> seens@[(#[trigger] adj[vertex as int][kx]) as int]
                                || queue@.contains(adj[vertex as int][kx]),
                    decreases row_len - kk,
                {
                    let neighbor: usize = self.adjacent_list[vertex][kk];
                    let ghost queue_prev = queue@;
                    proof {
                        assert(adj[vertex as int][kk as int] == neighbor);
                        assert(neighbor < n);
                    }
                    if !seens[neighbor] {
                        queue.push(neighbor);
                        proof {
                            assert(g_reaches(adj, n, start, vertex));
                            assert(g_has_edge(adj, vertex, neighbor)) by {
                                assert(adj[vertex as int][kk as int] == neighbor);
                            }
                            lemma_g_reaches_step(adj, n, start, vertex, neighbor);
                        }
                    }
                    proof {
                        assert(queue@.subrange(0, queue1.len() as int) =~= queue_prev.subrange(
                            0,
                            queue1.len() as int,
                        ));
                        assert forall|kx: int|
                            0 <= kx < kk + 1 implies seens@[(#[trigger] adj[vertex as int][kx]) as int]
                            || queue@.contains(adj[vertex as int][kx]) by {
                            let t = adj[vertex as int][kx];
                            if kx < kk {
                                if !seens@[t as int] {
                                    assert(queue_prev.contains(t));
                                    let j = choose|j: int|
                                        0 <= j < queue_prev.len() && queue_prev[j] == t;
                                    assert(queue@[j] == queue_prev[j]);
                                    assert(queue@[j] == t);
                                }
                            } else {
                                if !seens@[neighbor as int] {
                                    assert(queue@[queue@.len() - 1] == neighbor);
                                }
                            }
                        }
                    }
                    kk = kk + 1;
                }
                proof {
                    // the settled-node closure over the grown queue
                    assert forall|u: usize, kx: int|
                        u < n && seens@[u as int] && 0 <= kx < adj[u as int].len() implies seens@[(
                        #[trigger] adj[u as int][kx]) as int] || queue@.contains(
                        adj[u as int][kx],
                    ) by {
                        let t = adj[u as int][kx];
                        if u != vertex && !seens@[t as int] {
                            assert(queue1.contains(t));
                            let j = choose|j: int| 0 <= j < queue1.len() && queue1[j] == t;
                            assert(queue@.subrange(0, queue1.len() as int)[j] == queue1[j]);
                            assert(queue@[j] == t);
                        }
                    }
                    let c0 = count_false(seens0);
                    let dd = g_total_deg(adj);
                    lemma_count_false_nonneg(seens@);
                    assert((c0 - 1) * (dd + 1) == c0 * (dd + 1) - (dd + 1)) by (nonlinear_arith);
                }
            }
        }
        proof {
            assert(visit@.len() >= 1) by {
                if visit@.len() == 0 {
                    assert(queue@ == seq![start]);
                }
            }
            assert forall|v: usize| v < n && g_reaches(adj, n, start, v) implies visit@.contains(
                v,
            ) by {
                assert forall|u: usize, v2: usize|
                    u < n && seens@[u as int] && #[trigger] g_has_edge(adj, u, v2) && v2 < n
                        implies seens@[v2 as int] by {
                    let kx = choose|kx: int|
                        0 <= kx < adj[u as int].len() && (#[trigger] adj[u as int][kx]) == v2;
                    assert(seens@[v2 as int] || queue@.contains(v2));
                }
                let p = choose|p: Seq<usize>|
                    g_is_path(adj, n, p) && p.first() == start && p.last() == v;
                assert(seens@[start as int]) by {
                    assert(visit@[0] == start);
                }
                lemma_g_path_in_closed_set(adj, n, seens@, p);
            }
        }
        visit
    }
}

proof fn lemma_remaining_in_zero(adj: Seq<Seq<usize>>, done: Seq<bool>, t: usize, ub: int)
    requires
        forall|u: int| 0 <= u < ub ==> (#[trigger] adj[u]).len() == 0,
    ensures
        remaining_in(adj, done, t, ub) == 0,
    decreases ub,
{
    if ub > 0 {
        lemma_remaining_in_zero(adj, done, t, ub - 1);
    }
}

/// Every entry of an adjacency row built by `g_adj_of` comes from one of
/// the routes, so its target is in range.
proof fn lemma_g_adj_of_targets(routes: Seq<(usize, usize)>, u: usize, k: int, n: usize)
    requires
        forall|j: int| 0 <= j < routes.len() ==> (#[trigger] routes[j]).0 < n,
        0 <= k < g_adj_of(routes, u).len(),
    ensures
        g_adj_of(routes, u)[k] < n,
    decreases routes.len(),
{
    if routes.len() > 0 {
        let init = g_adj_of(routes.drop_last(), u);
        if k < init.len() {
            lemma_g_adj_of_targets(routes.drop_last(), u, k, n);
        }
    }
}

} // verus!
