//! Single-source shortest paths over a weighted directed graph.
//!
//! The engine drives a [`PriorityQueue`] of node identifiers whose ordering
//! is the live distance table, wrapped in a [`DistanceComparator`] that is
//! handed to every heap operation.  Instead of an in-place priority update
//! the engine pushes a fresh copy of a node whenever its distance improves
//! and discards stale copies as they are popped (lazy deletion).

use vstd::prelude::*;

verus! {

use crate::priority_queue::Comparator;
use crate::priority_queue::PriorityQueue;

/// The heap strategy of the shortest-path engine: node `a` is preferred
/// over node `b` when its entry in the distance table is smaller.  A node
/// without an entry orders below every node with one.
pub struct DistanceComparator {
    distances: Vec<usize>,
}

impl View for DistanceComparator {
    type V = Seq<usize>;

    closed spec fn view(&self) -> Seq<usize> {
        self.distances@
    }
}

impl DistanceComparator {
    /// Wrap a distance table.
    pub fn new(distances: Vec<usize>) -> (c: Self)
        ensures
            c@ == distances@,
    {
        DistanceComparator { distances }
    }

    /// The number of entries of the table.
    pub fn len(&self) -> (n: usize)
        ensures
            n == self@.len(),
    {
        self.distances.len()
    }

    /// Read the entry of node `i`.
    pub fn get(&self, i: usize) -> (d: usize)
        requires
            i < self@.len(),
        ensures
            d == self@[i as int],
    {
        self.distances[i]
    }

    /// Lower the entry of node `i`.
    pub fn set(&mut self, i: usize, d: usize)
        requires
            i < old(self)@.len(),
        ensures
            final(self)@ == old(self)@.update(i as int, d),
    {
        self.distances[i] = d;
    }
}

impl Comparator<usize> for DistanceComparator {
    open spec fn prefers(&self, a: usize, b: usize) -> bool {
        if a < self@.len() && b < self@.len() {
            self@[a as int] < self@[b as int]
        } else {
            a >= self@.len() && b < self@.len()
        }
    }

    fn prefer(&self, a: &usize, b: &usize) -> (r: bool) {
        let n: usize = self.distances.len();
        if *a < n && *b < n {
            self.distances[*a] < self.distances[*b]
        } else {
            *a >= n && *b < n
        }
    }
}

/// There is an edge from `u` to `v` in the adjacency view `adj`.
pub open spec fn has_edge(adj: Seq<Seq<(usize, usize)>>, u: usize, v: usize) -> bool {
    exists|k: int| 0 <= k < adj[u as int].len() && (#[trigger] adj[u as int][k]).0 == v
}

/// There is an edge from `u` to `v` of weight `w`.
pub open spec fn has_edge_with(adj: Seq<Seq<(usize, usize)>>, u: usize, v: usize, w: usize) -> bool {
    exists|k: int|
        0 <= k < adj[u as int].len() && (#[trigger] adj[u as int][k]) == (v, w)
}

/// `p` walks through the graph: every element is a node below `n` and every
/// consecutive pair is joined by a directed edge.
pub open spec fn is_node_path(adj: Seq<Seq<(usize, usize)>>, n: usize, p: Seq<usize>) -> bool {
    &&& p.len() >= 1
    &&& forall|j: int| 0 <= j < p.len() ==> (#[trigger] p[j]) < n
    &&& forall|j: int| 0 <= j < p.len() - 1 ==> has_edge(adj, #[trigger] p[j], p[j + 1])
}

/// Node `t` can be reached from node `s` along directed edges.
pub open spec fn reaches(adj: Seq<Seq<(usize, usize)>>, n: usize, s: usize, t: usize) -> bool {
    exists|p: Seq<usize>| is_node_path(adj, n, p) && p.first() == s && p.last() == t
}

/// `p` is a walk whose step `j` uses an edge of weight `ws[j]`.
pub open spec fn is_weighted_path(
    adj: Seq<Seq<(usize, usize)>>,
    n: usize,
    p: Seq<usize>,
    ws: Seq<usize>,
) -> bool {
    &&& is_node_path(adj, n, p)
    &&& ws.len() == p.len() - 1
    &&& forall|j: int| 0 <= j < ws.len() ==> has_edge_with(adj, p[j], p[j + 1], #[trigger] ws[j])
}

/// The sum of a sequence of machine integers, as a mathematical integer.
pub open spec fn seq_sum(s: Seq<usize>) -> int
    decreases s.len(),
{
    if s.len() == 0 {
        0
    } else {
        s[0] + seq_sum(s.drop_first())
    }
}

/// The sum of the weights of one adjacency row.
pub open spec fn row_weight(row: Seq<(usize, usize)>) -> int
    decreases row.len(),
{
    if row.len() == 0 {
        0
    } else {
        row[0].1 + row_weight(row.drop_first())
    }
}

/// The sum of all edge weights of the graph.
pub open spec fn total_weight(adj: Seq<Seq<(usize, usize)>>) -> int
    decreases adj.len(),
{
    if adj.len() == 0 {
        0
    } else {
        row_weight(adj[0]) + total_weight(adj.drop_first())
    }
}

/// Every edge of every row points at a node below `n`.
pub open spec fn adj_wf(adj: Seq<Seq<(usize, usize)>>, n: usize) -> bool {
    &&& adj.len() == n
    &&& forall|u: int, k: int|
        0 <= u < n && 0 <= k < adj[u].len() ==> ((#[trigger] adj[u][k]).0 as int) < n
}

/// The adjacency row of node `u` after inserting `edges` in order: the
/// targets and weights of the edges whose source is `u`.
pub open spec fn adj_of(edges: Seq<(usize, usize, usize)>, u: usize) -> Seq<(usize, usize)>
    decreases edges.len(),
{
    if edges.len() == 0 {
        Seq::empty()
    } else {
        let init = adj_of(edges.drop_last(), u);
        let e = edges.last();
        if e.0 == u {
            init.push((e.1, e.2))
        } else {
            init
        }
    }
}

proof fn lemma_seq_sum_push(s: Seq<usize>, w: usize)
    ensures
        seq_sum(s.push(w)) == seq_sum(s) + w,
    decreases s.len(),
{
    if s.len() == 0 {
        assert(s.push(w).drop_first() =~= Seq::<usize>::empty());
        assert(seq_sum(s.push(w)) == s.push(w)[0] + seq_sum(s.push(w).drop_first()));
        assert(s.push(w)[0] == w);
    } else {
        assert(s.push(w).drop_first() =~= s.drop_first().push(w));
        lemma_seq_sum_push(s.drop_first(), w);
        assert(seq_sum(s.push(w)) == s.push(w)[0] + seq_sum(s.push(w).drop_first()));
        assert(s.push(w)[0] == s[0]);
    }
}

proof fn lemma_seq_sum_nonneg(s: Seq<usize>)
    ensures
        seq_sum(s) >= 0,
    decreases s.len(),
{
    if s.len() > 0 {
        lemma_seq_sum_nonneg(s.drop_first());
    }
}

proof fn lemma_seq_sum_concat(a: Seq<usize>, b: Seq<usize>)
    ensures
        seq_sum(a + b) == seq_sum(a) + seq_sum(b),
    decreases a.len(),
{
    if a.len() == 0 {
        assert(a + b =~= b);
    } else {
        assert((a + b).drop_first() =~= a.drop_first() + b);
        lemma_seq_sum_concat(a.drop_first(), b);
    }
}

/// A prefix of a sequence of non-negative values sums to no more than the
/// whole.
proof fn lemma_seq_sum_prefix(s: Seq<usize>, j: int)
    requires
        0 <= j <= s.len(),
    ensures
        seq_sum(s.subrange(0, j)) <= seq_sum(s),
{
    assert(s =~= s.subrange(0, j) + s.subrange(j, s.len() as int));
    lemma_seq_sum_concat(s.subrange(0, j), s.subrange(j, s.len() as int));
    lemma_seq_sum_nonneg(s.subrange(j, s.len() as int));
}

proof fn lemma_seq_sum_update(s: Seq<usize>, i: int, v: usize)
    requires
        0 <= i < s.len(),
    ensures
        seq_sum(s.update(i, v)) == seq_sum(s) - s[i] + v,
    decreases s.len(),
{
    if i == 0 {
        assert(s.update(0, v).drop_first() =~= s.drop_first());
    } else {
        assert(s.update(i, v).drop_first() =~= s.drop_first().update(i - 1, v));
        lemma_seq_sum_update(s.drop_first(), i - 1, v);
    }
}

proof fn lemma_row_weight_nonneg(row: Seq<(usize, usize)>)
    ensures
        row_weight(row) >= 0,
    decreases row.len(),
{
    if row.len() > 0 {
        lemma_row_weight_nonneg(row.drop_first());
    }
}

proof fn lemma_total_weight_nonneg(adj: Seq<Seq<(usize, usize)>>)
    ensures
        total_weight(adj) >= 0,
    decreases adj.len(),
{
    if adj.len() > 0 {
        lemma_row_weight_nonneg(adj[0]);
        lemma_total_weight_nonneg(adj.drop_first());
    }
}

/// One edge weighs no more than its whole row.
proof fn lemma_edge_le_row_weight(row: Seq<(usize, usize)>, k: int)
    requires
        0 <= k < row.len(),
    ensures
        row[k].1 <= row_weight(row),
    decreases row.len(),
{
    if k == 0 {
        lemma_row_weight_nonneg(row.drop_first());
    } else {
        lemma_edge_le_row_weight(row.drop_first(), k - 1);
    }
}

proof fn lemma_total_weight_update(adj: Seq<Seq<(usize, usize)>>, u: int, row: Seq<(usize, usize)>)
    requires
        0 <= u < adj.len(),
    ensures
        total_weight(adj.update(u, row)) == total_weight(adj) - row_weight(adj[u]) + row_weight(
            row,
        ),
    decreases adj.len(),
{
    if u == 0 {
        assert(adj.update(0, row).drop_first() =~= adj.drop_first());
    } else {
        assert(adj.update(u, row).drop_first() =~= adj.drop_first().update(u - 1, row));
        lemma_total_weight_update(adj.drop_first(), u - 1, row);
    }
}

/// A walk that never repeats a node weighs no more than all edges of the
/// graph together.
proof fn lemma_simple_path_le_total(
    adj: Seq<Seq<(usize, usize)>>,
    n: usize,
    p: Seq<usize>,
    ws: Seq<usize>,
)
    requires
        adj.len() == n,
        is_weighted_path(adj, n, p, ws),
        p.no_duplicates(),
    ensures
        seq_sum(ws) <= total_weight(adj),
    decreases p.len(),
{
    if p.len() == 1 {
        assert(ws =~= Seq::<usize>::empty());
        lemma_total_weight_nonneg(adj);
    } else {
        let u = p[0];
        let adj2 = adj.update(u as int, Seq::empty());
        let p2 = p.drop_first();
        let ws2 = ws.drop_first();
        assert(has_edge_with(adj, u, p[1], ws[0]));
        let k = choose|k: int|
            0 <= k < adj[u as int].len() && (#[trigger] adj[u as int][k]) == (p[1], ws[0]);
        lemma_edge_le_row_weight(adj[u as int], k);
        lemma_total_weight_update(adj, u as int, Seq::empty());
        lemma_row_weight_nonneg(Seq::empty());
        assert forall|j: int| 0 <= j < ws2.len() implies has_edge_with(
            adj2,
            p2[j],
            p2[j + 1],
            #[trigger] ws2[j],
        ) by {
            assert(has_edge_with(adj, p[j + 1], p[j + 2], ws[j + 1]));
            assert(p[j + 1] != u);
            assert(adj2[p2[j] as int] == adj[p2[j] as int]);
        }
        assert forall|j: int| 0 <= j < p2.len() - 1 implies has_edge(
            adj2,
            #[trigger] p2[j],
            p2[j + 1],
        ) by {
            assert(has_edge_with(adj2, p2[j], p2[j + 1], ws2[j]));
            let kk = choose|kk: int|
                0 <= kk < adj2[p2[j] as int].len() && (#[trigger] adj2[p2[j] as int][kk]) == (
                p2[j + 1],
                ws2[j],
                );
            assert((adj2[p2[j] as int][kk]).0 == p2[j + 1]);
        }
        assert(is_weighted_path(adj2, n, p2, ws2));
        lemma_simple_path_le_total(adj2, n, p2, ws2);
        assert(ws =~= seq![ws[0]] + ws2);
        lemma_seq_sum_concat(seq![ws[0]], ws2);
        assert(seq_sum(seq![ws[0]]) == ws[0]) by {
            assert(seq![ws[0]].drop_first() =~= Seq::<usize>::empty());
        }
    }
}

/// A set of nodes that holds the start of a walk and is closed under the
/// graph's edges holds its end as well.
proof fn lemma_path_in_closed_set(
    adj: Seq<Seq<(usize, usize)>>,
    n: usize,
    closed_marks: Seq<bool>,
    p: Seq<usize>,
)
    requires
        adj_wf(adj, n),
        closed_marks.len() == n,
        is_node_path(adj, n, p),
        closed_marks[p.first() as int],
        forall|u: usize, v: usize|
            u < n && closed_marks[u as int] && #[trigger] has_edge(adj, u, v) && v < n
                ==> closed_marks[v as int],
    ensures
        closed_marks[p.last() as int],
    decreases p.len(),
{
    if p.len() > 1 {
        let p2 = p.drop_first();
        assert(has_edge(adj, p[0], p[1]));
        assert(closed_marks[p[1] as int]);
        assert(p2.first() == p[1]);
        assert forall|j: int| 0 <= j < p2.len() - 1 implies has_edge(
            adj,
            #[trigger] p2[j],
            p2[j + 1],
        ) by {
            assert(has_edge(adj, p[j + 1], p[j + 2]));
        }
        lemma_path_in_closed_set(adj, n, closed_marks, p2);
        assert(p2.last() == p.last());
    }
}

/// A weighted directed graph in adjacency representation, fixed at
/// construction, together with Dijkstra's algorithm over it.
#[derive(Debug)]
pub struct Dijkstra {
    adjacent_list: Vec<Vec<(usize, usize)>>,
    num_nodes: usize,
}

impl Dijkstra {
    /// The adjacency rows: for each node, the (target, weight) pairs of its
    /// outgoing edges.
    pub closed spec fn adj_view(&self) -> Seq<Seq<(usize, usize)>> {
        self.adjacent_list@.map_values(|row: Vec<(usize, usize)>| row@)
    }

    /// The number of nodes of the graph.
    pub closed spec fn node_count(&self) -> usize {
        self.num_nodes
    }

    /// The graph is well formed: one adjacency row per node, every edge
    /// target in range.
    pub open spec fn wf(&self) -> bool {
        adj_wf(self.adj_view(), self.node_count())
    }

    /// Build the graph from `(source, target, weight)` edge triples over
    /// the nodes `0 .. num_nodes`.
    pub fn new(num_nodes: usize, edges: Vec<(usize, usize, usize)>) -> (d: Self)
        requires
            forall|j: int|
                0 <= j < edges@.len() ==> (#[trigger] edges@[j]).0 < num_nodes && edges@[j].1
                    < num_nodes,
        ensures
            d.wf(),
            d.node_count() == num_nodes,
            forall|u: usize| u < num_nodes ==> #[trigger] d.adj_view()[u as int] == adj_of(edges@, u),
    {
        let mut adjacent_list: Vec<Vec<(usize, usize)>> = Vec::new();
        let mut i: usize = 0;
        while i < num_nodes
            invariant
                i <= num_nodes,
                adjacent_list@.len() == i,
                forall|u: int| 0 <= u < i ==> (#[trigger] adjacent_list@[u])@ =~= Seq::<
                    (usize, usize),
                >::empty(),
            decreases num_nodes - i,
        {
            adjacent_list.push(Vec::new());
            i = i + 1;
        }
        let mut k: usize = 0;
        while k < edges.len()
            invariant
                k <= edges@.len(),
                adjacent_list@.len() == num_nodes,
                forall|j: int|
                    0 <= j < edges@.len() ==> (#[trigger] edges@[j]).0 < num_nodes && edges@[j].1
                        < num_nodes,
                forall|u: usize|
                    u < num_nodes ==> (#[trigger] adjacent_list@[u as int])@ == adj_of(
                        edges@.subrange(0, k as int),
                        u,
                    ),
            decreases edges@.len() - k,
        {
            let edge: (usize, usize, usize) = edges[k];
            let source: usize = edge.0;
            let ghost before = adjacent_list@.map_values(|row: Vec<(usize, usize)>| row@);
            adjacent_list[source].push((edge.1, edge.2));
            proof {
                assert forall|u: usize| u < num_nodes implies (#[trigger] adjacent_list@[u as int])@
                    == adj_of(edges@.subrange(0, k as int + 1), u) by {
                    let sub2 = edges@.subrange(0, k as int + 1);
                    assert(sub2.drop_last() =~= edges@.subrange(0, k as int));
                    assert(sub2.last() == edges@[k as int]);
                }
            }
            k = k + 1;
        }
        let d = Dijkstra { adjacent_list, num_nodes };
        proof {
            assert forall|u: usize| u < num_nodes implies #[trigger] d.adj_view()[u as int]
                == adj_of(edges@, u) by {
                assert(edges@.subrange(0, edges@.len() as int) =~= edges@);
            }
            assert forall|u: int, k2: int|
                0 <= u < num_nodes && 0 <= k2 < d.adj_view()[u].len() implies ((
            #[trigger] d.adj_view()[u][k2]).0 as int) < num_nodes by {
                lemma_adj_of_targets(edges@, u as usize, k2, num_nodes);
            }
        }
        d
    }
    /// Compute, from the source `node`, the largest finite distance the
    /// relaxation reaches and the order in which nodes were settled.
    ///
    /// Every settled node is reachable from the source, the source settles
    /// first, and the reported maximum is the weight of an actual walk from
    /// the source.  When the summed edge weights of the graph fit in a
    /// machine word, the settled nodes are exactly the reachable ones.
    /// Minimality of the individual distances is not part of this contract.
    #[verifier::loop_isolation(false)]
    #[verifier::rlimit(100)]
    pub fn shortest_path(&self, node: usize) -> (r: Option<(usize, Vec<usize>)>)
        requires
            self.wf(),
            node < self.node_count(),
        ensures
            r.is_some(),
            r matches Some((max, visit)) ==> {
                &&& visit@.len() >= 1
                &&& visit@[0] == node
                &&& visit@.no_duplicates()
                &&& forall|j: int| 0 <= j < visit@.len() ==> (#[trigger] visit@[j]) < self.node_count()
                &&& forall|v: usize|
                    #[trigger] visit@.contains(v) ==> reaches(
                        self.adj_view(),
                        self.node_count(),
                        node,
                        v,
                    )
                &&& total_weight(self.adj_view()) < usize::MAX ==> forall|v: usize|
                    v < self.node_count() ==> (visit@.contains(v) <==> reaches(
                        self.adj_view(),
                        self.node_count(),
                        node,
                        v,
                    ))
                &&& exists|p: Seq<usize>, ws: Seq<usize>|
                    is_weighted_path(self.adj_view(), self.node_count(), p, ws) && p.first()
                        == node && visit@.contains(p.last()) && seq_sum(ws) == max
                &&& forall|v: usize|
                    #[trigger] visit@.contains(v) ==> exists|p: Seq<usize>, ws: Seq<usize>|
                        is_weighted_path(self.adj_view(), self.node_count(), p, ws) && p.first()
                            == node && p.last() == v && seq_sum(ws) <= max
            },
    {
        let n: usize = self.num_nodes;
        let ghost adj = self.adj_view();
        let ghost w_total = total_weight(adj);
        let mut distances: Vec<usize> = Vec::new();
        let mut i: usize = 0;
        while i < n
            invariant
                i <= n,
                distances@.len() == i,
                forall|j: int| 0 <= j < i ==> (#[trigger] distances@[j]) == usize::MAX,
            decreases n - i,
        {
            distances.push(usize::MAX);
            i = i + 1;
        }
        distances[node] = 0;
        let mut cmp = DistanceComparator::new(distances);
        let mut heap: PriorityQueue<usize> = PriorityQueue::new();
        let mut seens: Vec<bool> = Vec::new();
        let mut s: usize = 0;
        while s < n
            invariant
                s <= n,
                seens@.len() == s,
                forall|j: int| 0 <= j < s ==> !(#[trigger] seens@[j]),
            decreases n - s,
        {
            seens.push(false);
            s = s + 1;
        }
        let mut visit: Vec<usize> = Vec::new();
        heap.push(&cmp, node);
        let ghost mut cert: Map<usize, (Seq<usize>, Seq<usize>)> = Map::empty().insert(
            node,
            (seq![node], Seq::empty()),
        );
        proof {
            assert(heap@.contains(node));
            assert(heap@ =~= seq![node]);
            assert(seq![node].first() == node);
            assert(Seq::<usize>::empty().subrange(0, 0) =~= Seq::<usize>::empty());
            assert(cert_ok(adj, n, node, cmp@, cert, node)) by {
                assert(cert[node].1.subrange(0, 0) =~= Seq::<usize>::empty());
                assert(cert[node].0[0] == node);
            }
        }
        while !heap.is_empty()
            invariant
                cmp@.len() == n,
                seens@.len() == n,
                visit@.no_duplicates(),
                forall|j: int|
                    0 <= j < visit@.len() ==> (#[trigger] visit@[j]) < n && seens@[visit@[j] as int],
                forall|v: usize| v < n && seens@[v as int] ==> visit@.contains(v),
                forall|v: usize| v < n && seens@[v as int] ==> (#[trigger] cmp@[v as int]) < usize::MAX,
                cmp@[node as int] == 0,
                forall|j: int|
                    0 <= j < heap@.len() ==> (#[trigger] heap@[j]) < n && cmp@[heap@[j] as int]
                        < usize::MAX,
                forall|v: usize|
                    v < n && (#[trigger] cmp@[v as int]) < usize::MAX && !seens@[v as int]
                        ==> heap@.contains(v),
                visit@.len() == 0 ==> heap@ == seq![node],
                visit@.len() >= 1 ==> visit@[0] == node,
                forall|v: usize|
                    v < n && (#[trigger] cmp@[v as int]) < usize::MAX ==> cert_ok(
                        adj,
                        n,
                        node,
                        cmp@,
                        cert,
                        v,
                    ),
                forall|u: usize, kk: int|
                    u < n && seens@[u as int] && 0 <= kk < adj[u as int].len() ==> ((cmp@[(
                    #[trigger] adj[u as int][kk]).0 as int]) as int) <= w_total,
            decreases seq_sum(cmp@) + heap@.len(),
        {
            let ghost heap_before = heap@;
            proof {
                lemma_seq_sum_nonneg(cmp@);
            }
            let vertex_opt: Option<usize> = heap.pop(&cmp);
            let vertex: usize = vertex_opt.unwrap();
            let ghost entry_measure = seq_sum(cmp@) + heap@.len();
            proof {
                assert forall|j: int| 0 <= j < heap@.len() implies (#[trigger] heap@[j]) < n
                    && cmp@[heap@[j] as int] < usize::MAX by {
                    assert(heap@.contains(heap@[j]));
                    assert(heap_before.contains(heap@[j]));
                    let i2 = choose|i2: int|
                        0 <= i2 < heap_before.len() && heap_before[i2] == heap@[j];
                    assert(heap_before[i2] < n);
                }
            }
            if !seens[vertex] {
                proof {
                    assert(!visit@.contains(vertex)) by {
                        if visit@.contains(vertex) {
                            let j = choose|j: int| 0 <= j < visit@.len() && visit@[j] == vertex;
                            assert(seens@[vertex as int]);
                        }
                    }
                }
                let ghost visit_before = visit@;
                let ghost seens_before = seens@;
                visit.push(vertex);
                seens[vertex] = true;
                proof {
                    assert(visit@ == visit_before.push(vertex));
                    assert forall|jj: int, ll: int|
                        0 <= jj < visit@.len() && 0 <= ll < visit@.len() && jj != ll implies visit@[jj]
                        != visit@[ll] by {
                        if jj < visit_before.len() && ll < visit_before.len() {
                        } else if jj == visit_before.len() {
                            assert(visit@[ll] == visit_before[ll]);
                            assert(visit@[jj] == vertex);
                            if visit@[ll] == vertex {
                                assert(visit_before.contains(vertex));
                            }
                        } else {
                            assert(visit@[jj] == visit_before[jj]);
                            if visit@[jj] == vertex {
                                assert(visit_before.contains(vertex));
                            }
                        }
                    }
                    assert forall|v: usize| v < n && seens@[v as int] implies visit@.contains(v) by {
                        if v == vertex {
                            assert(visit@[visit_before.len() as int] == vertex);
                        } else {
                            assert(seens_before[v as int]);
                            let j = choose|j: int|
                                0 <= j < visit_before.len() && visit_before[j] == v;
                            assert(visit@[j] == v);
                        }
                    }
                }
                let row_len: usize = self.adjacent_list[vertex].len();
                proof {
                    assert(adj[vertex as int] == self.adjacent_list@[vertex as int]@);
                }
                let mut k: usize = 0;
                while k < row_len
                    invariant
                        k <= row_len,
                        row_len == adj[vertex as int].len(),
                        vertex < n,
                        seens@[vertex as int],
                        cmp@.len() == n,
                        cmp@[node as int] == 0,
                        cmp@[vertex as int] < usize::MAX,
                        forall|v: usize|
                            v < n && seens@[v as int] ==> (#[trigger] cmp@[v as int]) < usize::MAX,
                        forall|j: int|
                            0 <= j < heap@.len() ==> (#[trigger] heap@[j]) < n && cmp@[heap@[j] as int]
                                < usize::MAX,
                        forall|v: usize|
                            v < n && (#[trigger] cmp@[v as int]) < usize::MAX && !seens@[v as int]
                                ==> heap@.contains(v),
                        forall|v: usize|
                            v < n && (#[trigger] cmp@[v as int]) < usize::MAX ==> cert_ok(
                                adj,
                                n,
                                node,
                                cmp@,
                                cert,
                                v,
                            ),
                        forall|u: usize, kk: int|
                            u < n && seens@[u as int] && u != vertex && 0 <= kk < adj[u as int].len()
                                ==> ((cmp@[(#[trigger] adj[u as int][kk]).0 as int]) as int)
                                <= w_total,
                        forall|kk: int|
                            0 <= kk < k ==> ((cmp@[(#[trigger] adj[vertex as int][kk]).0 as int]) as int)
                                <= w_total,
                        seq_sum(cmp@) + heap@.len() <= entry_measure,
                    decreases row_len - k,
                {
                    let pair: (usize, usize) = self.adjacent_list[vertex][k];
                    let neighbor: usize = pair.0;
                    let weight: usize = pair.1;
                    proof {
                        assert(adj[vertex as int][k as int] == pair);
                        assert(neighbor < n);
                    }
                    let dn: usize = cmp.get(neighbor);
                    let dv: usize = cmp.get(vertex);
                    let ghost cert_before = cert;
                    let ghost cn = cert[vertex].0;
                    let ghost cw = cert[vertex].1;
                    proof {
                        assert(cert_ok(adj, n, node, cmp@, cert, vertex));
                        lemma_simple_path_le_total(adj, n, cn, cw);
                        assert(has_edge_with(adj, vertex, neighbor, weight)) by {
                            assert(adj[vertex as int][k as int] == (neighbor, weight));
                        }
                        assert(has_edge(adj, vertex, neighbor)) by {
                            assert(adj[vertex as int][k as int].0 == neighbor);
                        }
                        if cn.contains(neighbor) {
                            let j = choose|j: int| 0 <= j < cn.len() && cn[j] == neighbor;
                            assert(cmp@[neighbor as int] <= seq_sum(cw.subrange(0, j)));
                            lemma_seq_sum_prefix(cw, j);
                            // the neighbor already lies on the source walk of
                            // `vertex`, so its distance is at most `dv`
                            assert(cmp@[neighbor as int] <= dv);
                        } else {
                            assert forall|jj: int, ll: int|
                                0 <= jj < cn.push(neighbor).len() && 0 <= ll < cn.push(
                                    neighbor,
                                ).len() && jj != ll implies cn.push(neighbor)[jj] != cn.push(
                                neighbor,
                            )[ll] by {
                                if jj < cn.len() && ll < cn.len() {
                                } else if jj == cn.len() {
                                    assert(!cn.contains(cn[ll]) ==> false);
                                } else {
                                }
                            }
                            assert(cn.push(neighbor).no_duplicates());
                            assert forall|j: int|
                                0 <= j < cw.push(weight).len() implies has_edge_with(
                                adj,
                                cn.push(neighbor)[j],
                                cn.push(neighbor)[j + 1],
                                #[trigger] cw.push(weight)[j],
                            ) by {
                                if j < cw.len() {
                                    assert(has_edge_with(adj, cn[j], cn[j + 1], cw[j]));
                                }
                            }
                            assert forall|j: int|
                                0 <= j < cn.push(neighbor).len() - 1 implies has_edge(
                                adj,
                                #[trigger] cn.push(neighbor)[j],
                                cn.push(neighbor)[j + 1],
                            ) by {
                                if j < cn.len() - 1 {
                                    assert(has_edge(adj, cn[j], cn[j + 1]));
                                }
                            }
                            assert(is_weighted_path(adj, n, cn.push(neighbor), cw.push(weight)));
                            lemma_simple_path_le_total(adj, n, cn.push(neighbor), cw.push(weight));
                            lemma_seq_sum_push(cw, weight);
                            // a fresh simple walk bounds `dv + weight` by the
                            // total weight of the graph
                            assert(dv + weight <= w_total);
                        }
                    }
                    if weight <= dn && dv < dn - weight {
                        let nd: usize = dv + weight;
                        let ghost dist_before = cmp@;
                        cmp.set(neighbor, nd);
                        proof {
                            lemma_seq_sum_update(dist_before, neighbor as int, nd);
                            cert = cert.insert(neighbor, (cn.push(neighbor), cw.push(weight)));
                            lemma_seq_sum_push(cw, weight);
                            assert(!cn.contains(neighbor));
                            assert forall|v: usize|
                                v < n && (#[trigger] cmp@[v as int]) < usize::MAX implies cert_ok(
                                adj,
                                n,
                                node,
                                cmp@,
                                cert,
                                v,
                            ) by {
                                if v == neighbor {
                                    let cn2 = cn.push(neighbor);
                                    let cw2 = cw.push(weight);
                                    assert(cn2.last() == neighbor);
                                    assert(cn2.first() == node);
                                    assert forall|j: int|
                                        0 <= j < cn2.len() implies cmp@[(#[trigger] cn2[j]) as int]
                                        <= seq_sum(cw2.subrange(0, j)) by {
                                        if j < cn.len() {
                                            assert(cn2[j] == cn[j]);
                                            assert(cn[j] != neighbor);
                                            assert(cw2.subrange(0, j) =~= cw.subrange(0, j));
                                            assert(dist_before[cn[j] as int] <= seq_sum(
                                                cw.subrange(0, j),
                                            ));
                                        } else {
                                            assert(cn2[j] == neighbor);
                                            assert(cw2.subrange(0, j) =~= cw2);
                                        }
                                    }
                                    assert(cert_ok(adj, n, node, cmp@, cert, neighbor));
                                } else {
                                    assert(cert[v] == cert_before[v]);
                                    assert(dist_before[v as int] < usize::MAX);
                                    assert(cert_ok(adj, n, node, dist_before, cert_before, v));
                                    let cnv = cert[v].0;
                                    let cwv = cert[v].1;
                                    assert forall|j: int|
                                        0 <= j < cnv.len() implies cmp@[(#[trigger] cnv[j]) as int]
                                        <= seq_sum(cwv.subrange(0, j)) by {
                                        assert(dist_before[cnv[j] as int] <= seq_sum(
                                            cwv.subrange(0, j),
                                        ));
                                        assert(cmp@[cnv[j] as int] <= dist_before[cnv[j] as int]);
                                    }
                                    assert(cert_ok(adj, n, node, cmp@, cert, v));
                                }
                            }
                        }
                        let ghost heap_mid = heap@;
                        heap.push(&cmp, neighbor);
                        proof {
                            lemma_seq_sum_nonneg(cmp@);
                            assert forall|j: int| 0 <= j < heap@.len() implies (#[trigger] heap@[j])
                                < n && cmp@[heap@[j] as int] < usize::MAX by {
                                assert(heap@.contains(heap@[j]));
                                if heap@[j] != neighbor {
                                    assert(heap_mid.contains(heap@[j]));
                                    let i2 = choose|i2: int|
                                        0 <= i2 < heap_mid.len() && heap_mid[i2] == heap@[j];
                                    assert(heap_mid[i2] < n);
                                    assert(dist_before[heap_mid[i2] as int] < usize::MAX);
                                }
                            }
                            assert forall|v: usize|
                                v < n && (#[trigger] cmp@[v as int]) < usize::MAX && !seens@[v as int]
                                    implies heap@.contains(v) by {
                                if v != neighbor {
                                    assert(dist_before[v as int] < usize::MAX);
                                    assert(heap_mid.contains(v));
                                }
                            }
                        }
                    }
                    proof {
                        assert((cmp@[neighbor as int] as int) <= w_total);
                    }
                    k = k + 1;
                }
            }
            proof {
                lemma_seq_sum_nonneg(cmp@);
            }
        }
        // scan the distance table for the largest finite entry
        let mut max: usize = 0;
        let mut found: bool = false;
        let mut t: usize = 0;
        while t < n
            invariant
                t <= n,
                found <==> exists|j: int| 0 <= j < t && (#[trigger] cmp@[j]) < usize::MAX,
                found ==> max < usize::MAX && (exists|j: int|
                    0 <= j < t && (#[trigger] cmp@[j]) == max),
                forall|j: int| 0 <= j < t && (#[trigger] cmp@[j]) < usize::MAX ==> cmp@[j] <= max,
                !found ==> max == 0,
            decreases n - t,
        {
            let d: usize = cmp.get(t);
            if d < usize::MAX {
                if !found || d > max {
                    max = d;
                }
                found = true;
            }
            t = t + 1;
        }
        proof {
            assert(cmp@[node as int] == 0);
            assert(found);
            assert(visit@.len() >= 1) by {
                if visit@.len() == 0 {
                    assert(heap@ == seq![node]);
                    assert(heap@.len() == 1);
                }
            }
            // every settled node carries a walk certificate
            assert forall|v: usize| #[trigger] visit@.contains(v) implies reaches(
                adj,
                n,
                node,
                v,
            ) by {
                let j = choose|j: int| 0 <= j < visit@.len() && visit@[j] == v;
                assert(v < n && seens@[v as int]);
                assert(cmp@[v as int] < usize::MAX);
                assert(cert_ok(adj, n, node, cmp@, cert, v));
                assert(is_node_path(adj, n, cert[v].0) && cert[v].0.first() == node
                    && cert[v].0.last() == v);
            }
            // with all weights in range, the settled set is closed under the
            // edges, so it swallows everything reachable
            if w_total < usize::MAX {
                assert forall|v: usize| v < n && reaches(adj, n, node, v) implies visit@.contains(
                    v,
                ) by {
                    assert forall|u: usize, v2: usize|
                        u < n && seens@[u as int] && #[trigger] has_edge(adj, u, v2) && v2 < n
                            implies seens@[v2 as int] by {
                        let kk = choose|kk: int|
                            0 <= kk < adj[u as int].len() && (#[trigger] adj[u as int][kk]).0 == v2;
                        assert((cmp@[v2 as int] as int) <= w_total);
                        if !seens@[v2 as int] {
                            assert(heap@.contains(v2));
                            assert(heap@.len() == 0);
                        }
                    }
                    let p = choose|p: Seq<usize>|
                        is_node_path(adj, n, p) && p.first() == node && p.last() == v;
                    assert(seens@[node as int]) by {
                        assert(visit@[0] == node);
                    }
                    lemma_path_in_closed_set(adj, n, seens@, p);
                }
            }
            // the maximum is the weight of a certificate walk
            let jm = choose|j: int| 0 <= j < n && (#[trigger] cmp@[j]) == max;
            let vm = jm as usize;
            assert(vm as int == jm);
            assert(cmp@[vm as int] < usize::MAX);
            assert(cert_ok(adj, n, node, cmp@, cert, vm));
            assert(seens@[vm as int]) by {
                if !seens@[vm as int] {
                    assert(heap@.contains(vm));
                    assert(heap@.len() == 0);
                }
            }
            assert(is_weighted_path(adj, n, cert[vm].0, cert[vm].1) && cert[vm].0.first() == node
                && visit@.contains(cert[vm].0.last()) && seq_sum(cert[vm].1) == max);
            assert forall|v: usize| #[trigger] visit@.contains(v) implies exists|
                p: Seq<usize>,
                ws: Seq<usize>,
            |
                is_weighted_path(adj, n, p, ws) && p.first() == node && p.last() == v && seq_sum(
                    ws,
                ) <= max by {
                let j = choose|j: int| 0 <= j < visit@.len() && visit@[j] == v;
                assert(v < n && seens@[v as int]);
                assert(cmp@[v as int] < usize::MAX);
                assert(cert_ok(adj, n, node, cmp@, cert, v));
                assert(is_weighted_path(adj, n, cert[v].0, cert[v].1) && cert[v].0.first() == node
                    && cert[v].0.last() == v && seq_sum(cert[v].1) <= max);
            }
        }
        if found {
            Some((max, visit))
        } else {
            None
        }
    }
}

/// The certificate of a settled or relaxed node `v`: a duplicate-free walk
/// from the source to `v` whose weight is exactly the node's entry in the
/// distance table, and whose prefixes dominate the entries of the nodes
/// they end at.
spec fn cert_ok(
    adj: Seq<Seq<(usize, usize)>>,
    n: usize,
    src: usize,
    dist: Seq<usize>,
    cert: Map<usize, (Seq<usize>, Seq<usize>)>,
    v: usize,
) -> bool {
    &&& cert.dom().contains(v)
    &&& is_weighted_path(adj, n, cert[v].0, cert[v].1)
    &&& cert[v].0.first() == src
    &&& cert[v].0.last() == v
    &&& seq_sum(cert[v].1) == dist[v as int]
    &&& cert[v].0.no_duplicates()
    &&& forall|j: int|
        0 <= j < cert[v].0.len() ==> dist[(#[trigger] cert[v].0[j]) as int] <= seq_sum(
            cert[v].1.subrange(0, j),
        )
}

/// Every entry of an adjacency row built by `adj_of` comes from one of the
/// edges, so its target is in range.
proof fn lemma_adj_of_targets(edges: Seq<(usize, usize, usize)>, u: usize, k: int, n: usize)
    requires
        forall|j: int| 0 <= j < edges.len() ==> (#[trigger] edges[j]).1 < n,
        0 <= k < adj_of(edges, u).len(),
    ensures
        adj_of(edges, u)[k].0 < n,
    decreases edges.len(),
{
    if edges.len() > 0 {
        let init = adj_of(edges.drop_last(), u);
        if k < init.len() {
            lemma_adj_of_targets(edges.drop_last(), u, k, n);
        }
    }
}

} // verus!
