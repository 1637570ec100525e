use vstd::prelude::*;

use crate::routes::{is_shortest, lemma_matrix_listed, lemma_shortest_unique, list_matrix, shortest};
use crate::valve::Network;
use petgraph::algo::dijkstra;
use petgraph::graph::{Graph, NodeIndex};
use petgraph::Directed;

verus! {

/// Sum of two tunnel lengths, held to the range of `u32`.
pub open spec fn sat_add(a: u32, b: u32) -> u32 {
    if a + b > u32::MAX { u32::MAX } else { (a + b) as u32 }
}

/// Whether `m` is a square matrix of side `n`.
pub open spec fn square(m: Seq<Seq<Option<u32>>>, n: nat) -> bool {
    &&& m.len() == n
    &&& forall|i: int| 0 <= i < n ==> #[trigger] m[i].len() == n
}

/// The entry `(i, j)` once paths through `node` have been folded in: where
/// `i` reaches `node` and `node` reaches `j`, the shorter of the direct
/// tunnel and the detour.
pub open spec fn rerouted(m: Seq<Seq<Option<u32>>>, node: int, allow_self: bool, i: int, j: int) -> Option<u32> {
    if m[i][node] is Some && m[node][j] is Some && (allow_self || i != j) {
        let via = sat_add(m[i][node]->0, m[node][j]->0);
        match m[i][j] {
            Some(w) => Some(if w < via { w } else { via }),
            None => Some(via),
        }
    } else {
        m[i][j]
    }
}

pub open spec fn reroute(m: Seq<Seq<Option<u32>>>, node: int, allow_self: bool) -> Seq<Seq<Option<u32>>> {
    Seq::new(m.len(), |i: int| Seq::new(m[i].len(), |j: int| rerouted(m, node, allow_self, i, j)))
}

/// `m` with every tunnel into or out of `node` taken away.
pub open spec fn isolate(m: Seq<Seq<Option<u32>>>, node: int) -> Seq<Seq<Option<u32>>> {
    Seq::new(m.len(), |i: int| Seq::new(m[i].len(), |j: int| if i == node || j == node { None } else { m[i][j] }))
}

/// Connects every neighbour `i` of `node` to every neighbour `j` of `node`
/// by the detour through `node`, keeping an existing tunnel where it is
/// shorter. Pairs with `i == j` are left alone unless `allow_self`.
pub fn connect_neighbors_min(graph: &mut Network, node: usize, allow_self: bool)
    requires
        old(graph).wf(),
        node < old(graph).size(),
    ensures
        final(graph).wf(),
        final(graph).valves == old(graph).valves,
        final(graph).matrix() == reroute(old(graph).matrix(), node as int, allow_self),
{
    let n = graph.valves.len();
    let ghost m = graph.matrix();
    let mut dist: Vec<Vec<Option<u32>>> = Vec::new();
    let mut i: usize = 0;
    while i < n
        invariant
            graph.wf(),
            n == graph.size(),
            m == graph.matrix(),
            node < n,
            i <= n,
            dist@.len() == i,
            forall|a: int| 0 <= a < i ==> #[trigger] dist@[a]@ == reroute(m, node as int, allow_self)[a],
        decreases n - i,
    {
        let mut row: Vec<Option<u32>> = Vec::new();
        let mut j: usize = 0;
        while j < n
            invariant
                graph.wf(),
                n == graph.size(),
                m == graph.matrix(),
                node < n,
                i < n,
                j <= n,
                row@.len() == j,
                forall|b: int| 0 <= b < j ==> #[trigger] row@[b] == rerouted(m, node as int, allow_self, i as int, b),
            decreases n - j,
        {
            let direct = graph.dist[i][j];
            let mut entry = direct;
            if let Some(a) = graph.dist[i][node] {
                if let Some(b) = graph.dist[node][j] {
                    if allow_self || i != j {
                        let via = a.saturating_add(b);
                        entry = match direct {
                            Some(w) => Some(if w < via { w } else { via }),
                            None => Some(via),
                        };
                    }
                }
            }
            row.push(entry);
            j += 1;
        }
        proof {
            assert(row@ =~= reroute(m, node as int, allow_self)[i as int]);
        }
        dist.push(row);
        i += 1;
    }
    graph.dist = dist;
    proof {
        assert(graph.matrix() =~= reroute(m, node as int, allow_self));
    }
}

/// Takes every tunnel into or out of `node` away, leaving it in the network
/// as an unreachable valve.
pub fn remove_valve(graph: &mut Network, node: usize)
    requires
        old(graph).wf(),
        node < old(graph).size(),
    ensures
        final(graph).wf(),
        final(graph).valves == old(graph).valves,
        final(graph).matrix() == isolate(old(graph).matrix(), node as int),
{
    let n = graph.valves.len();
    let ghost m = graph.matrix();
    let mut dist: Vec<Vec<Option<u32>>> = Vec::new();
    let mut i: usize = 0;
    while i < n
        invariant
            graph.wf(),
            n == graph.size(),
            m == graph.matrix(),
            node < n,
            i <= n,
            dist@.len() == i,
            forall|a: int| 0 <= a < i ==> #[trigger] dist@[a]@ == isolate(m, node as int)[a],
        decreases n - i,
    {
        let mut row: Vec<Option<u32>> = Vec::new();
        let mut j: usize = 0;
        while j < n
            invariant
                graph.wf(),
                n == graph.size(),
                m == graph.matrix(),
                i < n,
                j <= n,
                row@.len() == j,
                forall|b: int| 0 <= b < j ==> #[trigger] row@[b] == (if i == node || b == node { None } else { m[i as int][b] }),
            decreases n - j,
        {
            if i == node || j == node {
                row.push(None);
            } else {
                row.push(graph.dist[i][j]);
            }
            j += 1;
        }
        proof {
            assert(row@ =~= isolate(m, node as int)[i as int]);
        }
        dist.push(row);
        i += 1;
    }
    graph.dist = dist;
    proof {
        assert(graph.matrix() =~= isolate(m, node as int));
    }
}

/// The tunnels once every valve below `k` that releases nothing, other than
/// `start`, has been bypassed and removed, in order of identifier.
pub open spec fn condense_upto(g: &Network, start: int, k: nat) -> Seq<Seq<Option<u32>>>
    decreases k,
{
    if k == 0 {
        g.matrix()
    } else {
        let m = condense_upto(g, start, (k - 1) as nat);
        let v = k - 1;
        if g.flow(v) == 0 && v != start {
            isolate(reroute(m, v, false), v)
        } else {
            m
        }
    }
}

pub proof fn lemma_condense_upto(g: &Network, start: int, k: nat)
    requires
        g.wf(),
        k <= g.size(),
    ensures
        square(condense_upto(g, start, k), g.size()),
        forall|v: int, x: int|
            0 <= v < k && 0 <= x < g.size() && g.flow(v) == 0 && v != start ==> {
                &&& (#[trigger] condense_upto(g, start, k)[v][x]) is None
                &&& condense_upto(g, start, k)[x][v] is None
            },
    decreases k,
{
    if k > 0 {
        lemma_condense_upto(g, start, (k - 1) as nat);
    }
}

/// Bypasses and removes every valve that releases nothing, except `start`.
/// Each such valve's neighbours are first joined through it by
/// `connect_neighbors_min`, so that routes through it are not lost.
pub fn condense(graph: &mut Network, start: usize)
    requires
        old(graph).wf(),
    ensures
        final(graph).wf(),
        final(graph).valves == old(graph).valves,
        final(graph).matrix() == condense_upto(old(graph), start as int, old(graph).size()),
        forall|v: int, x: int|
            0 <= v < final(graph).size() && 0 <= x < final(graph).size() && final(graph).flow(v) == 0
                && v != start ==> {
                &&& (#[trigger] final(graph).edge(v, x)) is None
                &&& final(graph).edge(x, v) is None
            },
{
    let ghost g0 = *graph;
    let n = graph.valves.len();
    let mut v: usize = 0;
    while v < n
        invariant
            graph.wf(),
            n == graph.size(),
            graph.valves == g0.valves,
            g0.wf(),
            v <= n,
            graph.matrix() == condense_upto(&g0, start as int, v as nat),
        decreases n - v,
    {
        if graph.valves[v].flow_rate == 0 && v != start {
            connect_neighbors_min(graph, v, false);
            remove_valve(graph, v);
        }
        v += 1;
    }
    proof {
        lemma_condense_upto(&g0, start as int, n as nat);
        assert forall|a: int, x: int|
            0 <= a < n && 0 <= x < n && graph.flow(a) == 0 && a != start implies {
                &&& (#[trigger] graph.edge(a, x)) is None
                &&& graph.edge(x, a) is None
            } by {
            assert(graph.edge(a, x) == graph.matrix()[a][x]);
            assert(graph.edge(x, a) == graph.matrix()[x][a]);
        }
    }
}

/// The tunnels of a matrix as `(from, to, length)` triples, row by row.
pub open spec fn matrix_edges(m: Seq<Seq<Option<u32>>>) -> Seq<(usize, usize, u32)>
    decreases m.len(),
{
    if m.len() == 0 {
        seq![]
    } else {
        matrix_edges(m.drop_last()) + row_edges((m.len() - 1) as usize, m.last())
    }
}

/// The tunnels out of valve `i`, in order of destination.
pub open spec fn row_edges(i: usize, row: Seq<Option<u32>>) -> Seq<(usize, usize, u32)>
    decreases row.len(),
{
    if row.len() == 0 {
        seq![]
    } else {
        let r = row_edges(i, row.drop_last());
        match row.last() {
            Some(w) => r.push((i, (row.len() - 1) as usize, w)),
            None => r,
        }
    }
}

/// The sum of the lengths of a list of tunnels.
pub open spec fn weight_total(edges: Seq<(usize, usize, u32)>) -> nat
    decreases edges.len(),
{
    if edges.len() == 0 {
        0
    } else {
        weight_total(edges.drop_last()) + edges.last().2 as nat
    }
}

/// Relies on petgraph::algo::dijkstra: run from `source` over the directed
/// graph that holds `node_count` nodes and `edges`, it yields the cost of the
/// cheapest path to each node that can be reached, and no entry for the
/// others. Costs are never negative, so the cheapest path is the shortest
/// walk. Scores are sums of edge weights along simple paths extended by one
/// edge, so they stay within the total weight and never overflow.
#[verifier::external_body]
fn shortest_distances(node_count: usize, edges: &Vec<(usize, usize, u32)>, source: usize) -> (r: Vec<Option<u32>>)
    requires
        source < node_count,
        forall|k: int| 0 <= k < edges@.len() ==> (#[trigger] edges@[k]).0 < node_count && edges@[k].1 < node_count,
        weight_total(edges@) <= u32::MAX,
    ensures
        r@.len() == node_count,
        forall|j: int|
            0 <= j < node_count ==> is_shortest(
                list_matrix(edges@, node_count as nat),
                node_count as nat,
                source as int,
                j,
                #[trigger] r@[j],
            ),
{
    let mut g = Graph::<(), u32, Directed, usize>::with_capacity(node_count, edges.len());
    for _ in 0..node_count {
        g.add_node(());
    }
    g.extend_with_edges(edges.iter().copied());
    let scores = dijkstra(&g, NodeIndex::new(source), None, |e| *e.weight());
    (0..node_count).map(|i| scores.get(&NodeIndex::new(i)).copied()).collect()
}

/// The complete distance matrix of `m`: each pair of distinct valves joined
/// by the length of the shortest walk between them, if there is one that
/// fits in a `u32`, and no valve joined to itself.
pub open spec fn completed(m: Seq<Seq<Option<u32>>>) -> Seq<Seq<Option<u32>>> {
    Seq::new(
        m.len(),
        |i: int|
            Seq::new(
                m.len(),
                |j: int| if i == j { None } else { shortest(m, m.len(), i, j) },
            ),
    )
}

/// Replaces the tunnels by shortest distances between every pair of valves.
/// Returns `false`, leaving the network as it was, where the tunnel lengths
/// add up to more than `u32::MAX`, so that a distance might not fit.
pub fn complete_distances(graph: &mut Network) -> (r: bool)
    requires
        old(graph).wf(),
    ensures
        final(graph).wf(),
        final(graph).valves == old(graph).valves,
        r == (weight_total(matrix_edges(old(graph).matrix())) <= u32::MAX),
        r ==> final(graph).matrix() == completed(old(graph).matrix()),
        !r ==> final(graph).matrix() == old(graph).matrix(),
{
    let n = graph.valves.len();
    let ghost m = graph.matrix();
    let mut edges: Vec<(usize, usize, u32)> = Vec::new();
    let mut total: u64 = 0;
    let mut i: usize = 0;
    while i < n
        invariant
            graph.wf(),
            n == graph.size(),
            m == graph.matrix(),
            square(m, n as nat),
            i <= n,
            edges@ == matrix_edges(m.take(i as int)),
            total == if weight_total(edges@) > u32::MAX { u32::MAX as nat + 1 } else { weight_total(edges@) },
            forall|k: int| 0 <= k < edges@.len() ==> (#[trigger] edges@[k]).0 < n && edges@[k].1 < n,
        decreases n - i,
    {
        let ghost before = edges@;
        let mut j: usize = 0;
        while j < n
            invariant
                graph.wf(),
                n == graph.size(),
                m == graph.matrix(),
                square(m, n as nat),
                i < n,
                j <= n,
                edges@ == before + row_edges(i, m[i as int].take(j as int)),
                total == if weight_total(edges@) > u32::MAX { u32::MAX as nat + 1 } else { weight_total(edges@) },
                forall|k: int| 0 <= k < edges@.len() ==> (#[trigger] edges@[k]).0 < n && edges@[k].1 < n,
            decreases n - j,
        {
            proof {
                assert(m[i as int].take(j as int + 1).drop_last() =~= m[i as int].take(j as int));
            }
            if let Some(w) = graph.dist[i][j] {
                let ghost prev = edges@;
                edges.push((i, j, w));
                proof {
                    assert(edges@.drop_last() =~= prev);
                    assert(edges@ =~= before + row_edges(i, m[i as int].take(j as int + 1)));
                }
                total = if total + (w as u64) > u32::MAX as u64 { u32::MAX as u64 + 1 } else { total + w as u64 };
            } else {
                proof {
                    assert(edges@ =~= before + row_edges(i, m[i as int].take(j as int + 1)));
                }
            }
            j += 1;
        }
        proof {
            assert(m[i as int].take(n as int) =~= m[i as int]);
            assert(m.take(i as int + 1).drop_last() =~= m.take(i as int));
        }
        i += 1;
    }
    proof {
        assert(m.take(n as int) =~= m);
    }
    if total > u32::MAX as u64 {
        return false;
    }
    proof {
        lemma_matrix_listed(m, n as nat);
    }
    let mut dist: Vec<Vec<Option<u32>>> = Vec::new();
    let mut s: usize = 0;
    while s < n
        invariant
            graph.wf(),
            n == graph.size(),
            m == graph.matrix(),
            square(m, n as nat),
            s <= n,
            edges@ == matrix_edges(m),
            list_matrix(matrix_edges(m), n as nat) == m,
            weight_total(edges@) <= u32::MAX,
            forall|k: int| 0 <= k < edges@.len() ==> (#[trigger] edges@[k]).0 < n && edges@[k].1 < n,
            dist@.len() == s,
            forall|a: int| 0 <= a < s ==> #[trigger] dist@[a]@ == completed(m)[a],
        decreases n - s,
    {
        let found = shortest_distances(n, &edges, s);
        let mut row: Vec<Option<u32>> = Vec::new();
        let mut j: usize = 0;
        while j < n
            invariant
                n == graph.size(),
                m.len() == n,
                s < n,
                j <= n,
                found@.len() == n,
                forall|b: int| 0 <= b < n ==> is_shortest(m, n as nat, s as int, b, #[trigger] found@[b]),
                row@.len() == j,
                forall|b: int| 0 <= b < j ==> #[trigger] row@[b] == completed(m)[s as int][b],
            decreases n - j,
        {
            if j == s {
                row.push(None);
            } else {
                proof {
                    lemma_shortest_unique(m, n as nat, s as int, j as int, found@[j as int]);
                }
                row.push(found[j]);
            }
            j += 1;
        }
        proof {
            assert(row@ =~= completed(m)[s as int]);
        }
        dist.push(row);
        s += 1;
    }
    graph.dist = dist;
    proof {
        assert(graph.matrix() =~= completed(m));
    }
    true
}

} // verus!
