use vstd::prelude::*;

use crate::graph_tools::{
    completed, condense_upto, isolate, lemma_condense_upto, matrix_edges, reroute, row_edges, square,
};
use crate::valve::Network;

verus! {

/// The length of the walk through the valves of `w` in order, if each step
/// follows a tunnel.
pub open spec fn walk_len(m: Seq<Seq<Option<u32>>>, w: Seq<int>) -> Option<nat>
    decreases w.len(),
{
    if w.len() <= 1 {
        Some(0)
    } else {
        match m[w[0]][w[1]] {
            Some(e) => match walk_len(m, w.drop_first()) {
                Some(r) => Some(e as nat + r),
                None => None,
            },
            None => None,
        }
    }
}

/// Whether `w` is a walk from `i` to `j` over valves below `n`.
pub open spec fn is_walk(w: Seq<int>, n: nat, i: int, j: int) -> bool {
    &&& w.len() >= 1
    &&& w[0] == i
    &&& w.last() == j
    &&& forall|k: int| 0 <= k < w.len() ==> 0 <= #[trigger] w[k] < n
}

/// Whether `j` can be reached from `i` by a walk of length at most `d`.
pub open spec fn reach(m: Seq<Seq<Option<u32>>>, n: nat, i: int, j: int, d: nat) -> bool {
    exists|w: Seq<int>| is_walk(w, n, i, j) && #[trigger] walk_len(m, w) is Some && walk_len(m, w)->0 <= d
}

/// Whether no detour through `v` is longer than `u32::MAX`.
pub open spec fn detours_fit(m: Seq<Seq<Option<u32>>>, v: int) -> bool {
    forall|a: int, b: int|
        0 <= a < m.len() && 0 <= b < m.len() && #[trigger] m[a][v] is Some && #[trigger] m[v][b] is Some
            ==> m[a][v]->0 + m[v][b]->0 <= u32::MAX
}

/// The network once `v` has been bypassed and removed.
pub open spec fn bypass(m: Seq<Seq<Option<u32>>>, v: int) -> Seq<Seq<Option<u32>>> {
    isolate(reroute(m, v, false), v)
}

proof fn lemma_walk_cons(m: Seq<Seq<Option<u32>>>, a: int, r: Seq<int>)
    requires
        r.len() >= 1,
    ensures
        walk_len(m, seq![a] + r) == match m[a][r[0]] {
            Some(e) => match walk_len(m, r) {
                Some(x) => Some(e as nat + x),
                None => None,
            },
            None => None::<nat>,
        },
{
    let w = seq![a] + r;
    assert(w.drop_first() =~= r);
    assert(w[1] == r[0]);
}

/// A walk in the bypassed network gives a walk in the network before, as
/// short or shorter, between the same ends.
proof fn lemma_lift(m: Seq<Seq<Option<u32>>>, n: nat, v: int, w: Seq<int>) -> (w2: Seq<int>)
    requires
        square(m, n),
        0 <= v < n,
        detours_fit(m, v),
        is_walk(w, n, w[0], w.last()),
        walk_len(bypass(m, v), w) is Some,
    ensures
        is_walk(w2, n, w[0], w.last()),
        walk_len(m, w2) is Some,
        walk_len(m, w2)->0 <= walk_len(bypass(m, v), w)->0,
    decreases w.len(),
{
    let m2 = bypass(m, v);
    if w.len() <= 1 {
        w
    } else {
        let a = w[0];
        let b = w[1];
        let rest = w.drop_first();
        assert(is_walk(rest, n, rest[0], rest.last()));
        let r2 = lemma_lift(m, n, v, rest);
        assert(r2[0] == b);
        lemma_walk_cons(m, a, r2);
        let e2 = m2[a][b]->0;
        assert(a != v && b != v);
        if m[a][v] is Some && m[v][b] is Some && a != b && (m[a][b] is None || m[a][b]->0 > e2) {
            let w2 = seq![a, v] + r2;
            assert(w2 =~= seq![a] + (seq![v] + r2));
            lemma_walk_cons(m, v, r2);
            lemma_walk_cons(m, a, seq![v] + r2);
            assert((seq![v] + r2)[0] == v);
            assert forall|k: int| 0 <= k < w2.len() implies 0 <= #[trigger] w2[k] < n by {
                if k >= 2 {
                    assert(w2[k] == r2[k - 2]);
                }
            }
            w2
        } else {
            let w2 = seq![a] + r2;
            assert forall|k: int| 0 <= k < w2.len() implies 0 <= #[trigger] w2[k] < n by {
                if k >= 1 {
                    assert(w2[k] == r2[k - 1]);
                }
            }
            w2
        }
    }
}

/// A walk in the network between two valves other than `v` gives a walk in
/// the bypassed network, as short or shorter, between the same ends.
proof fn lemma_lower(m: Seq<Seq<Option<u32>>>, n: nat, v: int, w: Seq<int>) -> (w2: Seq<int>)
    requires
        square(m, n),
        0 <= v < n,
        detours_fit(m, v),
        is_walk(w, n, w[0], w.last()),
        w[0] != v,
        w.last() != v,
        walk_len(m, w) is Some,
    ensures
        is_walk(w2, n, w[0], w.last()),
        walk_len(bypass(m, v), w2) is Some,
        walk_len(bypass(m, v), w2)->0 <= walk_len(m, w)->0,
    decreases w.len(),
{
    let m2 = bypass(m, v);
    if w.len() <= 1 {
        w
    } else {
        let a = w[0];
        let x = w[1];
        let rest = w.drop_first();
        assert(is_walk(rest, n, rest[0], rest.last()));
        if x != v {
            let r2 = lemma_lower(m, n, v, rest);
            lemma_walk_cons(m2, a, r2);
            let w2 = seq![a] + r2;
            assert forall|k: int| 0 <= k < w2.len() implies 0 <= #[trigger] w2[k] < n by {
                if k >= 1 {
                    assert(w2[k] == r2[k - 1]);
                }
            }
            w2
        } else {
            let rest2 = rest.drop_first();
            assert(w.len() >= 3);
            assert(is_walk(rest2, n, rest2[0], rest2.last()));
            let y = w[2];
            if y == v {
                let shorter = seq![a] + rest2;
                assert(shorter.drop_first() =~= rest2);
                assert(rest.drop_first() =~= rest2);
                lemma_walk_cons(m, a, rest2);
                assert(is_walk(shorter, n, a, w.last())) by {
                    assert forall|k: int| 0 <= k < shorter.len() implies 0 <= #[trigger] shorter[k] < n by {
                        if k >= 1 {
                            assert(shorter[k] == rest2[k - 1]);
                        }
                    }
                }
                lemma_lower(m, n, v, shorter)
            } else {
                assert(rest.drop_first() =~= rest2);
                let r2 = lemma_lower(m, n, v, rest2);
                if a == y {
                    r2
                } else {
                    lemma_walk_cons(m2, a, r2);
                    let w2 = seq![a] + r2;
                    assert forall|k: int| 0 <= k < w2.len() implies 0 <= #[trigger] w2[k] < n by {
                        if k >= 1 {
                            assert(w2[k] == r2[k - 1]);
                        }
                    }
                    w2
                }
            }
        }
    }
}

/// Bypassing and removing a valve `v` keeps every route between the other
/// valves: one can be reached from another within a given length exactly
/// when it could before, provided no detour through `v` overflows.
pub proof fn lemma_bypass_keeps_routes(m: Seq<Seq<Option<u32>>>, n: nat, v: int, i: int, j: int, d: nat)
    requires
        square(m, n),
        0 <= v < n,
        0 <= i < n,
        0 <= j < n,
        i != v,
        j != v,
        detours_fit(m, v),
    ensures
        reach(m, n, i, j, d) == reach(bypass(m, v), n, i, j, d),
{
    if reach(m, n, i, j, d) {
        let w = choose|w: Seq<int>| is_walk(w, n, i, j) && #[trigger] walk_len(m, w) is Some && walk_len(m, w)->0 <= d;
        let w2 = lemma_lower(m, n, v, w);
        assert(is_walk(w2, n, i, j) && walk_len(bypass(m, v), w2) is Some && walk_len(bypass(m, v), w2)->0 <= d);
    }
    if reach(bypass(m, v), n, i, j, d) {
        let w = choose|w: Seq<int>|
            is_walk(w, n, i, j) && #[trigger] walk_len(bypass(m, v), w) is Some && walk_len(bypass(m, v), w)->0 <= d;
        let w2 = lemma_lift(m, n, v, w);
        assert(is_walk(w2, n, i, j) && walk_len(m, w2) is Some && walk_len(m, w2)->0 <= d);
    }
}

/// Whether no detour overflows at any bypass of the condensation below `k`.
pub open spec fn condense_fits(g: &Network, start: int, k: nat) -> bool
    decreases k,
{
    if k == 0 {
        true
    } else {
        &&& condense_fits(g, start, (k - 1) as nat)
        &&& (g.flow(k - 1) == 0 && k - 1 != start ==> detours_fit(condense_upto(g, start, (k - 1) as nat), k - 1))
    }
}

/// Whether condensation keeps valve `i`: it releases pressure, or is `start`.
pub open spec fn kept(g: &Network, start: int, i: int) -> bool {
    g.flow(i) != 0 || i == start
}

proof fn lemma_condense_upto_keeps_routes(g: &Network, start: int, i: int, j: int, d: nat, k: nat)
    requires
        g.wf(),
        k <= g.size(),
        condense_fits(g, start, k),
        0 <= i < g.size(),
        0 <= j < g.size(),
        kept(g, start, i),
        kept(g, start, j),
    ensures
        reach(g.matrix(), g.size(), i, j, d) == reach(condense_upto(g, start, k), g.size(), i, j, d),
    decreases k,
{
    if k > 0 {
        lemma_condense_upto_keeps_routes(g, start, i, j, d, (k - 1) as nat);
        let v = k - 1;
        if g.flow(v) == 0 && v != start {
            lemma_condense_upto(g, start, (k - 1) as nat);
            lemma_bypass_keeps_routes(condense_upto(g, start, (k - 1) as nat), g.size(), v, i, j, d);
        }
    } else {
        assert(square(g.matrix(), g.size()));
    }
}

/// Condensation keeps every route between the valves it keeps: one can be
/// reached from another within a given length exactly when it could in the
/// network before, provided no detour overflows along the way.
pub proof fn lemma_condense_keeps_routes(g: &Network, start: int, i: int, j: int, d: nat)
    requires
        g.wf(),
        condense_fits(g, start, g.size()),
        0 <= i < g.size(),
        0 <= j < g.size(),
        kept(g, start, i),
        kept(g, start, j),
    ensures
        reach(g.matrix(), g.size(), i, j, d) == reach(condense_upto(g, start, g.size()), g.size(), i, j, d),
{
    lemma_condense_upto_keeps_routes(g, start, i, j, d, g.size());
}

/// Whether `x` is the length of the shortest walk from `i` to `j`, or `None`
/// where no walk joins them.
pub open spec fn is_shortest(m: Seq<Seq<Option<u32>>>, n: nat, i: int, j: int, x: Option<u32>) -> bool {
    match x {
        Some(d) => reach(m, n, i, j, d as nat) && forall|e: nat| e < d ==> !#[trigger] reach(m, n, i, j, e),
        None => forall|e: nat| !#[trigger] reach(m, n, i, j, e),
    }
}

/// The length of the shortest walk from `i` to `j`, where it fits in a
/// `u32`.
pub open spec fn shortest(m: Seq<Seq<Option<u32>>>, n: nat, i: int, j: int) -> Option<u32> {
    if exists|d: u32| is_shortest(m, n, i, j, Some(d)) {
        Some(choose|d: u32| is_shortest(m, n, i, j, Some(d)))
    } else {
        None
    }
}

/// At most one value is the shortest length.
pub proof fn lemma_shortest_unique(m: Seq<Seq<Option<u32>>>, n: nat, i: int, j: int, x: Option<u32>)
    requires
        is_shortest(m, n, i, j, x),
    ensures
        x == shortest(m, n, i, j),
{
    if let Some(d) = x {
        let c = choose|c: u32| is_shortest(m, n, i, j, Some(c));
        if c < d {
            assert(!reach(m, n, i, j, c as nat));
        }
        if d < c {
            assert(!reach(m, n, i, j, d as nat));
        }
    } else {
        if exists|d: u32| is_shortest(m, n, i, j, Some(d)) {
            let c = choose|c: u32| is_shortest(m, n, i, j, Some(c));
            assert(!reach(m, n, i, j, c as nat));
        }
    }
}

/// The shortest tunnel from `a` to `b` among `edges`, if any.
pub open spec fn listed(edges: Seq<(usize, usize, u32)>, a: int, b: int) -> Option<u32>
    decreases edges.len(),
{
    if edges.len() == 0 {
        None
    } else {
        let e = edges.last();
        let r = listed(edges.drop_last(), a, b);
        if e.0 as int == a && e.1 as int == b {
            match r {
                Some(w) => Some(if w < e.2 { w } else { e.2 }),
                None => Some(e.2),
            }
        } else {
            r
        }
    }
}

/// The matrix of the shortest listed tunnels between valves below `n`.
pub open spec fn list_matrix(edges: Seq<(usize, usize, u32)>, n: nat) -> Seq<Seq<Option<u32>>> {
    Seq::new(n, |a: int| Seq::new(n, |b: int| listed(edges, a, b)))
}

pub open spec fn shorter_of(x: Option<u32>, y: Option<u32>) -> Option<u32> {
    match (x, y) {
        (Some(p), Some(q)) => Some(if p < q { p } else { q }),
        (Some(p), None) => Some(p),
        (None, _) => y,
    }
}

proof fn lemma_listed_concat(s1: Seq<(usize, usize, u32)>, s2: Seq<(usize, usize, u32)>, a: int, b: int)
    ensures
        listed(s1 + s2, a, b) == shorter_of(listed(s1, a, b), listed(s2, a, b)),
    decreases s2.len(),
{
    if s2.len() == 0 {
        assert(s1 + s2 =~= s1);
    } else {
        assert((s1 + s2).drop_last() =~= s1 + s2.drop_last());
        assert((s1 + s2).last() == s2.last());
        lemma_listed_concat(s1, s2.drop_last(), a, b);
    }
}

proof fn lemma_row_listed(i: usize, row: Seq<Option<u32>>, a: int, b: int)
    requires
        row.len() <= usize::MAX,
    ensures
        listed(row_edges(i, row), a, b) == if a == i && 0 <= b < row.len() { row[b] } else { None },
    decreases row.len(),
{
    if row.len() > 0 {
        let r = row_edges(i, row.drop_last());
        lemma_row_listed(i, row.drop_last(), a, b);
        if let Some(w) = row.last() {
            let e = (i, (row.len() - 1) as usize, w);
            assert(r.push(e).drop_last() =~= r);
        }
    }
}

/// The tunnels listed row by row are exactly those of the matrix.
pub proof fn lemma_matrix_listed(m: Seq<Seq<Option<u32>>>, n: nat)
    requires
        square(m, n),
        n <= usize::MAX,
    ensures
        list_matrix(matrix_edges(m), n) == m,
{
    assert forall|a: int, b: int| 0 <= a < n && 0 <= b < n implies #[trigger] listed(matrix_edges(m), a, b) == m[a][b] by {
        lemma_matrix_listed_rows(m, n, m.len(), a, b);
        assert(m.take(m.len() as int) =~= m);
    }
    assert(list_matrix(matrix_edges(m), n) =~~= m);
}

proof fn lemma_matrix_listed_rows(m: Seq<Seq<Option<u32>>>, n: nat, k: nat, a: int, b: int)
    requires
        square(m, n),
        n <= usize::MAX,
        k <= n,
    ensures
        listed(matrix_edges(m.take(k as int)), a, b) == if 0 <= a < k && 0 <= b < n { m[a][b] } else { None },
    decreases k,
{
    let t = m.take(k as int);
    if k > 0 {
        assert(t.drop_last() =~= m.take(k - 1));
        lemma_matrix_listed_rows(m, n, (k - 1) as nat, a, b);
        lemma_listed_concat(matrix_edges(t.drop_last()), row_edges((t.len() - 1) as usize, t.last()), a, b);
        lemma_row_listed((k - 1) as usize, m[k - 1], a, b);
    }
}

/// Two matrices with the same routes between `i` and `j` have the same
/// shortest length between them.
proof fn lemma_same_routes_same_shortest(m1: Seq<Seq<Option<u32>>>, m2: Seq<Seq<Option<u32>>>, n: nat, i: int, j: int)
    requires
        forall|e: nat|
            #![trigger reach(m1, n, i, j, e)]
            #![trigger reach(m2, n, i, j, e)]
            reach(m1, n, i, j, e) == reach(m2, n, i, j, e),
    ensures
        shortest(m1, n, i, j) == shortest(m2, n, i, j),
{
    assert forall|x: Option<u32>| is_shortest(m1, n, i, j, x) == is_shortest(m2, n, i, j, x) by {
        if let Some(d) = x {
            assert(reach(m1, n, i, j, d as nat) == reach(m2, n, i, j, d as nat));
        }
    }
    if exists|d: u32| is_shortest(m1, n, i, j, Some(d)) {
        let d0 = choose|d: u32| is_shortest(m1, n, i, j, Some(d));
        lemma_shortest_unique(m2, n, i, j, Some(d0));
    } else {
        assert(!exists|d: u32| is_shortest(m2, n, i, j, Some(d)));
    }
}

/// Condensing and then completing the distances joins any two distinct
/// valves that condensation keeps by the length of the shortest walk between
/// them in the network as first built, provided no detour overflows.
pub proof fn lemma_condensed_distances(g: &Network, start: int, i: int, j: int)
    requires
        g.wf(),
        condense_fits(g, start, g.size()),
        0 <= i < g.size(),
        0 <= j < g.size(),
        i != j,
        kept(g, start, i),
        kept(g, start, j),
    ensures
        completed(condense_upto(g, start, g.size()))[i][j] == shortest(g.matrix(), g.size(), i, j),
{
    let c = condense_upto(g, start, g.size());
    lemma_condense_upto(g, start, g.size());
    assert forall|e: nat| #[trigger] reach(c, g.size(), i, j, e) == reach(g.matrix(), g.size(), i, j, e) by {
        lemma_condense_keeps_routes(g, start, i, j, e);
    }
    lemma_same_routes_same_shortest(c, g.matrix(), g.size(), i, j);
}

proof fn lemma_walk_join(m: Seq<Seq<Option<u32>>>, n: nat, w1: Seq<int>, w2: Seq<int>)
    requires
        w1.len() >= 1,
        w2.len() >= 1,
        w1.last() == w2[0],
        forall|k: int| 0 <= k < w1.len() ==> 0 <= #[trigger] w1[k] < n,
        forall|k: int| 0 <= k < w2.len() ==> 0 <= #[trigger] w2[k] < n,
        walk_len(m, w1) is Some,
        walk_len(m, w2) is Some,
    ensures
        is_walk(w1 + w2.drop_first(), n, w1[0], w2.last()),
        walk_len(m, w1 + w2.drop_first()) == Some(walk_len(m, w1)->0 + walk_len(m, w2)->0),
    decreases w1.len(),
{
    let t = w2.drop_first();
    let w = w1 + t;
    if w1.len() == 1 {
        assert(w =~= w2);
    } else {
        let tail = w1.drop_first();
        lemma_walk_join(m, n, tail, w2);
        assert(w =~= seq![w1[0]] + (tail + t));
        lemma_walk_cons(m, w1[0], tail + t);
        assert forall|k: int| 0 <= k < w.len() implies 0 <= #[trigger] w[k] < n by {
            if k >= w1.len() {
                assert(w[k] == w2[k - w1.len() + 1]);
            }
        }
        if t.len() == 0 {
            assert(w =~= w1);
        } else {
            assert(w.last() == t.last());
        }
    }
}

proof fn lemma_least(m: Seq<Seq<Option<u32>>>, n: nat, i: int, j: int, l: nat)
    requires
        reach(m, n, i, j, l),
    ensures
        exists|d: nat| d <= l && #[trigger] reach(m, n, i, j, d) && forall|e: nat| e < d ==> !#[trigger] reach(m, n, i, j, e),
    decreases l,
{
    if exists|e: nat| e < l && #[trigger] reach(m, n, i, j, e) {
        let e = choose|e: nat| e < l && #[trigger] reach(m, n, i, j, e);
        lemma_least(m, n, i, j, e);
    } else {
        assert(forall|e: nat| e < l ==> !#[trigger] reach(m, n, i, j, e));
    }
}

/// A tunnel from `a` to `b` is never shorter than their entry in the
/// completed matrix.
proof fn lemma_edge_shortcut(m: Seq<Seq<Option<u32>>>, n: nat, a: int, b: int)
    requires
        square(m, n),
        0 <= a < n,
        0 <= b < n,
        a != b,
        m[a][b] is Some,
    ensures
        completed(m)[a][b] is Some,
        completed(m)[a][b]->0 <= m[a][b]->0,
{
    let x = m[a][b]->0;
    let w = seq![a, b];
    assert(w.drop_first() =~= seq![b]);
    assert(is_walk(w, n, a, b));
    assert(walk_len(m, seq![b]) == Some(0nat));
    assert(walk_len(m, w) == Some(x as nat));
    lemma_least(m, n, a, b, x as nat);
    let d = choose|d: nat| d <= x && #[trigger] reach(m, n, a, b, d) && forall|e: nat| e < d ==> !#[trigger] reach(m, n, a, b, e);
    assert(is_shortest(m, n, a, b, Some(d as u32)));
    lemma_shortest_unique(m, n, a, b, Some(d as u32));
}

/// A walk in the network gives a walk in its completed matrix, as short or
/// shorter, between the same ends.
proof fn lemma_contract(m: Seq<Seq<Option<u32>>>, n: nat, w: Seq<int>) -> (w2: Seq<int>)
    requires
        square(m, n),
        is_walk(w, n, w[0], w.last()),
        walk_len(m, w) is Some,
    ensures
        is_walk(w2, n, w[0], w.last()),
        walk_len(completed(m), w2) is Some,
        walk_len(completed(m), w2)->0 <= walk_len(m, w)->0,
    decreases w.len(),
{
    if w.len() <= 1 {
        w
    } else {
        let a = w[0];
        let b = w[1];
        let rest = w.drop_first();
        assert(is_walk(rest, n, rest[0], rest.last()));
        let r2 = lemma_contract(m, n, rest);
        if a == b {
            r2
        } else {
            lemma_edge_shortcut(m, n, a, b);
            lemma_walk_cons(completed(m), a, r2);
            let w2 = seq![a] + r2;
            assert forall|k: int| 0 <= k < w2.len() implies 0 <= #[trigger] w2[k] < n by {
                if k >= 1 {
                    assert(w2[k] == r2[k - 1]);
                }
            }
            w2
        }
    }
}

/// A walk in the completed matrix gives a walk in the network, as short or
/// shorter, between the same ends.
proof fn lemma_expand(m: Seq<Seq<Option<u32>>>, n: nat, w: Seq<int>) -> (w2: Seq<int>)
    requires
        square(m, n),
        is_walk(w, n, w[0], w.last()),
        walk_len(completed(m), w) is Some,
    ensures
        is_walk(w2, n, w[0], w.last()),
        walk_len(m, w2) is Some,
        walk_len(m, w2)->0 <= walk_len(completed(m), w)->0,
    decreases w.len(),
{
    if w.len() <= 1 {
        w
    } else {
        let a = w[0];
        let b = w[1];
        let rest = w.drop_first();
        assert(is_walk(rest, n, rest[0], rest.last()));
        let r2 = lemma_expand(m, n, rest);
        let x = completed(m)[a][b]->0;
        assert(a != b);
        assert(is_shortest(m, n, a, b, Some(x)));
        let wa = choose|wa: Seq<int>| is_walk(wa, n, a, b) && #[trigger] walk_len(m, wa) is Some && walk_len(m, wa)->0 <= x;
        lemma_walk_join(m, n, wa, r2);
        wa + r2.drop_first()
    }
}

/// Completing a matrix keeps every route: one valve can be reached from
/// another within a given length exactly when it could before.
pub proof fn lemma_completed_keeps_routes(m: Seq<Seq<Option<u32>>>, n: nat, i: int, j: int, d: nat)
    requires
        square(m, n),
        0 <= i < n,
        0 <= j < n,
    ensures
        reach(m, n, i, j, d) == reach(completed(m), n, i, j, d),
{
    if reach(m, n, i, j, d) {
        let w = choose|w: Seq<int>| is_walk(w, n, i, j) && #[trigger] walk_len(m, w) is Some && walk_len(m, w)->0 <= d;
        let w2 = lemma_contract(m, n, w);
        assert(is_walk(w2, n, i, j) && walk_len(completed(m), w2) is Some && walk_len(completed(m), w2)->0 <= d);
    }
    if reach(completed(m), n, i, j, d) {
        let w = choose|w: Seq<int>|
            is_walk(w, n, i, j) && #[trigger] walk_len(completed(m), w) is Some && walk_len(completed(m), w)->0 <= d;
        let w2 = lemma_expand(m, n, w);
        assert(is_walk(w2, n, i, j) && walk_len(m, w2) is Some && walk_len(m, w2)->0 <= d);
    }
}

/// Completing the distances of a matrix that is already complete changes no
/// entry.
pub proof fn lemma_completed_idempotent(m: Seq<Seq<Option<u32>>>, n: nat)
    requires
        square(m, n),
    ensures
        completed(completed(m)) == completed(m),
{
    let c = completed(m);
    assert(square(c, n));
    assert forall|i: int, j: int| 0 <= i < n && 0 <= j < n && i != j implies #[trigger] completed(c)[i][j] == c[i][j] by {
        assert forall|e: nat|
            #![trigger reach(m, n, i, j, e)]
            #![trigger reach(c, n, i, j, e)]
            reach(m, n, i, j, e) == reach(c, n, i, j, e) by {
            lemma_completed_keeps_routes(m, n, i, j, e);
        }
        lemma_same_routes_same_shortest(c, m, n, i, j);
    }
    assert(completed(c) =~~= c);
}

} // verus!
