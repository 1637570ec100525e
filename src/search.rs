use vstd::prelude::*;

use crate::valve::Network;

verus! {

/// Number of valves not yet claimed.
pub open spec fn unvisited(vis: Seq<bool>) -> nat
    decreases vis.len(),
{
    if vis.len() == 0 {
        0
    } else {
        unvisited(vis.drop_last()) + if vis.last() { 0nat } else { 1nat }
    }
}

/// Claiming an unclaimed valve lowers the count of unclaimed ones by one.
pub proof fn lemma_unvisited_claim(vis: Seq<bool>, j: int)
    requires
        0 <= j < vis.len(),
        !vis[j],
    ensures
        unvisited(vis.update(j, true)) + 1 == unvisited(vis),
    decreases vis.len(),
{
    let w = vis.update(j, true);
    if j == vis.len() - 1 {
        assert(w.drop_last() =~= vis.drop_last());
    } else {
        assert(w.drop_last() =~= vis.drop_last().update(j, true));
        lemma_unvisited_claim(vis.drop_last(), j);
    }
}

/// The time an agent at `cur` with `time` left still has once it has walked
/// to valve `j` and opened it, if `j` is unclaimed, joined to `cur` and
/// within reach.
pub open spec fn arrival(g: &Network, vis: Seq<bool>, cur: int, time: nat, j: int) -> Option<nat> {
    if 0 <= cur < g.size() && 0 <= j < g.size() && j < vis.len() && !vis[j] && g.edge(cur, j) is Some
        && g.edge(cur, j)->0 + g.turn(j) <= time {
        Some((time - g.edge(cur, j)->0 - g.turn(j)) as nat)
    } else {
        None
    }
}

/// The best pressure one agent at `cur` can release when its first move is
/// restricted to valves below `k`.
pub open spec fn best_among(g: &Network, vis: Seq<bool>, cur: int, time: nat, k: nat) -> nat
    decreases unvisited(vis), k,
{
    if k == 0 {
        0
    } else {
        let j = k - 1;
        let rest = best_among(g, vis, cur, time, (k - 1) as nat);
        match arrival(g, vis, cur, time, j) {
            Some(left) => {
                proof {
                    lemma_unvisited_claim(vis, j);
                }
                let here = left * g.flow(j) + best_among(g, vis.update(j, true), j, left, g.size());
                if here > rest { here } else { rest }
            },
            None => rest,
        }
    }
}

/// The greatest pressure one agent at `cur` with `time` left can release,
/// opening each unclaimed valve at most once.
pub open spec fn best_single(g: &Network, vis: Seq<bool>, cur: int, time: nat) -> nat {
    best_among(g, vis, cur, time, g.size())
}

/// The best pressure two agents, at `c1` and `c2`, can release together when
/// the next move, made by either agent alone, goes to a valve below `k`.
/// Claiming a valve makes it unavailable to both agents.
pub open spec fn best_pair_among(
    g: &Network,
    vis: Seq<bool>,
    c1: int,
    t1: nat,
    c2: int,
    t2: nat,
    k: nat,
) -> nat
    decreases unvisited(vis), k,
{
    if k == 0 {
        0
    } else {
        let j = k - 1;
        let rest = best_pair_among(g, vis, c1, t1, c2, t2, (k - 1) as nat);
        let first = match arrival(g, vis, c1, t1, j) {
            Some(left) => {
                proof {
                    lemma_unvisited_claim(vis, j);
                }
                left * g.flow(j) + best_pair_among(g, vis.update(j, true), j, left, c2, t2, g.size())
            },
            None => 0,
        };
        let second = match arrival(g, vis, c2, t2, j) {
            Some(left) => {
                proof {
                    lemma_unvisited_claim(vis, j);
                }
                left * g.flow(j) + best_pair_among(g, vis.update(j, true), c1, t1, j, left, g.size())
            },
            None => 0,
        };
        let here = if first > second { first } else { second };
        if here > rest { here } else { rest }
    }
}

/// The greatest pressure two agents can release together, each opening only
/// valves that neither has claimed; at any step either agent may move while
/// the other waits.
pub open spec fn best_pair(g: &Network, vis: Seq<bool>, c1: int, t1: nat, c2: int, t2: nat) -> nat {
    best_pair_among(g, vis, c1, t1, c2, t2, g.size())
}

/// A value held to the range of `u32`.
pub open spec fn cap(x: nat) -> u32 {
    if x > u32::MAX { u32::MAX } else { x as u32 }
}

fn cap_sum(gain: u32, flow: u32, rest: u32) -> (r: u32)
    ensures
        r == cap(gain as nat * flow as nat + rest as nat),
{
    proof {
        assert(gain as nat * flow as nat <= u32::MAX as nat * u32::MAX as nat) by (nonlinear_arith);
    }
    let total: u64 = (gain as u64) * (flow as u64) + rest as u64;
    if total > u32::MAX as u64 {
        u32::MAX
    } else {
        total as u32
    }
}

/// The greatest pressure one agent standing at `current` with `time` left can
/// release, visiting only valves that `visited` leaves unclaimed. Results
/// above `u32::MAX` are reported as `u32::MAX`.
pub fn visit_max_pressures(graph: &Network, visited: &mut Vec<bool>, current: usize, time: u32) -> (r: u32)
    requires
        graph.wf(),
        old(visited)@.len() == graph.size(),
        current < graph.size(),
    ensures
        final(visited)@ == old(visited)@,
        r == cap(best_single(graph, old(visited)@, current as int, time as nat)),
    decreases unvisited(old(visited)@),
{
    let ghost vis0 = visited@;
    let n = graph.valves.len();
    let mut pressure: u32 = 0;
    let mut j: usize = 0;
    while j < n
        invariant
            graph.wf(),
            n == graph.size(),
            current < n,
            j <= n,
            visited@ == vis0,
            vis0.len() == n,
            vis0 == old(visited)@,
            pressure == cap(best_among(graph, vis0, current as int, time as nat, j as nat)),
        decreases n - j,
    {
        if !visited[j] {
            if let Some(d) = graph.dist[current][j] {
                if let Some(t) = time.checked_sub(d) {
                    if let Some(left) = t.checked_sub(graph.valves[j].turn_time) {
                        proof {
                            lemma_unvisited_claim(vis0, j as int);
                        }
                        visited.set(j, true);
                        let sub = visit_max_pressures(graph, visited, j, left);
                        visited.set(j, false);
                        proof {
                            assert(visited@ =~= vis0);
                        }
                        let here = cap_sum(left, graph.valves[j].flow_rate, sub);
                        if here > pressure {
                            pressure = here;
                        }
                    }
                }
            }
        }
        j += 1;
    }
    pressure
}

/// The greatest pressure two agents, one at `current1` with `time1` left and
/// one at `current2` with `time2` left, can release together, visiting only
/// valves that `visited` leaves unclaimed. Each move is made by one agent
/// while the other waits. Results above `u32::MAX` are reported as
/// `u32::MAX`.
pub fn visit_max_pressures_2(
    graph: &Network,
    visited: &mut Vec<bool>,
    current1: usize,
    time1: u32,
    current2: usize,
    time2: u32,
) -> (r: u32)
    requires
        graph.wf(),
        old(visited)@.len() == graph.size(),
        current1 < graph.size(),
        current2 < graph.size(),
    ensures
        final(visited)@ == old(visited)@,
        r == cap(best_pair(graph, old(visited)@, current1 as int, time1 as nat, current2 as int, time2 as nat)),
    decreases unvisited(old(visited)@),
{
    let ghost vis0 = visited@;
    let n = graph.valves.len();
    let mut pressure: u32 = 0;
    let mut j: usize = 0;
    while j < n
        invariant
            graph.wf(),
            n == graph.size(),
            current1 < n,
            current2 < n,
            j <= n,
            visited@ == vis0,
            vis0.len() == n,
            vis0 == old(visited)@,
            pressure == cap(best_pair_among(graph, vis0, current1 as int, time1 as nat, current2 as int, time2 as nat, j as nat)),
        decreases n - j,
    {
        if !visited[j] {
            proof {
                lemma_unvisited_claim(vis0, j as int);
            }
            let mut first: u32 = 0;
            if let Some(d) = graph.dist[current1][j] {
                if let Some(t) = time1.checked_sub(d) {
                    if let Some(left) = t.checked_sub(graph.valves[j].turn_time) {
                        visited.set(j, true);
                        let sub = visit_max_pressures_2(graph, visited, j, left, current2, time2);
                        visited.set(j, false);
                        proof {
                            assert(visited@ =~= vis0);
                        }
                        first = cap_sum(left, graph.valves[j].flow_rate, sub);
                    }
                }
            }
            let mut second: u32 = 0;
            if let Some(d) = graph.dist[current2][j] {
                if let Some(t) = time2.checked_sub(d) {
                    if let Some(left) = t.checked_sub(graph.valves[j].turn_time) {
                        visited.set(j, true);
                        let sub = visit_max_pressures_2(graph, visited, current1, time1, j, left);
                        visited.set(j, false);
                        proof {
                            assert(visited@ =~= vis0);
                        }
                        second = cap_sum(left, graph.valves[j].flow_rate, sub);
                    }
                }
            }
            if first > pressure {
                pressure = first;
            }
            if second > pressure {
                pressure = second;
            }
        }
        j += 1;
    }
    pressure
}

proof fn lemma_among_monotone(g: &Network, vis: Seq<bool>, cur: int, t1: nat, t2: nat, k: nat)
    requires
        t1 <= t2,
    ensures
        best_among(g, vis, cur, t1, k) <= best_among(g, vis, cur, t2, k),
    decreases unvisited(vis), k,
{
    if k > 0 {
        let j = k - 1;
        lemma_among_monotone(g, vis, cur, t1, t2, (k - 1) as nat);
        if let Some(l1) = arrival(g, vis, cur, t1, j) {
            let l2 = arrival(g, vis, cur, t2, j)->0;
            let f = g.flow(j);
            lemma_unvisited_claim(vis, j);
            lemma_among_monotone(g, vis.update(j, true), j, l1, l2, g.size());
            assert(l1 * f <= l2 * f) by (nonlinear_arith)
                requires
                    l1 <= l2,
            ;
        }
    }
}

/// With more time, one agent can release at least as much pressure: every
/// plan that fits the smaller budget fits the larger one and releases at
/// least as much.
pub proof fn lemma_single_monotone(g: &Network, vis: Seq<bool>, cur: int, t1: nat, t2: nat)
    requires
        t1 <= t2,
    ensures
        best_single(g, vis, cur, t1) <= best_single(g, vis, cur, t2),
{
    lemma_among_monotone(g, vis, cur, t1, t2, g.size());
}

proof fn lemma_pair_covers_among(g: &Network, vis: Seq<bool>, c1: int, t1: nat, c2: int, t2: nat, k: nat)
    ensures
        best_among(g, vis, c1, t1, k) <= best_pair_among(g, vis, c1, t1, c2, t2, k),
    decreases unvisited(vis), k,
{
    if k > 0 {
        let j = k - 1;
        lemma_pair_covers_among(g, vis, c1, t1, c2, t2, (k - 1) as nat);
        if let Some(left) = arrival(g, vis, c1, t1, j) {
            lemma_unvisited_claim(vis, j);
            lemma_pair_covers_among(g, vis.update(j, true), j, left, c2, t2, g.size());
        }
    }
}

/// Two agents release at least as much as the first of them alone: the
/// second can always wait while the first follows its own best plan.
pub proof fn lemma_pair_covers_single(g: &Network, vis: Seq<bool>, c1: int, t1: nat, c2: int, t2: nat)
    ensures
        best_single(g, vis, c1, t1) <= best_pair(g, vis, c1, t1, c2, t2),
{
    lemma_pair_covers_among(g, vis, c1, t1, c2, t2, g.size());
}

/// Two agents starting together with the same budget release at least as
/// much pressure as one agent with that budget.
pub proof fn lemma_pair_at_least_single(g: &Network, vis: Seq<bool>, start: int, time: nat)
    ensures
        best_single(g, vis, start, time) <= best_pair(g, vis, start, time, start, time),
{
    lemma_pair_covers_single(g, vis, start, time, start, time);
}

} // verus!
