use vstd::prelude::*;

use crate::search::{
    arrival, best_among, best_pair, best_pair_among, best_single, lemma_unvisited_claim, unvisited,
};
use crate::valve::Network;

verus! {

/// The pressure one agent at `cur` with `time` left releases by opening the
/// valves of `plan` in order, if each is a legal move: unclaimed when it is
/// reached, joined to the previous position and within the time left.
pub open spec fn plan_value(g: &Network, vis: Seq<bool>, cur: int, time: nat, plan: Seq<int>) -> Option<nat>
    decreases plan.len(),
{
    if plan.len() == 0 {
        Some(0)
    } else {
        let j = plan[0];
        match arrival(g, vis, cur, time, j) {
            Some(left) => match plan_value(g, vis.update(j, true), j, left, plan.drop_first()) {
                Some(v) => Some(left * g.flow(j) + v),
                None => None,
            },
            None => None,
        }
    }
}

/// Whether no valve of `plan` is claimed in `vis`, and each lies within it.
pub open spec fn all_unclaimed(vis: Seq<bool>, plan: Seq<int>) -> bool {
    forall|i: int| 0 <= i < plan.len() ==> 0 <= #[trigger] plan[i] < vis.len() && !vis[plan[i]]
}

/// A legal plan of one agent opens each valve at most once and never one
/// that was claimed before it set out.
pub proof fn lemma_plan_no_revisit(g: &Network, vis: Seq<bool>, cur: int, time: nat, plan: Seq<int>)
    requires
        plan_value(g, vis, cur, time, plan) is Some,
    ensures
        plan.no_duplicates(),
        all_unclaimed(vis, plan),
    decreases plan.len(),
{
    if plan.len() > 0 {
        let j = plan[0];
        let left = arrival(g, vis, cur, time, j)->0;
        let rest = plan.drop_first();
        let vis2 = vis.update(j, true);
        lemma_plan_no_revisit(g, vis2, j, left, rest);
        assert forall|a: int| 0 <= a < plan.len() implies 0 <= #[trigger] plan[a] < vis.len() && !vis[plan[a]] by {
            if a > 0 {
                assert(plan[a] == rest[a - 1]);
                assert(vis2[rest[a - 1]] == vis[rest[a - 1]]);
            }
        }
        assert forall|a: int, b: int| 0 <= a < plan.len() && 0 <= b < plan.len() && a != b implies plan[a] != plan[b] by {
            if a > 0 && b > 0 {
                assert(plan[a] == rest[a - 1] && plan[b] == rest[b - 1]);
            } else if a == 0 {
                assert(plan[b] == rest[b - 1]);
                assert(!vis2[rest[b - 1]]);
            } else {
                assert(plan[a] == rest[a - 1]);
                assert(!vis2[rest[a - 1]]);
            }
        }
    }
}

proof fn lemma_among_covers_move(g: &Network, vis: Seq<bool>, cur: int, time: nat, k: nat, j: int)
    requires
        0 <= j < k,
        arrival(g, vis, cur, time, j) is Some,
    ensures
        arrival(g, vis, cur, time, j)->0 * g.flow(j) + best_among(
            g,
            vis.update(j, true),
            j,
            arrival(g, vis, cur, time, j)->0,
            g.size(),
        ) <= best_among(g, vis, cur, time, k),
    decreases k,
{
    if j < k - 1 {
        lemma_among_covers_move(g, vis, cur, time, (k - 1) as nat, j);
    }
}

/// No legal plan of one agent releases more than the search's value.
pub proof fn lemma_plan_bounded(g: &Network, vis: Seq<bool>, cur: int, time: nat, plan: Seq<int>)
    requires
        plan_value(g, vis, cur, time, plan) is Some,
    ensures
        plan_value(g, vis, cur, time, plan)->0 <= best_single(g, vis, cur, time),
    decreases plan.len(),
{
    if plan.len() > 0 {
        let j = plan[0];
        let left = arrival(g, vis, cur, time, j)->0;
        lemma_plan_bounded(g, vis.update(j, true), j, left, plan.drop_first());
        lemma_among_covers_move(g, vis, cur, time, g.size(), j);
    }
}

proof fn lemma_among_attained(g: &Network, vis: Seq<bool>, cur: int, time: nat, k: nat) -> (plan: Seq<int>)
    ensures
        plan_value(g, vis, cur, time, plan) == Some(best_among(g, vis, cur, time, k)),
    decreases unvisited(vis), k,
{
    if k == 0 {
        seq![]
    } else {
        let j = k - 1;
        let before = lemma_among_attained(g, vis, cur, time, (k - 1) as nat);
        match arrival(g, vis, cur, time, j) {
            Some(left) => {
                lemma_unvisited_claim(vis, j);
                let tail = lemma_among_attained(g, vis.update(j, true), j, left, g.size());
                let here = left * g.flow(j) + best_among(g, vis.update(j, true), j, left, g.size());
                if here > best_among(g, vis, cur, time, (k - 1) as nat) {
                    let plan = seq![j] + tail;
                    assert(plan.drop_first() =~= tail);
                    plan
                } else {
                    before
                }
            },
            None => before,
        }
    }
}

/// The search's value for one agent is what some legal plan releases, and
/// that plan opens each valve at most once, none claimed before it set out.
pub proof fn lemma_optimal_plan(g: &Network, vis: Seq<bool>, cur: int, time: nat) -> (plan: Seq<int>)
    ensures
        plan_value(g, vis, cur, time, plan) == Some(best_single(g, vis, cur, time)),
        plan.no_duplicates(),
        all_unclaimed(vis, plan),
{
    let plan = lemma_among_attained(g, vis, cur, time, g.size());
    lemma_plan_no_revisit(g, vis, cur, time, plan);
    plan
}

/// The pressure two agents release by the moves of `plan` in order, each a
/// valve and whether the second agent (rather than the first) walks to it,
/// if each is a legal move for the agent that makes it.
pub open spec fn pair_plan_value(
    g: &Network,
    vis: Seq<bool>,
    c1: int,
    t1: nat,
    c2: int,
    t2: nat,
    plan: Seq<(bool, int)>,
) -> Option<nat>
    decreases plan.len(),
{
    if plan.len() == 0 {
        Some(0)
    } else {
        let j = plan[0].1;
        let rest = plan.drop_first();
        if !plan[0].0 {
            match arrival(g, vis, c1, t1, j) {
                Some(left) => match pair_plan_value(g, vis.update(j, true), j, left, c2, t2, rest) {
                    Some(v) => Some(left * g.flow(j) + v),
                    None => None,
                },
                None => None,
            }
        } else {
            match arrival(g, vis, c2, t2, j) {
                Some(left) => match pair_plan_value(g, vis.update(j, true), c1, t1, j, left, rest) {
                    Some(v) => Some(left * g.flow(j) + v),
                    None => None,
                },
                None => None,
            }
        }
    }
}

/// The valves that a two-agent plan opens, in order, whichever agent opens
/// them.
pub open spec fn opened(plan: Seq<(bool, int)>) -> Seq<int> {
    plan.map_values(|m: (bool, int)| m.1)
}

/// In a legal plan of two agents no valve is opened twice, whether by one
/// agent or by both, and none that was claimed before they set out.
pub proof fn lemma_pair_plan_no_revisit(
    g: &Network,
    vis: Seq<bool>,
    c1: int,
    t1: nat,
    c2: int,
    t2: nat,
    plan: Seq<(bool, int)>,
)
    requires
        pair_plan_value(g, vis, c1, t1, c2, t2, plan) is Some,
    ensures
        opened(plan).no_duplicates(),
        all_unclaimed(vis, opened(plan)),
    decreases plan.len(),
{
    if plan.len() > 0 {
        let j = plan[0].1;
        let rest = plan.drop_first();
        let vis2 = vis.update(j, true);
        if !plan[0].0 {
            let left = arrival(g, vis, c1, t1, j)->0;
            lemma_pair_plan_no_revisit(g, vis2, j, left, c2, t2, rest);
        } else {
            let left = arrival(g, vis, c2, t2, j)->0;
            lemma_pair_plan_no_revisit(g, vis2, c1, t1, j, left, rest);
        }
        let o = opened(plan);
        let r = opened(rest);
        assert forall|a: int| 0 < a < plan.len() implies #[trigger] o[a] == r[a - 1] by {
            assert(o[a] == plan[a].1);
            assert(r[a - 1] == rest[a - 1].1);
        }
        assert(o[0] == j);
        assert forall|a: int| 0 <= a < o.len() implies 0 <= #[trigger] o[a] < vis.len() && !vis[o[a]] by {
            if a > 0 {
                assert(o[a] == r[a - 1]);
                assert(vis2[r[a - 1]] == vis[r[a - 1]]);
            }
        }
        assert forall|a: int, b: int| 0 <= a < o.len() && 0 <= b < o.len() && a != b implies o[a] != o[b] by {
            if a > 0 && b > 0 {
                assert(o[a] == r[a - 1] && o[b] == r[b - 1]);
            } else if a == 0 {
                assert(o[b] == r[b - 1]);
                assert(!vis2[r[b - 1]]);
            } else {
                assert(o[a] == r[a - 1]);
                assert(!vis2[r[a - 1]]);
            }
        }
    }
}

proof fn lemma_pair_among_covers_move(
    g: &Network,
    vis: Seq<bool>,
    c1: int,
    t1: nat,
    c2: int,
    t2: nat,
    k: nat,
    j: int,
)
    requires
        0 <= j < k,
    ensures
        arrival(g, vis, c1, t1, j) is Some ==> arrival(g, vis, c1, t1, j)->0 * g.flow(j) + best_pair_among(
            g,
            vis.update(j, true),
            j,
            arrival(g, vis, c1, t1, j)->0,
            c2,
            t2,
            g.size(),
        ) <= best_pair_among(g, vis, c1, t1, c2, t2, k),
        arrival(g, vis, c2, t2, j) is Some ==> arrival(g, vis, c2, t2, j)->0 * g.flow(j) + best_pair_among(
            g,
            vis.update(j, true),
            c1,
            t1,
            j,
            arrival(g, vis, c2, t2, j)->0,
            g.size(),
        ) <= best_pair_among(g, vis, c1, t1, c2, t2, k),
    decreases k,
{
    if j < k - 1 {
        lemma_pair_among_covers_move(g, vis, c1, t1, c2, t2, (k - 1) as nat, j);
    }
}

/// No legal plan of two agents releases more than the search's value.
pub proof fn lemma_pair_plan_bounded(
    g: &Network,
    vis: Seq<bool>,
    c1: int,
    t1: nat,
    c2: int,
    t2: nat,
    plan: Seq<(bool, int)>,
)
    requires
        pair_plan_value(g, vis, c1, t1, c2, t2, plan) is Some,
    ensures
        pair_plan_value(g, vis, c1, t1, c2, t2, plan)->0 <= best_pair(g, vis, c1, t1, c2, t2),
    decreases plan.len(),
{
    if plan.len() > 0 {
        let j = plan[0].1;
        if !plan[0].0 {
            let left = arrival(g, vis, c1, t1, j)->0;
            lemma_pair_plan_bounded(g, vis.update(j, true), j, left, c2, t2, plan.drop_first());
        } else {
            let left = arrival(g, vis, c2, t2, j)->0;
            lemma_pair_plan_bounded(g, vis.update(j, true), c1, t1, j, left, plan.drop_first());
        }
        lemma_pair_among_covers_move(g, vis, c1, t1, c2, t2, g.size(), j);
    }
}

proof fn lemma_pair_among_attained(
    g: &Network,
    vis: Seq<bool>,
    c1: int,
    t1: nat,
    c2: int,
    t2: nat,
    k: nat,
) -> (plan: Seq<(bool, int)>)
    ensures
        pair_plan_value(g, vis, c1, t1, c2, t2, plan) == Some(best_pair_among(g, vis, c1, t1, c2, t2, k)),
    decreases unvisited(vis), k,
{
    if k == 0 {
        seq![]
    } else {
        let j = k - 1;
        let vis2 = vis.update(j, true);
        let rest = best_pair_among(g, vis, c1, t1, c2, t2, (k - 1) as nat);
        let before = lemma_pair_among_attained(g, vis, c1, t1, c2, t2, (k - 1) as nat);
        let first = match arrival(g, vis, c1, t1, j) {
            Some(left) => left * g.flow(j) + best_pair_among(g, vis2, j, left, c2, t2, g.size()),
            None => 0,
        };
        let second = match arrival(g, vis, c2, t2, j) {
            Some(left) => left * g.flow(j) + best_pair_among(g, vis2, c1, t1, j, left, g.size()),
            None => 0,
        };
        if first >= second && first > rest {
            let left = arrival(g, vis, c1, t1, j)->0;
            lemma_unvisited_claim(vis, j);
            let tail = lemma_pair_among_attained(g, vis2, j, left, c2, t2, g.size());
            let plan = seq![(false, j)] + tail;
            assert(plan.drop_first() =~= tail);
            plan
        } else if second > first && second > rest {
            let left = arrival(g, vis, c2, t2, j)->0;
            lemma_unvisited_claim(vis, j);
            let tail = lemma_pair_among_attained(g, vis2, c1, t1, j, left, g.size());
            let plan = seq![(true, j)] + tail;
            assert(plan.drop_first() =~= tail);
            plan
        } else {
            before
        }
    }
}

/// The search's value for two agents is what some legal plan of theirs
/// releases, and in that plan no valve is opened twice, by one agent or by
/// both, nor any claimed before they set out.
pub proof fn lemma_optimal_pair_plan(g: &Network, vis: Seq<bool>, c1: int, t1: nat, c2: int, t2: nat) -> (plan: Seq<
    (bool, int),
>)
    ensures
        pair_plan_value(g, vis, c1, t1, c2, t2, plan) == Some(best_pair(g, vis, c1, t1, c2, t2)),
        opened(plan).no_duplicates(),
        all_unclaimed(vis, opened(plan)),
{
    let plan = lemma_pair_among_attained(g, vis, c1, t1, c2, t2, g.size());
    lemma_pair_plan_no_revisit(g, vis, c1, t1, c2, t2, plan);
    plan
}

} // verus!
