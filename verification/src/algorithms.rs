//! Shortest-path solvers and their shared result vocabulary.

pub mod a_star;
pub mod dijkstra;

use crate::graph::{adjacency_wf, Edge};
use vstd::prelude::*;

verus! {

/// The outcome of one path query: the distance from source to target and
/// a route realising it, node by node. `distance` is `None` exactly when
/// the query is invalid or the target is unreachable, and then the path
/// is empty.
#[derive(Clone, Debug)]
pub struct PathResult {
    pub distance: Option<i64>,
    pub path: Vec<u32>,
}

/// `p` is a non-empty node sequence inside `adj` in which each step
/// follows some stored edge, and the traversed weights sum to exactly
/// `total`. Parallel edges count independently: any one of them may be
/// the step taken.
pub open spec fn path_costs(adj: Seq<Seq<Edge>>, p: Seq<u32>, total: int) -> bool
    decreases p.len(),
{
    if p.len() == 0 {
        false
    } else if p.len() == 1 {
        total == 0 && (p[0] as int) < adj.len()
    } else {
        &&& (p[0] as int) < adj.len()
        &&& exists|k: int|
            0 <= k < adj[p[0] as int].len() && (#[trigger] adj[p[0] as int][k]).to == p[1]
                && path_costs(adj, p.skip(1), total - adj[p[0] as int][k].weight)
    }
}

/// A route from `s` to `t` of total weight `total`.
pub open spec fn is_route(adj: Seq<Seq<Edge>>, p: Seq<u32>, s: u32, t: u32, total: int) -> bool {
    &&& path_costs(adj, p, total)
    &&& p[0] == s
    &&& p[p.len() - 1] == t
}

/// Some route connects `s` to `t` inside `adj`.
pub open spec fn connected(adj: Seq<Seq<Edge>>, s: u32, t: u32) -> bool {
    exists|p: Seq<u32>, total: int| is_route(adj, p, s, t, total)
}

/// `c` can be carried by the solvers' distance type.
pub open spec fn in_i64_range(c: int) -> bool {
    i64::MIN <= c <= i64::MAX
}

/// Some route leaving `s` has a total weight that no `i64` can hold, so
/// a search from `s` may have had to abandon an improvement.
pub open spec fn has_unrepresentable_route(adj: Seq<Seq<Edge>>, s: u32) -> bool {
    exists|p: Seq<u32>, c: int| path_costs(adj, p, c) && p[0] == s && !in_i64_range(c)
}

/// What both solvers promise of a query `(s, t)` answered by `distance`
/// and `path`:
/// - an out-of-range endpoint yields the unreachable sentinel;
/// - `s == t` on a valid node yields distance `0` and the one-node route;
/// - a finite distance is exact: the returned path is a route from `s`
///   to `t` whose weights sum to precisely that distance;
/// - the sentinel on a valid pair means `t` is truly unreachable, unless
///   some route out of `s` costs more than an `i64` can represent;
/// - no distance, no path;
/// - and when no stored weight is negative, a returned distance is
///   optimal: no route from `s` to `t` costs less.
pub open spec fn search_result_ok(
    adj: Seq<Seq<Edge>>,
    s: u32,
    t: u32,
    distance: Option<i64>,
    path: Seq<u32>,
) -> bool {
    &&& (s as int >= adj.len() || t as int >= adj.len()) ==> distance is None
    &&& ((s as int) < adj.len() && (t as int) < adj.len() && s == t) ==> distance == Some(0i64)
        && path == seq![s]
    &&& (distance matches Some(d) ==> is_route(adj, path, s, t, d as int))
    &&& ((s as int) < adj.len() && (t as int) < adj.len() && distance is None) ==> (!connected(
        adj,
        s,
        t,
    ) || has_unrepresentable_route(adj, s))
    &&& (distance is None ==> path == Seq::<u32>::empty())
    &&& (nonneg_weights(adj) ==> (distance matches Some(d) ==> forall|p: Seq<u32>, c: int|
        is_route(adj, p, s, t, c) ==> d as int <= c))
}

/// Extending a route by one stored edge extends its cost by exactly that
/// edge's weight.
pub proof fn lemma_path_extend(adj: Seq<Seq<Edge>>, p: Seq<u32>, total: int, k: int, v: u32)
    requires
        adjacency_wf(adj),
        path_costs(adj, p, total),
        0 <= k < adj[p.last() as int].len(),
        adj[p.last() as int][k].to == v,
    ensures
        path_costs(adj, p.push(v), total + adj[p.last() as int][k].weight),
    decreases p.len(),
{
    let q = p.push(v);
    let w = adj[p.last() as int][k].weight;
    if p.len() == 1 {
        assert(q.skip(1) =~= seq![v]);
        assert(adj[p[0] as int][k].to < adj.len());
        assert(path_costs(adj, q.skip(1), (total + w) - w));
        assert(0 <= k < adj[q[0] as int].len() && (adj[q[0] as int][k]).to == q[1]
            && path_costs(adj, q.skip(1), (total + w) - adj[q[0] as int][k].weight));
    } else {
        let k0 = choose|k0: int|
            0 <= k0 < adj[p[0] as int].len() && (#[trigger] adj[p[0] as int][k0]).to == p[1]
                && path_costs(adj, p.skip(1), total - adj[p[0] as int][k0].weight);
        let w0 = adj[p[0] as int][k0].weight;
        assert(p.skip(1).last() == p.last());
        lemma_path_extend(adj, p.skip(1), total - w0, k, v);
        assert(q.skip(1) =~= p.skip(1).push(v));
        assert(path_costs(adj, q.skip(1), (total + w) - w0));
        assert(0 <= k0 < adj[q[0] as int].len() && (adj[q[0] as int][k0]).to == q[1]
            && path_costs(adj, q.skip(1), (total + w) - adj[q[0] as int][k0].weight));
    }
}

/// An unreachable pair is answered by the sentinel: whenever a result
/// meets `search_result_ok` for endpoints that no route connects, its
/// distance is `None` and its path is empty.
pub proof fn lemma_unreachable_is_none(
    adj: Seq<Seq<Edge>>,
    s: u32,
    t: u32,
    distance: Option<i64>,
    path: Seq<u32>,
)
    requires
        search_result_ok(adj, s, t, distance, path),
        !connected(adj, s, t),
    ensures
        distance is None,
        path == Seq::<u32>::empty(),
{
    if distance is Some {
        assert(is_route(adj, path, s, t, distance.unwrap() as int));
        assert(connected(adj, s, t));
    }
}

/// On a graph with no negative weight and no route out of `s` whose cost
/// leaves the `i64` range, the answer to a query is unique in distance:
/// any two results that meet `search_result_ok` — from either solver, or
/// from repeated runs of one — report the same distance, and each
/// reported path costs exactly that distance.
pub proof fn lemma_searches_agree(
    adj: Seq<Seq<Edge>>,
    s: u32,
    t: u32,
    d1: Option<i64>,
    p1: Seq<u32>,
    d2: Option<i64>,
    p2: Seq<u32>,
)
    requires
        search_result_ok(adj, s, t, d1, p1),
        search_result_ok(adj, s, t, d2, p2),
        nonneg_weights(adj),
        !has_unrepresentable_route(adj, s),
    ensures
        d1 == d2,
{
    if (s as int) < adj.len() && (t as int) < adj.len() {
        if d1 is Some && d2 is None {
            assert(is_route(adj, p1, s, t, d1->Some_0 as int));
            assert(connected(adj, s, t));
        } else if d1 is None && d2 is Some {
            assert(is_route(adj, p2, s, t, d2->Some_0 as int));
            assert(connected(adj, s, t));
        } else if d1 is Some && d2 is Some {
            assert(is_route(adj, p1, s, t, d1->Some_0 as int));
            assert(is_route(adj, p2, s, t, d2->Some_0 as int));
            assert(d1->Some_0 as int <= d2->Some_0 as int);
            assert(d2->Some_0 as int <= d1->Some_0 as int);
        }
    }
}

/// On a query whose answer the contract pins — an out-of-range endpoint,
/// or `source == target` on a valid node — any two results that meet
/// `search_result_ok` are identical: solvers and repeated runs cannot
/// disagree there.
pub proof fn lemma_pinned_results_agree(
    adj: Seq<Seq<Edge>>,
    s: u32,
    t: u32,
    d1: Option<i64>,
    p1: Seq<u32>,
    d2: Option<i64>,
    p2: Seq<u32>,
)
    requires
        search_result_ok(adj, s, t, d1, p1),
        search_result_ok(adj, s, t, d2, p2),
        s as int >= adj.len() || t as int >= adj.len() || s == t,
    ensures
        d1 == d2,
        p1 == p2,
{
}

/// How much room a tentative distance still has to shrink; `None` (not
/// yet reached) dominates every finite value. Summed over the distance
/// table it yields the termination measure of both solvers: every
/// improvement strictly lowers it.
pub open spec fn dist_rank(d: Option<i64>) -> nat {
    match d {
        None => (u64::MAX as nat) + 1,
        Some(x) => (x - i64::MIN) as nat,
    }
}

/// The total rank of a distance table.
pub open spec fn sum_ranks(s: Seq<Option<i64>>) -> nat
    decreases s.len(),
{
    if s.len() == 0 {
        0
    } else {
        dist_rank(s[0]) + sum_ranks(s.skip(1))
    }
}

/// Updating one entry moves the total rank by exactly the difference of
/// the old and new entry ranks.
pub proof fn lemma_sum_ranks_update(s: Seq<Option<i64>>, i: int, x: Option<i64>)
    requires
        0 <= i < s.len(),
    ensures
        sum_ranks(s.update(i, x)) + dist_rank(s[i]) == sum_ranks(s) + dist_rank(x),
    decreases s.len(),
{
    let t = s.update(i, x);
    if i == 0 {
        assert(t.skip(1) =~= s.skip(1));
        assert(t[0] == x);
    } else {
        assert(t.skip(1) =~= s.skip(1).update(i - 1, x));
        assert(t[0] == s[0]);
        lemma_sum_ranks_update(s.skip(1), i - 1, x);
    }
}

/// The bookkeeping both solvers maintain for completeness. `done` holds
/// the nodes whose outgoing edges have all been relaxed: such nodes are
/// registered and reached, and each of their edge targets is reached too
/// — unless `ovf` records that some improvement was abandoned because
/// its total left the `i64` range.
pub(crate) open spec fn settled(
    adj: Seq<Seq<Edge>>,
    dist: Seq<Option<i64>>,
    done: Set<u32>,
    ovf: bool,
) -> bool {
    &&& forall|v: u32| #[trigger] done.contains(v) ==> (v as int) < adj.len() && dist[v as int] is Some
    &&& forall|v: u32, j: int|
        done.contains(v) && 0 <= j < adj[v as int].len() ==> ovf || dist[(#[trigger] adj[v as int][j]).to as int] is Some
}

/// Every reached node is either settled or still owed a frontier entry
/// at most as large as its recorded distance.
pub(crate) open spec fn covered(
    dist: Seq<Option<i64>>,
    done: Set<u32>,
    frontier: Seq<(i64, u32)>,
) -> bool {
    forall|v: int|
        0 <= v < dist.len() && (#[trigger] dist[v]) is Some ==> done.contains(v as u32) || exists|
            q: int,
        |
            0 <= q < frontier.len() && (#[trigger] frontier[q]).1 == v as u32 && frontier[q].0
                <= dist[v]->Some_0
}

/// Every frontier entry names a node that has already been reached, and
/// its key is no smaller than that node's recorded distance (the key was
/// the distance when the entry was pushed, and distances only shrink).
pub(crate) open spec fn entries_reached(dist: Seq<Option<i64>>, frontier: Seq<(i64, u32)>) -> bool {
    forall|q: int|
        0 <= q < frontier.len() ==> dist[(#[trigger] frontier[q]).1 as int] is Some && dist[frontier[q].1 as int]->Some_0 <= frontier[q].0
}

/// No stored edge has a negative weight: the assumption under which the
/// label-setting searches are optimal.
pub open spec fn nonneg_weights(adj: Seq<Seq<Edge>>) -> bool {
    forall|u: int, j: int|
        0 <= u < adj.len() && 0 <= j < adj[u].len() ==> (#[trigger] adj[u][j]).weight >= 0
}

/// Every settled node's outgoing edges have been relaxed against its
/// (final) distance: the neighbour is reached within `dist[v] + w`,
/// unless that total does not fit in an `i64`.
pub(crate) open spec fn relaxed_done(
    adj: Seq<Seq<Edge>>,
    dist: Seq<Option<i64>>,
    done: Set<u32>,
) -> bool {
    forall|v: u32, j: int|
        done.contains(v) && 0 <= j < adj[v as int].len() ==> {
            let e = #[trigger] adj[v as int][j];
            (dist[e.to as int] is Some && dist[e.to as int]->Some_0 <= dist[v as int]->Some_0
                + e.weight) || dist[v as int]->Some_0 + e.weight > i64::MAX
        }
}

/// No settled node's distance exceeds any frontier key: settled nodes
/// were extracted while they held the minimum.
pub(crate) open spec fn frontier_above_done(
    dist: Seq<Option<i64>>,
    done: Set<u32>,
    frontier: Seq<(i64, u32)>,
) -> bool {
    forall|v: u32, q: int|
        #![trigger done.contains(v), frontier[q]]
        done.contains(v) && 0 <= q < frontier.len() ==> dist[v as int]->Some_0 <= frontier[q].0
}

/// Every settled node's distance is optimal: no route from `s` to it
/// costs less. Kept opaque: it quantifies over all routes, and only the
/// proofs that maintain or consume it need its body.
#[verifier::opaque]
pub(crate) open spec fn done_optimal(
    adj: Seq<Seq<Edge>>,
    dist: Seq<Option<i64>>,
    done: Set<u32>,
    s: u32,
) -> bool {
    forall|v: u32, p: Seq<u32>, c: int|
        done.contains(v) && #[trigger] is_route(adj, p, s, v, c) ==> dist[v as int]->Some_0 <= c
}

/// `covered`, except that one node `x0` is allowed to have lost its
/// frontier entry.
pub(crate) open spec fn covered_except(
    dist: Seq<Option<i64>>,
    done: Set<u32>,
    frontier: Seq<(i64, u32)>,
    x0: u32,
) -> bool {
    forall|v: int|
        0 <= v < dist.len() && (#[trigger] dist[v]) is Some && v != x0 as int ==> done.contains(
            v as u32,
        ) || exists|q: int|
            0 <= q < frontier.len() && (#[trigger] frontier[q]).1 == v as u32 && frontier[q].0
                <= dist[v]->Some_0
}

/// With no negative weights, no route costs less than nothing.
pub(crate) proof fn lemma_cost_nonneg(adj: Seq<Seq<Edge>>, p: Seq<u32>, c: int)
    requires
        nonneg_weights(adj),
        path_costs(adj, p, c),
    ensures
        c >= 0,
    decreases p.len(),
{
    if p.len() > 1 {
        let k = choose|k: int|
            0 <= k < adj[p[0] as int].len() && (#[trigger] adj[p[0] as int][k]).to == p[1]
                && path_costs(adj, p.skip(1), c - adj[p[0] as int][k].weight);
        lemma_cost_nonneg(adj, p.skip(1), c - adj[p[0] as int][k].weight);
    }
}

/// The key argument of the label-setting searches, for graphs with no
/// negative weight. Take any route whose first node is reached. Walk it:
/// as long as its nodes are settled, their relaxed edges bound the next
/// node's distance by the running total; at the first unsettled node,
/// the frontier entry covering it — or `kmin <= dist[x0]` if that node
/// is the one exempted node `x0` — puts `kmin` below the running total.
/// Either way: the route's last node is reached within `dist[p[0]] + c`,
/// or `kmin <= dist[p[0]] + c`.
pub(crate) proof fn lemma_frontier_bounds_route(
    adj: Seq<Seq<Edge>>,
    dist: Seq<Option<i64>>,
    done: Set<u32>,
    frontier: Seq<(i64, u32)>,
    x0: u32,
    kmin: int,
    p: Seq<u32>,
    c: int,
)
    requires
        adjacency_wf(adj),
        nonneg_weights(adj),
        adj.len() == dist.len(),
        dist.len() <= u32::MAX + 1,
        path_costs(adj, p, c),
        dist[p[0] as int] is Some,
        forall|v: u32| #[trigger] done.contains(v) ==> (v as int) < adj.len() && dist[v as int] is Some,
        relaxed_done(adj, dist, done),
        covered_except(dist, done, frontier, x0),
        forall|q: int| 0 <= q < frontier.len() ==> kmin <= (#[trigger] frontier[q]).0,
        dist[x0 as int] is Some ==> kmin <= dist[x0 as int]->Some_0,
        kmin <= i64::MAX,
    ensures
        (dist[p.last() as int] is Some && dist[p.last() as int]->Some_0 <= dist[p[0] as int]->Some_0
            + c) || kmin <= dist[p[0] as int]->Some_0 + c,
    decreases p.len(),
{
    let d0 = dist[p[0] as int]->Some_0;
    lemma_cost_nonneg(adj, p, c);
    if !done.contains(p[0]) {
        if p[0] == x0 {
            assert(kmin <= d0 + c);
        } else {
            let q3 = choose|q: int|
                0 <= q < frontier.len() && (#[trigger] frontier[q]).1 == p[0] && frontier[q].0
                    <= dist[p[0] as int]->Some_0;
            assert(kmin <= frontier[q3].0);
            assert(kmin <= d0 + c);
        }
    } else if p.len() == 1 {
        assert(dist[p.last() as int]->Some_0 <= d0 + c);
    } else {
        let k = choose|k: int|
            0 <= k < adj[p[0] as int].len() && (#[trigger] adj[p[0] as int][k]).to == p[1]
                && path_costs(adj, p.skip(1), c - adj[p[0] as int][k].weight);
        let w = adj[p[0] as int][k].weight;
        lemma_cost_nonneg(adj, p.skip(1), c - w);
        if d0 + w > i64::MAX {
            assert(kmin <= d0 + c);
        } else {
            assert(dist[p[1] as int] is Some && dist[p[1] as int]->Some_0 <= d0 + w);
            lemma_frontier_bounds_route(adj, dist, done, frontier, x0, kmin, p.skip(1), c - w);
            assert(p.skip(1).last() == p.last());
        }
    }
}

/// Settledness survives a step in which reached nodes stay reached and
/// the overflow record is not forgotten.
pub(crate) proof fn lemma_settled_monotone(
    adj: Seq<Seq<Edge>>,
    dist0: Seq<Option<i64>>,
    dist1: Seq<Option<i64>>,
    done: Set<u32>,
    ovf0: bool,
    ovf1: bool,
)
    requires
        adjacency_wf(adj),
        settled(adj, dist0, done, ovf0),
        dist0.len() == dist1.len(),
        adj.len() == dist0.len(),
        forall|x: int| 0 <= x < dist0.len() && (#[trigger] dist0[x]) is Some ==> dist1[x] is Some,
        ovf0 ==> ovf1,
    ensures
        settled(adj, dist1, done, ovf1),
{
    assert forall|v: u32| #[trigger] done.contains(v) implies (v as int) < adj.len()
        && dist1[v as int] is Some by {
        assert(dist0[v as int] is Some);
    }
    assert forall|v: u32, j: int|
        done.contains(v) && 0 <= j < adj[v as int].len() implies ovf1
        || dist1[(#[trigger] adj[v as int][j]).to as int] is Some by {
        if !ovf1 {
            assert(dist0[adj[v as int][j].to as int] is Some);
            assert((adj[v as int][j].to as int) < adj.len());
        }
    }
}

/// Extracting the frontier entry at `mi` keeps every reached node
/// covered once the extracted node itself is marked settled.
pub(crate) proof fn lemma_covered_pop_processed(
    dist: Seq<Option<i64>>,
    done: Set<u32>,
    f0: Seq<(i64, u32)>,
    f1: Seq<(i64, u32)>,
    mi: int,
)
    requires
        covered(dist, done, f0),
        0 <= mi < f0.len(),
        f1 == f0.update(mi, f0.last()).drop_last(),
    ensures
        covered(dist, done.insert(f0[mi].1), f1),
{
    let u = f0[mi].1;
    let done1 = done.insert(u);
    assert forall|v: int| 0 <= v < dist.len() && (#[trigger] dist[v]) is Some implies done1.contains(
        v as u32,
    ) || exists|q: int|
        0 <= q < f1.len() && (#[trigger] f1[q]).1 == v as u32 && f1[q].0 <= dist[v]->Some_0 by {
        if v as u32 != u && !done.contains(v as u32) {
            let q0 = choose|q: int|
                0 <= q < f0.len() && (#[trigger] f0[q]).1 == v as u32 && f0[q].0
                    <= dist[v]->Some_0;
            if q0 < f0.len() - 1 {
                assert(f1[q0] == f0[q0]);
            } else {
                assert(f1[mi] == f0[q0]);
            }
        }
    }
}

/// Extracting a stale or unreached frontier entry keeps every reached
/// node covered: a stale entry is never the one that covers its node.
pub(crate) proof fn lemma_covered_pop_skipped(
    dist: Seq<Option<i64>>,
    done: Set<u32>,
    f0: Seq<(i64, u32)>,
    f1: Seq<(i64, u32)>,
    mi: int,
)
    requires
        covered(dist, done, f0),
        dist.len() <= u32::MAX + 1,
        0 <= mi < f0.len(),
        f1 == f0.update(mi, f0.last()).drop_last(),
        dist[f0[mi].1 as int] is None || f0[mi].0 > dist[f0[mi].1 as int]->Some_0,
    ensures
        covered(dist, done, f1),
{
    let u = f0[mi].1;
    assert forall|v: int| 0 <= v < dist.len() && (#[trigger] dist[v]) is Some implies done.contains(
        v as u32,
    ) || exists|q: int|
        0 <= q < f1.len() && (#[trigger] f1[q]).1 == v as u32 && f1[q].0 <= dist[v]->Some_0 by {
        if !done.contains(v as u32) {
            let q0 = choose|q: int|
                0 <= q < f0.len() && (#[trigger] f0[q]).1 == v as u32 && f0[q].0
                    <= dist[v]->Some_0;
            assert(q0 != mi);
            if q0 < f0.len() - 1 {
                assert(f1[q0] == f0[q0]);
            } else {
                assert(f1[mi] == f0[q0]);
            }
        }
    }
}

/// Recording a better distance for `v_to` and pushing a matching
/// frontier entry keeps every reached node covered.
pub(crate) proof fn lemma_covered_relax(
    dist0: Seq<Option<i64>>,
    done: Set<u32>,
    f0: Seq<(i64, u32)>,
    v_to: u32,
    c: i64,
)
    requires
        covered(dist0, done, f0),
        (v_to as int) < dist0.len(),
    ensures
        covered(dist0.update(v_to as int, Some(c)), done, f0.push((c, v_to))),
{
    let dist1 = dist0.update(v_to as int, Some(c));
    let f1 = f0.push((c, v_to));
    assert forall|v: int| 0 <= v < dist1.len() && (#[trigger] dist1[v]) is Some implies done.contains(
        v as u32,
    ) || exists|q: int|
        0 <= q < f1.len() && (#[trigger] f1[q]).1 == v as u32 && f1[q].0 <= dist1[v]->Some_0 by {
        if v == v_to as int {
            assert(f1[f1.len() - 1] == (c, v_to));
            assert(f1[f1.len() - 1].1 == v as u32 && f1[f1.len() - 1].0 <= dist1[v]->Some_0);
        } else if !done.contains(v as u32) {
            let q0 = choose|q: int|
                0 <= q < f0.len() && (#[trigger] f0[q]).1 == v as u32 && f0[q].0
                    <= dist0[v]->Some_0;
            assert(f1[q0] == f0[q0]);
        }
    }
}

/// Walking a route whose first node is reached, through a table whose
/// reached nodes are all settled with no abandoned improvement, every
/// node of the route is reached — in particular the last.
pub(crate) proof fn lemma_route_stays_finite(
    adj: Seq<Seq<Edge>>,
    p: Seq<u32>,
    c: int,
    dist: Seq<Option<i64>>,
    done: Set<u32>,
)
    requires
        adj.len() == dist.len(),
        path_costs(adj, p, c),
        dist[p[0] as int] is Some,
        forall|v: int| 0 <= v < dist.len() && (#[trigger] dist[v]) is Some ==> done.contains(
            v as u32,
        ),
        settled(adj, dist, done, false),
    ensures
        dist[p.last() as int] is Some,
    decreases p.len(),
{
    if p.len() > 1 {
        let k = choose|k: int|
            0 <= k < adj[p[0] as int].len() && (#[trigger] adj[p[0] as int][k]).to == p[1]
                && path_costs(adj, p.skip(1), c - adj[p[0] as int][k].weight);
        assert(done.contains(p[0]));
        assert(dist[p[1] as int] is Some);
        lemma_route_stays_finite(adj, p.skip(1), c - adj[p[0] as int][k].weight, dist, done);
        assert(p.skip(1).last() == p.last());
    }
}

/// An exact copy of a recorded route.
pub(crate) fn copy_path(p: &Vec<u32>) -> (r: Vec<u32>)
    ensures
        r@ == p@,
{
    let mut r: Vec<u32> = Vec::new();
    let mut i: usize = 0;
    while i < p.len()
        invariant
            i <= p@.len(),
            r@ == p@.subrange(0, i as int),
        decreases p@.len() - i,
    {
        r.push(p[i]);
        i += 1;
        proof {
            assert(r@ =~= p@.subrange(0, i as int));
        }
    }
    proof {
        assert(p@.subrange(0, p@.len() as int) =~= p@);
    }
    r
}

} // verus!
