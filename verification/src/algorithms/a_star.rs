//! Heuristic-guided search: uniform-cost search with an estimate of the
//! remaining cost added to each frontier key.

use super::{
    copy_path, covered, covered_except, dist_rank, done_optimal, entries_reached,
    frontier_above_done, has_unrepresentable_route, in_i64_range, is_route, lemma_cost_nonneg,
    lemma_covered_pop_processed, lemma_covered_relax, lemma_frontier_bounds_route,
    lemma_path_extend, lemma_route_stays_finite, lemma_settled_monotone, lemma_sum_ranks_update,
    nonneg_weights, path_costs, relaxed_done, search_result_ok, settled, sum_ranks, PathResult,
};
use crate::graph::Graph;
use rayon::iter::{IntoParallelRefIterator, ParallelIterator};
use vstd::prelude::*;

verus! {

/// Heuristic-guided shortest path from `source` to `target`.
///
/// Same contract as the uniform-cost solver. The frontier is keyed by
/// tentative distance plus `Graph::heuristic`, and extraction of the
/// target ends the search at once. With the current zero heuristic the
/// keys collapse to tentative distances and the search behaves like
/// uniform-cost search; the structure stays open to an informative
/// heuristic. Negative weights are accepted but void optimality; an
/// improvement whose running total would leave the `i64` range is not
/// taken. When no weight is negative, the answer is optimal: no route
/// from source to target costs less than the returned distance.
#[verifier::rlimit(100)]
pub fn a_star(graph: &Graph, source: u32, target: u32) -> (r: (Option<i64>, Vec<u32>))
    requires
        graph.wf(),
    ensures
        search_result_ok(graph@, source, target, r.0, r.1@),
{
    let n = graph.node_count();
    if source as usize >= n || target as usize >= n {
        return (None, Vec::new());
    }
    if source == target {
        let mut p: Vec<u32> = Vec::new();
        p.push(source);
        proof {
            if nonneg_weights(graph@) {
                assert forall|p2: Seq<u32>, c: int|
                    is_route(graph@, p2, source, target, c) implies 0 <= c by {
                    lemma_cost_nonneg(graph@, p2, c);
                }
            }
        }
        return (Some(0), p);
    }

    let mut dist: Vec<Option<i64>> = Vec::new();
    let mut best: Vec<Vec<u32>> = Vec::new();
    let mut i: usize = 0;
    while i < n
        invariant
            i <= n,
            dist@.len() == i,
            best@.len() == i,
            forall|v: int| 0 <= v < i ==> dist@[v] is None,
        decreases n - i,
    {
        dist.push(None);
        best.push(Vec::new());
        i += 1;
    }

    let mut sp: Vec<u32> = Vec::new();
    sp.push(source);
    proof {
        assert(sp@ =~= seq![source]);
    }
    dist[source as usize] = Some(0);
    best[source as usize] = sp;

    let mut frontier: Vec<(i64, u32)> = Vec::new();
    let h0 = graph.heuristic(source, target);
    frontier.push((h0, source));

    let ghost mut done: Set<u32> = Set::empty();
    let ghost mut ovf: bool = false;
    proof {
        assert(frontier@[0] == (h0, source));
        assert forall|v: int| 0 <= v < dist@.len() && (#[trigger] dist@[v]) is Some implies
            done.contains(v as u32) || exists|q: int|
                0 <= q < frontier@.len() && (#[trigger] frontier@[q]).1 == v as u32
                    && frontier@[q].0 <= dist@[v]->Some_0 by {
            assert(v == source as int);
            assert(frontier@[0].1 == v as u32 && frontier@[0].0 <= dist@[v]->Some_0);
        }
        assert(done_optimal(graph@, dist@, done, source)) by {
            reveal(crate::algorithms::done_optimal);
        }
    }

    while frontier.len() > 0
        invariant
            graph.wf(),
            n == graph@.len(),
            (source as int) < n,
            (target as int) < n,
            source != target,
            dist@.len() == n,
            best@.len() == n,
            dist@[source as int] is Some,
            forall|v: int|
                0 <= v < n ==> ((#[trigger] dist@[v]) matches Some(d) ==> is_route(
                    graph@,
                    best@[v]@,
                    source,
                    v as u32,
                    d as int,
                )),
            forall|q: int| 0 <= q < frontier@.len() ==> ((#[trigger] frontier@[q]).1 as int) < n,
            entries_reached(dist@, frontier@),
            settled(graph@, dist@, done, ovf),
            covered(dist@, done, frontier@),
            ovf ==> has_unrepresentable_route(graph@, source),
            nonneg_weights(graph@) ==> dist@[source as int] == Some(0i64),
            nonneg_weights(graph@) ==> (forall|x: int|
                0 <= x < n && (#[trigger] dist@[x]) is Some ==> dist@[x]->Some_0 >= 0),
            nonneg_weights(graph@) ==> relaxed_done(graph@, dist@, done),
            nonneg_weights(graph@) ==> frontier_above_done(dist@, done, frontier@),
            nonneg_weights(graph@) ==> done_optimal(graph@, dist@, done, source),
        decreases sum_ranks(dist@), frontier@.len(),
    {
        // extract the entry with the minimum key
        let mut mi: usize = 0;
        let mut q: usize = 1;
        while q < frontier.len()
            invariant
                mi < frontier@.len(),
                q <= frontier@.len(),
                forall|x: int| 0 <= x < q ==> frontier@[mi as int].0 <= (#[trigger] frontier@[x]).0,
            decreases frontier@.len() - q,
        {
            if frontier[q].0 < frontier[mi].0 {
                mi = q;
            }
            q += 1;
        }
        let ghost f0 = frontier@;
        let popped = frontier.swap_remove(mi);
        let cost = popped.0;
        let u = popped.1;
        let ui = u as usize;
        proof {
            assert(popped == f0[mi as int]);
            assert forall|q2: int| 0 <= q2 < frontier@.len() implies {
                &&& dist@[(#[trigger] frontier@[q2]).1 as int] is Some
                &&& dist@[frontier@[q2].1 as int]->Some_0 <= frontier@[q2].0
                &&& cost <= frontier@[q2].0
                &&& ((frontier@[q2].1 as int) < n)
            } by {
                if q2 == mi as int {
                    assert(frontier@[q2] == f0[f0.len() - 1]);
                } else {
                    assert(frontier@[q2] == f0[q2]);
                }
            }
            if nonneg_weights(graph@) {
                assert forall|v: u32, q2: int|
                    #![trigger done.contains(v), frontier@[q2]]
                    done.contains(v) && 0 <= q2 < frontier@.len() implies dist@[v as int]->Some_0
                    <= frontier@[q2].0 by {
                    if q2 == mi as int {
                        assert(frontier@[q2] == f0[f0.len() - 1]);
                    } else {
                        assert(frontier@[q2] == f0[q2]);
                    }
                }
            }
        }

        // the target ends the search as soon as it is extracted
        if u == target {
            proof {
                lemma_covered_pop_processed(dist@, done, f0, frontier@, mi as int);
            }
            let tt = target as usize;
            match dist[tt] {
                Some(d) => {
                    proof {
                        if nonneg_weights(graph@) {
                            assert(d as int <= f0[mi as int].0);
                            assert forall|p: Seq<u32>, c: int|
                                is_route(graph@, p, source, target, c) implies d as int <= c by {
                                assert(covered_except(dist@, done, frontier@, u));
                                lemma_frontier_bounds_route(
                                    graph@,
                                    dist@,
                                    done,
                                    frontier@,
                                    u,
                                    d as int,
                                    p,
                                    c,
                                );
                            }
                        }
                    }
                    return (Some(d), copy_path(&best[tt]));
                },
                None => {
                    // every frontier entry names a reached node, so the
                    // extracted target is reached: this arm cannot run
                    proof {
                        assert(dist@[f0[mi as int].1 as int] is Some);
                    }
                    return (None, Vec::new());
                },
            }
        }

        let ghost rank0 = sum_ranks(dist@);
        let ghost len0 = frontier@.len();

        match dist[ui] {
            Some(du) => {
                proof {
                    lemma_covered_pop_processed(dist@, done, f0, frontier@, mi as int);
                    assert(dist@[u as int]->Some_0 <= f0[mi as int].0);
                    assert forall|q2: int| 0 <= q2 < frontier@.len() implies du as int <= (
                    #[trigger] frontier@[q2]).0 by {}
                    if nonneg_weights(graph@) && !done.contains(u) {
                        // the entry covering the extracted node puts
                        // every settled distance at or below `du`
                        let q3 = choose|q3: int|
                            0 <= q3 < f0.len() && (#[trigger] f0[q3]).1 == (u as int) as u32
                                && f0[q3].0 <= dist@[u as int]->Some_0;
                        assert forall|v: u32| #[trigger] done.contains(v) implies dist@[v as int]->Some_0
                            <= du as int by {
                            assert(dist@[v as int]->Some_0 <= f0[q3].0);
                        }
                    }
                }
                let pu = copy_path(&best[ui]);
                let nbs = graph.neighbors(u);
                let m = nbs.len();
                let mut j: usize = 0;
                while j < m
                    invariant
                        graph.wf(),
                        n == graph@.len(),
                        j <= m,
                        m == graph@[u as int].len(),
                        (u as int) < n,
                        (source as int) < n,
                        (target as int) < n,
                        nbs@ == graph@[u as int],
                        is_route(graph@, pu@, source, u, du as int),
                        pu@.len() >= 1,
                        dist@.len() == n,
                        best@.len() == n,
                        dist@[source as int] is Some,
                        dist@[u as int] is Some,
                        forall|v: int|
                            0 <= v < n ==> ((#[trigger] dist@[v]) matches Some(d) ==> is_route(
                                graph@,
                                best@[v]@,
                                source,
                                v as u32,
                                d as int,
                            )),
                        forall|x: int|
                            0 <= x < frontier@.len() ==> ((#[trigger] frontier@[x]).1 as int) < n,
                        entries_reached(dist@, frontier@),
                        settled(graph@, dist@, done, ovf),
                        covered(dist@, done.insert(u), frontier@),
                        ovf ==> has_unrepresentable_route(graph@, source),
                        forall|jj: int|
                            0 <= jj < j ==> ovf || dist@[(#[trigger] graph@[u as int][jj]).to as int] is Some,
                        nonneg_weights(graph@) ==> dist@[source as int] == Some(0i64),
                        nonneg_weights(graph@) ==> dist@[u as int] == Some(du),
                        nonneg_weights(graph@) ==> (forall|x: int|
                            0 <= x < n && (#[trigger] dist@[x]) is Some ==> dist@[x]->Some_0 >= 0),
                        nonneg_weights(graph@) ==> relaxed_done(graph@, dist@, done),
                        nonneg_weights(graph@) ==> frontier_above_done(dist@, done, frontier@),
                        nonneg_weights(graph@) ==> done_optimal(graph@, dist@, done, source),
                        nonneg_weights(graph@) ==> (forall|q2: int|
                            0 <= q2 < frontier@.len() ==> du as int <= (
                            #[trigger] frontier@[q2]).0),
                        nonneg_weights(graph@) ==> (done.contains(u) || forall|v: u32|
                            #[trigger] done.contains(v) ==> dist@[v as int]->Some_0 <= du as int),
                        nonneg_weights(graph@) ==> (forall|jj: int|
                            0 <= jj < j ==> {
                                let e = #[trigger] graph@[u as int][jj];
                                (dist@[e.to as int] is Some && dist@[e.to as int]->Some_0 <= du
                                    + e.weight) || du + e.weight > i64::MAX
                            }),
                        sum_ranks(dist@) < rank0 || (sum_ranks(dist@) == rank0 && frontier@.len()
                            == len0),
                    decreases m - j,
                {
                    let e = nbs[j];
                    proof {
                        assert(graph@[u as int][j as int].to < graph@.len());
                    }
                    let ti = e.to as usize;
                    match du.checked_add(e.weight) {
                        Some(c) => {
                            let improved = match dist[ti] {
                                None => true,
                                Some(dv) => c < dv,
                            };
                            if improved {
                                let mut np = copy_path(&pu);
                                np.push(e.to);
                                let ghost dist_pre = dist@;
                                let ghost f_pre = frontier@;
                                proof {
                                    assert(pu@.last() == u);
                                    lemma_path_extend(graph@, pu@, du as int, j as int, e.to);
                                    assert(np@ == pu@.push(e.to));
                                    assert(np@[0] == source);
                                    assert(np@[np@.len() - 1] == e.to);
                                    lemma_sum_ranks_update(dist@, ti as int, Some(c));
                                    assert(dist_rank(Some(c)) < dist_rank(dist@[ti as int]));
                                    lemma_covered_relax(dist@, done.insert(u), frontier@, e.to, c);
                                    lemma_settled_monotone(
                                        graph@,
                                        dist@,
                                        dist@.update(ti as int, Some(c)),
                                        done,
                                        ovf,
                                        ovf,
                                    );
                                    if nonneg_weights(graph@) {
                                        // an improvement never comes from a
                                        // settled node: its edges are already
                                        // relaxed
                                        assert(graph@[u as int][j as int].weight >= 0);
                                        if done.contains(u) {
                                            assert(dist@[e.to as int] is Some
                                                && dist@[e.to as int]->Some_0 <= du + e.weight);
                                            assert(false);
                                        }
                                        // so no settled distance exceeds the
                                        // new total
                                        assert forall|v: u32| #[trigger] done.contains(v) implies
                                            dist@[v as int]->Some_0 <= c as int by {}
                                    }
                                }
                                dist[ti] = Some(c);
                                best[ti] = np;
                                let h = graph.heuristic(e.to, target);
                                let key = c + h;
                                frontier.push((key, e.to));
                                proof {
                                    assert forall|q2: int|
                                        0 <= q2 < frontier@.len() implies {
                                        &&& dist@[(#[trigger] frontier@[q2]).1 as int] is Some
                                        &&& dist@[frontier@[q2].1 as int]->Some_0
                                            <= frontier@[q2].0
                                    } by {
                                        if q2 < frontier@.len() - 1 {
                                            assert(frontier@[q2] == f_pre[q2]);
                                            assert(dist_pre[f_pre[q2].1 as int] is Some);
                                            if f_pre[q2].1 as int == ti as int {
                                                assert(dist@[ti as int] == Some(c));
                                            }
                                        } else {
                                            assert(frontier@[q2] == (key, e.to));
                                            assert(dist@[e.to as int] == Some(c));
                                        }
                                    }
                                    if nonneg_weights(graph@) {
                                        assert(dist@ == dist_pre.update(ti as int, Some(c)));
                                        // the start keeps distance zero: any
                                        // improvement total is non-negative
                                        assert(dist@[source as int] == Some(0i64));
                                        assert forall|v: u32, q2: int|
                                            #![trigger done.contains(v), frontier@[q2]]
                                            done.contains(v) && 0 <= q2 < frontier@.len() implies
                                            dist@[v as int]->Some_0 <= frontier@[q2].0 by {
                                            assert(dist@[v as int] == dist_pre[v as int]);
                                            if q2 < frontier@.len() - 1 {
                                                assert(frontier@[q2] == f_pre[q2]);
                                            }
                                        }
                                        assert forall|v: u32, j2: int|
                                            done.contains(v) && 0 <= j2 < graph@[v as int].len() implies {
                                            let e2 = #[trigger] graph@[v as int][j2];
                                            (dist@[e2.to as int] is Some
                                                && dist@[e2.to as int]->Some_0
                                                <= dist@[v as int]->Some_0 + e2.weight) || dist@[
                                                v as int
                                            ]->Some_0 + e2.weight > i64::MAX
                                        } by {
                                            assert(dist@[v as int] == dist_pre[v as int]);
                                            let to2 = graph@[v as int][j2].to;
                                            if dist_pre[to2 as int] is Some {
                                                if to2 as int == ti as int {
                                                    assert(dist@[to2 as int] == Some(c));
                                                    assert(c < dist_pre[to2 as int]->Some_0);
                                                } else {
                                                    assert(dist@[to2 as int] == dist_pre[to2 as int]);
                                                }
                                            }
                                        }
                                        assert(done_optimal(graph@, dist@, done, source)) by {
                                            reveal(crate::algorithms::done_optimal);
                                            assert forall|v: u32, p2: Seq<u32>, c2: int|
                                                done.contains(v) && #[trigger] is_route(
                                                graph@,
                                                p2,
                                                source,
                                                v,
                                                c2,
                                            ) implies dist@[v as int]->Some_0 <= c2 by {
                                                assert(dist@[v as int] == dist_pre[v as int]);
                                            }
                                        }
                                    }
                                }
                            }
                            proof {
                                assert(dist@[graph@[u as int][j as int].to as int] is Some);
                            }
                        },
                        None => {
                            // the candidate total does not fit in an i64;
                            // the abandoned improvement is itself a route
                            // whose cost leaves the range
                            proof {
                                assert(pu@.last() == u);
                                lemma_path_extend(graph@, pu@, du as int, j as int, e.to);
                                assert(path_costs(graph@, pu@.push(e.to), du as int + e.weight));
                                assert(pu@.push(e.to)[0] == source);
                                assert(!in_i64_range(du as int + e.weight));
                                ovf = true;
                                assert(has_unrepresentable_route(graph@, source));
                                if nonneg_weights(graph@) {
                                    assert(graph@[u as int][j as int].weight >= 0);
                                    assert(du + graph@[u as int][j as int].weight > i64::MAX);
                                }
                            }
                        },
                    }
                    j += 1;
                }
                proof {
                    done = done.insert(u);
                    assert forall|v: u32| #[trigger] done.contains(v) implies (v as int) < n
                        && dist@[v as int] is Some by {}
                    assert forall|v: u32, jx: int|
                        done.contains(v) && 0 <= jx < graph@[v as int].len() implies ovf
                        || dist@[(#[trigger] graph@[v as int][jx]).to as int] is Some by {}
                    assert(settled(graph@, dist@, done, ovf));
                    if nonneg_weights(graph@) {
                        assert forall|v: u32, j2: int|
                            done.contains(v) && 0 <= j2 < graph@[v as int].len() implies {
                            let e2 = #[trigger] graph@[v as int][j2];
                            (dist@[e2.to as int] is Some && dist@[e2.to as int]->Some_0
                                <= dist@[v as int]->Some_0 + e2.weight) || dist@[v as int]->Some_0
                                + e2.weight > i64::MAX
                        } by {}
                        assert(relaxed_done(graph@, dist@, done));
                        assert forall|v: u32, q2: int|
                            #![trigger done.contains(v), frontier@[q2]]
                            done.contains(v) && 0 <= q2 < frontier@.len() implies dist@[v as int]->Some_0
                            <= frontier@[q2].0 by {}
                        assert(done_optimal(graph@, dist@, done, source)) by {
                            reveal(crate::algorithms::done_optimal);
                            assert forall|v: u32, p2: Seq<u32>, c2: int|
                                done.contains(v) && #[trigger] is_route(
                                graph@,
                                p2,
                                source,
                                v,
                                c2,
                            ) implies dist@[v as int]->Some_0 <= c2 by {
                                if v == u {
                                    assert(covered_except(dist@, done, frontier@, u));
                                    lemma_frontier_bounds_route(
                                        graph@,
                                        dist@,
                                        done,
                                        frontier@,
                                        u,
                                        du as int,
                                        p2,
                                        c2,
                                    );
                                }
                            }
                        }
                    }
                }
            },
            None => {
                // unreachable for the same reason as at the target check:
                // extracted entries always name reached nodes
                proof {
                    assert(dist@[f0[mi as int].1 as int] is Some);
                }
            },
        }
    }

    let tt = target as usize;
    match dist[tt] {
        Some(d) => {
            proof {
                if nonneg_weights(graph@) {
                    assert(done.contains(target));
                    assert forall|p: Seq<u32>, c: int|
                        is_route(graph@, p, source, target, c) implies d as int <= c by {
                        reveal(crate::algorithms::done_optimal);
                    }
                }
            }
            (Some(d), copy_path(&best[tt]))
        },
        None => {
            proof {
                if !ovf && super::connected(graph@, source, target) {
                    let (p, c): (Seq<u32>, int) = choose|p: Seq<u32>, c: int|
                        is_route(graph@, p, source, target, c);
                    assert forall|v: int|
                        0 <= v < dist@.len() && (#[trigger] dist@[v]) is Some implies done.contains(
                        v as u32,
                    ) by {}
                    lemma_route_stays_finite(graph@, p, c, dist@, done);
                    assert(p.last() == target);
                }
            }
            (None, Vec::new())
        },
    }
}

/// Relies on rayon's `par_iter`, `map` and `collect`: the verified
/// single-pair solver is applied to every query and the answers are
/// collected in input order.
#[verifier::external_body]
fn run_batch(graph: &Graph, queries: &Vec<(u32, u32)>) -> (r: Vec<PathResult>)
    requires
        graph.wf(),
    ensures
        r@.len() == queries@.len(),
        forall|i: int|
            0 <= i < r@.len() ==> search_result_ok(
                graph@,
                queries@[i].0,
                queries@[i].1,
                (#[trigger] r@[i]).distance,
                r@[i].path@,
            ),
{
    queries
        .par_iter()
        .map(|q| {
            let (d, p) = a_star(graph, q.0, q.1);
            PathResult { distance: d, path: p }
        })
        .collect()
}

/// Answers every `(source, target)` query with one heuristic-guided
/// search. Queries are independent and may be solved on parallel workers
/// against the shared read-only graph; the answers come back in input
/// order, one per query.
pub fn a_star_parallel_batch(graph: &Graph, queries: &Vec<(u32, u32)>) -> (r: Vec<PathResult>)
    requires
        graph.wf(),
    ensures
        r@.len() == queries@.len(),
        forall|i: int|
            0 <= i < r@.len() ==> search_result_ok(
                graph@,
                queries@[i].0,
                queries@[i].1,
                (#[trigger] r@[i]).distance,
                r@[i].path@,
            ),
{
    run_batch(graph, queries)
}

} // verus!
