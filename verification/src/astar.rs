//! A* search over the navigation graph.
//!
//! The search keeps a distance-relaxation table and repeatedly settles the
//! open node with the least `g + h` value, where the heuristic `h` is the
//! Euclidean distance to the goal. It returns a path exactly when the goal
//! is reachable from the start, and the returned index sequence is a simple
//! path: consecutive nodes are joined by graph edges and no node repeats.

use vstd::prelude::*;

use crate::geom::candidate_bound;
use crate::graph::{all_pts_bounded, euclid_dist, Graph};

verus! {

/// `p` is a path through `g` from node `s` to node `t`.
pub open spec fn is_path(g: Graph, p: Seq<int>, s: int, t: int) -> bool {
    &&& p.len() >= 1
    &&& p[0] == s
    &&& p[p.len() - 1] == t
    &&& forall|i: int| 0 <= i < p.len() ==> 0 <= #[trigger] p[i] < g.nodes@.len()
    &&& forall|i: int| 0 <= i < p.len() - 1 ==> g.has_edge(#[trigger] p[i], p[i + 1])
}

pub open spec fn reachable(g: Graph, s: int, t: int) -> bool {
    exists|p: Seq<int>| is_path(g, p, s, t)
}

pub open spec fn distinct_seq(p: Seq<int>) -> bool {
    forall|i: int, j: int| #![trigger p[i], p[j]] 0 <= i < j < p.len() ==> p[i] != p[j]
}

/// Every path from inside a set of nodes that is closed under graph edges
/// ends inside that set.
proof fn lemma_closed_set_reaches(g: Graph, closed: Seq<bool>, p: Seq<int>, s: int, t: int)
    requires
        g.wf(),
        closed.len() == g.nodes@.len(),
        0 <= s < g.nodes@.len(),
        closed[s],
        forall|u: int, v: int|
            0 <= u < closed.len() && 0 <= v < closed.len() && closed[u] && #[trigger] g.has_edge(
                u,
                v,
            ) ==> closed[v],
        is_path(g, p, s, t),
    ensures
        closed[t],
    decreases p.len(),
{
    if p.len() == 1 {
    } else {
        let q = p.drop_last();
        let t2 = p[p.len() - 2];
        assert(q[0] == s);
        assert(q[q.len() - 1] == t2);
        assert(forall|i: int| 0 <= i < q.len() ==> 0 <= #[trigger] q[i] < g.nodes@.len());
        assert(forall|i: int| 0 <= i < q.len() - 1 ==> g.has_edge(#[trigger] q[i], q[i + 1]));
        lemma_closed_set_reaches(g, closed, q, s, t2);
        assert(g.has_edge(t2, t));
    }
}

/// Addition that tops out instead of wrapping; used for path costs.
fn sat_add(a: u64, b: u64) -> (r: u64)
    ensures
        r as int == if a as int + b as int <= u64::MAX as int {
            a as int + b as int
        } else {
            u64::MAX as int
        },
{
    if a > u64::MAX - b {
        u64::MAX
    } else {
        a + b
    }
}

/// A* search from `start_idx` to `goal_idx`. Returns the node-index
/// sequence of a route exactly when one exists; the sequence visits no node
/// twice.
pub fn astar(g: &Graph, start_idx: usize, goal_idx: usize) -> (r: Option<Vec<usize>>)
    requires
        g.wf(),
        all_pts_bounded(g.nodes@, candidate_bound()),
        (start_idx as int) < g.nodes@.len(),
        (goal_idx as int) < g.nodes@.len(),
    ensures
        r is Some <==> reachable(*g, start_idx as int, goal_idx as int),
        r matches Some(p) ==> is_path(
            *g,
            p@.map_values(|x: usize| x as int),
            start_idx as int,
            goal_idx as int,
        ) && distinct_seq(p@.map_values(|x: usize| x as int)),
{
    let n = g.nodes.len();
    let mut dist: Vec<u64> = vec![0; n];
    let mut prev: Vec<usize> = vec![0; n];
    let mut reached: Vec<bool> = vec![false; n];
    let mut processed: Vec<bool> = vec![false; n];
    let ghost mut rank: Seq<int> = Seq::new(n as nat, |i: int| 0);
    let ghost mut procset: Set<int> = Set::empty();
    let mut pcount: usize = 0;

    reached[start_idx] = true;

    loop
        invariant
            n == g.nodes@.len(),
            g.wf(),
            all_pts_bounded(g.nodes@, candidate_bound()),
            (start_idx as int) < n,
            (goal_idx as int) < n,
            dist@.len() == n,
            prev@.len() == n,
            reached@.len() == n,
            processed@.len() == n,
            rank.len() == n,
            reached@[start_idx as int],
            !processed@[goal_idx as int],
            forall|v: int| 0 <= v < n ==> 0 <= #[trigger] rank[v],
            forall|v: int| 0 <= v < n && #[trigger] processed@[v] ==> reached@[v],
            forall|v: int|
                0 <= v < n && #[trigger] reached@[v] && v != start_idx as int ==> {
                    let u = prev@[v] as int;
                    &&& 0 <= u < n
                    &&& processed@[u]
                    &&& g.has_edge(u, v)
                    &&& rank[u] < rank[v]
                },
            forall|u: int, k: int|
                0 <= u < n && processed@[u] && 0 <= k < g.adj@[u]@.len() ==> reached@[(
                #[trigger] g.adj@[u]@[k]).to as int],
            procset.finite(),
            procset.len() == pcount,
            forall|v: int| procset.contains(v) <==> (0 <= v < n && processed@[v]),
            pcount <= n,
        decreases n - pcount,
    {
        // Select the open node with the least estimated total cost.
        let mut best: usize = n;
        let mut best_f: u64 = u64::MAX;
        let mut v: usize = 0;
        while v < n
            invariant
                n == g.nodes@.len(),
                g.wf(),
                all_pts_bounded(g.nodes@, candidate_bound()),
                (goal_idx as int) < n,
                dist@.len() == n,
                reached@.len() == n,
                processed@.len() == n,
                v <= n,
                best == n || (best < n && reached@[best as int] && !processed@[best as int]),
                best == n ==> forall|w: int| 0 <= w < v && #[trigger] reached@[w] ==> processed@[w],
            decreases n - v,
        {
            if reached[v] && !processed[v] {
                let f = sat_add(dist[v], euclid_dist(&g.nodes[v], &g.nodes[goal_idx]));
                if best == n || f < best_f {
                    best = v;
                    best_f = f;
                }
            }
            v += 1;
        }

        if best == n {
            // The frontier is exhausted: the reached set is closed under
            // edges and does not contain the goal, so no path exists.
            proof {
                assert forall|p: Seq<int>|
                    !is_path(*g, p, start_idx as int, goal_idx as int) by {
                    if is_path(*g, p, start_idx as int, goal_idx as int) {
                        assert forall|u: int, vv: int|
                            0 <= u < reached@.len() && 0 <= vv < reached@.len() && reached@[u]
                                && #[trigger] g.has_edge(u, vv) implies reached@[vv] by {
                            assert(processed@[u]);
                            let k = choose|k: int|
                                0 <= k < g.adj@[u]@.len() && (#[trigger] g.adj@[u]@[k]).to == vv;
                            assert(reached@[g.adj@[u]@[k].to as int]);
                        }
                        lemma_closed_set_reaches(
                            *g,
                            reached@,
                            p,
                            start_idx as int,
                            goal_idx as int,
                        );
                        assert(processed@[goal_idx as int]);
                    }
                }
                assert(!reachable(*g, start_idx as int, goal_idx as int));
            }
            return None;
        }

        if best == goal_idx {
            // Walk the predecessor links back to the start; ranks strictly
            // decrease along the walk, so it terminates and repeats no node.
            let mut rev: Vec<usize> = Vec::new();
            rev.push(goal_idx);
            let mut cur: usize = goal_idx;
            while cur != start_idx
                invariant
                    n == g.nodes@.len(),
                    g.wf(),
                    (start_idx as int) < n,
                    (goal_idx as int) < n,
                    prev@.len() == n,
                    reached@.len() == n,
                    processed@.len() == n,
                    rank.len() == n,
                    reached@[start_idx as int],
                    forall|w: int| 0 <= w < n ==> 0 <= #[trigger] rank[w],
                    forall|w: int| 0 <= w < n && #[trigger] processed@[w] ==> reached@[w],
                    forall|w: int|
                        0 <= w < n && #[trigger] reached@[w] && w != start_idx as int ==> {
                            let u = prev@[w] as int;
                            &&& 0 <= u < n
                            &&& processed@[u]
                            &&& g.has_edge(u, w)
                            &&& rank[u] < rank[w]
                        },
                    (cur as int) < n,
                    reached@[cur as int],
                    rev@.len() >= 1,
                    rev@[0] == goal_idx,
                    rev@[rev@.len() - 1] == cur,
                    forall|i: int| 0 <= i < rev@.len() ==> (#[trigger] rev@[i]) < n,
                    forall|i: int| 0 <= i < rev@.len() ==> reached@[(#[trigger] rev@[i]) as int],
                    forall|i: int|
                        0 <= i < rev@.len() - 1 ==> g.has_edge(
                            rev@[i + 1] as int,
                            (#[trigger] rev@[i]) as int,
                        ),
                    forall|i: int, j: int|
                        #![trigger rev@[i], rev@[j]]
                        0 <= i < j < rev@.len() ==> rank[rev@[i] as int] > rank[rev@[j] as int],
                decreases rank[cur as int],
            {
                let p = prev[cur];
                rev.push(p);
                cur = p;
            }
            let m = rev.len();
            let mut path: Vec<usize> = Vec::new();
            let mut i: usize = m;
            while i > 0
                invariant
                    m == rev@.len(),
                    i <= m,
                    path@.len() == m - i,
                    forall|j: int| 0 <= j < path@.len() ==> #[trigger] path@[j] == rev@[m - 1 - j],
                decreases i,
            {
                i -= 1;
                path.push(rev[i]);
            }
            proof {
                let pm = path@.map_values(|x: usize| x as int);
                assert(pm.len() == m);
                assert(forall|j: int| 0 <= j < pm.len() ==> #[trigger] pm[j] == path@[j] as int);
                assert(pm[0] == start_idx as int);
                assert(pm[pm.len() - 1] == goal_idx as int);
                assert forall|j: int| 0 <= j < pm.len() - 1 implies g.has_edge(
                    #[trigger] pm[j],
                    pm[j + 1],
                ) by {
                    assert(path@[j] == rev@[m - 1 - j]);
                    assert(path@[j + 1] == rev@[m - 1 - (j + 1)]);
                    assert(g.has_edge(rev@[(m - 2 - j) + 1] as int, rev@[m - 2 - j] as int));
                }
                assert(is_path(*g, pm, start_idx as int, goal_idx as int));
                assert forall|a: int, b: int|
                    #![trigger pm[a], pm[b]]
                    0 <= a < b < pm.len() implies pm[a] != pm[b] by {
                    assert(rank[rev@[m - 1 - b] as int] > rank[rev@[m - 1 - a] as int]);
                }
                assert(reachable(*g, start_idx as int, goal_idx as int));
            }
            return Some(path);
        }

        // Settle the selected node and relax its outgoing edges.
        processed[best] = true;
        proof {
            assert(!procset.contains(best as int));
            vstd::set::axiom_set_insert_len(procset, best as int);
            procset = procset.insert(best as int);
            vstd::set_lib::lemma_int_range(0, n as int);
            assert(procset.subset_of(vstd::set_lib::set_int_range(0, n as int)));
            vstd::set_lib::lemma_len_subset(procset, vstd::set_lib::set_int_range(0, n as int));
        }
        pcount += 1;

        let row_len = g.adj[best].len();
        let mut k: usize = 0;
        while k < row_len
            invariant
                n == g.nodes@.len(),
                g.wf(),
                (start_idx as int) < n,
                (goal_idx as int) < n,
                (best as int) < n,
                best != goal_idx,
                processed@[best as int],
                row_len == g.adj@[best as int]@.len(),
                k <= row_len,
                dist@.len() == n,
                prev@.len() == n,
                reached@.len() == n,
                processed@.len() == n,
                rank.len() == n,
                reached@[start_idx as int],
                !processed@[goal_idx as int],
                forall|w: int| 0 <= w < n ==> 0 <= #[trigger] rank[w],
                forall|w: int| 0 <= w < n && #[trigger] processed@[w] ==> reached@[w],
                forall|w: int|
                    0 <= w < n && #[trigger] reached@[w] && w != start_idx as int ==> {
                        let u = prev@[w] as int;
                        &&& 0 <= u < n
                        &&& processed@[u]
                        &&& g.has_edge(u, w)
                        &&& rank[u] < rank[w]
                    },
                forall|u: int, kk: int|
                    0 <= u < n && processed@[u] && u != best as int && 0 <= kk < g.adj@[u]@.len()
                        ==> reached@[(#[trigger] g.adj@[u]@[kk]).to as int],
                forall|kk: int|
                    0 <= kk < k ==> reached@[(#[trigger] g.adj@[best as int]@[kk]).to as int],
                procset.finite(),
                procset.len() == pcount,
                forall|w: int| procset.contains(w) <==> (0 <= w < n && processed@[w]),
                pcount <= n,
            decreases row_len - k,
        {
            let e_to = g.adj[best][k].to;
            let e_cost = g.adj[best][k].cost;
            if !processed[e_to] {
                let ng = sat_add(dist[best], e_cost);
                if !reached[e_to] || ng < dist[e_to] {
                    dist[e_to] = ng;
                    prev[e_to] = best;
                    reached[e_to] = true;
                    proof {
                        rank = rank.update(e_to as int, rank[best as int] + 1);
                    }
                }
            }
            k += 1;
        }
    }
}

} // verus!
