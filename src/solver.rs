use vstd::prelude::*;

use crate::geometry::{distance, scaled_distance, step_bound};
use crate::graph::{
    adjacent, connected, has_id, index_of, is_walk, lemma_index_of_found, lemma_index_of_range,
    valid_nodes, walk_length, Graph, GraphError, GraphNode,
};
use crate::path::{list_contains, Path};

verus! {

/// How a solve ended; either way the graph comes back to the caller.
pub enum SolveStatus {
    Solved(Path),
    Unsolved(Graph, GraphError),
}

/// The number of `true` entries.
pub open spec fn count_true(s: Seq<bool>) -> nat
    decreases s.len(),
{
    if s.len() == 0 {
        0
    } else {
        count_true(s.drop_last()) + if s.last() {
            1nat
        } else {
            0nat
        }
    }
}

proof fn lemma_count_true_bound(s: Seq<bool>)
    ensures
        count_true(s) <= s.len(),
    decreases s.len(),
{
    if s.len() > 0 {
        lemma_count_true_bound(s.drop_last());
    }
}

proof fn lemma_count_true_set(s: Seq<bool>, i: int)
    requires
        0 <= i < s.len(),
        !s[i],
    ensures
        count_true(s.update(i, true)) == count_true(s) + 1,
    decreases s.len(),
{
    let t = s.update(i, true);
    if i < s.len() - 1 {
        assert(t.drop_last() =~= s.drop_last().update(i, true));
        lemma_count_true_set(s.drop_last(), i);
    } else {
        assert(t.drop_last() =~= s.drop_last());
    }
}

/// Every node adjacent to a settled node is reached.
pub open spec fn closed_under_adjacency(
    g: Seq<GraphNode>,
    settled: Seq<bool>,
    reached: Seq<bool>,
) -> bool {
    forall|u: int, v: int|
        0 <= u < g.len() && 0 <= v < g.len() && settled[u] && #[trigger] adjacent(
            g,
            g[u].id,
            g[v].id,
        ) ==> reached[v]
}

proof fn lemma_all_false(m: nat)
    ensures
        count_true(Seq::new(m, |i: int| false)) == 0,
    decreases m,
{
    if m > 0 {
        assert(Seq::new(m, |i: int| false).drop_last() =~= Seq::new((m - 1) as nat, |i: int| false));
        lemma_all_false((m - 1) as nat);
    }
}

/// A walk that starts in a set of nodes closed under adjacency stays in it.
proof fn lemma_walk_stays(g: Seq<GraphNode>, settled: Seq<bool>, p: Seq<u32>, k: int)
    requires
        valid_nodes(g),
        settled.len() == g.len(),
        is_walk(g, p),
        0 <= k < p.len(),
        settled[index_of(g, p[0])],
        closed_under_adjacency(g, settled, settled),
    ensures
        settled[index_of(g, p[k])],
    decreases k,
{
    if k > 0 {
        lemma_walk_stays(g, settled, p, k - 1);
        let a = p[k - 1];
        let b = p[k];
        assert(adjacent(g, p[k - 1], p[k - 1 + 1]));
        lemma_index_of_range(g, a);
        lemma_index_of_range(g, b);
        let u = index_of(g, a);
        let v = index_of(g, b);
        assert(adjacent(g, g[u].id, g[v].id));
    }
}

/// Following `pred` from a node of `good` other than `s` leads to an
/// adjacent node of `good` that comes earlier in `order`, one edge shorter in
/// `dist`; so the chain from `e` ends at `s` and traces a shortest walk.
pub open spec fn leads_back(
    g: Seq<GraphNode>,
    pred: Seq<usize>,
    dist: Seq<u128>,
    order: Seq<nat>,
    good: Seq<bool>,
    s: int,
    e: int,
) -> bool {
    &&& pred.len() == g.len()
    &&& order.len() == g.len()
    &&& good.len() == g.len()
    &&& 0 <= e < g.len()
    &&& dist.len() == g.len()
    &&& 0 <= s < g.len()
    &&& good[e]
    &&& dist[s] == 0
    &&& no_shorter_walk(g, g[s].id, g[e].id, dist[e] as int)
    &&& forall|k: int|
        0 <= k < g.len() && good[k] && k != s ==> #[trigger] pred[k] < g.len() && good[pred[k] as int]
            && order[pred[k] as int] < order[k] && adjacent(g, g[pred[k] as int].id, g[k].id)
            && dist[k] == dist[pred[k] as int] + edge_length(g, pred[k] as int, k)
}

pub open spec fn leads_back_somehow(
    g: Seq<GraphNode>,
    pred: Seq<usize>,
    dist: Seq<u128>,
    s: int,
    e: int,
) -> bool {
    exists|order: Seq<nat>, good: Seq<bool>| leads_back(g, pred, dist, order, good, s, e)
}

/// `p` is a walk from `a` to `b`.
pub open spec fn walk_between(g: Seq<GraphNode>, p: Seq<u32>, a: u32, b: u32) -> bool {
    is_walk(g, p) && p[0] == a && p.last() == b
}

/// No walk from `a` to `b` is shorter than `d`.
pub open spec fn no_shorter_walk(g: Seq<GraphNode>, a: u32, b: u32, d: int) -> bool {
    forall|q: Seq<u32>| #[trigger] walk_between(g, q, a, b) ==> d <= walk_length(g, q)
}

pub open spec fn edge_length(g: Seq<GraphNode>, x: int, v: int) -> nat {
    distance(g[x].coords, g[v].coords)
}

/// The distance recorded for a settled node is that of a shortest walk.
pub open spec fn settled_exact(g: Seq<GraphNode>, settled: Seq<bool>, dist: Seq<u128>, s: int) -> bool {
    forall|k: int|
        0 <= k < g.len() && #[trigger] settled[k] ==> no_shorter_walk(g, g[s].id, g[k].id, dist[k] as int)
}

/// Each unsettled neighbour of a settled node is reached, at a recorded
/// distance no greater than through that node.
pub open spec fn frontier_bounded(
    g: Seq<GraphNode>,
    settled: Seq<bool>,
    reached: Seq<bool>,
    dist: Seq<u128>,
) -> bool {
    forall|x: int, v: int|
        0 <= x < g.len() && 0 <= v < g.len() && settled[x] && !settled[v] && #[trigger] adjacent(
            g,
            g[x].id,
            g[v].id,
        ) ==> reached[v] && dist[v] <= dist[x] + edge_length(g, x, v)
}

proof fn lemma_walk_drop_last(g: Seq<GraphNode>, q: Seq<u32>)
    requires
        is_walk(g, q),
        q.len() >= 2,
    ensures
        is_walk(g, q.drop_last()),
        walk_length(g, q) == walk_length(g, q.drop_last()) + edge_length(
            g,
            index_of(g, q[q.len() - 2]),
            index_of(g, q.last()),
        ),
        adjacent(g, q[q.len() - 2], q.last()),
{
    let qp = q.drop_last();
    assert forall|i: int| 0 <= i < qp.len() implies has_id(g, #[trigger] qp[i]) by {
        assert(qp[i] == q[i]);
    }
    assert forall|i: int| 0 <= i < qp.len() - 1 implies adjacent(g, #[trigger] qp[i], qp[i + 1]) by {
        assert(qp[i] == q[i] && qp[i + 1] == q[i + 1]);
    }
    assert(adjacent(g, q[q.len() - 2], q[q.len() - 2 + 1]));
}

proof fn lemma_walk_length_push(g: Seq<GraphNode>, p: Seq<u32>, x: u32)
    requires
        p.len() >= 1,
    ensures
        walk_length(g, p.push(x)) == walk_length(g, p) + distance(
            g[index_of(g, p.last())].coords,
            g[index_of(g, x)].coords,
        ),
{
    assert(p.push(x).drop_last() =~= p);
}

/// A walk from a settled start to an unsettled node passes a reached,
/// unsettled node whose recorded distance is at most the walk's length.
proof fn lemma_walk_leaves(
    g: Seq<GraphNode>,
    settled: Seq<bool>,
    reached: Seq<bool>,
    dist: Seq<u128>,
    s: int,
    q: Seq<u32>,
) -> (y: int)
    requires
        valid_nodes(g),
        settled.len() == g.len(),
        reached.len() == g.len(),
        dist.len() == g.len(),
        0 <= s < g.len(),
        settled[s],
        is_walk(g, q),
        q[0] == g[s].id,
        !settled[index_of(g, q.last())],
        settled_exact(g, settled, dist, s),
        frontier_bounded(g, settled, reached, dist),
    ensures
        0 <= y < g.len(),
        !settled[y],
        reached[y],
        dist[y] <= walk_length(g, q),
    decreases q.len(),
{
    lemma_index_of_found(g, g[s].id, s);
    if q.len() == 1 {
        assert(index_of(g, q.last()) == s);
        0
    } else {
        let qp = q.drop_last();
        lemma_walk_drop_last(g, q);
        lemma_index_of_range(g, q.last());
        lemma_index_of_range(g, qp.last());
        let t = index_of(g, q.last());
        let x = index_of(g, qp.last());
        if settled[x] {
            assert(walk_between(g, qp, g[s].id, g[x].id));
            assert(adjacent(g, g[x].id, g[t].id));
            t
        } else {
            lemma_walk_leaves(g, settled, reached, dist, s, qp)
        }
    }
}

fn filled_u128(n: usize) -> (r: Vec<u128>)
    ensures
        r@ == Seq::new(n as nat, |i: int| 0u128),
{
    let mut r: Vec<u128> = Vec::new();
    let mut i: usize = 0;
    while i < n
        invariant
            i <= n,
            r@ == Seq::new(i as nat, |k: int| 0u128),
        decreases n - i,
    {
        r.push(0);
        i += 1;
        assert(r@ =~= Seq::new(i as nat, |k: int| 0u128));
    }
    r
}

fn filled_bool(n: usize) -> (r: Vec<bool>)
    ensures
        r@ == Seq::new(n as nat, |i: int| false),
{
    let mut r: Vec<bool> = Vec::new();
    let mut i: usize = 0;
    while i < n
        invariant
            i <= n,
            r@ == Seq::new(i as nat, |k: int| false),
        decreases n - i,
    {
        r.push(false);
        i += 1;
        assert(r@ =~= Seq::new(i as nat, |k: int| false));
    }
    r
}

fn filled_usize(n: usize) -> (r: Vec<usize>)
    ensures
        r@ == Seq::new(n as nat, |i: int| 0usize),
{
    let mut r: Vec<usize> = Vec::new();
    let mut i: usize = 0;
    while i < n
        invariant
            i <= n,
            r@ == Seq::new(i as nat, |k: int| 0usize),
        decreases n - i,
    {
        r.push(0);
        i += 1;
        assert(r@ =~= Seq::new(i as nat, |k: int| 0usize));
    }
    r
}

/// Settles nodes from `s` in increasing order of distance, the smaller id
/// first among equals, until `e` is settled; returns each node's
/// predecessor on its shortest known route, or `None` when `e` cannot be
/// reached.
fn shortest_routes(g: &Graph, s: usize, e: usize) -> (r: Option<(Vec<usize>, Vec<u128>)>)
    requires
        g.wf(),
        s < g@.len(),
        e < g@.len(),
        s != e,
    ensures
        r is None ==> !connected(g@, g@[s as int].id, g@[e as int].id),
        r matches Some((pred, dist)) ==> leads_back_somehow(g@, pred@, dist@, s as int, e as int),
{
    let ghost gv = g@;
    let n = g.node_count();
    let mut dist = filled_u128(n);
    let mut reached = filled_bool(n);
    let mut settled = filled_bool(n);
    let mut pred = filled_usize(n);
    reached.set(s, true);
    let ghost mut order: Seq<nat> = Seq::new(n as nat, |i: int| 0nat);
    proof {
        lemma_all_false(n as nat);
    }
    loop
        invariant
            gv == g@,
            g.wf(),
            n == gv.len(),
            s < n,
            e < n,
            dist@.len() == n,
            reached@.len() == n,
            settled@.len() == n,
            pred@.len() == n,
            reached@[s as int],
            !settled@[e as int],
            count_true(settled@) <= n,
            forall|k: int| 0 <= k < n && settled@[k] ==> reached@[k],
            forall|k: int| 0 <= k < n ==> pred@[k] < n,
            forall|k: int|
                0 <= k < n && reached@[k] ==> dist@[k] <= count_true(settled@) * step_bound(),
            closed_under_adjacency(gv, settled@, reached@),
            order.len() == n,
            forall|k: int| 0 <= k < n && settled@[k] ==> order[k] < count_true(settled@),
            forall|k: int|
                0 <= k < n && reached@[k] && k != s ==> #[trigger] pred@[k] < n && settled@[pred@[k] as int]
                    && adjacent(gv, gv[pred@[k] as int].id, gv[k].id),
            forall|k: int|
                0 <= k < n && settled@[k] && k != s ==> order[#[trigger] pred@[k] as int] < order[k],
            dist@[s as int] == 0,
            settled@[s as int] || forall|k: int| 0 <= k < n && reached@[k] ==> k == s,
            settled_exact(gv, settled@, dist@, s as int),
            frontier_bounded(gv, settled@, reached@, dist@),
            forall|k: int|
                0 <= k < n && reached@[k] && k != s ==> dist@[k] == dist@[#[trigger] pred@[k] as int]
                    + edge_length(gv, pred@[k] as int, k),
        decreases n - count_true(settled@),
    {
        let mut best: usize = n;
        let mut i: usize = 0;
        while i < n
            invariant
                n == dist@.len(),
                n == reached@.len(),
                n == settled@.len(),
                n == g@.len(),
                i <= n,
                best == n || (best < n && reached@[best as int] && !settled@[best as int]),
                best == n ==> forall|k: int| 0 <= k < i ==> !(reached@[k] && !settled@[k]),
                best != n ==> forall|k: int|
                    0 <= k < i && reached@[k] && !settled@[k] ==> dist@[best as int] <= dist@[k],
            decreases n - i,
        {
            if reached[i] && !settled[i] {
                if best == n || dist[i] < dist[best] || (dist[i] == dist[best] && g.node_at(i).id
                    < g.node_at(best).id) {
                    best = i;
                }
            }
            i += 1;
        }
        if best == n {
            proof {
                assert(closed_under_adjacency(gv, settled@, settled@));
                lemma_index_of_found(gv, gv[s as int].id, s as int);
                lemma_index_of_found(gv, gv[e as int].id, e as int);
                if connected(gv, gv[s as int].id, gv[e as int].id) {
                    let p = choose|p: Seq<u32>|
                        is_walk(gv, p) && p[0] == gv[s as int].id && p.last() == gv[e as int].id;
                    lemma_walk_stays(gv, settled@, p, p.len() - 1);
                }
            }
            return None;
        }
        let u = best;
        proof {
            assert forall|q: Seq<u32>| #[trigger]
                walk_between(gv, q, gv[s as int].id, gv[u as int].id) implies dist@[u as int]
                <= walk_length(gv, q) by {
                if u != s {
                    lemma_index_of_found(gv, gv[u as int].id, u as int);
                    let y = lemma_walk_leaves(gv, settled@, reached@, dist@, s as int, q);
                }
            }
            lemma_count_true_set(settled@, u as int);
        }
        let ghost before = count_true(settled@);
        settled.set(u, true);
        proof {
            order = order.update(u as int, before);
        }
        proof {
            lemma_count_true_bound(settled@);
        }
        if u == e {
            assert(leads_back(gv, pred@, dist@, order, settled@, s as int, e as int));
            assert(leads_back_somehow(g@, pred@, dist@, s as int, e as int));
            return Some((pred, dist));
        }
        let cu = g.node_at(u);
        let du = dist[u];
        let m = cu.children.len();
        let mut c: usize = 0;
        proof {
            lemma_index_of_found(gv, cu.id, u as int);
        }
        while c < m
            invariant
                gv == g@,
                g.wf(),
                n == gv.len(),
                s < n,
                e < n,
                u < n,
                u != e,
                *cu == gv[u as int],
                m == cu.children@.len(),
                c <= m,
                index_of(gv, cu.id) == u,
                dist@.len() == n,
                reached@.len() == n,
                settled@.len() == n,
                pred@.len() == n,
                reached@[s as int],
                !settled@[e as int],
                settled@[u as int],
                count_true(settled@) == before + 1,
                count_true(settled@) <= n,
                du == dist@[u as int],
                du <= before * step_bound(),
                forall|k: int| 0 <= k < n && settled@[k] ==> reached@[k],
                forall|k: int| 0 <= k < n ==> pred@[k] < n,
                forall|k: int|
                    0 <= k < n && reached@[k] ==> dist@[k] <= count_true(settled@) * step_bound(),
                forall|x: int, v: int|
                    0 <= x < n && 0 <= v < n && x != u && settled@[x] && #[trigger] adjacent(
                        gv,
                        gv[x].id,
                        gv[v].id,
                    ) ==> reached@[v],
                order.len() == n,
                order[u as int] == before,
                forall|k: int| 0 <= k < n && settled@[k] ==> order[k] < count_true(settled@),
                forall|k: int|
                    0 <= k < n && reached@[k] && k != s ==> #[trigger] pred@[k] < n && settled@[pred@[k] as int]
                        && adjacent(gv, gv[pred@[k] as int].id, gv[k].id),
                forall|k: int|
                    0 <= k < n && settled@[k] && k != s ==> order[#[trigger] pred@[k] as int] < order[k],
                dist@[s as int] == 0,
                settled@[s as int],
                settled_exact(gv, settled@, dist@, s as int),
                forall|x: int, v: int|
                    0 <= x < n && 0 <= v < n && x != u && settled@[x] && !settled@[v]
                        && #[trigger] adjacent(gv, gv[x].id, gv[v].id) ==> dist@[v] <= dist@[x]
                        + edge_length(gv, x, v),
                forall|k: int|
                    0 <= k < n && reached@[k] && k != s ==> dist@[k] == dist@[#[trigger] pred@[k] as int]
                        + edge_length(gv, pred@[k] as int, k),
                forall|j: int, v: int|
                    #![trigger cu.children@[j], adjacent(gv, cu.id, gv[v].id)]
                    0 <= j < c && 0 <= v < n && cu.children@[j] == gv[v].id && adjacent(
                        gv,
                        cu.id,
                        gv[v].id,
                    ) && !settled@[v] ==> dist@[v] <= du + edge_length(gv, u as int, v),
                forall|j: int, v: int|
                    #![trigger cu.children@[j], adjacent(gv, cu.id, gv[v].id)]
                    0 <= j < c && 0 <= v < n && cu.children@[j] == gv[v].id && adjacent(
                        gv,
                        cu.id,
                        gv[v].id,
                    ) ==> reached@[v],
            decreases m - c,
        {
            let cid = cu.children[c];
            match g.find_index(cid) {
                None => {
                    proof {
                        lemma_index_of_range(gv, cid);
                    }
                },
                Some(v) => {
                    if !settled[v] && list_contains(&g.node_at(v).children, cu.id) {
                        let d = scaled_distance(&cu.coords, &g.node_at(v).coords);
                        let nd: u128 = du + d as u128;
                        if !reached[v] || nd < dist[v] {
                            proof {
                                assert(cu.children@[c as int] == cid);
                                assert(adjacent(gv, gv[u as int].id, gv[v as int].id));
                            }
                            dist.set(v, nd);
                            reached.set(v, true);
                            pred.set(v, u);
                        }
                    }
                },
            }
            c += 1;
        }
        proof {
            assert forall|x: int, v: int|
                0 <= x < n && 0 <= v < n && settled@[x] && #[trigger] adjacent(
                    gv,
                    gv[x].id,
                    gv[v].id,
                ) implies reached@[v] by {
                if x == u {
                    let j = choose|j: int| 0 <= j < m && cu.children@[j] == gv[v].id;
                    assert(adjacent(gv, cu.id, gv[v].id));
                }
            }
            assert forall|x: int, v: int|
                0 <= x < n && 0 <= v < n && settled@[x] && !settled@[v] && #[trigger] adjacent(
                    gv,
                    gv[x].id,
                    gv[v].id,
                ) implies reached@[v] && dist@[v] <= dist@[x] + edge_length(gv, x, v) by {
                if x == u {
                    let j = choose|j: int| 0 <= j < m && cu.children@[j] == gv[v].id;
                    assert(adjacent(gv, cu.id, gv[v].id));
                }
            }
        }
    }
}

/// `back` lists the ids of a walk from `e` back to `s` through the nodes at
/// `idx`, each recorded distance that of the next plus the edge between.
pub open spec fn traced_by(
    g: Seq<GraphNode>,
    back: Seq<u32>,
    idx: Seq<int>,
    dist: Seq<u128>,
    s: int,
    e: int,
) -> bool {
    &&& back.len() >= 1
    &&& idx.len() == back.len()
    &&& idx[0] == e
    &&& idx.last() == s
    &&& dist.len() == g.len()
    &&& forall|j: int| 0 <= j < idx.len() ==> 0 <= #[trigger] idx[j] < g.len() && back[j] == g[idx[j]].id
    &&& forall|j: int|
        0 <= j < idx.len() - 1 ==> dist[#[trigger] idx[j]] == dist[idx[j + 1]] + edge_length(
            g,
            idx[j + 1],
            idx[j],
        )
    &&& forall|j: int| 0 <= j < back.len() - 1 ==> adjacent(g, #[trigger] back[j + 1], back[j])
}

proof fn lemma_leads_back_facts(g: Seq<GraphNode>, pred: Seq<usize>, dist: Seq<u128>, s: int, e: int)
    requires
        leads_back_somehow(g, pred, dist, s, e),
    ensures
        dist.len() == g.len(),
        0 <= s < g.len(),
        dist[s] == 0,
        no_shorter_walk(g, g[s].id, g[e].id, dist[e] as int),
{
}

/// Follows the predecessors from `e` back to `s`, listing the ids passed.
fn trace_back(g: &Graph, pred: &Vec<usize>, dist: &Vec<u128>, s: usize, e: usize) -> (back: Vec<u32>)
    requires
        g.wf(),
        s < g@.len(),
        e < g@.len(),
        leads_back_somehow(g@, pred@, dist@, s as int, e as int),
    ensures
        exists|idx: Seq<int>| traced_by(g@, back@, idx, dist@, s as int, e as int),
{
    let ghost gv = g@;
    let n = g.node_count();
    let ghost (order, good) = choose|o: Seq<nat>, gd: Seq<bool>|
        leads_back(gv, pred@, dist@, o, gd, s as int, e as int);
    let mut back: Vec<u32> = Vec::new();
    back.push(g.node_at(e).id);
    let ghost mut idx: Seq<int> = seq![e as int];
    let mut cur = e;
    while cur != s
        invariant
            gv == g@,
            n == gv.len(),
            s < n,
            leads_back(gv, pred@, dist@, order, good, s as int, e as int),
            cur < n,
            good[cur as int],
            back@.len() >= 1,
            back@.last() == gv[cur as int].id,
            idx.len() == back@.len(),
            idx[0] == e,
            idx.last() == cur,
            forall|j: int| 0 <= j < idx.len() ==> 0 <= #[trigger] idx[j] < n && back@[j] == gv[idx[j]].id,
            forall|j: int|
                0 <= j < idx.len() - 1 ==> dist@[#[trigger] idx[j]] == dist@[idx[j + 1]] + edge_length(
                    gv,
                    idx[j + 1],
                    idx[j],
                ),
            forall|j: int| 0 <= j < back@.len() - 1 ==> adjacent(gv, #[trigger] back@[j + 1], back@[j]),
        decreases order[cur as int],
    {
        let ghost old_back = back@;
        let ghost old_idx = idx;
        let ghost old_cur = cur;
        assert(pred@[old_cur as int] < n);
        cur = pred[cur];
        back.push(g.node_at(cur).id);
        proof {
            idx = idx.push(cur as int);
            assert forall|j: int| 0 <= j < back@.len() - 1 implies adjacent(
                gv,
                #[trigger] back@[j + 1],
                back@[j],
            ) by {
                if j < old_back.len() - 1 {
                    assert(back@[j] == old_back[j] && back@[j + 1] == old_back[j + 1]);
                } else {
                    assert(back@[j] == old_back.last());
                }
            }
            assert forall|j: int|
                0 <= j < idx.len() - 1 implies dist@[#[trigger] idx[j]] == dist@[idx[j + 1]]
                + edge_length(gv, idx[j + 1], idx[j]) by {
                if j < old_idx.len() - 1 {
                    assert(idx[j] == old_idx[j] && idx[j + 1] == old_idx[j + 1]);
                } else {
                    assert(idx[j] == old_cur && idx[j + 1] == pred@[old_cur as int]);
                }
            }
        }
    }
    assert(traced_by(gv, back@, idx, dist@, s as int, e as int));
    back
}

pub open spec fn is_min_id(g: Seq<GraphNode>, id: u32) -> bool {
    has_id(g, id) && forall|k: int| 0 <= k < g.len() ==> id <= #[trigger] g[k].id
}

pub open spec fn is_max_id(g: Seq<GraphNode>, id: u32) -> bool {
    has_id(g, id) && forall|k: int| 0 <= k < g.len() ==> #[trigger] g[k].id <= id
}

impl SolveStatus {
    /// The nodes of the graph that the outcome holds.
    pub open spec fn graph_view(&self) -> Seq<GraphNode> {
        match self {
            SolveStatus::Solved(p) => p.graph_view(),
            SolveStatus::Unsolved(g, _) => g@,
        }
    }

    pub open spec fn wf(&self) -> bool {
        match self {
            SolveStatus::Solved(p) => p.wf(),
            SolveStatus::Unsolved(g, _) => g.wf(),
        }
    }

    pub open spec fn error_view(&self) -> Option<GraphError> {
        match self {
            SolveStatus::Solved(_) => None,
            SolveStatus::Unsolved(_, e) => Some(*e),
        }
    }

    /// The outcome holds a shortest walk from `start` to `end`.
    pub open spec fn solves(&self, start: u32, end: u32) -> bool {
        match self {
            SolveStatus::Solved(p) => is_walk(p.graph_view(), p.ids_view()) && p.ids_view()[0]
                == start && p.ids_view().last() == end && no_shorter_walk(
                p.graph_view(),
                start,
                end,
                walk_length(p.graph_view(), p.ids_view()) as int,
            ),
            SolveStatus::Unsolved(_, _) => false,
        }
    }

    /// Why the solve failed, if it did.
    pub fn error(&self) -> (r: Option<GraphError>)
        ensures
            r == self.error_view(),
    {
        match self {
            SolveStatus::Solved(_) => None,
            SolveStatus::Unsolved(_, e) => Some(*e),
        }
    }

    /// Takes the graph back, whatever the outcome.
    pub fn into_graph(self) -> (r: Graph)
        requires
            self.wf(),
        ensures
            r@ == self.graph_view(),
            r.wf(),
    {
        match self {
            SolveStatus::Solved(p) => p.reclaim_graph(),
            SolveStatus::Unsolved(g, _) => g,
        }
    }
}

impl Graph {
    /// Solves between the smallest and the largest id of the graph.
    pub fn solve_all(self) -> (r: SolveStatus)
        requires
            self.wf(),
        ensures
            r.wf(),
            r.graph_view() == self@,
            self@.len() == 0 ==> r.error_view() == Some(GraphError::EmptyGraph),
            self@.len() == 1 ==> r.error_view() == Some(GraphError::SingleNode),
            self@.len() >= 2 ==> exists|a: u32, b: u32|
                is_min_id(self@, a) && is_max_id(self@, b) && a != b && (r.solves(a, b)
                <==> connected(self@, a, b)) && (!r.solves(a, b) ==> r.error_view() == Some(
                GraphError::NoPath)),
    {
        let n = self.node_count();
        if n == 0 {
            return SolveStatus::Unsolved(self, GraphError::EmptyGraph);
        }
        if n == 1 {
            return SolveStatus::Unsolved(self, GraphError::SingleNode);
        }
        let ghost gv = self@;
        let mut lo: usize = 0;
        let mut hi: usize = 0;
        let mut i: usize = 1;
        while i < n
            invariant
                gv == self@,
                n == gv.len(),
                1 <= i <= n,
                lo < i,
                hi < i,
                forall|k: int| 0 <= k < i ==> gv[lo as int].id <= #[trigger] gv[k].id,
                forall|k: int| 0 <= k < i ==> #[trigger] gv[k].id <= gv[hi as int].id,
            decreases n - i,
        {
            let id = self.node_at(i).id;
            if id < self.node_at(lo).id {
                lo = i;
            }
            if id > self.node_at(hi).id {
                hi = i;
            }
            i += 1;
        }
        let first = self.node_at(lo).id;
        let last = self.node_at(hi).id;
        proof {
            lemma_index_of_found(gv, first, lo as int);
            lemma_index_of_found(gv, last, hi as int);
            assert(gv[0].id != gv[1].id);
            assert(gv[0].id >= first && gv[0].id <= last);
            assert(gv[1].id >= first && gv[1].id <= last);
        }
        let r = self.bare_solve(first, last);
        assert(is_min_id(gv, first) && is_max_id(gv, last) && first != last);
        r
    }

    /// Solves between the nodes with ids `start` and `end`.
    pub fn solve_given(self, start: u32, end: u32) -> (r: SolveStatus)
        requires
            self.wf(),
        ensures
            r.wf(),
            r.graph_view() == self@,
            start == end ==> r.error_view() == Some(GraphError::SameEndpoint),
            start != end && self@.len() == 0 ==> r.error_view() == Some(GraphError::EmptyGraph),
            start != end && self@.len() == 1 ==> r.error_view() == Some(GraphError::SingleNode),
            start != end && self@.len() >= 2 && !(has_id(self@, start) && has_id(self@, end))
                ==> r.error_view() == Some(GraphError::EndpointNotFound),
            start != end && self@.len() >= 2 && has_id(self@, start) && has_id(self@, end) ==> (
            r.solves(start, end) <==> connected(self@, start, end)),
            start != end && self@.len() >= 2 && has_id(self@, start) && has_id(self@, end)
                && !r.solves(start, end) ==> r.error_view() == Some(GraphError::NoPath),
    {
        if start == end {
            return SolveStatus::Unsolved(self, GraphError::SameEndpoint);
        }
        let n = self.node_count();
        if n == 0 {
            return SolveStatus::Unsolved(self, GraphError::EmptyGraph);
        }
        if n == 1 {
            return SolveStatus::Unsolved(self, GraphError::SingleNode);
        }
        if self.find_index(start).is_none() || self.find_index(end).is_none() {
            return SolveStatus::Unsolved(self, GraphError::EndpointNotFound);
        }
        self.bare_solve(start, end)
    }

    /// Runs the search, then builds the path forward through adjacency
    /// checks.
    fn bare_solve(self, start: u32, end: u32) -> (r: SolveStatus)
        requires
            self.wf(),
            has_id(self@, start),
            has_id(self@, end),
            start != end,
        ensures
            r.wf(),
            r.graph_view() == self@,
            r.solves(start, end) <==> connected(self@, start, end),
            !r.solves(start, end) ==> r.error_view() == Some(GraphError::NoPath),
    {
        let ghost gv = self@;
        let n = self.node_count();
        let s = match self.find_index(start) {
            Some(i) => i,
            None => return SolveStatus::Unsolved(self, GraphError::EndpointNotFound),
        };
        let e = match self.find_index(end) {
            Some(i) => i,
            None => return SolveStatus::Unsolved(self, GraphError::EndpointNotFound),
        };
        let (pred, dist) = match shortest_routes(&self, s, e) {
            Some(r) => r,
            None => return SolveStatus::Unsolved(self, GraphError::NoPath),
        };
        let back = trace_back(&self, &pred, &dist, s, e);
        proof {
            lemma_leads_back_facts(gv, pred@, dist@, s as int, e as int);
        }
        let ghost idx = choose|idx: Seq<int>| traced_by(gv, back@, idx, dist@, s as int, e as int);
        assert(back@[0] == gv[idx[0]].id);
        assert(back@.last() == gv[idx[back@.len() - 1]].id);
        let mut path = Path::new(self);
        let mut k = back.len();
        while k > 0
            invariant
                gv == self@,
                valid_nodes(gv),
                n == gv.len(),
                path.wf(),
                path.graph_view() == gv,
                dist@[s as int] == 0,
                traced_by(gv, back@, idx, dist@, s as int, e as int),
                back@[0] == end,
                back@.last() == start,
                has_id(gv, end),
                has_id(gv, start),
                k <= back@.len(),
                path.ids_view().len() == back@.len() - k,
                path.ids_view().len() > 0 ==> path.ids_view()[0] == start
                    && path.ids_view().last() == back@[k as int] && walk_length(gv, path.ids_view())
                    == dist@[idx[k as int]],
            decreases k,
        {
            k -= 1;
            let ghost before = path.ids_view();
            proof {
                if k + 1 < back@.len() {
                    assert(adjacent(gv, back@[k as int + 1], back@[k as int]));
                }
            }
            let pushed = path.try_push_node(back[k]);
            if pushed.is_err() {
                let g = path.reclaim_graph();
                assert(g@ == gv);
                return SolveStatus::Unsolved(g, GraphError::InconsistentGraph);
            }
            proof {
                let i0 = idx[k as int];
                lemma_index_of_found(gv, back@[k as int], i0);
                if k + 1 < back@.len() {
                    let i1 = idx[k as int + 1];
                    lemma_index_of_found(gv, back@[k as int + 1], i1);
                    lemma_walk_length_push(gv, before, back@[k as int]);
                }
            }
        }
        assert(is_walk(gv, path.ids_view()) && path.ids_view()[0] == start
            && path.ids_view().last() == end);
        assert(walk_length(gv, path.ids_view()) == dist@[e as int]);
        SolveStatus::Solved(path)
    }
}

} // verus!
