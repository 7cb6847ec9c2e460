//! Best-path search on a weighted directed graph given by successor lists.
//!
//! The search keeps, for every node, the cheapest cost found so far and the
//! list of predecessors that reach the node at exactly that cost. It runs
//! until no queued node can improve a neighbour, so the costs it returns
//! are minimal whatever order the queue hands the nodes out in.

use crate::arith::{count_true, lemma_count_bound, lemma_count_set};
use vstd::prelude::*;

verus! {

/// The cost recorded for a node that no walk cheaper than this reaches.
pub const UNREACHED: u64 = 0xffff_ffff_ffff_ffff;

/// One outgoing edge of a node.
#[derive(Clone, Copy, Debug)]
pub struct Edge {
    pub to: usize,
    pub cost: u64,
}

/// What a search returns: the best cost of every node and, for every node,
/// the predecessors that lie on some cheapest walk into it.
pub struct Paths {
    pub dist: Vec<u64>,
    pub preds: Vec<Vec<usize>>,
}

/// A queued node with the cost it was queued at and its priority.
#[derive(Clone, Copy)]
pub struct Entry {
    pub key: u64,
    pub cost: u64,
    pub node: usize,
}

/// The successor lists of a graph as sequences.
pub open spec fn edge_lists(graph: Seq<Vec<Edge>>) -> Seq<Seq<Edge>> {
    graph.map_values(|row: Vec<Edge>| row@)
}

/// The predecessor lists of a result as sequences.
pub open spec fn pred_lists(preds: Seq<Vec<usize>>) -> Seq<Seq<usize>> {
    preds.map_values(|row: Vec<usize>| row@)
}

/// Every edge leads to a node of the graph.
pub open spec fn closed_graph(g: Seq<Seq<Edge>>) -> bool {
    forall|u: int, k: int|
        0 <= u < g.len() && 0 <= k < g[u].len() ==> (#[trigger] g[u][k]).to < g.len()
}

/// The node that a walk ends in: it starts at `start` and takes, at each
/// node, the outgoing edge whose index the next entry of `steps` gives.
pub open spec fn walk_end(g: Seq<Seq<Edge>>, start: int, steps: Seq<int>) -> int
    decreases steps.len(),
{
    if steps.len() == 0 {
        start
    } else {
        g[walk_end(g, start, steps.drop_last())][steps.last()].to as int
    }
}

/// Every step of the walk names an edge that its node has.
pub open spec fn walk_ok(g: Seq<Seq<Edge>>, start: int, steps: Seq<int>) -> bool
    decreases steps.len(),
{
    if steps.len() == 0 {
        0 <= start < g.len()
    } else {
        &&& walk_ok(g, start, steps.drop_last())
        &&& 0 <= steps.last() < g[walk_end(g, start, steps.drop_last())].len()
    }
}

/// The sum of the costs of the edges that the walk takes.
pub open spec fn walk_cost(g: Seq<Seq<Edge>>, start: int, steps: Seq<int>) -> int
    decreases steps.len(),
{
    if steps.len() == 0 {
        0
    } else {
        walk_cost(g, start, steps.drop_last()) + g[walk_end(
            g,
            start,
            steps.drop_last(),
        )][steps.last()].cost
    }
}

/// Some walk from `start` to `node` costs exactly `cost`.
pub open spec fn reaches_at(g: Seq<Seq<Edge>>, start: int, node: int, cost: int) -> bool {
    exists|steps: Seq<int>|
        #[trigger] walk_ok(g, start, steps) && walk_end(g, start, steps) == node && walk_cost(
            g,
            start,
            steps,
        ) == cost
}

/// No walk from `start` to `node` costs less than `cost`.
pub open spec fn none_cheaper(g: Seq<Seq<Edge>>, start: int, node: int, cost: int) -> bool {
    forall|steps: Seq<int>|
        #[trigger] walk_ok(g, start, steps) && walk_end(g, start, steps) == node ==> cost
            <= walk_cost(g, start, steps)
}

/// `dist` holds, for every node, the cost of a cheapest walk from `start`,
/// or `UNREACHED` where no walk costs less than that.
pub open spec fn best_costs(g: Seq<Seq<Edge>>, start: int, dist: Seq<u64>) -> bool {
    &&& dist.len() == g.len()
    &&& forall|v: int|
        0 <= v < g.len() ==> #[trigger] none_cheaper(g, start, v, dist[v] as int)
    &&& forall|v: int|
        0 <= v < g.len() && dist[v] != UNREACHED ==> #[trigger] reaches_at(
            g,
            start,
            v,
            dist[v] as int,
        )
}

/// No edge out of a reached node leads to a node whose cost it could lower.
pub open spec fn edges_relaxed(g: Seq<Seq<Edge>>, dist: Seq<u64>) -> bool {
    forall|u: int, k: int|
        0 <= u < g.len() && 0 <= k < g[u].len() && dist[u] != UNREACHED ==> dist[(
        #[trigger] g[u][k]).to as int] <= dist[u] + g[u][k].cost
}

/// The largest cost that an edge may have for the costs of all walks
/// without a circle to stay below `UNREACHED`.
pub open spec fn cost_cap(g: Seq<Seq<Edge>>) -> int {
    if g.len() == 0 {
        0
    } else {
        (UNREACHED - 1) / (g.len() as int)
    }
}

/// No edge costs more than `cost_cap` allows.
pub open spec fn modest(g: Seq<Seq<Edge>>) -> bool {
    forall|u: int, k: int|
        0 <= u < g.len() && 0 <= k < g[u].len() ==> (#[trigger] g[u][k]).cost <= cost_cap(g)
}

/// No walk from `start` ends in `node`.
pub open spec fn no_walk_to(g: Seq<Seq<Edge>>, start: int, node: int) -> bool {
    forall|steps: Seq<int>| #[trigger] walk_ok(g, start, steps) ==> walk_end(g, start, steps) != node
}

/// In a graph whose edges are modest, a node without a recorded cost is a
/// node that no walk reaches.
pub open spec fn unreached_is_unreachable(g: Seq<Seq<Edge>>, start: int, dist: Seq<u64>) -> bool {
    modest(g) ==> forall|v: int|
        0 <= v < g.len() && dist[v] == UNREACHED ==> #[trigger] no_walk_to(g, start, v)
}

/// The number of nodes with a recorded cost.
pub open spec fn count_reached(dist: Seq<u64>) -> nat
    decreases dist.len(),
{
    if dist.len() == 0 {
        0
    } else {
        count_reached(dist.drop_last()) + if dist.last() != UNREACHED {
            1nat
        } else {
            0nat
        }
    }
}

/// Every recorded cost is at most the cost cap for each node that was
/// reached before the node.
pub open spec fn bounded(g: Seq<Seq<Edge>>, dist: Seq<u64>) -> bool {
    modest(g) ==> forall|v: int|
        0 <= v < dist.len() && #[trigger] dist[v] != UNREACHED ==> dist[v] <= cost_cap(g) * (
        count_reached(dist) - 1)
}

proof fn lemma_count_reached_bound(dist: Seq<u64>)
    ensures
        count_reached(dist) <= dist.len(),
    decreases dist.len(),
{
    if dist.len() > 0 {
        lemma_count_reached_bound(dist.drop_last());
    }
}

proof fn lemma_count_reached_update(dist: Seq<u64>, v: int, x: u64)
    requires
        0 <= v < dist.len(),
        x != UNREACHED,
    ensures
        count_reached(dist.update(v, x)) == count_reached(dist) + if dist[v] == UNREACHED {
            1int
        } else {
            0int
        },
    decreases dist.len(),
{
    let after = dist.update(v, x);
    if v == dist.len() - 1 {
        assert(after.drop_last() =~= dist.drop_last());
    } else {
        assert(after.drop_last() =~= dist.drop_last().update(v, x));
        lemma_count_reached_update(dist.drop_last(), v, x);
    }
}

proof fn lemma_count_reached_one(dist: Seq<u64>, v: int)
    requires
        0 <= v < dist.len(),
        dist[v] != UNREACHED,
    ensures
        count_reached(dist) >= 1,
    decreases dist.len(),
{
    if v < dist.len() - 1 {
        lemma_count_reached_one(dist.drop_last(), v);
    }
}

proof fn lemma_cap_times(g: Seq<Seq<Edge>>, a: int, b: int)
    requires
        0 <= a <= b <= g.len(),
    ensures
        0 <= cost_cap(g) * a <= cost_cap(g) * b <= UNREACHED - 1,
{
    let cap = cost_cap(g);
    let n = g.len() as int;
    if n > 0 {
        vstd::arithmetic::div_mod::lemma_fundamental_div_mod(UNREACHED - 1, n);
        assert(cap >= 0 && cap * n <= UNREACHED - 1) by (nonlinear_arith)
            requires
                UNREACHED - 1 == n * cap + (UNREACHED - 1) % n,
                0 <= (UNREACHED - 1) % n,
                n > 0,
        ;
        assert(0 <= cap * a <= cap * b <= cap * n) by (nonlinear_arith)
            requires
                cap >= 0,
                0 <= a <= b <= n,
        ;
    } else {
        assert(cap * a == 0 && cap * b == 0) by (nonlinear_arith)
            requires
                a == 0,
                b == 0,
        ;
    }
}

/// Edge `k` of `u` enters `v` at exactly the best cost of `v`.
pub open spec fn tight_edge(g: Seq<Seq<Edge>>, dist: Seq<u64>, u: int, k: int, v: int) -> bool {
    &&& 0 <= k < g[u].len()
    &&& g[u][k].to == v
    &&& dist[u] != UNREACHED
    &&& dist[u] + g[u][k].cost == dist[v]
}

/// `u` is a predecessor of `v` on some cheapest walk.
pub open spec fn tight_pred(g: Seq<Seq<Edge>>, dist: Seq<u64>, u: int, v: int) -> bool {
    exists|k: int| #[trigger] tight_edge(g, dist, u, k, v)
}

/// The predecessor lists hold exactly the predecessors on cheapest walks.
pub open spec fn exact_preds(g: Seq<Seq<Edge>>, dist: Seq<u64>, preds: Seq<Seq<usize>>) -> bool {
    &&& preds.len() == g.len()
    &&& forall|v: int, u: usize|
        0 <= v < g.len() && u < g.len() && dist[v] != UNREACHED ==> (#[trigger] preds[v].contains(u)
            <==> tight_pred(g, dist, u as int, v))
    &&& forall|v: int, j: int|
        0 <= v < g.len() && 0 <= j < preds[v].len() ==> (#[trigger] preds[v][j]) < g.len()
}

/// The sum of all recorded costs; it falls whenever a cost improves.
pub open spec fn total(dist: Seq<u64>) -> nat
    decreases dist.len(),
{
    if dist.len() == 0 {
        0
    } else {
        total(dist.drop_last()) + dist.last() as nat
    }
}

proof fn lemma_total_update(dist: Seq<u64>, v: int, x: u64)
    requires
        0 <= v < dist.len(),
    ensures
        total(dist.update(v, x)) == total(dist) - dist[v] + x,
    decreases dist.len(),
{
    let after = dist.update(v, x);
    if v == dist.len() - 1 {
        assert(after.drop_last() =~= dist.drop_last());
    } else {
        assert(after.drop_last() =~= dist.drop_last().update(v, x));
        lemma_total_update(dist.drop_last(), v, x);
    }
}

/// A walk that takes one more edge.
proof fn lemma_walk_push(g: Seq<Seq<Edge>>, start: int, steps: Seq<int>, k: int)
    requires
        walk_ok(g, start, steps),
        0 <= k < g[walk_end(g, start, steps)].len(),
    ensures
        walk_ok(g, start, steps.push(k)),
        walk_end(g, start, steps.push(k)) == g[walk_end(g, start, steps)][k].to,
        walk_cost(g, start, steps.push(k)) == walk_cost(g, start, steps) + g[walk_end(
            g,
            start,
            steps,
        )][k].cost,
{
    assert(steps.push(k).drop_last() =~= steps);
}

/// The costs of a graph whose edges are all relaxed are lower bounds on the
/// cost of every walk from `start`.
pub proof fn lemma_relaxed_is_lower_bound(
    g: Seq<Seq<Edge>>,
    start: int,
    dist: Seq<u64>,
    steps: Seq<int>,
)
    requires
        closed_graph(g),
        dist.len() == g.len(),
        0 <= start < g.len(),
        dist[start] == 0,
        edges_relaxed(g, dist),
        walk_ok(g, start, steps),
    ensures
        0 <= walk_end(g, start, steps) < g.len(),
        dist[walk_end(g, start, steps)] <= walk_cost(g, start, steps),
        0 <= walk_cost(g, start, steps),
    decreases steps.len(),
{
    if steps.len() > 0 {
        let before = steps.drop_last();
        lemma_relaxed_is_lower_bound(g, start, dist, before);
        let u = walk_end(g, start, before);
        let k = steps.last();
        let e = g[u][k];
        assert(e.to < g.len());
        if dist[u] != UNREACHED {
            assert(dist[e.to as int] <= dist[u] + e.cost);
        }
    }
}

/// `queue` holds `node` at the cost `cost`.
pub open spec fn queued(queue: Seq<Entry>, node: usize, cost: u64) -> bool {
    exists|i: int|
        0 <= i < queue.len() && (#[trigger] queue[i]).node == node && queue[i].cost == cost
}

/// Edge `k` of `u` is relaxed, and `u` is listed as a predecessor where the
/// edge is tight.
pub open spec fn edge_done(
    g: Seq<Seq<Edge>>,
    dist: Seq<u64>,
    preds: Seq<Seq<usize>>,
    u: usize,
    k: int,
) -> bool {
    let e = g[u as int][k];
    &&& dist[e.to as int] <= dist[u as int] + e.cost
    &&& dist[e.to as int] == dist[u as int] + e.cost && dist[e.to as int] != UNREACHED
        ==> preds[e.to as int].contains(u)
}

/// All edges of `u` below index `upto` are done.
pub open spec fn node_done(
    g: Seq<Seq<Edge>>,
    dist: Seq<u64>,
    preds: Seq<Seq<usize>>,
    u: usize,
    upto: int,
) -> bool {
    forall|k: int| 0 <= k < upto ==> #[trigger] edge_done(g, dist, preds, u, k)
}

/// Edge `k` of `p` enters `v` no dearer than the recorded cost of `v`.
pub open spec fn enters(g: Seq<Seq<Edge>>, dist: Seq<u64>, p: usize, k: int, v: int) -> bool {
    &&& 0 <= k < g[p as int].len()
    &&& g[p as int][k].to == v
    &&& dist[p as int] + g[p as int][k].cost <= dist[v]
}

/// Every listed predecessor has an edge that enters the node no dearer than
/// the node's recorded cost.
pub open spec fn preds_sound(g: Seq<Seq<Edge>>, dist: Seq<u64>, preds: Seq<Seq<usize>>) -> bool {
    forall|v: int, j: int|
        0 <= v < g.len() && 0 <= j < preds[v].len() ==> {
            let p = #[trigger] preds[v][j];
            &&& p < g.len()
            &&& dist[p as int] != UNREACHED
            &&& exists|k: int| #[trigger] enters(g, dist, p, k, v)
        }
}

/// Every reached node has a walk that costs what is recorded for it.
pub open spec fn witnessed(
    g: Seq<Seq<Edge>>,
    start: int,
    dist: Seq<u64>,
    wit: Seq<Seq<int>>,
) -> bool {
    &&& wit.len() == g.len()
    &&& forall|v: int|
        0 <= v < g.len() && dist[v] != UNREACHED ==> {
            &&& #[trigger] walk_ok(g, start, wit[v])
            &&& walk_end(g, start, wit[v]) == v
            &&& walk_cost(g, start, wit[v]) == dist[v]
        }
}

/// The node is queued at its recorded cost, or its edges below `upto` (all
/// of them, unless it is the node being expanded) are done.
pub open spec fn node_inv(
    g: Seq<Seq<Edge>>,
    dist: Seq<u64>,
    preds: Seq<Seq<usize>>,
    queue: Seq<Entry>,
    busy: int,
    upto: int,
    u: usize,
) -> bool {
    ||| queued(queue, u, dist[u as int])
    ||| node_done(g, dist, preds, u, if u == busy { upto } else { g[u as int].len() as int })
}

/// What holds between two relaxations.
pub open spec fn search_inv(
    g: Seq<Seq<Edge>>,
    start: int,
    dist: Seq<u64>,
    preds: Seq<Seq<usize>>,
    queue: Seq<Entry>,
    wit: Seq<Seq<int>>,
    busy: int,
    upto: int,
) -> bool {
    &&& dist.len() == g.len()
    &&& preds.len() == g.len()
    &&& 0 <= start < g.len()
    &&& dist[start] == 0
    &&& bounded(g, dist)
    &&& witnessed(g, start, dist, wit)
    &&& preds_sound(g, dist, preds)
    &&& forall|i: int| 0 <= i < queue.len() ==> (#[trigger] queue[i]).node < g.len()
    &&& forall|u: usize|
        u < g.len() && dist[u as int] != UNREACHED ==> #[trigger] node_inv(
            g,
            dist,
            preds,
            queue,
            busy,
            upto,
            u,
        )
}

proof fn lemma_queued_push(queue: Seq<Entry>, e: Entry, node: usize, cost: u64)
    requires
        queued(queue, node, cost) || (e.node == node && e.cost == cost),
    ensures
        queued(queue.push(e), node, cost),
{
    let q2 = queue.push(e);
    if queued(queue, node, cost) {
        let i = choose|i: int|
            0 <= i < queue.len() && (#[trigger] queue[i]).node == node && queue[i].cost == cost;
        assert(q2[i] == queue[i]);
    } else {
        assert(q2[queue.len() as int] == e);
    }
}

proof fn lemma_queued_remove(queue: Seq<Entry>, at: int, node: usize, cost: u64)
    requires
        0 <= at < queue.len(),
        queued(queue, node, cost),
        !(queue[at].node == node && queue[at].cost == cost),
    ensures
        queued(queue.remove(at), node, cost),
{
    let q2 = queue.remove(at);
    let i = choose|i: int|
        0 <= i < queue.len() && (#[trigger] queue[i]).node == node && queue[i].cost == cost;
    if i < at {
        assert(q2[i] == queue[i]);
    } else {
        assert(q2[i - 1] == queue[i]);
    }
}

/// Takes the entry with the smallest key out of the queue.
fn pop_min(queue: &mut Vec<Entry>) -> (r: (Entry, Ghost<int>))
    requires
        old(queue).len() > 0,
    ensures
        0 <= r.1@ < old(queue).len(),
        r.0 == old(queue)[r.1@],
        final(queue)@ == old(queue)@.remove(r.1@),
        forall|j: int| 0 <= j < old(queue).len() ==> r.0.key <= (#[trigger] old(queue)[j]).key,
{
    let mut best: usize = 0;
    let mut i: usize = 1;
    while i < queue.len()
        invariant
            0 <= best < i <= queue.len(),
            queue@ == old(queue)@,
            forall|j: int| 0 <= j < i ==> queue[best as int].key <= (#[trigger] queue[j]).key,
        decreases queue.len() - i,
    {
        if queue[i].key < queue[best].key {
            best = i;
        }
        i += 1;
    }
    let e = queue.remove(best);
    (e, Ghost(best as int))
}

fn list_has(list: &Vec<usize>, x: usize) -> (found: bool)
    ensures
        found == list@.contains(x),
{
    let mut i: usize = 0;
    while i < list.len()
        invariant
            i <= list.len(),
            forall|j: int| 0 <= j < i ==> list[j] != x,
        decreases list.len() - i,
    {
        if list[i] == x {
            return true;
        }
        i += 1;
    }
    false
}

fn saturating_sum(a: u64, b: u64) -> (s: u64)
    ensures
        s == if a + b > UNREACHED { UNREACHED as int } else { a + b },
{
    if a > UNREACHED - b {
        UNREACHED
    } else {
        a + b
    }
}

/// The list with `x` added at its end.
fn list_with(list: &Vec<usize>, x: usize) -> (longer: Vec<usize>)
    ensures
        longer@ == list@.push(x),
{
    let mut row: Vec<usize> = Vec::new();
    let mut j: usize = 0;
    while j < list.len()
        invariant
            j <= list.len(),
            row@ == list@.take(j as int),
        decreases list.len() - j,
    {
        row.push(list[j]);
        assert(list@.take(j + 1) =~= list@.take(j as int).push(list[j as int]));
        j += 1;
    }
    assert(list@.take(list.len() as int) =~= list@);
    row.push(x);
    row
}

/// Cheapest costs and predecessor lists from `start`.
///
/// The node with the smallest sum of its cost and `heuristic[v]` is taken
/// from the queue first, and a queue entry whose node has a better cost by
/// then is passed over; this changes the order in which nodes are
/// expanded, never the result. A node whose recorded cost is `UNREACHED`
/// has no walk from `start` that costs less than `UNREACHED`, and in a
/// graph whose edges are modest it has no walk from `start` at all.
pub fn search(graph: &Vec<Vec<Edge>>, start: usize, heuristic: &Vec<u64>) -> (paths: Paths)
    requires
        closed_graph(edge_lists(graph@)),
        start < graph.len(),
        heuristic.len() == graph.len(),
    ensures
        best_costs(edge_lists(graph@), start as int, paths.dist@),
        paths.dist[start as int] == 0,
        edges_relaxed(edge_lists(graph@), paths.dist@),
        exact_preds(edge_lists(graph@), paths.dist@, pred_lists(paths.preds@)),
        unreached_is_unreachable(edge_lists(graph@), start as int, paths.dist@),
{
    let n = graph.len();
    let ghost g = edge_lists(graph@);
    let mut dist: Vec<u64> = Vec::new();
    let mut preds: Vec<Vec<usize>> = Vec::new();
    let mut i: usize = 0;
    while i < n
        invariant
            i <= n,
            dist.len() == i,
            preds.len() == i,
            forall|j: int| 0 <= j < i ==> dist[j] == UNREACHED,
            forall|j: int| 0 <= j < i ==> (#[trigger] preds[j]).len() == 0,
        decreases n - i,
    {
        dist.push(UNREACHED);
        preds.push(Vec::new());
        i += 1;
    }
    dist.set(start, 0);
    let mut queue: Vec<Entry> = Vec::new();
    queue.push(Entry { key: heuristic[start], cost: 0, node: start });
    let ghost mut wit: Seq<Seq<int>> = Seq::new(n as nat, |v: int| Seq::<int>::empty());
    proof {
        assert(queue@[0].node == start);
        assert(queued(queue@, start, 0));
        assert(bounded(g, dist@)) by {
            if modest(g) {
                lemma_count_reached_one(dist@, start as int);
                lemma_count_reached_bound(dist@);
                assert forall|v: int| 0 <= v < dist@.len() && #[trigger] dist@[v]
                    != UNREACHED implies dist@[v] <= cost_cap(g) * (count_reached(dist@) - 1) by {
                    assert(v == start);
                    lemma_cap_times(g, 0, count_reached(dist@) - 1);
                }
            }
        }
        assert(walk_ok(g, start as int, wit[start as int]));
        assert forall|u: usize| u < g.len() && dist@[u as int] != UNREACHED implies #[trigger] node_inv(
            g,
            dist@,
            pred_lists(preds@),
            queue@,
            -1,
            0,
            u,
        ) by {
            assert(u == start);
        }
        assert(search_inv(g, start as int, dist@, pred_lists(preds@), queue@, wit, -1, 0));
    }
    while queue.len() > 0
        invariant
            n == graph.len(),
            g == edge_lists(graph@),
            closed_graph(g),
            start < n,
            heuristic.len() == n,
            search_inv(g, start as int, dist@, pred_lists(preds@), queue@, wit, -1, 0),
        decreases total(dist@), queue.len(),
    {
        let ghost queue0 = queue@;
        let ghost total0 = total(dist@);
        let (entry, Ghost(at)) = pop_min(&mut queue);
        let u = entry.node;
        let cost = entry.cost;
        assert(queue0[at].node < n);
        let expand = cost == dist[u] && cost != UNREACHED;
        proof {
            lemma_pop_keeps_inv(g, start as int, dist@, pred_lists(preds@), queue0, wit, at, expand);
        }
        if expand {
            let ghost queue1 = queue@;
            let mut k: usize = 0;
            while k < graph[u].len()
                invariant
                    n == graph.len(),
                    g == edge_lists(graph@),
                    closed_graph(g),
                    start < n,
                    u < n,
                    heuristic.len() == n,
                    k <= graph[u as int].len(),
                    cost == dist[u as int],
                    cost != UNREACHED,
                    queue.len() >= queue1.len(),
                    total(dist@) <= total0,
                    queue.len() > queue1.len() ==> total(dist@) < total0,
                    search_inv(
                        g,
                        start as int,
                        dist@,
                        pred_lists(preds@),
                        queue@,
                        wit,
                        u as int,
                        k as int,
                    ),
                decreases graph[u as int].len() - k,
            {
                let edge = graph[u][k];
                let v = edge.to;
                assert(g[u as int][k as int] == edge);
                assert(v < n);
                let reach = saturating_sum(cost, edge.cost);
                let ghost dist_b = dist@;
                let ghost preds_b = pred_lists(preds@);
                let ghost queue_b = queue@;
                let ghost wit_b = wit;
                if reach < dist[v] {
                    dist.set(v, reach);
                    let mut only: Vec<usize> = Vec::new();
                    only.push(u);
                    preds.set(v, only);
                    let entry = Entry {
                        key: saturating_sum(reach, heuristic[v]),
                        cost: reach,
                        node: v,
                    };
                    queue.push(entry);
                    proof {
                        wit = wit.update(v as int, wit_b[u as int].push(k as int));
                        assert(pred_lists(preds@) =~= preds_b.update(v as int, seq![u]));
                        lemma_total_update(dist_b, v as int, reach);
                        lemma_relax_keeps_inv(
                            g,
                            start as int,
                            dist_b,
                            preds_b,
                            queue_b,
                            wit_b,
                            u,
                            k as int,
                            entry,
                        );
                    }
                } else if reach == dist[v] && reach != UNREACHED {
                    assert(preds_b[v as int] == preds[v as int]@);
                    if !list_has(&preds[v], u) {
                        let row = list_with(&preds[v], u);
                        assert(row@[row.len() - 1] == u);
                        preds.set(v, row);
                        proof {
                            assert(pred_lists(preds@) =~= preds_b.update(
                                v as int,
                                preds_b[v as int].push(u),
                            ));
                        }
                    } else {
                        proof {
                            assert(pred_lists(preds@) =~= preds_b);
                        }
                    }
                    assert(pred_lists(preds@)[v as int].contains(u));
                    proof {
                        lemma_tie_keeps_inv(
                            g,
                            start as int,
                            dist_b,
                            preds_b,
                            queue_b,
                            wit_b,
                            u,
                            k as int,
                            pred_lists(preds@),
                        );
                    }
                } else {
                    proof {
                        lemma_skip_keeps_inv(
                            g,
                            start as int,
                            dist_b,
                            preds_b,
                            queue_b,
                            wit_b,
                            u,
                            k as int,
                        );
                    }
                }
                k += 1;
            }
            proof {
                lemma_expanded_keeps_inv(g, start as int, dist@, pred_lists(preds@), queue@, wit, u);
            }
        }
    }
    proof {
        lemma_done_is_best(g, start as int, dist@, pred_lists(preds@), queue@, wit);
    }
    Paths { dist, preds }
}

/// Taking an entry out of the queue keeps the invariant: either the entry
/// is stale and its node is still covered, or its node is expanded next.
proof fn lemma_pop_keeps_inv(
    g: Seq<Seq<Edge>>,
    start: int,
    dist: Seq<u64>,
    preds: Seq<Seq<usize>>,
    queue: Seq<Entry>,
    wit: Seq<Seq<int>>,
    at: int,
    expand: bool,
)
    requires
        0 <= at < queue.len(),
        search_inv(g, start, dist, preds, queue, wit, -1, 0),
        expand == (queue[at].cost == dist[queue[at].node as int] && queue[at].cost != UNREACHED),
    ensures
        expand ==> search_inv(g, start, dist, preds, queue.remove(at), wit, queue[at].node as int, 0),
        !expand ==> search_inv(g, start, dist, preds, queue.remove(at), wit, -1, 0),
{
    let q2 = queue.remove(at);
    let busy = if expand { queue[at].node as int } else { -1 };
    assert forall|i: int| 0 <= i < q2.len() implies (#[trigger] q2[i]).node < g.len() by {
        if i < at {
            assert(q2[i] == queue[i]);
        } else {
            assert(q2[i] == queue[i + 1]);
        }
    }
    assert forall|u: usize| u < g.len() && dist[u as int] != UNREACHED implies #[trigger] node_inv(
        g,
        dist,
        preds,
        q2,
        busy,
        0,
        u,
    ) by {
        assert(node_inv(g, dist, preds, queue, -1, 0, u));
        if expand && u == queue[at].node {
        } else if queued(queue, u, dist[u as int]) {
            lemma_queued_remove(queue, at, u, dist[u as int]);
        }
    }
}

/// Once all edges of the expanded node are done, no node is singled out.
proof fn lemma_expanded_keeps_inv(
    g: Seq<Seq<Edge>>,
    start: int,
    dist: Seq<u64>,
    preds: Seq<Seq<usize>>,
    queue: Seq<Entry>,
    wit: Seq<Seq<int>>,
    u: usize,
)
    requires
        u < g.len(),
        search_inv(g, start, dist, preds, queue, wit, u as int, g[u as int].len() as int),
    ensures
        search_inv(g, start, dist, preds, queue, wit, -1, 0),
{
    assert forall|w: usize| w < g.len() && dist[w as int] != UNREACHED implies #[trigger] node_inv(
        g,
        dist,
        preds,
        queue,
        -1,
        0,
        w,
    ) by {
        assert(node_inv(g, dist, preds, queue, u as int, g[u as int].len() as int, w));
    }
}

/// A strict improvement of a node through edge `k` of `u` keeps the
/// invariant: the node is queued at its new cost with `u` as its only
/// predecessor.
proof fn lemma_relax_keeps_inv(
    g: Seq<Seq<Edge>>,
    start: int,
    dist: Seq<u64>,
    preds: Seq<Seq<usize>>,
    queue: Seq<Entry>,
    wit: Seq<Seq<int>>,
    u: usize,
    k: int,
    entry: Entry,
)
    requires
        closed_graph(g),
        u < g.len(),
        0 <= k < g[u as int].len(),
        dist[u as int] != UNREACHED,
        search_inv(g, start, dist, preds, queue, wit, u as int, k),
        dist[u as int] + g[u as int][k].cost < dist[g[u as int][k].to as int],
        entry.node == g[u as int][k].to,
        entry.cost == dist[u as int] + g[u as int][k].cost,
    ensures
        search_inv(
            g,
            start,
            dist.update(g[u as int][k].to as int, entry.cost),
            preds.update(g[u as int][k].to as int, seq![u]),
            queue.push(entry),
            wit.update(g[u as int][k].to as int, wit[u as int].push(k)),
            u as int,
            k + 1,
        ),
{
    let v = g[u as int][k].to;
    let dist2 = dist.update(v as int, entry.cost);
    let preds2 = preds.update(v as int, seq![u]);
    let queue2 = queue.push(entry);
    let wit2 = wit.update(v as int, wit[u as int].push(k));
    assert(v < g.len());
    assert(v != u);
    assert(v != start);
    assert(walk_ok(g, start, wit[u as int]));
    lemma_walk_push(g, start, wit[u as int], k);
    assert(bounded(g, dist2)) by {
        if modest(g) {
            let cap = cost_cap(g);
            let count = count_reached(dist) as int;
            let count2 = count_reached(dist2) as int;
            lemma_count_reached_update(dist, v as int, entry.cost);
            lemma_count_reached_bound(dist);
            lemma_count_reached_bound(dist2);
            lemma_count_reached_one(dist, u as int);
            assert(dist[u as int] <= cap * (count - 1));
            assert(g[u as int][k].cost <= cap);
            lemma_cap_times(g, count - 1, count2 - 1);
            assert(cap * (count - 1) + cap == cap * count) by (nonlinear_arith);
            assert forall|w: int| 0 <= w < dist2.len() && #[trigger] dist2[w]
                != UNREACHED implies dist2[w] <= cap * (count2 - 1) by {
                if w != v {
                    assert(dist[w] != UNREACHED);
                    assert(dist2[w] == dist[w]);
                } else if dist[v as int] != UNREACHED {
                    assert(dist[v as int] <= cap * (count - 1));
                }
            }
        }
    }
    assert(witnessed(g, start, dist2, wit2)) by {
        assert forall|w: int| 0 <= w < g.len() && dist2[w] != UNREACHED implies {
            &&& #[trigger] walk_ok(g, start, wit2[w])
            &&& walk_end(g, start, wit2[w]) == w
            &&& walk_cost(g, start, wit2[w]) == dist2[w]
        } by {
            if w != v {
                assert(walk_ok(g, start, wit[w]));
            }
        }
    }
    assert(preds_sound(g, dist2, preds2)) by {
        assert forall|w: int, j: int| 0 <= w < g.len() && 0 <= j < preds2[w].len() implies {
            let p = #[trigger] preds2[w][j];
            &&& p < g.len()
            &&& dist2[p as int] != UNREACHED
            &&& exists|kk: int| #[trigger] enters(g, dist2, p, kk, w)
        } by {
            if w == v {
                assert(preds2[w][j] == u);
                assert(enters(g, dist2, u, k, w));
            } else {
                let p = preds[w][j];
                assert(p < g.len());
                let kk = choose|kk: int| #[trigger] enters(g, dist, p, kk, w);
                assert(enters(g, dist2, p, kk, w));
            }
        }
    }
    assert forall|i: int| 0 <= i < queue2.len() implies (#[trigger] queue2[i]).node < g.len() by {
        if i < queue.len() {
            assert(queue2[i] == queue[i]);
        }
    }
    assert forall|w: usize| w < g.len() && dist2[w as int] != UNREACHED implies #[trigger] node_inv(
        g,
        dist2,
        preds2,
        queue2,
        u as int,
        k + 1,
        w,
    ) by {
        if w == v {
            lemma_queued_push(queue, entry, w, dist2[w as int]);
        } else {
            assert(node_inv(g, dist, preds, queue, u as int, k, w));
            if queued(queue, w, dist[w as int]) {
                lemma_queued_push(queue, entry, w, dist2[w as int]);
            } else {
                let upto = if w == u { k } else { g[w as int].len() as int };
                let upto2 = if w == u { k + 1 } else { g[w as int].len() as int };
                assert(node_done(g, dist, preds, w, upto));
                assert forall|kk: int| 0 <= kk < upto2 implies #[trigger] edge_done(
                    g,
                    dist2,
                    preds2,
                    w,
                    kk,
                ) by {
                    let e = g[w as int][kk];
                    assert(e.to < g.len());
                    if w == u && kk == k {
                        assert(preds2[v as int][0] == u);
                    } else {
                        assert(edge_done(g, dist, preds, w, kk));
                    }
                }
            }
        }
    }
}

/// Listing `u` as one more predecessor of a node that edge `k` of `u`
/// enters at its recorded cost keeps the invariant.
proof fn lemma_tie_keeps_inv(
    g: Seq<Seq<Edge>>,
    start: int,
    dist: Seq<u64>,
    preds: Seq<Seq<usize>>,
    queue: Seq<Entry>,
    wit: Seq<Seq<int>>,
    u: usize,
    k: int,
    preds2: Seq<Seq<usize>>,
)
    requires
        closed_graph(g),
        u < g.len(),
        0 <= k < g[u as int].len(),
        dist[u as int] != UNREACHED,
        search_inv(g, start, dist, preds, queue, wit, u as int, k),
        dist[u as int] + g[u as int][k].cost == dist[g[u as int][k].to as int],
        preds2 == preds || preds2 == preds.update(
            g[u as int][k].to as int,
            preds[g[u as int][k].to as int].push(u),
        ),
        preds2[g[u as int][k].to as int].contains(u),
    ensures
        search_inv(g, start, dist, preds2, queue, wit, u as int, k + 1),
{
    let v = g[u as int][k].to;
    assert(v < g.len());
    assert(preds_sound(g, dist, preds2)) by {
        assert forall|w: int, j: int| 0 <= w < g.len() && 0 <= j < preds2[w].len() implies {
            let p = #[trigger] preds2[w][j];
            &&& p < g.len()
            &&& dist[p as int] != UNREACHED
            &&& exists|kk: int| #[trigger] enters(g, dist, p, kk, w)
        } by {
            if preds2 != preds && w == v && j == preds[v as int].len() {
                assert(preds2[w][j] == u);
                assert(enters(g, dist, u, k, w));
            } else {
                assert(preds2[w][j] == preds[w][j]);
                let p = preds[w][j];
                assert(p < g.len());
            }
        }
    }
    assert forall|w: usize| w < g.len() && dist[w as int] != UNREACHED implies #[trigger] node_inv(
        g,
        dist,
        preds2,
        queue,
        u as int,
        k + 1,
        w,
    ) by {
        assert(node_inv(g, dist, preds, queue, u as int, k, w));
        if !queued(queue, w, dist[w as int]) {
            let upto = if w == u { k } else { g[w as int].len() as int };
            let upto2 = if w == u { k + 1 } else { g[w as int].len() as int };
            assert(node_done(g, dist, preds, w, upto));
            assert forall|kk: int| 0 <= kk < upto2 implies #[trigger] edge_done(
                g,
                dist,
                preds2,
                w,
                kk,
            ) by {
                let e = g[w as int][kk];
                assert(e.to < g.len());
                if w == u && kk == k {
                } else {
                    assert(edge_done(g, dist, preds, w, kk));
                    if preds[e.to as int].contains(w) {
                        let j = choose|j: int|
                            0 <= j < preds[e.to as int].len() && preds[e.to as int][j] == w;
                        assert(preds2[e.to as int][j] == w);
                    }
                }
            }
        }
    }
}

/// An edge that neither improves nor ties is done as it stands.
proof fn lemma_skip_keeps_inv(
    g: Seq<Seq<Edge>>,
    start: int,
    dist: Seq<u64>,
    preds: Seq<Seq<usize>>,
    queue: Seq<Entry>,
    wit: Seq<Seq<int>>,
    u: usize,
    k: int,
)
    requires
        closed_graph(g),
        u < g.len(),
        0 <= k < g[u as int].len(),
        dist[u as int] != UNREACHED,
        search_inv(g, start, dist, preds, queue, wit, u as int, k),
        dist[u as int] + g[u as int][k].cost >= dist[g[u as int][k].to as int],
        dist[u as int] + g[u as int][k].cost == dist[g[u as int][k].to as int] ==> dist[g[u as int][k].to as int]
            == UNREACHED,
    ensures
        search_inv(g, start, dist, preds, queue, wit, u as int, k + 1),
{
    assert forall|w: usize| w < g.len() && dist[w as int] != UNREACHED implies #[trigger] node_inv(
        g,
        dist,
        preds,
        queue,
        u as int,
        k + 1,
        w,
    ) by {
        assert(node_inv(g, dist, preds, queue, u as int, k, w));
        if !queued(queue, w, dist[w as int]) {
            let upto = if w == u { k } else { g[w as int].len() as int };
            let upto2 = if w == u { k + 1 } else { g[w as int].len() as int };
            assert(node_done(g, dist, preds, w, upto));
            assert forall|kk: int| 0 <= kk < upto2 implies #[trigger] edge_done(
                g,
                dist,
                preds,
                w,
                kk,
            ) by {
                if w == u && kk == k {
                } else {
                    assert(edge_done(g, dist, preds, w, kk));
                }
            }
        }
    }
}

/// With an empty queue the invariant gives the contract of the search.
proof fn lemma_done_is_best(
    g: Seq<Seq<Edge>>,
    start: int,
    dist: Seq<u64>,
    preds: Seq<Seq<usize>>,
    queue: Seq<Entry>,
    wit: Seq<Seq<int>>,
)
    requires
        closed_graph(g),
        g.len() <= usize::MAX,
        queue.len() == 0,
        search_inv(g, start, dist, preds, queue, wit, -1, 0),
    ensures
        best_costs(g, start, dist),
        edges_relaxed(g, dist),
        exact_preds(g, dist, preds),
        unreached_is_unreachable(g, start, dist),
{
    assert forall|u: int, k: int|
        0 <= u < g.len() && 0 <= k < g[u].len() && dist[u] != UNREACHED implies dist[(
    #[trigger] g[u][k]).to as int] <= dist[u] + g[u][k].cost by {
        let uu = u as usize;
        assert(node_inv(g, dist, preds, queue, -1, 0, uu));
        assert(node_done(g, dist, preds, uu, g[u].len() as int));
        assert(edge_done(g, dist, preds, uu, k));
    }
    assert forall|v: int| 0 <= v < g.len() implies #[trigger] none_cheaper(
        g,
        start,
        v,
        dist[v] as int,
    ) by {
        assert forall|steps: Seq<int>|
            #[trigger] walk_ok(g, start, steps) && walk_end(g, start, steps) == v implies dist[v]
            <= walk_cost(g, start, steps) by {
            lemma_relaxed_is_lower_bound(g, start, dist, steps);
        }
    }
    assert forall|v: int| 0 <= v < g.len() && dist[v] != UNREACHED implies #[trigger] reaches_at(
        g,
        start,
        v,
        dist[v] as int,
    ) by {
        assert(walk_ok(g, start, wit[v]));
    }
    assert forall|v: int, u: usize|
        0 <= v < g.len() && u < g.len() && dist[v] != UNREACHED implies (
    #[trigger] preds[v].contains(u) <==> tight_pred(g, dist, u as int, v)) by {
        if preds[v].contains(u) {
            let j = choose|j: int| 0 <= j < preds[v].len() && preds[v][j] == u;
            assert(preds[v][j] == u);
            let kk = choose|kk: int| #[trigger] enters(g, dist, u, kk, v);
            assert(dist[g[u as int][kk].to as int] <= dist[u as int] + g[u as int][kk].cost);
            assert(tight_edge(g, dist, u as int, kk, v));
        }
        if tight_pred(g, dist, u as int, v) {
            let kk = choose|kk: int| #[trigger] tight_edge(g, dist, u as int, kk, v);
            assert(node_inv(g, dist, preds, queue, -1, 0, u));
            assert(node_done(g, dist, preds, u, g[u as int].len() as int));
            assert(edge_done(g, dist, preds, u, kk));
        }
    }
    assert forall|v: int, j: int| 0 <= v < g.len() && 0 <= j < preds[v].len() implies (
    #[trigger] preds[v][j]) < g.len() by {
        let p = preds[v][j];
        assert(p < g.len());
    }
    if modest(g) {
        assert(edges_relaxed(g, dist));
        assert forall|v: int| 0 <= v < g.len() && dist[v] == UNREACHED implies #[trigger] no_walk_to(
            g,
            start,
            v,
        ) by {
            assert forall|steps: Seq<int>| #[trigger] walk_ok(g, start, steps) implies walk_end(
                g,
                start,
                steps,
            ) != v by {
                lemma_walks_end_reached(g, start, dist, steps);
            }
        }
    }
}

/// Where the edges are modest and relaxed, every walk ends in a node with
/// a recorded cost.
proof fn lemma_walks_end_reached(g: Seq<Seq<Edge>>, start: int, dist: Seq<u64>, steps: Seq<int>)
    requires
        closed_graph(g),
        modest(g),
        dist.len() == g.len(),
        0 <= start < g.len(),
        dist[start] == 0,
        bounded(g, dist),
        edges_relaxed(g, dist),
        walk_ok(g, start, steps),
    ensures
        0 <= walk_end(g, start, steps) < g.len(),
        dist[walk_end(g, start, steps)] != UNREACHED,
    decreases steps.len(),
{
    if steps.len() > 0 {
        let before = steps.drop_last();
        lemma_walks_end_reached(g, start, dist, before);
        let u = walk_end(g, start, before);
        let k = steps.last();
        let e = g[u][k];
        assert(e.to < g.len());
        assert(dist[e.to as int] <= dist[u] + e.cost);
        lemma_count_reached_bound(dist);
        lemma_count_reached_one(dist, u);
        lemma_cap_times(g, count_reached(dist) - 1, g.len() - 1);
        lemma_cap_times(g, g.len() as int, g.len() as int);
        let cap = cost_cap(g);
        assert(cap * (g.len() - 1) + cap == cap * g.len()) by (nonlinear_arith);
    }
}

/// The chain is a list of nodes in which each node is listed as a
/// predecessor of the node that follows it.
pub open spec fn linked(preds: Seq<Seq<usize>>, chain: Seq<usize>) -> bool {
    &&& chain.len() >= 1
    &&& forall|i: int| 0 <= i < chain.len() ==> (#[trigger] chain[i]) < preds.len()
    &&& forall|i: int|
        0 <= i < chain.len() - 1 ==> preds[chain[i + 1] as int].contains(#[trigger] chain[i])
}

/// A chain of predecessor links leads from `node` to one of the targets;
/// a target leads to itself.
pub open spec fn leads(preds: Seq<Seq<usize>>, node: usize, targets: Seq<usize>) -> bool {
    exists|chain: Seq<usize>|
        #[trigger] linked(preds, chain) && chain[0] == node && targets.contains(chain.last())
}

/// `stack` holds `node`.
pub open spec fn stacked(stack: Seq<usize>, node: usize) -> bool {
    exists|i: int| 0 <= i < stack.len() && #[trigger] stack[i] == node
}

/// A marked node is on the stack, or its predecessors below place `upto`
/// (all of them, unless it is the node being worked on) are marked.
pub open spec fn trace_node(
    preds: Seq<Seq<usize>>,
    marks: Seq<bool>,
    stack: Seq<usize>,
    busy: int,
    upto: int,
    v: usize,
) -> bool {
    ||| stacked(stack, v)
    ||| forall|j: int|
        0 <= j < (if v == busy {
            upto
        } else {
            preds[v as int].len() as int
        }) ==> marks[(#[trigger] preds[v as int][j]) as int]
}

/// What holds while the marks spread backwards from the targets.
#[verifier::opaque]
pub open spec fn trace_inv(
    preds: Seq<Seq<usize>>,
    targets: Seq<usize>,
    marks: Seq<bool>,
    stack: Seq<usize>,
    chains: Seq<Seq<usize>>,
    busy: int,
    upto: int,
    tdone: int,
) -> bool {
    &&& marks.len() == preds.len()
    &&& chains.len() == preds.len()
    &&& busy >= 0 ==> busy < preds.len() && 0 <= upto <= preds[busy].len()
    &&& forall|v: int, j: int|
        0 <= v < preds.len() && 0 <= j < preds[v].len() ==> (#[trigger] preds[v][j]) < preds.len()
    &&& forall|k: int| 0 <= k < targets.len() ==> (#[trigger] targets[k]) < preds.len()
    &&& forall|i: int|
        0 <= i < stack.len() ==> (#[trigger] stack[i]) < preds.len() && marks[stack[i] as int]
    &&& forall|k: int| 0 <= k < targets.len() && k < tdone ==> marks[(#[trigger] targets[k]) as int]
    &&& forall|u: usize|
        u < preds.len() && #[trigger] marks[u as int] ==> linked(preds, chains[u as int])
            && chains[u as int][0] == u && targets.contains(chains[u as int].last())
    &&& forall|v: usize|
        v < preds.len() && marks[v as int] ==> #[trigger] trace_node(
            preds,
            marks,
            stack,
            busy,
            upto,
            v,
        )
}

proof fn lemma_stacked_push(stack: Seq<usize>, x: usize, node: usize)
    requires
        stacked(stack, node) || x == node,
    ensures
        stacked(stack.push(x), node),
{
    let longer = stack.push(x);
    if stacked(stack, node) {
        let i = choose|i: int| 0 <= i < stack.len() && #[trigger] stack[i] == node;
        assert(longer[i] == node);
    } else {
        assert(longer[stack.len() as int] == node);
    }
}

proof fn lemma_stacked_pop(stack: Seq<usize>, node: usize)
    requires
        stack.len() > 0,
        stacked(stack, node),
        stack.last() != node,
    ensures
        stacked(stack.drop_last(), node),
{
    let i = choose|i: int| 0 <= i < stack.len() && #[trigger] stack[i] == node;
    assert(stack.drop_last()[i] == node);
}

/// Marking one more node, with a chain that leads from it to a target, and
/// putting it on the stack keeps the invariant.
proof fn lemma_mark_keeps_inv(
    preds: Seq<Seq<usize>>,
    targets: Seq<usize>,
    marks: Seq<bool>,
    stack: Seq<usize>,
    chains: Seq<Seq<usize>>,
    busy: int,
    upto: int,
    tdone: int,
    node: usize,
    chain: Seq<usize>,
)
    requires
        trace_inv(preds, targets, marks, stack, chains, busy, upto, tdone),
        node < preds.len(),
        linked(preds, chain),
        chain[0] == node,
        targets.contains(chain.last()),
    ensures
        trace_inv(
            preds,
            targets,
            marks.update(node as int, true),
            stack.push(node),
            chains.update(node as int, chain),
            busy,
            upto,
            tdone,
        ),
{
    reveal(trace_inv);
    let marks2 = marks.update(node as int, true);
    let stack2 = stack.push(node);
    let chains2 = chains.update(node as int, chain);
    assert forall|i: int| 0 <= i < stack2.len() implies (#[trigger] stack2[i]) < preds.len()
        && marks2[stack2[i] as int] by {
        if i < stack.len() {
            assert(stack2[i] == stack[i]);
        }
    }
    assert forall|k: int| 0 <= k < targets.len() && k < tdone implies marks2[(
    #[trigger] targets[k]) as int] by {
        assert(marks[targets[k] as int]);
    }
    assert forall|v: usize| v < preds.len() && marks2[v as int] implies #[trigger] trace_node(
        preds,
        marks2,
        stack2,
        busy,
        upto,
        v,
    ) by {
        if v == node {
            lemma_stacked_push(stack, node, v);
        } else {
            assert(trace_node(preds, marks, stack, busy, upto, v));
            if stacked(stack, v) {
                lemma_stacked_push(stack, node, v);
            } else {
                let bound = if v == busy {
                    upto
                } else {
                    preds[v as int].len() as int
                };
                assert forall|j: int| 0 <= j < bound implies marks2[(
                #[trigger] preds[v as int][j]) as int] by {
                    assert(marks[preds[v as int][j] as int]);
                }
            }
        }
    }
}

/// Taking the top node from the stack to work on it keeps the invariant.
proof fn lemma_pop_keeps_trace(
    preds: Seq<Seq<usize>>,
    targets: Seq<usize>,
    marks: Seq<bool>,
    stack: Seq<usize>,
    chains: Seq<Seq<usize>>,
    tdone: int,
)
    requires
        stack.len() > 0,
        trace_inv(preds, targets, marks, stack, chains, -1, 0, tdone),
    ensures
        trace_inv(preds, targets, marks, stack.drop_last(), chains, stack.last() as int, 0, tdone),
        stack.last() < preds.len(),
        marks[stack.last() as int],
        marks.len() == preds.len(),
{
    reveal(trace_inv);
    let v = stack.last();
    let rest = stack.drop_last();
    assert(stack[stack.len() - 1] == v);
    assert forall|i: int| 0 <= i < rest.len() implies (#[trigger] rest[i]) < preds.len()
        && marks[rest[i] as int] by {
        assert(rest[i] == stack[i]);
    }
    assert forall|w: usize| w < preds.len() && marks[w as int] implies #[trigger] trace_node(
        preds,
        marks,
        rest,
        v as int,
        0,
        w,
    ) by {
        assert(trace_node(preds, marks, stack, -1, 0, w));
        if w != v && stacked(stack, w) {
            lemma_stacked_pop(stack, w);
        }
    }
}

/// A predecessor that is marked lets the work on the node go one place on.
proof fn lemma_next_keeps_trace(
    preds: Seq<Seq<usize>>,
    targets: Seq<usize>,
    marks: Seq<bool>,
    stack: Seq<usize>,
    chains: Seq<Seq<usize>>,
    v: usize,
    j: int,
    tdone: int,
)
    requires
        v < preds.len(),
        0 <= j < preds[v as int].len(),
        marks[preds[v as int][j] as int],
        trace_inv(preds, targets, marks, stack, chains, v as int, j, tdone),
    ensures
        trace_inv(preds, targets, marks, stack, chains, v as int, j + 1, tdone),
{
    reveal(trace_inv);
    assert forall|w: usize| w < preds.len() && marks[w as int] implies #[trigger] trace_node(
        preds,
        marks,
        stack,
        v as int,
        j + 1,
        w,
    ) by {
        assert(trace_node(preds, marks, stack, v as int, j, w));
    }
}

/// Once all predecessors of the node are marked, no node is singled out.
proof fn lemma_done_keeps_trace(
    preds: Seq<Seq<usize>>,
    targets: Seq<usize>,
    marks: Seq<bool>,
    stack: Seq<usize>,
    chains: Seq<Seq<usize>>,
    v: usize,
    tdone: int,
)
    requires
        v < preds.len(),
        trace_inv(preds, targets, marks, stack, chains, v as int, preds[v as int].len() as int, tdone),
    ensures
        trace_inv(preds, targets, marks, stack, chains, -1, 0, tdone),
{
    reveal(trace_inv);
    assert forall|w: usize| w < preds.len() && marks[w as int] implies #[trigger] trace_node(
        preds,
        marks,
        stack,
        -1,
        0,
        w,
    ) by {
        assert(trace_node(preds, marks, stack, v as int, preds[v as int].len() as int, w));
    }
}

/// A target that is marked already counts as done.
proof fn lemma_target_seen(
    preds: Seq<Seq<usize>>,
    targets: Seq<usize>,
    marks: Seq<bool>,
    stack: Seq<usize>,
    chains: Seq<Seq<usize>>,
    t: int,
)
    requires
        0 <= t < targets.len(),
        targets[t] < marks.len(),
        marks[targets[t] as int],
        trace_inv(preds, targets, marks, stack, chains, -1, 0, t),
    ensures
        trace_inv(preds, targets, marks, stack, chains, -1, 0, t + 1),
{
    reveal(trace_inv);
}

/// The node being worked on is marked, and its chain leads to a target.
proof fn lemma_chain_of_busy(
    preds: Seq<Seq<usize>>,
    targets: Seq<usize>,
    marks: Seq<bool>,
    stack: Seq<usize>,
    chains: Seq<Seq<usize>>,
    v: usize,
    j: int,
    tdone: int,
)
    requires
        v < preds.len(),
        v < marks.len(),
        marks[v as int],
        trace_inv(preds, targets, marks, stack, chains, v as int, j, tdone),
    ensures
        linked(preds, chains[v as int]),
        chains[v as int][0] == v,
        targets.contains(chains[v as int].last()),
{
    reveal(trace_inv);
}

/// A chain that starts with a predecessor of the first node of a chain.
proof fn lemma_longer_chain(preds: Seq<Seq<usize>>, tail: Seq<usize>, p: usize, j: int)
    requires
        linked(preds, tail),
        p < preds.len(),
        0 <= j < preds[tail[0] as int].len(),
        preds[tail[0] as int][j] == p,
    ensures
        linked(preds, seq![p] + tail),
        (seq![p] + tail)[0] == p,
        (seq![p] + tail).last() == tail.last(),
{
    let chain = seq![p] + tail;
    assert forall|i: int| 0 <= i < chain.len() implies (#[trigger] chain[i]) < preds.len() by {
        if i > 0 {
            assert(chain[i] == tail[i - 1]);
        }
    }
    assert forall|i: int| 0 <= i < chain.len() - 1 implies preds[chain[i + 1] as int].contains(
     #[trigger] chain[i]) by {
        if i == 0 {
            assert(chain[1] == tail[0]);
        } else {
            assert(chain[i] == tail[i - 1]);
            assert(chain[i + 1] == tail[i]);
        }
    }
}

/// With nothing left on the stack, every node of a chain that ends in a
/// marked node is marked.
proof fn lemma_chain_is_marked(
    preds: Seq<Seq<usize>>,
    targets: Seq<usize>,
    marks: Seq<bool>,
    chains: Seq<Seq<usize>>,
    chain: Seq<usize>,
    at: int,
    tdone: int,
)
    requires
        trace_inv(preds, targets, marks, Seq::empty(), chains, -1, 0, tdone),
        linked(preds, chain),
        marks[chain.last() as int],
        0 <= at < chain.len(),
    ensures
        marks[chain[at] as int],
    decreases chain.len() - at,
{
    reveal(trace_inv);
    if at < chain.len() - 1 {
        lemma_chain_is_marked(preds, targets, marks, chains, chain, at + 1, tdone);
        let v = chain[at + 1];
        assert(trace_node(preds, marks, Seq::empty(), -1, 0, v));
        assert(!stacked(Seq::<usize>::empty(), v));
        let j = choose|j: int| 0 <= j < preds[v as int].len() && preds[v as int][j] == chain[at];
        assert(marks[preds[v as int][j] as int]);
    }
}

/// With nothing left on the stack, the marked nodes are the nodes that
/// lead to a target.
proof fn lemma_trace_done(
    preds: Seq<Seq<usize>>,
    targets: Seq<usize>,
    marks: Seq<bool>,
    chains: Seq<Seq<usize>>,
)
    requires
        trace_inv(preds, targets, marks, Seq::empty(), chains, -1, 0, targets.len() as int),
    ensures
        forall|u: usize|
            u < preds.len() ==> (#[trigger] marks[u as int] <==> leads(preds, u, targets)),
{
    reveal(trace_inv);
    assert forall|u: usize| u < preds.len() implies (#[trigger] marks[u as int] <==> leads(
        preds,
        u,
        targets,
    )) by {
        if leads(preds, u, targets) {
            let chain = choose|chain: Seq<usize>|
                #[trigger] linked(preds, chain) && chain[0] == u && targets.contains(chain.last());
            let k = choose|k: int| 0 <= k < targets.len() && targets[k] == chain.last();
            assert(marks[targets[k] as int]);
            lemma_chain_is_marked(preds, targets, marks, chains, chain, 0, targets.len() as int);
        }
        if marks[u as int] {
            assert(linked(preds, chains[u as int]));
        }
    }
}

fn unmarked(count: usize) -> (list: Vec<bool>)
    ensures
        list.len() == count,
        forall|k: int| 0 <= k < count ==> !list[k],
        count_true(list@) == 0,
{
    let mut list: Vec<bool> = Vec::new();
    let mut k: usize = 0;
    while k < count
        invariant
            k <= count,
            list.len() == k,
            forall|j: int| 0 <= j < k ==> !list[j],
            count_true(list@) == 0,
        decreases count - k,
    {
        let ghost before = list@;
        list.push(false);
        assert(list@.drop_last() =~= before);
        k += 1;
    }
    list
}

/// Marks the nodes from which a chain of predecessor links leads to one of
/// the targets. With the predecessor lists of a search and its cheapest
/// targets, these are the nodes that lie on a cheapest walk to a target.
pub fn trace_back(preds: &Vec<Vec<usize>>, targets: &Vec<usize>) -> (marks: Vec<bool>)
    requires
        forall|v: int, j: int|
            0 <= v < preds.len() && 0 <= j < preds[v].len() ==> (#[trigger] preds[v][j])
                < preds.len(),
        forall|t: int| 0 <= t < targets.len() ==> (#[trigger] targets[t]) < preds.len(),
    ensures
        marks.len() == preds.len(),
        forall|u: usize|
            u < preds.len() ==> (#[trigger] marks[u as int] <==> leads(
                pred_lists(preds@),
                u,
                targets@,
            )),
{
    let n = preds.len();
    let ghost lists = pred_lists(preds@);
    let mut marks = unmarked(n);
    let mut stack: Vec<usize> = Vec::new();
    let ghost mut chains: Seq<Seq<usize>> = Seq::new(n as nat, |k: int| Seq::<usize>::empty());
    let mut t: usize = 0;
    proof {
        reveal(trace_inv);
        assert forall|v: int, j: int| 0 <= v < lists.len() && 0 <= j < lists[v].len() implies (
        #[trigger] lists[v][j]) < lists.len() by {
            assert(preds[v][j] < preds.len());
        }
        assert(trace_inv(lists, targets@, marks@, stack@, chains, -1, 0, 0));
    }
    while t < targets.len()
        invariant
            t <= targets.len(),
            n == preds.len(),
            marks.len() == n,
            chains.len() == n,
            lists == pred_lists(preds@),
            forall|k: int| 0 <= k < targets.len() ==> (#[trigger] targets[k]) < n,
            trace_inv(lists, targets@, marks@, stack@, chains, -1, 0, t as int),
        decreases targets.len() - t,
    {
        let node = targets[t];
        if !marks[node] {
            proof {
                let chain = seq![node];
                assert(chain[0] == node);
                assert(targets@.contains(node));
                lemma_mark_keeps_inv(
                    lists,
                    targets@,
                    marks@,
                    stack@,
                    chains,
                    -1,
                    0,
                    t as int,
                    node,
                    chain,
                );
                chains = chains.update(node as int, chain);
            }
            marks.set(node, true);
            stack.push(node);
        }
        proof {
            lemma_target_seen(lists, targets@, marks@, stack@, chains, t as int);
        }
        t += 1;
    }
    let ghost all = targets.len() as int;
    while stack.len() > 0
        invariant
            n == preds.len(),
            lists == pred_lists(preds@),
            all == targets.len(),
            forall|v: int, j: int|
                0 <= v < preds.len() && 0 <= j < preds[v].len() ==> (#[trigger] preds[v][j]) < n,
            marks.len() == n,
            chains.len() == n,
            trace_inv(lists, targets@, marks@, stack@, chains, -1, 0, all),
        decreases n - count_true(marks@), stack.len(),
    {
        let ghost stack0 = stack@;
        let ghost count0 = count_true(marks@);
        proof {
            lemma_count_bound(marks@);
            lemma_pop_keeps_trace(lists, targets@, marks@, stack0, chains, all);
        }
        let v = stack.pop().unwrap();
        let ghost stack1 = stack@;
        assert(stack1 == stack0.drop_last());
        assert(lists[v as int] == preds[v as int]@);
        let mut j: usize = 0;
        while j < preds[v].len()
            invariant
                n == preds.len(),
                v < n,
                lists == pred_lists(preds@),
                lists[v as int] == preds[v as int]@,
                all == targets.len(),
                forall|a: int, b: int|
                    0 <= a < preds.len() && 0 <= b < preds[a].len() ==> (#[trigger] preds[a][b])
                        < n,
                j <= preds[v as int].len(),
                marks.len() == n,
                chains.len() == n,
                marks@[v as int],
                stack.len() >= stack1.len(),
                count_true(marks@) >= count0,
                stack.len() > stack1.len() ==> count_true(marks@) > count0,
                trace_inv(lists, targets@, marks@, stack@, chains, v as int, j as int, all),
            decreases preds[v as int].len() - j,
        {
            let p = preds[v][j];
            assert(p < n);
            assert(lists[v as int][j as int] == p);
            if !marks[p] {
                proof {
                    let tail = chains[v as int];
                    lemma_chain_of_busy(lists, targets@, marks@, stack@, chains, v, j as int, all);
                    lemma_longer_chain(lists, tail, p, j as int);
                    lemma_count_set(marks@, p as int);
                    lemma_mark_keeps_inv(
                        lists,
                        targets@,
                        marks@,
                        stack@,
                        chains,
                        v as int,
                        j as int,
                        all,
                        p,
                        seq![p] + tail,
                    );
                    chains = chains.update(p as int, seq![p] + tail);
                }
                marks.set(p, true);
                stack.push(p);
            }
            proof {
                lemma_next_keeps_trace(lists, targets@, marks@, stack@, chains, v, j as int, all);
            }
            j += 1;
        }
        proof {
            lemma_done_keeps_trace(lists, targets@, marks@, stack@, chains, v, all);
            lemma_count_bound(marks@);
        }
    }
    proof {
        assert(stack@ =~= Seq::<usize>::empty());
        lemma_trace_done(lists, targets@, marks@, chains);
    }
    marks
}

/// The walk passes through `node`: it stands there after some number of
/// its steps.
pub open spec fn passes(g: Seq<Seq<Edge>>, start: int, steps: Seq<int>, node: int) -> bool {
    exists|k: int| 0 <= k <= steps.len() && walk_end(g, start, #[trigger] steps.take(k)) == node
}

/// The walk is a cheapest walk to the node that it ends in, and that node
/// is one of the targets.
pub open spec fn cheapest_to_target(
    g: Seq<Seq<Edge>>,
    start: int,
    dist: Seq<u64>,
    steps: Seq<int>,
    targets: Seq<usize>,
) -> bool {
    &&& walk_ok(g, start, steps)
    &&& targets.contains(walk_end(g, start, steps) as usize)
    &&& dist[walk_end(g, start, steps)] != UNREACHED
    &&& walk_cost(g, start, steps) == dist[walk_end(g, start, steps)]
}

/// `node` lies on a cheapest walk from `start` to one of the targets.
pub open spec fn on_cheapest_walk(
    g: Seq<Seq<Edge>>,
    start: int,
    dist: Seq<u64>,
    node: int,
    targets: Seq<usize>,
) -> bool {
    exists|steps: Seq<int>|
        #[trigger] cheapest_to_target(g, start, dist, steps, targets) && passes(g, start, steps, node)
}

/// A walk in a graph whose edges lead to nodes of the graph ends in one.
proof fn lemma_walk_stays_inside(g: Seq<Seq<Edge>>, start: int, steps: Seq<int>)
    requires
        closed_graph(g),
        walk_ok(g, start, steps),
    ensures
        0 <= walk_end(g, start, steps) < g.len(),
    decreases steps.len(),
{
    if steps.len() > 0 {
        lemma_walk_stays_inside(g, start, steps.drop_last());
        let u = walk_end(g, start, steps.drop_last());
        assert(g[u][steps.last()].to < g.len());
    }
}

proof fn lemma_prefix_walk(g: Seq<Seq<Edge>>, start: int, steps: Seq<int>, k: int)
    requires
        closed_graph(g),
        walk_ok(g, start, steps),
        0 <= k <= steps.len(),
    ensures
        walk_ok(g, start, steps.take(k)),
        0 <= walk_end(g, start, steps.take(k)) < g.len(),
        k < steps.len() ==> {
            let u = walk_end(g, start, steps.take(k));
            &&& 0 <= steps[k] < g[u].len()
            &&& walk_end(g, start, steps.take(k + 1)) == g[u][steps[k]].to
            &&& walk_cost(g, start, steps.take(k + 1)) == walk_cost(g, start, steps.take(k))
                + g[u][steps[k]].cost
        },
    decreases steps.len() - k,
{
    if k == steps.len() {
        assert(steps.take(k) =~= steps);
    } else {
        lemma_prefix_walk(g, start, steps, k + 1);
        assert(steps.take(k + 1).drop_last() =~= steps.take(k));
        assert(steps.take(k + 1).last() == steps[k]);
    }
    lemma_walk_stays_inside(g, start, steps.take(k));
}

/// Every part of a cheapest walk is a cheapest walk, and every edge of it
/// enters its node at exactly the best cost of that node.
proof fn lemma_cheapest_prefixes(
    g: Seq<Seq<Edge>>,
    start: int,
    dist: Seq<u64>,
    steps: Seq<int>,
    k: int,
)
    requires
        closed_graph(g),
        0 <= start < g.len(),
        dist[start] == 0,
        best_costs(g, start, dist),
        edges_relaxed(g, dist),
        walk_ok(g, start, steps),
        dist[walk_end(g, start, steps)] != UNREACHED,
        walk_cost(g, start, steps) == dist[walk_end(g, start, steps)],
        0 <= k <= steps.len(),
    ensures
        dist[walk_end(g, start, steps.take(k))] != UNREACHED,
        walk_cost(g, start, steps.take(k)) == dist[walk_end(g, start, steps.take(k))],
        k < steps.len() ==> tight_edge(
            g,
            dist,
            walk_end(g, start, steps.take(k)),
            steps[k],
            walk_end(g, start, steps.take(k + 1)),
        ),
    decreases steps.len() - k,
{
    if k == steps.len() {
        assert(steps.take(k) =~= steps);
    } else {
        lemma_cheapest_prefixes(g, start, dist, steps, k + 1);
        lemma_prefix_walk(g, start, steps, k);
        lemma_prefix_walk(g, start, steps, k + 1);
        let before = steps.take(k);
        let u = walk_end(g, start, before);
        let v = walk_end(g, start, steps.take(k + 1));
        lemma_relaxed_is_lower_bound(g, start, dist, before);
        assert(none_cheaper(g, start, u, dist[u] as int));
        let e = g[u][steps[k]];
        if dist[u] != UNREACHED {
            assert(dist[e.to as int] <= dist[u] + e.cost);
        }
    }
}

/// Every node of a chain of predecessor links that ends in a reached node
/// is reached, and the links are edges that enter their nodes at exactly
/// the best cost.
proof fn lemma_chain_is_tight(
    g: Seq<Seq<Edge>>,
    dist: Seq<u64>,
    preds: Seq<Seq<usize>>,
    chain: Seq<usize>,
    at: int,
)
    requires
        exact_preds(g, dist, preds),
        linked(preds, chain),
        dist[chain.last() as int] != UNREACHED,
        0 <= at < chain.len(),
    ensures
        dist[chain[at] as int] != UNREACHED,
        at < chain.len() - 1 ==> tight_pred(g, dist, chain[at] as int, chain[at + 1] as int),
    decreases chain.len() - at,
{
    if at < chain.len() - 1 {
        lemma_chain_is_tight(g, dist, preds, chain, at + 1);
        assert(preds[chain[at + 1] as int].contains(chain[at]));
        let k = choose|k: int| #[trigger]
            tight_edge(g, dist, chain[at] as int, k, chain[at + 1] as int);
    }
}

/// A cheapest walk that passes through the first node of a chain of
/// predecessor links leads on, along the chain, to each of its nodes.
proof fn lemma_walk_along_chain(
    g: Seq<Seq<Edge>>,
    start: int,
    dist: Seq<u64>,
    preds: Seq<Seq<usize>>,
    chain: Seq<usize>,
    at: int,
) -> (steps: Seq<int>)
    requires
        0 <= start < g.len(),
        best_costs(g, start, dist),
        exact_preds(g, dist, preds),
        linked(preds, chain),
        dist[chain.last() as int] != UNREACHED,
        0 <= at < chain.len(),
    ensures
        walk_ok(g, start, steps),
        walk_end(g, start, steps) == chain[at],
        walk_cost(g, start, steps) == dist[chain[at] as int],
        passes(g, start, steps, chain[0] as int),
    decreases at,
{
    lemma_chain_is_tight(g, dist, preds, chain, at);
    if at == 0 {
        lemma_chain_is_tight(g, dist, preds, chain, 0);
        assert(reaches_at(g, start, chain[0] as int, dist[chain[0] as int] as int));
        let steps = choose|steps: Seq<int>|
            #[trigger] walk_ok(g, start, steps) && walk_end(g, start, steps) == chain[0]
                && walk_cost(g, start, steps) == dist[chain[0] as int];
        assert(steps.take(steps.len() as int) =~= steps);
        steps
    } else {
        let before = lemma_walk_along_chain(g, start, dist, preds, chain, at - 1);
        lemma_chain_is_tight(g, dist, preds, chain, at - 1);
        let k = choose|k: int| #[trigger]
            tight_edge(g, dist, chain[at - 1] as int, k, chain[at] as int);
        lemma_walk_push(g, start, before, k);
        let steps = before.push(k);
        let j = choose|j: int|
            0 <= j <= before.len() && walk_end(g, start, #[trigger] before.take(j)) == chain[0];
        assert(steps.take(j) =~= before.take(j));
        steps
    }
}

/// The nodes from which predecessor links lead to a target are the nodes
/// that lie on a cheapest walk to a target.
pub proof fn lemma_leads_iff_on_cheapest_walk(
    g: Seq<Seq<Edge>>,
    start: int,
    dist: Seq<u64>,
    preds: Seq<Seq<usize>>,
    targets: Seq<usize>,
    node: usize,
)
    requires
        closed_graph(g),
        g.len() <= usize::MAX,
        0 <= start < g.len(),
        dist[start] == 0,
        best_costs(g, start, dist),
        edges_relaxed(g, dist),
        exact_preds(g, dist, preds),
        node < g.len(),
        forall|t: int|
            0 <= t < targets.len() ==> (#[trigger] targets[t]) < g.len() && dist[targets[t] as int]
                != UNREACHED,
    ensures
        leads(preds, node, targets) <==> on_cheapest_walk(g, start, dist, node as int, targets),
{
    if leads(preds, node, targets) {
        let chain = choose|chain: Seq<usize>|
            #[trigger] linked(preds, chain) && chain[0] == node && targets.contains(chain.last());
        let t = choose|t: int| 0 <= t < targets.len() && targets[t] == chain.last();
        let steps = lemma_walk_along_chain(g, start, dist, preds, chain, chain.len() - 1);
        assert(cheapest_to_target(g, start, dist, steps, targets));
    }
    if on_cheapest_walk(g, start, dist, node as int, targets) {
        let steps = choose|steps: Seq<int>|
            #[trigger] cheapest_to_target(g, start, dist, steps, targets) && passes(
                g,
                start,
                steps,
                node as int,
            );
        let k = choose|k: int|
            0 <= k <= steps.len() && walk_end(g, start, #[trigger] steps.take(k)) == node;
        let chain = Seq::new(
            (steps.len() - k + 1) as nat,
            |i: int| walk_end(g, start, steps.take(k + i)) as usize,
        );
        assert forall|i: int| 0 <= i < chain.len() implies (#[trigger] chain[i]) < preds.len() by {
            lemma_prefix_walk(g, start, steps, k + i);
        }
        assert forall|i: int| 0 <= i < chain.len() - 1 implies preds[chain[i + 1] as int].contains(
         #[trigger] chain[i]) by {
            lemma_prefix_walk(g, start, steps, k + i);
            lemma_prefix_walk(g, start, steps, k + i + 1);
            lemma_cheapest_prefixes(g, start, dist, steps, k + i);
            lemma_cheapest_prefixes(g, start, dist, steps, k + i + 1);
            let u = walk_end(g, start, steps.take(k + i));
            let v = walk_end(g, start, steps.take(k + i + 1));
            assert(tight_edge(g, dist, u, steps[k + i], v));
            assert(tight_pred(g, dist, u, v));
            assert(chain[i] == u as usize);
            assert(chain[i + 1] == v as usize);
        }
        assert(steps.take(steps.len() as int) =~= steps);
        assert(chain.last() == walk_end(g, start, steps) as usize);
        assert(linked(preds, chain));
        assert(chain[0] == node);
    }
}

} // verus!
