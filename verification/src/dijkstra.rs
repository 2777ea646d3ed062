//! Dijkstra's shortest-path relaxation over an adjacency-list graph.
//! A distance table is relaxed from a start node; every finite
//! distance the result reports is proved to be the cost of an actual
//! walk of at least one edge from the start to that node — so the
//! start's own entry stays at the unreached marker unless a cycle
//! returns to it, exactly as the relaxation leaves it.

use vstd::prelude::*;

verus! {

use core::cmp::Ordering;

/// Nodes are indices into the adjacency list; each entry is a
/// `(neighbor, weight)` pair.
pub type Graph = Vec<Vec<(usize, usize)>>;

/// A heap entry: the cost at which `position` was queued.
#[derive(Debug, Clone, Copy, PartialEq, Eq, Structural)]
pub struct State {
    pub cost: usize,
    pub position: usize,
}

impl State {
    /// The ordering of queue entries: the cheaper cost is the greater
    /// entry, so that a max-heap pops it first; ties go to the larger
    /// position.
    pub open spec fn spec_cmp(self, other: Self) -> Ordering {
        if self.cost > other.cost || (self.cost == other.cost && self.position
            < other.position) {
            Ordering::Less
        } else if self.cost < other.cost || (self.cost == other.cost && self.position
            > other.position) {
            Ordering::Greater
        } else {
            Ordering::Equal
        }
    }

    /// Orders entries for a max-heap that pops the cheapest cost
    /// first; ties go to the larger position.
    pub fn cmp(&self, other: &Self) -> (r: Ordering)
        ensures
            r == self.spec_cmp(*other),
    {
        if other.cost < self.cost {
            Ordering::Less
        } else if other.cost > self.cost {
            Ordering::Greater
        } else if self.position < other.position {
            Ordering::Less
        } else if self.position > other.position {
            Ordering::Greater
        } else {
            Ordering::Equal
        }
    }

    /// The same ordering, always defined.
    pub fn partial_cmp(&self, other: &Self) -> (r: Option<Ordering>)
        ensures
            r == Some(self.spec_cmp(*other)),
    {
        Some(self.cmp(other))
    }
}

/// `nodes` is a walk through `g` of total edge cost `cost`.
pub open spec fn is_walk(g: Seq<Vec<(usize, usize)>>, nodes: Seq<usize>, cost: int) -> bool
    decreases nodes.len(),
{
    if nodes.len() == 0 {
        false
    } else if nodes.len() == 1 {
        cost == 0
    } else {
        nodes[0] < g.len() && exists|j: int|
            0 <= j < g[nodes[0] as int]@.len() && (#[trigger] g[nodes[0] as int]@[j]).0 == nodes[1]
                && is_walk(g, nodes.drop_first(), cost - g[nodes[0] as int]@[j].1)
    }
}

/// Some walk leads from `s` to `v` in `g` at exactly cost `c`.
pub open spec fn reaches(g: Seq<Vec<(usize, usize)>>, s: usize, v: usize, c: int) -> bool {
    exists|nodes: Seq<usize>|
        is_walk(g, nodes, c) && nodes.len() > 0 && nodes.first() == s && nodes.last() == v
}

/// Some walk of at least one edge leads from `s` to `v` at exactly
/// cost `c`: for `v == s` this demands a genuine cycle, not the empty
/// walk.
pub open spec fn reaches_by_edge(g: Seq<Vec<(usize, usize)>>, s: usize, v: usize, c: int) -> bool {
    exists|nodes: Seq<usize>|
        is_walk(g, nodes, c) && nodes.len() >= 2 && nodes.first() == s && nodes.last() == v
}

/// Extending a walk by one edge extends its cost by that edge's
/// weight.
proof fn lemma_walk_push(g: Seq<Vec<(usize, usize)>>, nodes: Seq<usize>, cost: int, j: int)
    requires
        is_walk(g, nodes, cost),
        nodes.len() > 0,
        nodes.last() < g.len(),
        0 <= j < g[nodes.last() as int]@.len(),
    ensures
        is_walk(g, nodes.push(g[nodes.last() as int]@[j].0), cost + g[nodes.last() as int]@[j].1),
    decreases nodes.len(),
{
    let v = g[nodes.last() as int]@[j].0;
    let w = g[nodes.last() as int]@[j].1;
    let longer = nodes.push(v);
    if nodes.len() == 1 {
        assert(longer[0] == nodes[0] && longer[1] == v);
        assert(longer.drop_first() =~= seq![v]);
        assert(is_walk(g, longer.drop_first(), 0));
        assert((#[trigger] g[longer[0] as int]@[j]).0 == longer[1] && is_walk(
            g,
            longer.drop_first(),
            cost + w - g[longer[0] as int]@[j].1,
        ));
    } else {
        let k = choose|k: int|
            0 <= k < g[nodes[0] as int]@.len() && (#[trigger] g[nodes[0] as int]@[k]).0 == nodes[1]
                && is_walk(g, nodes.drop_first(), cost - g[nodes[0] as int]@[k].1);
        lemma_walk_push(g, nodes.drop_first(), cost - g[nodes[0] as int]@[k].1, j);
        assert(nodes.drop_first().push(v) =~= longer.drop_first());
        assert((#[trigger] g[longer[0] as int]@[k]).0 == longer[1] && is_walk(
            g,
            longer.drop_first(),
            cost + w - g[longer[0] as int]@[k].1,
        ));
    }
}

proof fn lemma_reaches_step(g: Seq<Vec<(usize, usize)>>, s: usize, u: usize, c: int, j: int)
    requires
        reaches(g, s, u, c),
        u < g.len(),
        0 <= j < g[u as int]@.len(),
    ensures
        reaches(g, s, g[u as int]@[j].0, c + g[u as int]@[j].1),
        reaches_by_edge(g, s, g[u as int]@[j].0, c + g[u as int]@[j].1),
{
    let nodes = choose|nodes: Seq<usize>|
        is_walk(g, nodes, c) && nodes.len() > 0 && nodes.first() == s && nodes.last() == u;
    lemma_walk_push(g, nodes, c, j);
    let longer = nodes.push(g[u as int]@[j].0);
    assert(longer.first() == s && longer.last() == g[u as int]@[j].0);
    assert(longer.len() >= 2);
}

/// The total of a distance table, the measure that every successful
/// relaxation strictly shrinks.
pub open spec fn sum_dist(s: Seq<usize>) -> int
    decreases s.len(),
{
    if s.len() == 0 {
        0
    } else {
        sum_dist(s.drop_last()) + s.last()
    }
}

proof fn lemma_sum_dist_nonneg(s: Seq<usize>)
    ensures
        sum_dist(s) >= 0,
    decreases s.len(),
{
    if s.len() > 0 {
        lemma_sum_dist_nonneg(s.drop_last());
    }
}

proof fn lemma_sum_dist_update(s: Seq<usize>, v: int, val: usize)
    requires
        0 <= v < s.len(),
    ensures
        sum_dist(s.update(v, val)) == sum_dist(s) - s[v] + val,
    decreases s.len(),
{
    let updated = s.update(v, val);
    if v == s.len() - 1 {
        assert(updated.drop_last() =~= s.drop_last());
    } else {
        assert(updated.drop_last() =~= s.drop_last().update(v, val));
        assert(updated.last() == s.last());
        lemma_sum_dist_update(s.drop_last(), v, val);
    }
}

/// Every queue entry records a cost at which its node can really be
/// reached — by at least one edge, except for the initial entry that
/// seeds the start at cost zero.
pub open spec fn heap_sound(
    g: Seq<Vec<(usize, usize)>>,
    start: usize,
    heap: Seq<State>,
) -> bool {
    forall|e: int|
        0 <= e < heap.len() ==> {
            let s = #[trigger] heap[e];
            reaches(g, start, s.position, s.cost as int) && (reaches_by_edge(
                g,
                start,
                s.position,
                s.cost as int,
            ) || (s.position == start && s.cost == 0))
        }
}

/// Every in-range edge out of `u` is relaxed against the budget `c`:
/// the target's entry is at most `c` plus the edge weight.
pub open spec fn relaxed_from(g: Seq<Vec<(usize, usize)>>, dist: Seq<usize>, u: int, c: int) -> bool {
    forall|j: int|
        0 <= j < g[u]@.len() ==> ((#[trigger] g[u]@[j]).0 < g.len() ==> dist[g[u]@[j].0 as int] as int
            <= c + g[u]@[j].1)
}

/// `u` is queued at exactly its current entry cost.
pub open spec fn queued_at(heap: Seq<State>, dist: Seq<usize>, u: int) -> bool {
    exists|e: int|
        0 <= e < heap.len() && (#[trigger] heap[e]).position == u && heap[e].cost == dist[u]
}

/// Every node is untouched, queued for expansion, or fully relaxed:
/// the invariant whose fixed point makes the result minimal.
pub open spec fn node_settled(
    g: Seq<Vec<(usize, usize)>>,
    dist: Seq<usize>,
    heap: Seq<State>,
    u: int,
) -> bool {
    dist[u] == usize::MAX || queued_at(heap, dist, u) || relaxed_from(g, dist, u, dist[u] as int)
}

/// The zero-cost seed entry for the start is still queued.
pub open spec fn seed_queued(heap: Seq<State>, start: usize) -> bool {
    exists|e: int|
        0 <= e < heap.len() && (#[trigger] heap[e]).position == start && heap[e].cost == 0
}

/// The start's edges are relaxed against cost zero, or its seed entry
/// is still queued; the start's own table entry plays no part, which
/// is what leaves it at the unreached marker.
pub open spec fn start_settled(
    g: Seq<Vec<(usize, usize)>>,
    dist: Seq<usize>,
    heap: Seq<State>,
    start: usize,
) -> bool {
    start >= g.len() || seed_queued(heap, start) || relaxed_from(g, dist, start as int, 0)
}

/// Walking a fully relaxed table can lower an entry by at most the
/// walk's cost.
proof fn lemma_walk_relaxed(g: Seq<Vec<(usize, usize)>>, dist: Seq<usize>, nodes: Seq<usize>, c: int)
    requires
        dist.len() == g.len(),
        forall|u: int|
            0 <= u < g.len() ==> dist[u] == usize::MAX || relaxed_from(
                g,
                dist,
                u,
                (#[trigger] dist[u]) as int,
            ),
        is_walk(g, nodes, c),
        nodes.len() >= 1,
        nodes.last() < g.len(),
    ensures
        dist[nodes.last() as int] as int <= dist[nodes.first() as int] as int + c,
    decreases nodes.len(),
{
    if nodes.len() > 1 {
        let u = nodes[0];
        let j = choose|j: int|
            0 <= j < g[u as int]@.len() && (#[trigger] g[u as int]@[j]).0 == nodes[1] && is_walk(
                g,
                nodes.drop_first(),
                c - g[u as int]@[j].1,
            );
        let w = g[u as int]@[j].1;
        assert(nodes.drop_first().first() == nodes[1]);
        assert(nodes.drop_first().last() == nodes.last());
        if nodes.len() == 2 {
            assert(nodes[1] == nodes.last());
        } else {
            assert(nodes.drop_first()[0] < g.len());
        }
        assert(dist[nodes[1] as int] as int <= dist[u as int] as int + w);
        lemma_walk_relaxed(g, dist, nodes.drop_first(), c - w);
    }
}

/// With every node settled, the seed relaxed, and the queue drained,
/// no walk of at least one edge beats its target's recorded entry.
proof fn lemma_walk_minimal(
    g: Seq<Vec<(usize, usize)>>,
    dist: Seq<usize>,
    start: usize,
    nodes: Seq<usize>,
    c: int,
)
    requires
        dist.len() == g.len(),
        forall|u: int|
            0 <= u < g.len() ==> dist[u] == usize::MAX || relaxed_from(
                g,
                dist,
                u,
                (#[trigger] dist[u]) as int,
            ),
        start < g.len() ==> relaxed_from(g, dist, start as int, 0),
        is_walk(g, nodes, c),
        nodes.len() >= 2,
        nodes.first() == start,
        nodes.last() < g.len(),
    ensures
        dist[nodes.last() as int] as int <= c,
{
    let j = choose|j: int|
        0 <= j < g[start as int]@.len() && (#[trigger] g[start as int]@[j]).0 == nodes[1]
            && is_walk(g, nodes.drop_first(), c - g[start as int]@[j].1);
    let w = g[start as int]@[j].1;
    assert(nodes.drop_first().first() == nodes[1]);
    assert(nodes.drop_first().last() == nodes.last());
    if nodes.len() == 2 {
        assert(nodes[1] == nodes.last());
    } else {
        assert(nodes.drop_first()[0] < g.len());
    }
    assert(dist[nodes[1] as int] as int <= w);
    lemma_walk_relaxed(g, dist, nodes.drop_first(), c - w);
}

/// Popping an entry keeps every node settled whose witness entry the
/// pop did not remove.
proof fn lemma_settled_after_pop(
    g: Seq<Vec<(usize, usize)>>,
    dist: Seq<usize>,
    pre: Seq<State>,
    post: Seq<State>,
    f0: int,
    n: int,
)
    requires
        0 <= f0 < pre.len(),
        post == pre.remove(f0),
        n == g.len() == dist.len(),
        forall|u: int| 0 <= u < n ==> node_settled(g, dist, pre, u),
    ensures
        forall|u: int|
            0 <= u < n && !(pre[f0].position == u && pre[f0].cost == dist[u]) ==> node_settled(
                g,
                dist,
                post,
                u,
            ),
{
    assert forall|u: int|
        0 <= u < n && !(pre[f0].position == u && pre[f0].cost == dist[u]) implies node_settled(
        g,
        dist,
        post,
        u,
    ) by {
        if dist[u] != usize::MAX && !relaxed_from(g, dist, u, dist[u] as int) {
            assert(node_settled(g, dist, pre, u));
            assert(queued_at(pre, dist, u));
            let e = choose|e: int|
                0 <= e < pre.len() && (#[trigger] pre[e]).position == u && pre[e].cost == dist[u];
            assert(pre[e].position == u && pre[e].cost == dist[u]);
            assert(e != f0);
            if e < f0 {
                assert(post[e] == pre[e]);
            } else {
                assert(post[e - 1] == pre[e]);
            }
        }
    }
}

/// Popping anything but the zero-cost seed keeps the start settled.
proof fn lemma_seed_survives_pop(
    g: Seq<Vec<(usize, usize)>>,
    dist: Seq<usize>,
    pre: Seq<State>,
    post: Seq<State>,
    f0: int,
    start: usize,
)
    requires
        0 <= f0 < pre.len(),
        post == pre.remove(f0),
        start_settled(g, dist, pre, start),
        start < g.len() ==> !(pre[f0].position == start && pre[f0].cost == 0),
    ensures
        start_settled(g, dist, post, start),
{
    if start < g.len() && seed_queued(pre, start) && !relaxed_from(g, dist, start as int, 0) {
        let e = choose|e: int|
            0 <= e < pre.len() && (#[trigger] pre[e]).position == start && pre[e].cost == 0;
        assert(e != f0);
        if e < f0 {
            assert(post[e] == pre[e]);
        } else {
            assert(post[e - 1] == pre[e]);
        }
    }
}

/// One relaxation — lowering a node's entry and queueing it at the
/// new cost — keeps every node and the start settled.
proof fn lemma_relax_transfer(
    g: Seq<Vec<(usize, usize)>>,
    od: Seq<usize>,
    nd: Seq<usize>,
    oh: Seq<State>,
    nh: Seq<State>,
    nbr: usize,
    tv: usize,
    start: usize,
)
    requires
        0 <= (nbr as int) < od.len(),
        od.len() == g.len(),
        nd == od.update(nbr as int, tv),
        tv < od[nbr as int],
        nh == oh.push(State { cost: tv, position: nbr }),
    ensures
        forall|u: int|
            0 <= u < g.len() && node_settled(g, od, oh, u) ==> node_settled(g, nd, nh, u),
        node_settled(g, nd, nh, nbr as int),
        start_settled(g, od, oh, start) ==> start_settled(g, nd, nh, start),
{
    assert(node_settled(g, nd, nh, nbr as int)) by {
        assert((#[trigger] nh[nh.len() - 1]).position == nbr && nh[nh.len() - 1].cost == nd[
        nbr as int]);
    }
    assert forall|u: int|
        0 <= u < g.len() && node_settled(g, od, oh, u) implies node_settled(g, nd, nh, u) by {
        if u != nbr as int {
            if od[u] != usize::MAX {
                if queued_at(oh, od, u) {
                    let e = choose|e: int|
                        0 <= e < oh.len() && (#[trigger] oh[e]).position == u && oh[e].cost == od[u];
                    assert(nh[e] == oh[e]);
                    assert(queued_at(nh, nd, u));
                } else {
                    assert forall|j: int|
                        0 <= j < g[u]@.len() implies ((#[trigger] g[u]@[j]).0 < g.len() ==> nd[g[
                        u]@[j].0 as int] as int <= nd[u] as int + g[u]@[j].1) by {
                        if g[u]@[j].0 < g.len() {
                            assert(od[g[u]@[j].0 as int] as int <= od[u] as int + g[u]@[j].1);
                        }
                    }
                }
            }
        }
    }
    if start_settled(g, od, oh, start) && start < g.len() {
        if seed_queued(oh, start) {
            let e = choose|e: int|
                0 <= e < oh.len() && (#[trigger] oh[e]).position == start && oh[e].cost == 0;
            assert(nh[e] == oh[e]);
            assert(seed_queued(nh, start));
        } else {
            assert forall|j: int|
                0 <= j < g[start as int]@.len() implies ((#[trigger] g[start as int]@[j]).0
                < g.len() ==> nd[g[start as int]@[j].0 as int] as int <= 0 + g[start as int]@[
                j].1) by {
                if g[start as int]@[j].0 < g.len() {
                    assert(od[g[start as int]@[j].0 as int] as int <= 0 + g[start as int]@[j].1);
                }
            }
        }
    }
}

/// Removes and returns a cheapest entry of the queue.
fn pop_min(heap: &mut Vec<State>) -> (r: Option<State>)
    ensures
        old(heap)@.len() == 0 ==> r is None && final(heap)@ == old(heap)@,
        old(heap)@.len() > 0 ==> (r matches Some(s) && exists|f: int|
            {
                &&& 0 <= f < old(heap)@.len()
                &&& old(heap)@[f] == s
                &&& final(heap)@ == old(heap)@.remove(f)
            }),
        old(heap)@.len() > 0 ==> (r matches Some(s) && forall|e: int|
            0 <= e < old(heap)@.len() ==> s.cost <= (#[trigger] old(heap)@[e]).cost),
{
    if heap.is_empty() {
        return None;
    }

    let mut m: usize = 0;
    let mut j: usize = 1;
    while j < heap.len()
        invariant
            m < j <= heap@.len(),
            forall|e: int| 0 <= e < j ==> heap@[m as int].cost <= (#[trigger] heap@[e]).cost,
        decreases heap@.len() - j,
    {
        if heap[j].cost < heap[m].cost {
            m = j;
        }
        j += 1;
    }

    let s = heap.remove(m);
    proof {
        assert(old(heap)@[m as int] == s);
    }
    Some(s)
}

/// Relaxes distances from `start` until the queue is drained.  The
/// result has one entry per node; `usize::MAX` stands for "no walk
/// was found", every smaller entry is the exact cost of some walk of
/// at least one edge from `start` to that node, and no such walk is
/// cheaper than the entry — so each entry is the minimum walk cost,
/// or the marker when no walk exists.  The start's own entry is never
/// seeded with zero: it is the cheapest cycle back to the start, or
/// the marker.
pub fn dijkstra(graph: &Graph, start: usize) -> (distances: Vec<usize>)
    ensures
        distances@.len() == graph@.len(),
        forall|v: int|
            0 <= v < distances@.len() && (#[trigger] distances@[v]) < usize::MAX
                ==> reaches_by_edge(graph@, start, v as usize, distances@[v] as int),
        forall|v: int, c: int|
            0 <= v < distances@.len() && #[trigger] reaches_by_edge(graph@, start, v as usize, c)
                ==> distances@[v] as int <= c,
{
    let n = graph.len();

    let mut distances: Vec<usize> = Vec::new();
    let mut k: usize = 0;
    while k < n
        invariant
            k <= n,
            distances@.len() == k,
            forall|v: int| 0 <= v < k ==> (#[trigger] distances@[v]) == usize::MAX,
        decreases n - k,
    {
        distances.push(usize::MAX);
        k += 1;
    }

    let mut heap: Vec<State> = Vec::new();
    heap.push(State { cost: 0, position: start });

    proof {
        assert(is_walk(graph@, seq![start], 0));
        assert(seq![start].first() == start && seq![start].last() == start);
        assert(reaches(graph@, start, start, 0));
    }

    proof {
        assert(seed_queued(heap@, start)) by {
            assert(heap@[0].position == start && heap@[0].cost == 0);
        }
    }

    loop
        invariant
            n == graph@.len(),
            distances@.len() == n,
            heap_sound(graph@, start, heap@),
            forall|u: int| 0 <= u < n ==> node_settled(graph@, distances@, heap@, u),
            start_settled(graph@, distances@, heap@, start),
            forall|v: int|
                0 <= v < n && (#[trigger] distances@[v]) < usize::MAX ==> reaches_by_edge(
                    graph@,
                    start,
                    v as usize,
                    distances@[v] as int,
                ),
        ensures
            heap@.len() == 0,
            distances@.len() == n,
            n == graph@.len(),
            forall|u: int| 0 <= u < n ==> node_settled(graph@, distances@, heap@, u),
            start_settled(graph@, distances@, heap@, start),
            forall|v: int|
                0 <= v < n && (#[trigger] distances@[v]) < usize::MAX ==> reaches_by_edge(
                    graph@,
                    start,
                    v as usize,
                    distances@[v] as int,
                ),
        decreases sum_dist(distances@), heap@.len(),
    {
        proof {
            lemma_sum_dist_nonneg(distances@);
        }
        let ghost pre_heap = heap@;
        let ghost s0 = sum_dist(distances@);
        let popped = pop_min(&mut heap);
        let s = match popped {
            Some(s) => s,
            None => {
                break ;
            },
        };
        let cost = s.cost;
        let position = s.position;

        let ghost f0 = choose|f: int|
            0 <= f < pre_heap.len() && pre_heap[f] == s && heap@ == pre_heap.remove(f);

        proof {
            assert(pre_heap[f0] == s);
            assert forall|e: int|
                0 <= e < heap@.len() implies {
                let t = #[trigger] heap@[e];
                reaches(graph@, start, t.position, t.cost as int) && (reaches_by_edge(
                    graph@,
                    start,
                    t.position,
                    t.cost as int,
                ) || (t.position == start && t.cost == 0))
            } by {
                if e < f0 {
                    assert(heap@[e] == pre_heap[e]);
                } else {
                    assert(heap@[e] == pre_heap[e + 1]);
                }
            }
            assert(reaches(graph@, start, position, cost as int));
        }

        if position >= n {
            proof {
                lemma_settled_after_pop(graph@, distances@, pre_heap, heap@, f0, n as int);
                assert forall|u: int|
                    0 <= u < n implies node_settled(graph@, distances@, heap@, u) by {
                    assert(u != position as int);
                }
                lemma_seed_survives_pop(graph@, distances@, pre_heap, heap@, f0, start);
            }
            continue ;
        }

        if cost > distances[position] {
            proof {
                lemma_settled_after_pop(graph@, distances@, pre_heap, heap@, f0, n as int);
                assert forall|u: int|
                    0 <= u < n implies node_settled(graph@, distances@, heap@, u) by {
                    if u == position as int {
                        assert(s.cost != distances@[u]);
                    }
                }
                lemma_seed_survives_pop(graph@, distances@, pre_heap, heap@, f0, start);
            }
            continue ;
        }

        let ghost h0 = heap@.len();

        proof {
            lemma_settled_after_pop(graph@, distances@, pre_heap, heap@, f0, n as int);
            if !(position == start && cost == 0) {
                lemma_seed_survives_pop(graph@, distances@, pre_heap, heap@, f0, start);
            }
        }

        let deg = graph[position].len();
        let mut e: usize = 0;
        while e < deg
            invariant
                n == graph@.len(),
                position < n,
                deg == graph@[position as int]@.len(),
                e <= deg,
                distances@.len() == n,
                reaches(graph@, start, position, cost as int),
                heap_sound(graph@, start, heap@),
                forall|u: int|
                    0 <= u < n && u != position ==> node_settled(graph@, distances@, heap@, u),
                cost <= distances@[position as int] || queued_at(
                    heap@,
                    distances@,
                    position as int,
                ),
                forall|j: int|
                    0 <= j < e ==> ((#[trigger] graph@[position as int]@[j]).0 < n
                        ==> distances@[graph@[position as int]@[j].0 as int] as int <= cost
                        + graph@[position as int]@[j].1),
                start_settled(graph@, distances@, heap@, start) || (position == start && cost
                    == 0),
                sum_dist(distances@) >= 0,
                sum_dist(distances@) <= s0,
                sum_dist(distances@) == s0 ==> heap@.len() == h0,
                forall|v: int|
                    0 <= v < n && (#[trigger] distances@[v]) < usize::MAX ==> reaches_by_edge(
                        graph@,
                        start,
                        v as usize,
                        distances@[v] as int,
                    ),
            decreases deg - e,
        {
            let (neighbor, weight) = graph[position][e];

            if neighbor < n && weight <= usize::MAX - cost {
                let next_cost = cost + weight;
                if next_cost < distances[neighbor] {
                    proof {
                        lemma_reaches_step(graph@, start, position, cost as int, e as int);
                        lemma_sum_dist_update(distances@, neighbor as int, next_cost);
                    }
                    let ghost od = distances@;
                    let ghost oh = heap@;
                    distances.set(neighbor, next_cost);
                    heap.push(State { cost: next_cost, position: neighbor });
                    proof {
                        lemma_sum_dist_nonneg(distances@);
                        lemma_relax_transfer(
                            graph@,
                            od,
                            distances@,
                            oh,
                            heap@,
                            neighbor,
                            next_cost,
                            start,
                        );
                        if queued_at(oh, od, position as int) && neighbor as int != position as int {
                            let w = choose|w: int|
                                0 <= w < oh.len() && (#[trigger] oh[w]).position == position
                                    && oh[w].cost == od[position as int];
                            assert(heap@[w] == oh[w]);
                            assert(queued_at(heap@, distances@, position as int));
                        }
                    }
                }
            }

            e += 1;
        }

        proof {
            assert forall|u: int|
                0 <= u < n implies node_settled(graph@, distances@, heap@, u) by {
                if u == position as int {
                    if cost <= distances@[u] {
                        assert forall|j: int|
                            0 <= j < graph@[u]@.len() implies ((#[trigger] graph@[u]@[j]).0
                            < graph@.len() ==> distances@[graph@[u]@[j].0 as int] as int
                            <= distances@[u] as int + graph@[u]@[j].1) by {}
                    }
                }
            }
            if position == start && cost == 0 {
                assert(relaxed_from(graph@, distances@, start as int, 0));
                assert(start_settled(graph@, distances@, heap@, start));
            }
        }
    }

    proof {
        assert forall|v: int, c: int|
            0 <= v < n && #[trigger] reaches_by_edge(graph@, start, v as usize, c) implies
            distances@[v] as int <= c by {
            let nodes = choose|nodes: Seq<usize>|
                is_walk(graph@, nodes, c) && nodes.len() >= 2 && nodes.first() == start
                    && nodes.last() == v as usize;
            assert(nodes[0] == nodes.first() && nodes[0] < graph@.len());
            assert((start as int) < graph@.len());
            assert(start < graph@.len());
            assert(start_settled(graph@, distances@, heap@, start));
            assert(!seed_queued(heap@, start));
            assert(relaxed_from(graph@, distances@, start as int, 0));
            assert forall|u: int|
                0 <= u < graph@.len() implies distances@[u] == usize::MAX || relaxed_from(
                graph@,
                distances@,
                u,
                (#[trigger] distances@[u]) as int,
            ) by {
                assert(node_settled(graph@, distances@, heap@, u));
                assert(!queued_at(heap@, distances@, u));
            }
            lemma_walk_minimal(graph@, distances@, start, nodes, c);
        }
    }

    distances
}

/// A four-by-four grid graph with unit weights, edges pointing right
/// and down (plus a few diagonals), node `k` at row `k / 4` and
/// column `k % 4`.
pub fn create_sample_graph() -> (graph: Graph)
    ensures
        graph@.len() == 16,
        graph@[0]@ == seq![(1usize, 1usize), (4usize, 1usize), (5usize, 1usize)],
        graph@[1]@ == seq![(2usize, 1usize), (5usize, 1usize)],
        graph@[2]@ == seq![(3usize, 1usize), (6usize, 1usize)],
        graph@[3]@ == seq![(7usize, 1usize)],
        graph@[4]@ == seq![(5usize, 1usize), (8usize, 1usize)],
        graph@[5]@ == seq![(6usize, 1usize), (9usize, 1usize), (10usize, 1usize)],
        graph@[6]@ == seq![(10usize, 1usize), (7usize, 1usize)],
        graph@[7]@ == seq![(11usize, 1usize)],
        graph@[8]@ == seq![(9usize, 1usize), (12usize, 1usize)],
        graph@[9]@ == seq![(10usize, 1usize), (13usize, 1usize), (15usize, 1usize)],
        graph@[10]@ == seq![(11usize, 1usize), (14usize, 1usize)],
        graph@[11]@ == seq![(15usize, 1usize)],
        graph@[12]@ == seq![(13usize, 1usize)],
        graph@[13]@ == seq![(14usize, 1usize)],
        graph@[14]@ == seq![(15usize, 1usize)],
        graph@[15]@ == Seq::<(usize, usize)>::empty(),
{
    let w: usize = 1;
    let mut graph: Graph = Vec::new();

    graph.push(vec![(1, w), (4, w), (5, w)]);
    graph.push(vec![(2, w), (5, w)]);
    graph.push(vec![(3, w), (6, w)]);
    graph.push(vec![(7, w)]);
    graph.push(vec![(5, w), (8, w)]);
    graph.push(vec![(6, w), (9, w), (10, w)]);
    graph.push(vec![(10, w), (7, w)]);
    graph.push(vec![(11, w)]);
    graph.push(vec![(9, w), (12, w)]);
    graph.push(vec![(10, w), (13, w), (15, w)]);
    graph.push(vec![(11, w), (14, w)]);
    graph.push(vec![(15, w)]);
    graph.push(vec![(13, w)]);
    graph.push(vec![(14, w)]);
    graph.push(vec![(15, w)]);
    graph.push(Vec::new());

    proof {
        assert(graph@[0]@ =~= seq![(1usize, 1usize), (4usize, 1usize), (5usize, 1usize)]);
        assert(graph@[1]@ =~= seq![(2usize, 1usize), (5usize, 1usize)]);
        assert(graph@[2]@ =~= seq![(3usize, 1usize), (6usize, 1usize)]);
        assert(graph@[3]@ =~= seq![(7usize, 1usize)]);
        assert(graph@[4]@ =~= seq![(5usize, 1usize), (8usize, 1usize)]);
        assert(graph@[5]@ =~= seq![(6usize, 1usize), (9usize, 1usize), (10usize, 1usize)]);
        assert(graph@[6]@ =~= seq![(10usize, 1usize), (7usize, 1usize)]);
        assert(graph@[7]@ =~= seq![(11usize, 1usize)]);
        assert(graph@[8]@ =~= seq![(9usize, 1usize), (12usize, 1usize)]);
        assert(graph@[9]@ =~= seq![(10usize, 1usize), (13usize, 1usize), (15usize, 1usize)]);
        assert(graph@[10]@ =~= seq![(11usize, 1usize), (14usize, 1usize)]);
        assert(graph@[11]@ =~= seq![(15usize, 1usize)]);
        assert(graph@[12]@ =~= seq![(13usize, 1usize)]);
        assert(graph@[13]@ =~= seq![(14usize, 1usize)]);
        assert(graph@[14]@ =~= seq![(15usize, 1usize)]);
        assert(graph@[15]@ =~= Seq::<(usize, usize)>::empty());
    }

    graph
}

} // verus!
