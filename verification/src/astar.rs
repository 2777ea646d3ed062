//! A* grid search with a Manhattan-distance heuristic.  The open set
//! is relaxed like Dijkstra's algorithm with an added heuristic bias;
//! the parent links the search records always chain back to the
//! start, so a returned path is proved to begin at the start, end at
//! the goal, and move one valid grid cell at a time.

use vstd::prelude::*;

verus! {

use core::cmp::Ordering;

/// A cell of the grid.
#[derive(Debug, Clone, Copy, PartialEq, Eq, Hash, Structural)]
pub struct Position {
    pub x: i32,
    pub y: i32,
}

/// The absolute value.
pub open spec fn abs_int(a: int) -> int {
    if a < 0 {
        -a
    } else {
        a
    }
}

impl Position {
    /// Builds the position `(x, y)`.
    pub fn new(x: i32, y: i32) -> (p: Position)
        ensures
            p.x == x && p.y == y,
    {
        Position { x, y }
    }

    /// The Manhattan distance: the sum of the absolute coordinate
    /// differences.
    pub fn manhattan_distance(&self, other: &Position) -> (d: usize)
        requires
            i32::MIN < self.x - other.x <= i32::MAX,
            i32::MIN < self.y - other.y <= i32::MAX,
            abs_int(self.x - other.x) + abs_int(self.y - other.y) <= i32::MAX,
        ensures
            d == abs_int(self.x - other.x) + abs_int(self.y - other.y),
    {
        let dx = self.x - other.x;
        let dy = self.y - other.y;
        let adx = if dx < 0 {
            -dx
        } else {
            dx
        };
        let ady = if dy < 0 {
            -dy
        } else {
            dy
        };
        (adx + ady) as usize
    }
}

/// A frontier entry: the estimated total cost, the exact cost so far,
/// and the cell it scores.
#[derive(Debug, Clone, Copy, PartialEq, Eq, Structural)]
pub struct State {
    pub f_cost: i32,
    pub g_cost: i32,
    pub position: Position,
}

impl State {
    /// The frontier ordering: a smaller estimated total is the
    /// greater entry, so a max-heap pops it first; ties prefer the
    /// smaller exact cost.
    pub open spec fn spec_cmp(self, other: Self) -> Ordering {
        if other.f_cost < self.f_cost {
            Ordering::Less
        } else if other.f_cost > self.f_cost {
            Ordering::Greater
        } else if other.g_cost < self.g_cost {
            Ordering::Less
        } else if other.g_cost > self.g_cost {
            Ordering::Greater
        } else {
            Ordering::Equal
        }
    }

    /// Orders frontier entries, cheapest estimate first.
    pub fn cmp(&self, other: &Self) -> (r: Ordering)
        ensures
            r == self.spec_cmp(*other),
    {
        if other.f_cost < self.f_cost {
            Ordering::Less
        } else if other.f_cost > self.f_cost {
            Ordering::Greater
        } else if other.g_cost < self.g_cost {
            Ordering::Less
        } else if other.g_cost > self.g_cost {
            Ordering::Greater
        } else {
            Ordering::Equal
        }
    }

    /// The same ordering, always defined.
    pub fn partial_cmp(&self, other: &Self) -> (r: Option<Ordering>)
        ensures
            r == Some(self.spec_cmp(*other)),
    {
        Some(self.cmp(other))
    }
}

/// A rectangular grid with blocked cells.
#[derive(Debug)]
pub struct Grid {
    pub width: i32,
    pub height: i32,
    pub obstacles: Vec<Position>,
}

impl Grid {
    /// Whether `pos` is marked as an obstacle.
    pub open spec fn spec_has_obstacle(self, pos: Position) -> bool {
        self.obstacles@.contains(pos)
    }

    /// Whether `pos` lies on the grid and is not blocked.
    pub open spec fn spec_is_valid(self, pos: Position) -> bool {
        0 <= pos.x < self.width && 0 <= pos.y < self.height && !self.spec_has_obstacle(pos)
    }

    /// An empty grid of the given dimensions.
    pub fn new(width: i32, height: i32) -> (g: Grid)
        ensures
            g.width == width,
            g.height == height,
            g.obstacles@.len() == 0,
    {
        Grid { width, height, obstacles: Vec::new() }
    }

    /// Blocks the cell `pos`.
    pub fn add_obstacle(&mut self, pos: Position)
        ensures
            final(self).width == old(self).width,
            final(self).height == old(self).height,
            forall|p: Position|
                final(self).spec_has_obstacle(p) <==> old(self).spec_has_obstacle(p) || p == pos,
    {
        let ghost before = self.obstacles@;
        self.obstacles.push(pos);
        proof {
            assert forall|p: Position|
                final(self).spec_has_obstacle(p) <==> before.contains(p) || p == pos by {
                if self.obstacles@.contains(p) {
                    let w = choose|w: int| 0 <= w < self.obstacles@.len() && self.obstacles@[w] == p;
                    if w < before.len() {
                        assert(before[w] == p);
                    }
                }
                if before.contains(p) {
                    let w = choose|w: int| 0 <= w < before.len() && before[w] == p;
                    assert(self.obstacles@[w] == p);
                }
                if p == pos {
                    assert(self.obstacles@.last() == pos);
                }
            }
        }
    }

    /// Whether `pos` lies on the grid and is not blocked.
    pub fn is_valid(&self, pos: &Position) -> (r: bool)
        ensures
            r == self.spec_is_valid(*pos),
    {
        if !(pos.x >= 0 && pos.x < self.width && pos.y >= 0 && pos.y < self.height) {
            return false;
        }

        let mut i: usize = 0;
        while i < self.obstacles.len()
            invariant
                i <= self.obstacles@.len(),
                forall|k: int| 0 <= k < i ==> self.obstacles@[k] != *pos,
            decreases self.obstacles@.len() - i,
        {
            if self.obstacles[i].x == pos.x && self.obstacles[i].y == pos.y {
                return false;
            }
            i += 1;
        }

        true
    }
}

/// The valid neighbors of `pos`, in the fixed order down, right, up,
/// left, each one step of cost 1 away.
pub open spec fn spec_neighbors(g: Grid, pos: Position) -> Seq<(Position, usize)> {
    let down = Position { x: pos.x, y: (pos.y + 1) as i32 };
    let right = Position { x: (pos.x + 1) as i32, y: pos.y };
    let up = Position { x: pos.x, y: (pos.y - 1) as i32 };
    let left = Position { x: (pos.x - 1) as i32, y: pos.y };
    (if g.spec_is_valid(down) {
        seq![(down, 1usize)]
    } else {
        Seq::empty()
    }) + (if g.spec_is_valid(right) {
        seq![(right, 1usize)]
    } else {
        Seq::empty()
    }) + (if g.spec_is_valid(up) {
        seq![(up, 1usize)]
    } else {
        Seq::empty()
    }) + (if g.spec_is_valid(left) {
        seq![(left, 1usize)]
    } else {
        Seq::empty()
    })
}

impl Grid {
    /// The valid neighbors of `pos` with their unit step costs.
    pub fn get_neighbors(&self, pos: &Position) -> (r: Vec<(Position, usize)>)
        requires
            i32::MIN < pos.x - 1 && pos.x + 1 <= i32::MAX,
            i32::MIN < pos.y - 1 && pos.y + 1 <= i32::MAX,
        ensures
            r@ == spec_neighbors(*self, *pos),
            forall|k: int|
                0 <= k < r@.len() ==> self.spec_is_valid((#[trigger] r@[k]).0) && r@[k].1 == 1,
    {
        let mut r: Vec<(Position, usize)> = Vec::new();

        let down = Position { x: pos.x, y: pos.y + 1 };
        let right = Position { x: pos.x + 1, y: pos.y };
        let up = Position { x: pos.x, y: pos.y - 1 };
        let left = Position { x: pos.x - 1, y: pos.y };

        if self.is_valid(&down) {
            r.push((down, 1));
        }
        if self.is_valid(&right) {
            r.push((right, 1));
        }
        if self.is_valid(&up) {
            r.push((up, 1));
        }
        if self.is_valid(&left) {
            r.push((left, 1));
        }

        proof {
            assert(r@ =~= spec_neighbors(*self, *pos));
        }

        r
    }
}

/// The first parent recorded for `child`, if any.
pub open spec fn parent_of(m: Seq<(Position, Position)>, child: Position) -> Option<Position>
    decreases m.len(),
{
    if m.len() == 0 {
        None
    } else if m[0].0 == child {
        Some(m[0].1)
    } else {
        parent_of(m.drop_first(), child)
    }
}

/// Following parent links from `p` reaches `start` within `k` steps.
pub open spec fn chain_reaches(
    m: Seq<(Position, Position)>,
    start: Position,
    p: Position,
    k: nat,
) -> bool
    decreases k,
{
    if p == start {
        true
    } else if k == 0 {
        false
    } else {
        parent_of(m, p) matches Some(q) && chain_reaches(m, start, q, (k - 1) as nat)
    }
}

/// Looks `child` up in the parent table.
fn find_parent(m: &Vec<(Position, Position)>, child: &Position) -> (r: Option<Position>)
    ensures
        r == parent_of(m@, *child),
{
    proof {
        assert(m@.skip(0) =~= m@);
    }
    let mut i: usize = 0;
    while i < m.len()
        invariant
            i <= m@.len(),
            parent_of(m@, *child) == parent_of(m@.skip(i as int), *child),
        decreases m@.len() - i,
    {
        proof {
            assert(m@.skip(i as int)[0] == m@[i as int]);
            assert(m@.skip(i as int).drop_first() =~= m@.skip(i as int + 1));
        }
        if m[i].0.x == child.x && m[i].0.y == child.y {
            proof {
                assert(m@[i as int].0 == *child);
            }
            return Some(m[i].1);
        }
        i += 1;
    }
    None
}

/// Walks the recorded parents from `goal` back to `start` and
/// reverses the walk: the result starts at `start`, ends at `goal`,
/// and each step follows one recorded parent link backwards.
pub fn reconstruct_path(
    came_from: &Vec<(Position, Position)>,
    start: Position,
    goal: Position,
) -> (path: Vec<Position>)
    requires
        exists|k: nat| chain_reaches(came_from@, start, goal, k),
    ensures
        path@.len() >= 1,
        path@.first() == start,
        path@.last() == goal,
        start == goal ==> path@ == seq![start],
        forall|i: int|
            0 < i < path@.len() ==> parent_of(came_from@, #[trigger] path@[i]) == Some(
                path@[i - 1],
            ),
{
    let mut path: Vec<Position> = Vec::new();
    let mut current = goal;
    let ghost mut fuel = choose|k: nat| chain_reaches(came_from@, start, goal, k);

    while !(current.x == start.x && current.y == start.y)
        invariant
            chain_reaches(came_from@, start, current, fuel),
            path@.len() == 0 ==> current == goal,
            path@.len() > 0 ==> path@[0] == goal,
            forall|i: int| 0 <= i < path@.len() ==> #[trigger] path@[i] != start,
            forall|i: int|
                0 <= i < path@.len() - 1 ==> parent_of(came_from@, #[trigger] path@[i]) == Some(
                    path@[i + 1],
                ),
            path@.len() > 0 ==> parent_of(came_from@, path@[path@.len() - 1]) == Some(current),
        decreases fuel,
    {
        proof {
            assert(current != start);
        }
        path.push(current);
        let next = match find_parent(came_from, &current) {
            Some(p) => p,
            None => {
                return path;
            },
        };
        proof {
            fuel = (fuel - 1) as nat;
        }
        current = next;
    }

    proof {
        assert(current == start);
    }
    path.push(current);

    let collected = path;
    let n = collected.len();
    let mut reversed: Vec<Position> = Vec::new();
    let mut t = n;
    while t > 0
        invariant
            t <= n,
            n == collected@.len(),
            reversed@.len() == n - t,
            forall|i: int| 0 <= i < reversed@.len() ==> reversed@[i] == collected@[n - 1 - i],
        decreases t,
    {
        t -= 1;
        reversed.push(collected[t]);
    }

    proof {
        assert(reversed@[0] == collected@[n - 1]);
        assert(reversed@[n - 1] == collected@[0]);
        if start == goal {
            assert(reversed@ =~= seq![start]);
        }
        assert forall|i: int|
            0 < i < reversed@.len() implies parent_of(came_from@, #[trigger] reversed@[i]) == Some(
            reversed@[i - 1],
        ) by {
            assert(reversed@[i] == collected@[n - 1 - i]);
            assert(reversed@[i - 1] == collected@[n - 1 - (i - 1)]);
            assert(parent_of(came_from@, collected@[n - 1 - i]) == Some(
                collected@[n - 1 - i + 1],
            ));
        }
    }

    reversed
}

/// The grid has positive dimensions and fits the index arithmetic.
pub open spec fn grid_wf(g: Grid) -> bool {
    0 < g.width && 0 < g.height && g.width * g.height < i32::MAX
}

/// `p` lies on the grid (obstacle or not).
pub open spec fn in_grid(g: Grid, p: Position) -> bool {
    0 <= p.x < g.width && 0 <= p.y < g.height
}

/// The row-major cell number of `p`.
pub open spec fn idx(g: Grid, p: Position) -> int {
    p.y * g.width + p.x
}

proof fn lemma_idx_bounds(g: Grid, p: Position)
    requires
        grid_wf(g),
        in_grid(g, p),
    ensures
        0 <= idx(g, p) < g.width * g.height,
{
    assert(0 <= p.y * g.width + p.x < g.width * g.height) by (nonlinear_arith)
        requires
            0 <= p.x < g.width,
            0 <= p.y < g.height,
    ;
}

proof fn lemma_idx_injective(g: Grid, p: Position, q: Position)
    requires
        grid_wf(g),
        in_grid(g, p),
        in_grid(g, q),
        idx(g, p) == idx(g, q),
    ensures
        p == q,
{
    assert(p.x == q.x && p.y == q.y) by (nonlinear_arith)
        requires
            0 <= p.x < g.width,
            0 <= p.y < g.height,
            0 <= q.x < g.width,
            0 <= q.y < g.height,
            p.y * g.width + p.x == q.y * g.width + q.x,
    ;
}

/// The row-major cell number of `p`.
fn cell_index(grid: &Grid, p: &Position) -> (r: usize)
    requires
        grid_wf(*grid),
        in_grid(*grid, *p),
    ensures
        r == idx(*grid, *p),
        r < grid.width * grid.height,
{
    proof {
        lemma_idx_bounds(*grid, *p);
    }
    (p.y as usize) * (grid.width as usize) + (p.x as usize)
}

/// `b` is one grid step (up, down, left or right) away from `a`.
pub open spec fn is_step(a: Position, b: Position) -> bool {
    abs_int(b.x - a.x) + abs_int(b.y - a.y) == 1
}

/// `p` has a recorded parent.
pub open spec fn is_key(m: Seq<(Position, Position)>, p: Position) -> bool {
    exists|j: int| 0 <= j < m.len() && (#[trigger] m[j]).0 == p
}

/// The parent table is coherent with the cost and closed tables:
/// parents are recorded once per cell, are themselves expanded
/// (closed) cells whose recorded cost is exactly one less, and lead
/// to cells that have parents of their own or are the start.
#[verifier::opaque]
pub open spec fn map_inv(
    g: Grid,
    start: Position,
    m: Seq<(Position, Position)>,
    gc: Seq<i32>,
    closed: Seq<bool>,
) -> bool {
    &&& forall|k1: int, k2: int| #![trigger m[k1], m[k2]]
        0 <= k1 < k2 < m.len() ==> m[k1].0 != m[k2].0
    &&& forall|k: int|
        0 <= k < m.len() ==> {
            let c = (#[trigger] m[k]).0;
            let p = m[k].1;
            &&& in_grid(g, c)
            &&& in_grid(g, p)
            &&& g.spec_is_valid(c)
            &&& is_step(p, c)
            &&& closed[idx(g, p)]
            &&& gc[idx(g, c)] == gc[idx(g, p)] + 1
            &&& gc[idx(g, c)] < i32::MAX
            &&& (p == start || is_key(m, p))
        }
}

/// A walk of unit steps from `start` to `goal` whose cells after the
/// first are all on the grid and unblocked.
pub open spec fn is_route(g: Grid, p: Seq<Position>, start: Position, goal: Position) -> bool {
    &&& p.len() >= 1
    &&& p.first() == start
    &&& p.last() == goal
    &&& forall|i: int|
        0 < i < p.len() ==> g.spec_is_valid(#[trigger] p[i]) && is_step(p[i - 1], p[i])
}

/// How many cells have been expanded.
pub open spec fn count_true(s: Seq<bool>) -> int
    decreases s.len(),
{
    if s.len() == 0 {
        0
    } else {
        count_true(s.drop_last()) + if s.last() {
            1int
        } else {
            0int
        }
    }
}

proof fn lemma_count_true_bounds(s: Seq<bool>)
    ensures
        0 <= count_true(s) <= s.len(),
    decreases s.len(),
{
    if s.len() > 0 {
        lemma_count_true_bounds(s.drop_last());
    }
}

proof fn lemma_count_true_zero(s: Seq<bool>)
    requires
        forall|i: int| 0 <= i < s.len() ==> !(#[trigger] s[i]),
    ensures
        count_true(s) == 0,
    decreases s.len(),
{
    if s.len() > 0 {
        lemma_count_true_zero(s.drop_last());
    }
}

proof fn lemma_count_true_set(s: Seq<bool>, v: int)
    requires
        0 <= v < s.len(),
        !s[v],
    ensures
        count_true(s.update(v, true)) == count_true(s) + 1,
    decreases s.len(),
{
    let updated = s.update(v, true);
    if v == s.len() - 1 {
        assert(updated.drop_last() =~= s.drop_last());
    } else {
        assert(updated.drop_last() =~= s.drop_last().update(v, true));
        assert(updated.last() == s.last());
        lemma_count_true_set(s.drop_last(), v);
    }
}

proof fn lemma_parent_of_key(m: Seq<(Position, Position)>, j: int)
    requires
        0 <= j < m.len(),
        forall|k1: int, k2: int| #![trigger m[k1], m[k2]]
            0 <= k1 < k2 < m.len() ==> m[k1].0 != m[k2].0,
    ensures
        parent_of(m, m[j].0) == Some(m[j].1),
    decreases m.len(),
{
    if j > 0 {
        assert(m[0].0 != m[j].0);
        assert(m.drop_first()[j - 1] == m[j]);
        lemma_parent_of_key(m.drop_first(), j - 1);
    }
}

/// Each listed neighbor is exactly one step from its cell.
proof fn lemma_neighbors_are_steps(g: Grid, pos: Position)
    requires
        grid_wf(g),
        in_grid(g, pos),
    ensures
        forall|k: int|
            0 <= k < spec_neighbors(g, pos).len() ==> is_step(
                pos,
                (#[trigger] spec_neighbors(g, pos)[k]).0,
            ),
{
    assert(g.width <= i32::MAX && g.height <= i32::MAX) by (nonlinear_arith)
        requires
            0 < g.width,
            0 < g.height,
            g.width * g.height <= i32::MAX,
    ;
}

/// A looked-up parent is one of the recorded entries.
proof fn lemma_parent_is_entry(m: Seq<(Position, Position)>, c: Position)
    requires
        parent_of(m, c) is Some,
    ensures
        exists|k: int|
            0 <= k < m.len() && (#[trigger] m[k]).0 == c && Some(m[k].1) == parent_of(m, c),
    decreases m.len(),
{
    if m[0].0 == c {
        assert((#[trigger] m[0]).0 == c && Some(m[0].1) == parent_of(m, c));
    } else {
        lemma_parent_is_entry(m.drop_first(), c);
        let k = choose|k: int|
            0 <= k < m.drop_first().len() && (#[trigger] m.drop_first()[k]).0 == c && Some(
                m.drop_first()[k].1,
            ) == parent_of(m.drop_first(), c);
        assert((#[trigger] m[k + 1]).0 == c && Some(m[k + 1].1) == parent_of(m, c));
    }
}

/// Every cell with a recorded parent chains back to the start.
proof fn lemma_links_reach(
    g: Grid,
    start: Position,
    m: Seq<(Position, Position)>,
    gc: Seq<i32>,
    closed: Seq<bool>,
    p: Position,
)
    requires
        grid_wf(g),
        in_grid(g, start),
        gc.len() == g.width * g.height,
        map_inv(g, start, m, gc, closed),
        forall|i: int| 0 <= i < gc.len() ==> (#[trigger] gc[i]) >= 0,
        in_grid(g, p),
        p == start || is_key(m, p),
    ensures
        exists|k: nat| chain_reaches(m, start, p, k),
    decreases gc[idx(g, p)],
{
    reveal(map_inv);
    lemma_idx_bounds(g, p);
    if p == start {
        assert(chain_reaches(m, start, p, 0));
    } else {
        let j = choose|j: int| 0 <= j < m.len() && (#[trigger] m[j]).0 == p;
        let q = m[j].1;
        lemma_parent_of_key(m, j);
        lemma_idx_bounds(g, q);
        lemma_links_reach(g, start, m, gc, closed, q);
        let k = choose|k: nat| chain_reaches(m, start, q, k);
        assert(chain_reaches(m, start, p, k + 1));
    }
}

/// The total of the cost table, the measure every relaxation
/// strictly shrinks.
pub open spec fn sum_costs(s: Seq<i32>) -> int
    decreases s.len(),
{
    if s.len() == 0 {
        0
    } else {
        sum_costs(s.drop_last()) + s.last()
    }
}

proof fn lemma_sum_costs_nonneg(s: Seq<i32>)
    requires
        forall|i: int| 0 <= i < s.len() ==> (#[trigger] s[i]) >= 0,
    ensures
        sum_costs(s) >= 0,
    decreases s.len(),
{
    if s.len() > 0 {
        lemma_sum_costs_nonneg(s.drop_last());
    }
}

proof fn lemma_sum_costs_update(s: Seq<i32>, v: int, val: i32)
    requires
        0 <= v < s.len(),
    ensures
        sum_costs(s.update(v, val)) == sum_costs(s) - s[v] + val,
    decreases s.len(),
{
    let updated = s.update(v, val);
    if v == s.len() - 1 {
        assert(updated.drop_last() =~= s.drop_last());
    } else {
        assert(updated.drop_last() =~= s.drop_last().update(v, val));
        assert(updated.last() == s.last());
        lemma_sum_costs_update(s.drop_last(), v, val);
    }
}

/// The frontier is coherent: every queued cell lies on the grid, is
/// the start or has a recorded parent, and is queued at no less than
/// its recorded cost; entries for the goal carry a zero heuristic,
/// so their estimate equals their exact cost.
#[verifier::opaque]
pub open spec fn open_inv(
    g: Grid,
    start: Position,
    goal: Position,
    m: Seq<(Position, Position)>,
    gc: Seq<i32>,
    open: Seq<State>,
) -> bool {
    forall|e: int|
        0 <= e < open.len() ==> {
            let s = #[trigger] open[e];
            &&& in_grid(g, s.position)
            &&& (s.position == start || is_key(m, s.position))
            &&& gc[idx(g, s.position)] <= s.g_cost
            &&& 0 <= s.g_cost < i32::MAX
            &&& (s.position == goal ==> s.f_cost == s.g_cost)
        }
}

/// Every cell recorded at a finite cost is either already expanded or
/// still queued at exactly that cost.
#[verifier::opaque]
pub open spec fn frontier_complete(
    g: Grid,
    gc: Seq<i32>,
    closed: Seq<bool>,
    open: Seq<State>,
) -> bool {
    forall|i: int|
        0 <= i < gc.len() && #[trigger] gc[i] != i32::MAX ==> closed[i] || exists|e: int|
            0 <= e < open.len() && idx(g, (#[trigger] open[e]).position) == i && open[e].g_cost
                == gc[i]
}

/// Every expanded cell has had all its neighbors recorded at finite
/// cost.
#[verifier::opaque]
pub open spec fn expansion_complete(g: Grid, gc: Seq<i32>, closed: Seq<bool>) -> bool {
    forall|c: Position| #![trigger closed[idx(g, c)], spec_neighbors(g, c)]
        in_grid(g, c) && closed[idx(g, c)] ==> forall|k: int|
            0 <= k < spec_neighbors(g, c).len() ==> gc[idx(
                g,
                (#[trigger] spec_neighbors(g, c)[k]).0,
            )] != i32::MAX
}

/// Removing one queue entry keeps a recorded-cost witness for every
/// cell the popped entry did not itself witness.
proof fn lemma_witnesses_survive_pop(
    g: Grid,
    gc: Seq<i32>,
    closed: Seq<bool>,
    pre: Seq<State>,
    post: Seq<State>,
    f0: int,
)
    requires
        0 <= f0 < pre.len(),
        post == pre.remove(f0),
        frontier_complete(g, gc, closed, pre),
    ensures
        forall|i: int|
            0 <= i < gc.len() && #[trigger] gc[i] != i32::MAX && !closed[i] && !(idx(
                g,
                pre[f0].position,
            ) == i && pre[f0].g_cost == gc[i]) ==> exists|e: int|
                0 <= e < post.len() && idx(g, (#[trigger] post[e]).position) == i && post[e].g_cost
                    == gc[i],
{
    reveal(frontier_complete);
    assert forall|i: int|
        0 <= i < gc.len() && #[trigger] gc[i] != i32::MAX && !closed[i] && !(idx(
            g,
            pre[f0].position,
        ) == i && pre[f0].g_cost == gc[i]) implies exists|e: int|
            0 <= e < post.len() && idx(g, (#[trigger] post[e]).position) == i && post[e].g_cost
                == gc[i] by {
        let e = choose|e: int|
            0 <= e < pre.len() && idx(g, (#[trigger] pre[e]).position) == i && pre[e].g_cost
                == gc[i];
        assert(e != f0);
        if e < f0 {
            assert(post[e] == pre[e]);
        } else {
            assert(post[e - 1] == pre[e]);
        }
    }
}

/// Popping an entry that is already expanded or stale keeps every
/// recorded cost witnessed.
proof fn lemma_frontier_after_pop(
    g: Grid,
    gc: Seq<i32>,
    closed: Seq<bool>,
    pre: Seq<State>,
    post: Seq<State>,
    f0: int,
)
    requires
        0 <= f0 < pre.len(),
        post == pre.remove(f0),
        frontier_complete(g, gc, closed, pre),
        closed.len() == gc.len(),
        0 <= idx(g, pre[f0].position) < gc.len(),
        closed[idx(g, pre[f0].position)] || pre[f0].g_cost != gc[idx(g, pre[f0].position)],
    ensures
        frontier_complete(g, gc, closed, post),
{
    reveal(frontier_complete);
    lemma_witnesses_survive_pop(g, gc, closed, pre, post, f0);
    assert forall|i: int|
        0 <= i < gc.len() && #[trigger] gc[i] != i32::MAX implies closed[i] || exists|e: int|
            0 <= e < post.len() && idx(g, (#[trigger] post[e]).position) == i && post[e].g_cost
                == gc[i] by {
        if !closed[i] && idx(g, pre[f0].position) == i {
            assert(pre[f0].g_cost != gc[i]);
        }
    }
}

/// Popping an entry and then expanding its cell keeps every recorded
/// cost witnessed: the popped cell is covered by being closed.
proof fn lemma_frontier_after_close(
    g: Grid,
    gc: Seq<i32>,
    closed0: Seq<bool>,
    closed1: Seq<bool>,
    pre: Seq<State>,
    post: Seq<State>,
    f0: int,
    pidx: int,
)
    requires
        0 <= f0 < pre.len(),
        post == pre.remove(f0),
        frontier_complete(g, gc, closed0, pre),
        closed0.len() == gc.len(),
        0 <= pidx < closed0.len(),
        closed1 == closed0.update(pidx, true),
        idx(g, pre[f0].position) == pidx,
    ensures
        frontier_complete(g, gc, closed1, post),
{
    reveal(frontier_complete);
    lemma_witnesses_survive_pop(g, gc, closed0, pre, post, f0);
    assert forall|i: int|
        0 <= i < gc.len() && #[trigger] gc[i] != i32::MAX implies closed1[i] || exists|e: int|
            0 <= e < post.len() && idx(g, (#[trigger] post[e]).position) == i && post[e].g_cost
                == gc[i] by {
        if !closed1[i] {
            assert(i != pidx);
            assert(!closed0[i]);
        }
    }
}

/// Relaxing one cell and queuing it at its new cost keeps every
/// recorded cost witnessed.
proof fn lemma_frontier_after_relax(
    g: Grid,
    old_gc: Seq<i32>,
    new_gc: Seq<i32>,
    closed: Seq<bool>,
    before: Seq<State>,
    after: Seq<State>,
    nidx: int,
    st: State,
)
    requires
        0 <= nidx < old_gc.len(),
        new_gc == old_gc.update(nidx, st.g_cost),
        after == before.push(st),
        idx(g, st.position) == nidx,
        frontier_complete(g, old_gc, closed, before),
    ensures
        frontier_complete(g, new_gc, closed, after),
{
    reveal(frontier_complete);
    assert forall|i: int|
        0 <= i < new_gc.len() && #[trigger] new_gc[i] != i32::MAX implies closed[i]
            || exists|e: int|
            0 <= e < after.len() && idx(g, (#[trigger] after[e]).position) == i && after[e].g_cost
                == new_gc[i] by {
        if !closed[i] {
            if i == nidx {
                assert(idx(g, (after[after.len() - 1]).position) == i);
            } else {
                let e = choose|e: int|
                    0 <= e < before.len() && idx(g, (#[trigger] before[e]).position) == i
                        && before[e].g_cost == old_gc[i];
                assert(after[e] == before[e]);
            }
        }
    }
}

/// Removing a queue entry preserves the frontier's coherence.
proof fn lemma_open_inv_after_pop(
    g: Grid,
    start: Position,
    goal: Position,
    m: Seq<(Position, Position)>,
    gc: Seq<i32>,
    pre: Seq<State>,
    post: Seq<State>,
    f0: int,
)
    requires
        0 <= f0 < pre.len(),
        post == pre.remove(f0),
        open_inv(g, start, goal, m, gc, pre),
    ensures
        open_inv(g, start, goal, m, gc, post),
{
    reveal(open_inv);
    assert forall|e: int| 0 <= e < post.len() implies {
        let t = #[trigger] post[e];
        &&& in_grid(g, t.position)
        &&& (t.position == start || is_key(m, t.position))
        &&& gc[idx(g, t.position)] <= t.g_cost
        &&& 0 <= t.g_cost < i32::MAX
        &&& (t.position == goal ==> t.f_cost == t.g_cost)
    } by {
        if e < f0 {
            assert(post[e] == pre[e]);
        } else {
            assert(post[e] == pre[e + 1]);
        }
    }
}

/// The entry popped for the goal carries the goal's exact recorded
/// cost: a fresh goal entry is still queued at that cost with a zero
/// heuristic, and the popped entry beats its estimate.
proof fn lemma_popped_goal_cost(
    g: Grid,
    start: Position,
    goal: Position,
    m: Seq<(Position, Position)>,
    gc: Seq<i32>,
    closed: Seq<bool>,
    pre: Seq<State>,
    f0: int,
)
    requires
        grid_wf(g),
        in_grid(g, goal),
        gc.len() == g.width * g.height,
        closed.len() == gc.len(),
        open_inv(g, start, goal, m, gc, pre),
        frontier_complete(g, gc, closed, pre),
        0 <= f0 < pre.len(),
        pre[f0].position == goal,
        !closed[idx(g, goal)],
        forall|e: int| 0 <= e < pre.len() ==> pre[f0].f_cost <= (#[trigger] pre[e]).f_cost,
    ensures
        pre[f0].g_cost == gc[idx(g, goal)],
{
    reveal(open_inv);
    reveal(frontier_complete);
    lemma_idx_bounds(g, goal);
    let gidx = idx(g, goal);
    assert(gc[gidx] <= pre[f0].g_cost < i32::MAX);
    let ef = choose|e: int|
        0 <= e < pre.len() && idx(g, (#[trigger] pre[e]).position) == gidx && pre[e].g_cost
            == gc[gidx];
    lemma_idx_injective(g, pre[ef].position, goal);
    assert(pre[ef].f_cost == pre[ef].g_cost);
    assert(pre[f0].f_cost <= pre[ef].f_cost);
    assert(pre[f0].f_cost == pre[f0].g_cost);
}

/// Expanding one more cell disturbs no recorded parent link.
proof fn lemma_map_inv_after_close(
    g: Grid,
    start: Position,
    m: Seq<(Position, Position)>,
    gc: Seq<i32>,
    closed0: Seq<bool>,
    closed1: Seq<bool>,
    pidx: int,
)
    requires
        grid_wf(g),
        closed0.len() == g.width * g.height,
        map_inv(g, start, m, gc, closed0),
        0 <= pidx < closed0.len(),
        closed1 == closed0.update(pidx, true),
    ensures
        map_inv(g, start, m, gc, closed1),
{
    reveal(map_inv);
    assert forall|k: int| 0 <= k < m.len() implies closed1[idx(
        g,
        (#[trigger] m[k]).1,
    )] by {
        lemma_idx_bounds(g, m[k].1);
        assert(closed0[idx(g, m[k].1)]);
    }
}

/// Cells expanded before the current one keep their neighbors'
/// finite costs through a relaxation.
proof fn lemma_finite_stays(old_gc: Seq<i32>, new_gc: Seq<i32>, nidx: int, tentative: i32)
    requires
        0 <= nidx < old_gc.len(),
        new_gc == old_gc.update(nidx, tentative),
        tentative != i32::MAX,
    ensures
        forall|j: int|
            0 <= j < new_gc.len() && old_gc[j] != i32::MAX ==> (#[trigger] new_gc[j]) != i32::MAX,
        new_gc[nidx] != i32::MAX,
{
}

/// A relaxation to a finite cost preserves the finiteness of every
/// expanded cell's neighbors.
proof fn lemma_restricted_preserved(
    g: Grid,
    old_gc: Seq<i32>,
    new_gc: Seq<i32>,
    closed: Seq<bool>,
    pidx: int,
    nidx: int,
    tentative: i32,
)
    requires
        grid_wf(g),
        old_gc.len() == g.width * g.height,
        0 <= nidx < old_gc.len(),
        new_gc == old_gc.update(nidx, tentative),
        tentative != i32::MAX,
        forall|c: Position| #![trigger closed[idx(g, c)], spec_neighbors(g, c)]
            in_grid(g, c) && closed[idx(g, c)] && idx(g, c) != pidx ==> forall|nk: int|
                0 <= nk < spec_neighbors(g, c).len() ==> old_gc[idx(
                    g,
                    (#[trigger] spec_neighbors(g, c)[nk]).0,
                )] != i32::MAX,
    ensures
        forall|c: Position| #![trigger closed[idx(g, c)], spec_neighbors(g, c)]
            in_grid(g, c) && closed[idx(g, c)] && idx(g, c) != pidx ==> forall|nk: int|
                0 <= nk < spec_neighbors(g, c).len() ==> new_gc[idx(
                    g,
                    (#[trigger] spec_neighbors(g, c)[nk]).0,
                )] != i32::MAX,
{
    assert forall|c: Position| #![trigger closed[idx(g, c)], spec_neighbors(g, c)]
        in_grid(g, c) && closed[idx(g, c)] && idx(g, c) != pidx implies forall|nk: int|
            0 <= nk < spec_neighbors(g, c).len() ==> new_gc[idx(
                g,
                (#[trigger] spec_neighbors(g, c)[nk]).0,
            )] != i32::MAX by {
        assert forall|nk: int|
            0 <= nk < spec_neighbors(g, c).len() implies new_gc[idx(
                g,
                (#[trigger] spec_neighbors(g, c)[nk]).0,
            )] != i32::MAX by {
            let b = (spec_neighbors(g, c)[nk]).0;
            assert(g.spec_is_valid(b));
            lemma_idx_bounds(g, b);
            assert(old_gc[idx(g, b)] != i32::MAX);
        }
    }
}

/// A unit step to a valid cell is one of the listed neighbors.
proof fn lemma_step_in_neighbors(g: Grid, a: Position, b: Position)
    requires
        grid_wf(g),
        in_grid(g, a),
        is_step(a, b),
        g.spec_is_valid(b),
    ensures
        exists|k: int|
            0 <= k < spec_neighbors(g, a).len() && (#[trigger] spec_neighbors(g, a)[k]).0 == b,
{
    assert(g.width <= i32::MAX && g.height <= i32::MAX) by (nonlinear_arith)
        requires
            0 < g.width,
            0 < g.height,
            g.width * g.height < i32::MAX,
    ;
    let nb = spec_neighbors(g, a);
    let down = Position { x: a.x, y: (a.y + 1) as i32 };
    let right = Position { x: (a.x + 1) as i32, y: a.y };
    let up = Position { x: a.x, y: (a.y - 1) as i32 };
    let left = Position { x: (a.x - 1) as i32, y: a.y };
    if b == down {
        assert(nb[0] == (down, 1usize));
    } else if b == right {
        let pre = if g.spec_is_valid(down) {
            1int
        } else {
            0int
        };
        assert(nb[pre] == (right, 1usize));
    } else if b == up {
        let pre = (if g.spec_is_valid(down) {
            1int
        } else {
            0int
        }) + (if g.spec_is_valid(right) {
            1int
        } else {
            0int
        });
        assert(nb[pre] == (up, 1usize));
    } else {
        assert(b == left);
        let pre = (if g.spec_is_valid(down) {
            1int
        } else {
            0int
        }) + (if g.spec_is_valid(right) {
            1int
        } else {
            0int
        }) + (if g.spec_is_valid(up) {
            1int
        } else {
            0int
        });
        assert(nb[pre] == (left, 1usize));
    }
}

/// With the queue empty, every cell of a route is already expanded —
/// including, impossibly, the goal; routes therefore cannot exist.
proof fn lemma_route_closed(
    g: Grid,
    start: Position,
    goal: Position,
    gc: Seq<i32>,
    closed: Seq<bool>,
    open: Seq<State>,
    p: Seq<Position>,
    k: int,
)
    requires
        grid_wf(g),
        in_grid(g, start),
        gc.len() == g.width * g.height,
        closed.len() == g.width * g.height,
        open.len() == 0,
        gc[idx(g, start)] == 0,
        frontier_complete(g, gc, closed, open),
        expansion_complete(g, gc, closed),
        is_route(g, p, start, goal),
        0 <= k < p.len(),
    ensures
        in_grid(g, p[k]),
        closed[idx(g, p[k])],
    decreases k,
{
    reveal(frontier_complete);
    reveal(expansion_complete);
    if k == 0 {
        lemma_idx_bounds(g, start);
        assert(gc[idx(g, start)] != i32::MAX);
    } else {
        lemma_route_closed(g, start, goal, gc, closed, open, p, k - 1);
        assert(g.spec_is_valid(p[k]) && is_step(p[k - 1], p[k]));
        lemma_step_in_neighbors(g, p[k - 1], p[k]);
        let j = choose|j: int|
            0 <= j < spec_neighbors(g, p[k - 1]).len() && (#[trigger] spec_neighbors(
                g,
                p[k - 1],
            )[j]).0 == p[k];
        assert(gc[idx(g, p[k])] != i32::MAX);
        lemma_idx_bounds(g, p[k]);
    }
}

/// Along a reconstructed path the recorded costs count the steps.
proof fn lemma_path_costs(
    g: Grid,
    start: Position,
    m: Seq<(Position, Position)>,
    gc: Seq<i32>,
    closed: Seq<bool>,
    p: Seq<Position>,
    i: int,
)
    requires
        grid_wf(g),
        in_grid(g, start),
        gc.len() == g.width * g.height,
        map_inv(g, start, m, gc, closed),
        gc[idx(g, start)] == 0,
        p.len() >= 1,
        p.first() == start,
        forall|j: int| 0 < j < p.len() ==> parent_of(m, #[trigger] p[j]) == Some(p[j - 1]),
        0 <= i < p.len(),
    ensures
        in_grid(g, p[i]),
        gc[idx(g, p[i])] == i,
    decreases i,
{
    reveal(map_inv);
    if i == 0 {
    } else {
        lemma_path_costs(g, start, m, gc, closed, p, i - 1);
        lemma_parent_is_entry(m, p[i]);
        let k = choose|k: int|
            0 <= k < m.len() && (#[trigger] m[k]).0 == p[i] && Some(m[k].1) == parent_of(m, p[i]);
        assert(m[k].1 == p[i - 1]);
        assert(gc[idx(g, p[i])] == gc[idx(g, p[i - 1])] + 1);
    }
}

/// Removes and returns the frontier entry with the cheapest estimated
/// total (ties to the cheaper exact cost).
fn pop_best(open: &mut Vec<State>) -> (r: Option<State>)
    ensures
        old(open)@.len() == 0 ==> r is None && final(open)@ == old(open)@,
        old(open)@.len() > 0 ==> (r matches Some(s) && exists|f: int|
            {
                &&& 0 <= f < old(open)@.len()
                &&& old(open)@[f] == s
                &&& final(open)@ == old(open)@.remove(f)
            }),
        old(open)@.len() > 0 ==> (r matches Some(s) && forall|e: int|
            0 <= e < old(open)@.len() ==> s.f_cost <= (#[trigger] old(open)@[e]).f_cost),
{
    if open.is_empty() {
        return None;
    }

    let mut m: usize = 0;
    let mut j: usize = 1;
    while j < open.len()
        invariant
            m < j <= open@.len(),
            forall|e: int| 0 <= e < j ==> open@[m as int].f_cost <= (#[trigger] open@[e]).f_cost,
        decreases open@.len() - j,
    {
        let better = open[j].f_cost < open[m].f_cost || (open[j].f_cost == open[m].f_cost
            && open[j].g_cost < open[m].g_cost);
        if better {
            m = j;
        }
        j += 1;
    }

    let s = open.remove(m);
    proof {
        assert(old(open)@[m as int] == s);
    }
    Some(s)
}

/// Looks up the table entry recording a parent for `child`.
fn find_key_index(m: &Vec<(Position, Position)>, child: &Position) -> (r: Option<usize>)
    ensures
        r matches Some(j) ==> j < m@.len() && m@[j as int].0 == *child,
        r is None ==> !is_key(m@, *child),
{
    let mut i: usize = 0;
    while i < m.len()
        invariant
            i <= m@.len(),
            forall|k: int| 0 <= k < i ==> (#[trigger] m@[k]).0 != *child,
        decreases m@.len() - i,
    {
        if m[i].0.x == child.x && m[i].0.y == child.y {
            return Some(i);
        }
        i += 1;
    }
    None
}


/// One relaxation step — recording `position` as `neighbor`'s parent
/// and lowering `neighbor`'s cost — preserves the search invariants.
proof fn lemma_relax_keeps_inv(
    g: Grid,
    start: Position,
    goal: Position,
    old_m: Seq<(Position, Position)>,
    new_m: Seq<(Position, Position)>,
    old_gc: Seq<i32>,
    new_gc: Seq<i32>,
    closed: Seq<bool>,
    open: Seq<State>,
    position: Position,
    neighbor: Position,
    g_cost: i32,
    tentative: i32,
)
    requires
        grid_wf(g),
        in_grid(g, start),
        in_grid(g, position),
        in_grid(g, neighbor),
        g.spec_is_valid(neighbor),
        is_step(position, neighbor),
        old_gc.len() == g.width * g.height,
        closed.len() == g.width * g.height,
        new_gc == old_gc.update(idx(g, neighbor), tentative),
        map_inv(g, start, old_m, old_gc, closed),
        open_inv(g, start, goal, old_m, old_gc, open),
        forall|i: int| 0 <= i < old_gc.len() ==> (#[trigger] old_gc[i]) >= 0,
        old_gc[idx(g, start)] == 0,
        position == start || is_key(old_m, position),
        old_gc[idx(g, position)] == g_cost,
        closed[idx(g, position)],
        !closed[idx(g, neighbor)],
        0 <= g_cost < i32::MAX,
        tentative == g_cost + 1,
        tentative < old_gc[idx(g, neighbor)],
        tentative < i32::MAX,
        (exists|j: int|
            0 <= j < old_m.len() && (#[trigger] old_m[j]).0 == neighbor && new_m == old_m.update(
                j,
                (neighbor, position),
            )) || (!is_key(old_m, neighbor) && new_m == old_m.push((neighbor, position))),
    ensures
        map_inv(g, start, new_m, new_gc, closed),
        open_inv(g, start, goal, new_m, new_gc, open),
        forall|i: int| 0 <= i < new_gc.len() ==> (#[trigger] new_gc[i]) >= 0,
        new_gc[idx(g, start)] == 0,
        position == start || is_key(new_m, position),
        new_gc[idx(g, position)] == g_cost,
        is_key(new_m, neighbor),
        new_gc[idx(g, neighbor)] == tentative,
{
    reveal(map_inv);
    reveal(open_inv);
    lemma_idx_bounds(g, start);
    lemma_idx_bounds(g, position);
    lemma_idx_bounds(g, neighbor);
    let nidx = idx(g, neighbor);

    // the old keys keep their places and values, except that the
    // entry for `neighbor` now maps to `position`
    assert forall|k: int| 0 <= k < old_m.len() implies (#[trigger] new_m[k]).0 == old_m[k].0
        && (old_m[k].0 != neighbor ==> new_m[k] == old_m[k]) && (old_m[k].0 == neighbor
        ==> new_m[k] == (neighbor, position)) by {
        if !is_key(old_m, neighbor) {
            assert(new_m[k] == old_m[k]);
        } else {
            let j = choose|j: int|
                0 <= j < old_m.len() && (#[trigger] old_m[j]).0 == neighbor && new_m
                    == old_m.update(j, (neighbor, position));
            if k != j {
                assert(old_m[k].0 != neighbor);
            }
        }
    }
    assert(is_key(new_m, neighbor)) by {
        if is_key(old_m, neighbor) {
            let j = choose|j: int| 0 <= j < old_m.len() && (#[trigger] old_m[j]).0 == neighbor;
            assert(new_m[j].0 == neighbor);
        } else {
            assert(new_m[new_m.len() - 1].0 == neighbor);
        }
    }
    assert(new_m[new_m.len() - 1].0 == neighbor || new_m[new_m.len() - 1] == old_m[old_m.len()
        - 1]);

    // the start cell is never relaxed: its cost is already zero
    assert(nidx != idx(g, start));
    // neither is the expanded cell itself: it is closed, the relaxed
    // cell is not
    assert(nidx != idx(g, position));

    assert forall|k1: int, k2: int| #![trigger new_m[k1], new_m[k2]]
        0 <= k1 < k2 < new_m.len() implies new_m[k1].0 != new_m[k2].0 by {
        if k2 < old_m.len() {
            assert(new_m[k1].0 == old_m[k1].0 && new_m[k2].0 == old_m[k2].0);
        } else {
            assert(new_m[k1].0 == old_m[k1].0 && !is_key(old_m, neighbor));
        }
    }

    assert forall|q: Position|
        q == start || is_key(old_m, q) implies q == start || is_key(new_m, q) by {
        if q != start {
            let w = choose|w: int| 0 <= w < old_m.len() && (#[trigger] old_m[w]).0 == q;
            assert(new_m[w].0 == q);
        }
    }

    assert forall|k: int| 0 <= k < new_m.len() implies {
        let c = (#[trigger] new_m[k]).0;
        let p = new_m[k].1;
        &&& in_grid(g, c)
        &&& in_grid(g, p)
        &&& g.spec_is_valid(c)
        &&& is_step(p, c)
        &&& closed[idx(g, p)]
        &&& new_gc[idx(g, c)] == new_gc[idx(g, p)] + 1
        &&& new_gc[idx(g, c)] < i32::MAX
        &&& (p == start || is_key(new_m, p))
    } by {
        if k >= old_m.len() || old_m[k].0 == neighbor {
            assert(new_m[k] == (neighbor, position));
            assert(new_gc[nidx] == tentative);
            assert(idx(g, position) != nidx);
            assert(new_gc[idx(g, position)] == old_gc[idx(g, position)]);
            assert(g.spec_is_valid(neighbor) && is_step(position, neighbor));
        } else {
            assert(new_m[k] == old_m[k]);
            let c = old_m[k].0;
            let p = old_m[k].1;
            lemma_idx_bounds(g, c);
            lemma_idx_bounds(g, p);
            if idx(g, c) == nidx {
                lemma_idx_injective(g, c, neighbor);
                assert(old_m[k].0 == neighbor);
            }
            // the parent is an expanded cell, never the relaxed one
            assert(idx(g, p) != nidx);
            assert(new_gc[idx(g, c)] == old_gc[idx(g, c)]);
            assert(new_gc[idx(g, p)] == old_gc[idx(g, p)]);
        }
    }

    assert forall|t: int| 0 <= t < open.len() implies {
        let st = #[trigger] open[t];
        &&& in_grid(g, st.position)
        &&& (st.position == start || is_key(new_m, st.position))
        &&& new_gc[idx(g, st.position)] <= st.g_cost
        &&& 0 <= st.g_cost < i32::MAX
        &&& (st.position == goal ==> st.f_cost == st.g_cost)
    } by {
        let st = open[t];
        lemma_idx_bounds(g, st.position);
        assert(new_gc[idx(g, st.position)] <= old_gc[idx(g, st.position)]);
    }
}

/// The frontier search behind `astar`, over endpoints that have
/// slots in the integer-cell tables.
#[verifier::rlimit(100)]
fn astar_search(grid: &Grid, start: Position, goal: Position) -> (r: Option<(Vec<Position>, i32)>)
    requires
        grid_wf(*grid),
        in_grid(*grid, start),
        in_grid(*grid, goal),
    ensures
        r matches Some(pc) ==> {
            &&& pc.0@.len() >= 1
            &&& pc.0@.first() == start
            &&& pc.0@.last() == goal
            &&& pc.1 as int == pc.0@.len() - 1
            &&& forall|i: int|
                0 < i < pc.0@.len() ==> grid.spec_is_valid(#[trigger] pc.0@[i]) && is_step(
                    pc.0@[i - 1],
                    pc.0@[i],
                )
        },
        r is None ==> forall|p: Seq<Position>| !is_route(*grid, p, start, goal),
{
    proof {
        assert((grid.width - 1) + (grid.height - 1) <= i32::MAX) by (nonlinear_arith)
            requires
                0 < grid.width,
                0 < grid.height,
                grid.width * grid.height < i32::MAX,
        ;
    }

    let wh = (grid.width as usize) * (grid.height as usize);

    let mut g_costs: Vec<i32> = Vec::new();
    let mut k: usize = 0;
    while k < wh
        invariant
            k <= wh,
            g_costs@.len() == k,
            forall|i: int| 0 <= i < k ==> (#[trigger] g_costs@[i]) == i32::MAX,
        decreases wh - k,
    {
        g_costs.push(i32::MAX);
        k += 1;
    }

    let mut closed: Vec<bool> = Vec::new();
    let mut k2: usize = 0;
    while k2 < wh
        invariant
            k2 <= wh,
            closed@.len() == k2,
            forall|i: int| 0 <= i < k2 ==> !(#[trigger] closed@[i]),
        decreases wh - k2,
    {
        closed.push(false);
        k2 += 1;
    }

    let sidx = cell_index(grid, &start);
    g_costs.set(sidx, 0);

    let mut came_from: Vec<(Position, Position)> = Vec::new();

    let h_start = start.manhattan_distance(&goal);

    let mut open_set: Vec<State> = Vec::new();
    open_set.push(State { f_cost: h_start as i32, g_cost: 0, position: start });

    proof {
        reveal(frontier_complete);
        reveal(expansion_complete);
        reveal(map_inv);
        reveal(open_inv);
        lemma_count_true_zero(closed@);
        lemma_idx_bounds(*grid, goal);
        if start == goal {
            assert(h_start == 0);
        }
        assert forall|i: int|
            0 <= i < g_costs@.len() && #[trigger] g_costs@[i] != i32::MAX implies closed@[i]
                || exists|e: int|
                0 <= e < open_set@.len() && idx(*grid, (#[trigger] open_set@[e]).position) == i
                    && open_set@[e].g_cost == g_costs@[i] by {
            assert(i == sidx as int);
            assert(idx(*grid, (open_set@[0]).position) == i && open_set@[0].g_cost == g_costs@[i]);
        }
        assert forall|c: Position| #![trigger closed@[idx(*grid, c)], spec_neighbors(*grid, c)]
            in_grid(*grid, c) && closed@[idx(*grid, c)] implies forall|nk: int|
            0 <= nk < spec_neighbors(*grid, c).len() ==> g_costs@[idx(
                *grid,
                (#[trigger] spec_neighbors(*grid, c)[nk]).0,
            )] != i32::MAX by {
            lemma_idx_bounds(*grid, c);
        }
        assert(frontier_complete(*grid, g_costs@, closed@, open_set@));
        assert(expansion_complete(*grid, g_costs@, closed@));
        assert(map_inv(*grid, start, came_from@, g_costs@, closed@));
        assert(open_inv(*grid, start, goal, came_from@, g_costs@, open_set@));
    }

    loop
        invariant
            grid_wf(*grid),
            in_grid(*grid, start),
            in_grid(*grid, goal),
            (grid.width - 1) + (grid.height - 1) <= i32::MAX,
            wh == grid.width * grid.height,
            g_costs@.len() == wh,
            closed@.len() == wh,
            forall|i: int| 0 <= i < wh ==> (#[trigger] g_costs@[i]) >= 0,
            forall|i: int|
                0 <= i < wh ==> (#[trigger] g_costs@[i]) == i32::MAX || g_costs@[i] <= count_true(
                    closed@,
                ),
            forall|i: int| 0 <= i < wh && #[trigger] closed@[i] ==> g_costs@[i] != i32::MAX,
            g_costs@[idx(*grid, start)] == 0,
            !closed@[idx(*grid, goal)],
            map_inv(*grid, start, came_from@, g_costs@, closed@),
            open_inv(*grid, start, goal, came_from@, g_costs@, open_set@),
            frontier_complete(*grid, g_costs@, closed@, open_set@),
            expansion_complete(*grid, g_costs@, closed@),
        ensures
            open_set@.len() == 0,
            g_costs@.len() == wh,
            closed@.len() == wh,
            g_costs@[idx(*grid, start)] == 0,
            !closed@[idx(*grid, goal)],
            frontier_complete(*grid, g_costs@, closed@, open_set@),
            expansion_complete(*grid, g_costs@, closed@),
        decreases sum_costs(g_costs@), open_set@.len(),
    {
        proof {
            lemma_sum_costs_nonneg(g_costs@);
            lemma_count_true_bounds(closed@);
        }
        let ghost pre_open = open_set@;
        let ghost s0 = sum_costs(g_costs@);

        let popped = pop_best(&mut open_set);
        let s = match popped {
            Some(s) => s,
            None => {
                break ;
            },
        };
        let g_cost = s.g_cost;
        let position = s.position;

        let ghost f0 = choose|f: int|
            0 <= f < pre_open.len() && pre_open[f] == s && open_set@ == pre_open.remove(f);

        proof {
            assert(pre_open[f0] == s);
            lemma_open_inv_after_pop(
                *grid,
                start,
                goal,
                came_from@,
                g_costs@,
                pre_open,
                open_set@,
                f0,
            );
            reveal(open_inv);
            assert(in_grid(*grid, position));
            assert(position == start || is_key(came_from@, position));
            assert(g_costs@[idx(*grid, position)] <= g_cost);
            assert(0 <= g_cost < i32::MAX);
        }

        if position.x == goal.x && position.y == goal.y {
            proof {
                assert(position == goal);
                lemma_popped_goal_cost(
                    *grid,
                    start,
                    goal,
                    came_from@,
                    g_costs@,
                    closed@,
                    pre_open,
                    f0,
                );
                assert(g_cost == g_costs@[idx(*grid, goal)]);
                lemma_links_reach(*grid, start, came_from@, g_costs@, closed@, position);
            }
            let path = reconstruct_path(&came_from, start, goal);
            proof {
                reveal(map_inv);
                assert forall|i: int|
                    0 < i < path@.len() implies grid.spec_is_valid(#[trigger] path@[i]) && is_step(
                    path@[i - 1],
                    path@[i],
                ) by {
                    lemma_parent_is_entry(came_from@, path@[i]);
                }
                lemma_path_costs(
                    *grid,
                    start,
                    came_from@,
                    g_costs@,
                    closed@,
                    path@,
                    path@.len() - 1,
                );
            }
            return Some((path, g_cost));
        }

        let pidx = cell_index(grid, &position);

        if closed[pidx] {
            proof {
                lemma_frontier_after_pop(*grid, g_costs@, closed@, pre_open, open_set@, f0);
            }
            continue ;
        }

        if g_cost > g_costs[pidx] {
            proof {
                lemma_frontier_after_pop(*grid, g_costs@, closed@, pre_open, open_set@, f0);
            }
            continue ;
        }

        proof {
            assert(g_cost == g_costs@[pidx as int]);
        }

        let ghost closed0 = closed@;
        closed.set(pidx, true);

        proof {
            lemma_count_true_set(closed0, pidx as int);
            lemma_idx_bounds(*grid, goal);
            // a terminated goal check keeps the goal cell open forever
            assert(pidx as int != idx(*grid, goal)) by {
                if pidx as int == idx(*grid, goal) {
                    lemma_idx_injective(*grid, position, goal);
                }
            }
            lemma_map_inv_after_close(
                *grid,
                start,
                came_from@,
                g_costs@,
                closed0,
                closed@,
                pidx as int,
            );
            lemma_frontier_after_close(
                *grid,
                g_costs@,
                closed0,
                closed@,
                pre_open,
                open_set@,
                f0,
                pidx as int,
            );
            assert forall|c: Position| #![trigger closed@[idx(*grid, c)], spec_neighbors(*grid, c)]
                in_grid(*grid, c) && closed@[idx(*grid, c)] && idx(*grid, c) != pidx as int
                    implies forall|nk: int|
                    0 <= nk < spec_neighbors(*grid, c).len() ==> g_costs@[idx(
                        *grid,
                        (#[trigger] spec_neighbors(*grid, c)[nk]).0,
                    )] != i32::MAX by {
                lemma_idx_bounds(*grid, c);
                assert(closed0[idx(*grid, c)]);
                reveal(expansion_complete);
            }
        }

        let neighbors = grid.get_neighbors(&position);

        let ghost h0 = open_set@.len();

        let deg = neighbors.len();
        let mut e: usize = 0;
        while e < deg
            invariant
                grid_wf(*grid),
                in_grid(*grid, start),
                in_grid(*grid, goal),
                in_grid(*grid, position),
                (grid.width - 1) + (grid.height - 1) <= i32::MAX,
                wh == grid.width * grid.height,
                g_costs@.len() == wh,
                closed@.len() == wh,
                e <= deg,
                deg == neighbors@.len(),
                neighbors@ == spec_neighbors(*grid, position),
                forall|nk: int|
                    0 <= nk < neighbors@.len() ==> grid.spec_is_valid(
                        (#[trigger] neighbors@[nk]).0,
                    ) && neighbors@[nk].1 == 1,
                0 <= g_cost < i32::MAX,
                g_cost + 1 <= count_true(closed@),
                g_cost == g_costs@[idx(*grid, position)],
                closed@[idx(*grid, position)],
                idx(*grid, position) == pidx as int,
                position == start || is_key(came_from@, position),
                forall|i: int| 0 <= i < wh ==> (#[trigger] g_costs@[i]) >= 0,
                forall|i: int|
                    0 <= i < wh ==> (#[trigger] g_costs@[i]) == i32::MAX || g_costs@[i]
                        <= count_true(closed@),
                forall|i: int| 0 <= i < wh && #[trigger] closed@[i] ==> g_costs@[i] != i32::MAX,
                g_costs@[idx(*grid, start)] == 0,
                !closed@[idx(*grid, goal)],
                map_inv(*grid, start, came_from@, g_costs@, closed@),
                open_inv(*grid, start, goal, came_from@, g_costs@, open_set@),
                frontier_complete(*grid, g_costs@, closed@, open_set@),
                forall|c: Position| #![trigger closed@[idx(*grid, c)], spec_neighbors(*grid, c)]
                    in_grid(*grid, c) && closed@[idx(*grid, c)] && idx(*grid, c) != pidx as int
                        ==> forall|nk: int|
                        0 <= nk < spec_neighbors(*grid, c).len() ==> g_costs@[idx(
                            *grid,
                            (#[trigger] spec_neighbors(*grid, c)[nk]).0,
                        )] != i32::MAX,
                forall|nk: int|
                    0 <= nk < e ==> g_costs@[idx(*grid, (#[trigger] neighbors@[nk]).0)]
                        != i32::MAX,
                sum_costs(g_costs@) >= 0,
                sum_costs(g_costs@) <= s0,
                sum_costs(g_costs@) == s0 ==> open_set@.len() == h0,
            decreases deg - e,
        {
            let (neighbor, move_cost) = neighbors[e];
            let nidx = cell_index(grid, &neighbor);

            if closed[nidx] {
                proof {
                    assert(g_costs@[nidx as int] != i32::MAX);
                }
                e += 1;
                continue ;
            }

            proof {
                lemma_count_true_bounds(closed@);
            }
            let tentative = g_cost + (move_cost as i32);

            if tentative < g_costs[nidx] {
                proof {
                    lemma_idx_bounds(*grid, position);
                    lemma_idx_bounds(*grid, neighbor);
                    lemma_neighbors_are_steps(*grid, position);
                    assert(is_step(position, (spec_neighbors(*grid, position)[e as int]).0));
                }

                let ghost old_m = came_from@;
                let ghost old_gc = g_costs@;

                match find_key_index(&came_from, &neighbor) {
                    Some(j) => {
                        came_from.set(j, (neighbor, position));
                    },
                    None => {
                        came_from.push((neighbor, position));
                    },
                }

                g_costs.set(nidx, tentative);

                proof {
                    lemma_sum_costs_update(old_gc, nidx as int, tentative);
                    lemma_sum_costs_nonneg(g_costs@);
                    lemma_relax_keeps_inv(
                        *grid,
                        start,
                        goal,
                        old_m,
                        came_from@,
                        old_gc,
                        g_costs@,
                        closed@,
                        open_set@,
                        position,
                        neighbor,
                        g_cost,
                        tentative,
                    );
                }

                proof {
                    lemma_finite_stays(old_gc, g_costs@, nidx as int, tentative);
                    lemma_restricted_preserved(
                        *grid,
                        old_gc,
                        g_costs@,
                        closed@,
                        pidx as int,
                        nidx as int,
                        tentative,
                    );
                    assert forall|nk: int|
                        0 <= nk < e implies g_costs@[idx(
                        *grid,
                        (#[trigger] neighbors@[nk]).0,
                    )] != i32::MAX by {
                        lemma_idx_bounds(*grid, neighbors@[nk].0);
                        assert(old_gc[idx(*grid, neighbors@[nk].0)] != i32::MAX);
                    }
                    assert(g_costs@[nidx as int] != i32::MAX);
                }

                let h = neighbor.manhattan_distance(&goal);
                let h2 = h as i32;
                let f = if h2 <= i32::MAX - tentative {
                    tentative + h2
                } else {
                    i32::MAX
                };
                let ghost before_push = open_set@;
                open_set.push(State { f_cost: f, g_cost: tentative, position: neighbor });

                proof {
                    reveal(open_inv);
                    if neighbor == goal {
                        assert(h == 0);
                    }
                    lemma_frontier_after_relax(
                        *grid,
                        old_gc,
                        g_costs@,
                        closed@,
                        before_push,
                        open_set@,
                        nidx as int,
                        State { f_cost: f, g_cost: tentative, position: neighbor },
                    );
                    assert(open_inv(*grid, start, goal, came_from@, g_costs@, open_set@));
                }
            } else {
                proof {
                    assert(tentative < i32::MAX);
                    assert(g_costs@[nidx as int] != i32::MAX);
                }
            }

            e += 1;
        }

        proof {
            reveal(expansion_complete);
            // with all four neighbors relaxed, the freshly expanded
            // cell satisfies the expansion condition too
            assert forall|c: Position| #![trigger closed@[idx(*grid, c)], spec_neighbors(*grid, c)]
                in_grid(*grid, c) && closed@[idx(*grid, c)] implies forall|nk: int|
                0 <= nk < spec_neighbors(*grid, c).len() ==> g_costs@[idx(
                    *grid,
                    (#[trigger] spec_neighbors(*grid, c)[nk]).0,
                )] != i32::MAX by {
                if idx(*grid, c) == pidx as int {
                    lemma_idx_injective(*grid, c, position);
                }
            }
            assert(expansion_complete(*grid, g_costs@, closed@));
        }
    }

    proof {
        assert forall|p: Seq<Position>| !is_route(*grid, p, start, goal) by {
            if is_route(*grid, p, start, goal) {
                lemma_route_closed(
                    *grid,
                    start,
                    goal,
                    g_costs@,
                    closed@,
                    open_set@,
                    p,
                    p.len() - 1,
                );
            }
        }
    }

    None
}

/// A* search from `start` to `goal`: the frontier is expanded in
/// order of estimated total cost until the goal is popped.  A
/// returned path begins at `start`, ends at `goal`, follows the
/// recorded parent links one valid grid cell at a time, and its
/// reported cost is its number of steps; `None` comes back only when
/// no such route exists.  A search for a cell from itself succeeds
/// with the one-cell path outright.  Endpoints off the grid, or grid
/// dimensions outside the index arithmetic, have no slot in the
/// integer-cell tables that replace the position-keyed maps, so such
/// queries are answered `None` directly.
pub fn astar(grid: &Grid, start: Position, goal: Position) -> (r: Option<(Vec<Position>, i32)>)
    ensures
        start == goal ==> (r matches Some(pc) && pc.0@ == seq![start] && pc.1 == 0),
        (start != goal && grid_wf(*grid) && in_grid(*grid, start) && in_grid(*grid, goal)) ==> {
            &&& (r matches Some(pc) ==> {
                &&& pc.0@.len() >= 1
                &&& pc.0@.first() == start
                &&& pc.0@.last() == goal
                &&& pc.1 as int == pc.0@.len() - 1
                &&& forall|i: int|
                    0 < i < pc.0@.len() ==> grid.spec_is_valid(#[trigger] pc.0@[i]) && is_step(
                        pc.0@[i - 1],
                        pc.0@[i],
                    )
            })
            &&& (r is None ==> forall|p: Seq<Position>| !is_route(*grid, p, start, goal))
        },
        (start != goal && !(grid_wf(*grid) && in_grid(*grid, start) && in_grid(*grid, goal)))
            ==> r is None,
{
    if start.x == goal.x && start.y == goal.y {
        let mut path: Vec<Position> = Vec::new();
        path.push(start);
        proof {
            assert(path@ =~= seq![start]);
        }
        return Some((path, 0));
    }

    let w64 = grid.width as i64;
    let h64 = grid.height as i64;
    proof {
        assert(i64::MIN <= w64 * h64 <= i64::MAX && w64 * h64 == grid.width * grid.height)
            by (nonlinear_arith)
            requires
                -2147483648 <= w64 <= 2147483647,
                -2147483648 <= h64 <= 2147483647,
                w64 == grid.width,
                h64 == grid.height,
        ;
    }
    if !(grid.width > 0 && grid.height > 0 && w64 * h64 < (i32::MAX as i64)) {
        return None;
    }
    if !(start.x >= 0 && start.x < grid.width && start.y >= 0 && start.y < grid.height) {
        return None;
    }
    if !(goal.x >= 0 && goal.x < grid.width && goal.y >= 0 && goal.y < grid.height) {
        return None;
    }

    astar_search(grid, start, goal)
}

} // verus!
