//! What one run of the grid search computes, stated over mathematical maps,
//! and the facts that every run keeps.
use vstd::prelude::*;
use crate::geometry::{Position, sq_dist, lemma_sq_dist_bounds};
use crate::route::{Node, f_of};
use crate::path::{Bounds, ObstacleBounds, rect_dist_sq};

verus! {

/// Grid step between neighbouring search positions.
pub const GRID_STEP: i32 = 20;

/// The search stops once it pops a position closer than 80 px to the target.
pub const NEAR_SQ: i32 = 6400;

/// The search pops at most this many positions.
pub const MAX_POPS: usize = 1000;

/// Distance from a wall below which the soft wall penalty applies.
pub const WALL_BUFFER: i32 = 350;

/// Nodes and positions searched so far: (open, closed).
pub type SearchMaps = (Map<Position, Node>, Map<Position, Node>);

/// The soft penalties as tables: (wall, cross). `wall[n]` is the cost at distance `n`
/// from the nearest wall line, `cross[d]` the cost at squared distance `d` from the
/// cross.
pub type CostTables = (Seq<i32>, Seq<i32>);

pub open spec fn in_i32(v: int) -> bool {
    i32::MIN <= v <= i32::MAX
}

pub open spec fn offset_x(i: int) -> int {
    if i == 0 || i == 2 || i == 4 {
        20
    } else if i == 1 || i == 3 || i == 5 {
        -20
    } else {
        0
    }
}

pub open spec fn offset_y(i: int) -> int {
    if i == 0 || i == 1 || i == 7 {
        20
    } else if i == 2 || i == 3 || i == 6 {
        -20
    } else {
        0
    }
}

/// The `i`-th of the eight grid neighbours of `p`, in the order the search visits them.
pub open spec fn neighbour(p: Position, i: int) -> Position {
    Position { x: (p.x + offset_x(i)) as i32, y: (p.y + offset_y(i)) as i32 }
}

pub open spec fn abs(v: int) -> int {
    if v < 0 {
        -v
    } else {
        v
    }
}

pub open spec fn min2(a: int, b: int) -> int {
    if a <= b {
        a
    } else {
        b
    }
}

/// Distance from `n` to the nearest of the four wall lines.
pub open spec fn nearest_wall(n: Position, w: Bounds) -> int {
    min2(
        min2(abs(w.min_x - n.x), abs(w.max_x - n.x)),
        min2(abs(w.min_y - n.y), abs(w.max_y - n.y)),
    )
}

/// The soft cost of a wall at distance `n`: the wall table's entry inside the wall
/// buffer, nothing outside it or past the table's end.
pub open spec fn wall_cost(costs: CostTables, n: int) -> int {
    if 0 <= n < WALL_BUFFER && n < costs.0.len() {
        costs.0[n] as int
    } else {
        0
    }
}

/// The soft cost of the cross at squared distance `d` from it: the cross table's entry,
/// nothing past the table's end.
pub open spec fn cross_cost(costs: CostTables, d: int) -> int {
    if 0 <= d < costs.1.len() {
        costs.1[d] as int
    } else {
        0
    }
}

/// No entry of either table is negative.
pub open spec fn table_ok(costs: CostTables) -> bool {
    &&& forall|i: int| 0 <= i < costs.0.len() ==> 0 <= #[trigger] costs.0[i]
    &&& forall|i: int| 0 <= i < costs.1.len() ==> 0 <= #[trigger] costs.1[i]
}

/// Cost of moving from `cur` to the neighbour `n`: squared step length plus the soft
/// wall and cross costs at `n`.
pub open spec fn step_cost(cur: Position, n: Position, b: ObstacleBounds, costs: CostTables) -> int {
    sq_dist(n, cur) + wall_cost(costs, nearest_wall(n, b.walls)) + cross_cost(costs, rect_dist_sq(n, b.cross))
}

/// Offering the neighbour `n` of the popped position `cur` to the open nodes.
pub open spec fn relax(
    open: Map<Position, Node>,
    closed: Map<Position, Node>,
    cur: Position,
    cur_node: Node,
    n: Position,
    target: Position,
    b: ObstacleBounds,
    costs: CostTables,
) -> Map<Position, Node> {
    if closed.contains_key(n) {
        open
    } else {
        let g = cur_node.g_cost + step_cost(cur, n, b, costs);
        if !open.contains_key(n) {
            open.insert(
                n,
                Node { g_cost: g as i32, h_cost: sq_dist(n, target) as i32, parent: Some(cur) },
            )
        } else if g < open[n].g_cost {
            open.insert(n, Node { g_cost: g as i32, h_cost: open[n].h_cost, parent: Some(cur) })
        } else {
            open
        }
    }
}

/// Offering the first `k` neighbours of `cur`.
pub open spec fn expand(
    open: Map<Position, Node>,
    closed: Map<Position, Node>,
    cur: Position,
    cur_node: Node,
    target: Position,
    b: ObstacleBounds,
    costs: CostTables,
    k: nat,
) -> Map<Position, Node>
    decreases k,
{
    if k == 0 {
        open
    } else {
        relax(
            expand(open, closed, cur, cur_node, target, b, costs, (k - 1) as nat),
            closed,
            cur,
            cur_node,
            neighbour(cur, k - 1),
            target,
            b,
            costs,
        )
    }
}

/// Popping the open node at `p`: it moves to the closed nodes, and unless it is near
/// the target its eight neighbours are offered.
pub open spec fn pop_step(
    s: SearchMaps,
    p: Position,
    target: Position,
    b: ObstacleBounds,
    costs: CostTables,
) -> SearchMaps {
    let node = s.0[p];
    let closed = s.1.insert(p, node);
    let open = s.0.remove(p);
    if sq_dist(p, target) < NEAR_SQ {
        (open, closed)
    } else {
        (expand(open, closed, p, node, target, b, costs, 8), closed)
    }
}

/// The node the search starts from.
pub open spec fn start_node(car: Position, target: Position) -> Node {
    Node { g_cost: 0, h_cost: sq_dist(car, target) as i32, parent: None }
}

pub open spec fn start_maps(car: Position, target: Position) -> SearchMaps {
    (Map::<Position, Node>::empty().insert(car, start_node(car, target)), Map::<Position, Node>::empty())
}

/// The maps after popping `pops` in order.
pub open spec fn run(
    car: Position,
    target: Position,
    b: ObstacleBounds,
    costs: CostTables,
    pops: Seq<Position>,
) -> SearchMaps
    decreases pops.len(),
{
    if pops.len() == 0 {
        start_maps(car, target)
    } else {
        pop_step(run(car, target, b, costs, pops.drop_last()), pops.last(), target, b, costs)
    }
}

/// Order in which open nodes are popped: by total cost, then by heuristic cost.
pub open spec fn lex_le(a: Node, c: Node) -> bool {
    f_of(a) < f_of(c) || (f_of(a) == f_of(c) && a.h_cost <= c.h_cost)
}

/// `p` is an open node that no other open node precedes.
pub open spec fn is_min_in(open: Map<Position, Node>, p: Position) -> bool {
    open.contains_key(p) && forall|q: Position| #[trigger] open.contains_key(q) ==> lex_le(open[p], open[q])
}

/// Each pop takes a least open node, at most `MAX_POPS` pops happen, and every pop
/// but the last was not near the target.
pub open spec fn valid_pops(
    car: Position,
    target: Position,
    b: ObstacleBounds,
    costs: CostTables,
    pops: Seq<Position>,
) -> bool {
    &&& pops.len() <= MAX_POPS
    &&& forall|i: int| 0 <= i < pops.len() ==> is_min_in(#[trigger] run(car, target, b, costs, pops.take(i)).0, pops[i])
    &&& forall|i: int| 0 <= i < pops.len() - 1 ==> sq_dist(#[trigger] pops[i], target) >= NEAR_SQ
}

/// The search stops: the pop budget is spent, the last pop was near the target, or
/// nothing is open.
pub open spec fn search_done(
    car: Position,
    target: Position,
    b: ObstacleBounds,
    costs: CostTables,
    pops: Seq<Position>,
) -> bool {
    ||| pops.len() == MAX_POPS
    ||| (pops.len() > 0 && sq_dist(pops.last(), target) < NEAR_SQ)
    ||| run(car, target, b, costs, pops).0.dom() =~= Set::<Position>::empty()
}

/// `(open, closed)` is what a complete search from `car` to `target` leaves behind.
pub open spec fn is_search_result(
    car: Position,
    target: Position,
    b: ObstacleBounds,
    costs: CostTables,
    open: Map<Position, Node>,
    closed: Map<Position, Node>,
) -> bool {
    exists|pops: Seq<Position>|
        {
            &&& valid_pops(car, target, b, costs, pops)
            &&& search_done(car, target, b, costs, pops)
            &&& #[trigger] run(car, target, b, costs, pops) == (open, closed)
        }
}

/// A node's parent, if any, is closed and strictly cheaper.
pub open spec fn parent_ok(n: Node, closed: Map<Position, Node>) -> bool {
    n.parent matches Some(q) ==> closed.contains_key(q) && closed[q].g_cost < n.g_cost
}

/// Every parent link stays inside the route and strictly lowers the cost, so every
/// chain of parents is finite and ends inside the route.
pub open spec fn route_wf(m: Map<Position, Node>) -> bool {
    forall|p: Position| #[trigger] m.contains_key(p) ==> parent_ok(m[p], m)
}

/// Every node's total cost fits in i32.
pub open spec fn costs_fit(m: Map<Position, Node>) -> bool {
    forall|p: Position| #[trigger] m.contains_key(p) ==> i32::MIN <= f_of(m[p]) <= i32::MAX
}

/// A node carries a cost that is not negative and its exact squared distance to the
/// target.
pub open spec fn node_ok(p: Position, n: Node, target: Position) -> bool {
    &&& 0 <= n.g_cost
    &&& n.h_cost == sq_dist(p, target)
}

/// What holds of the maps after `k` pops.
pub open spec fn maps_inv(s: SearchMaps, car: Position, target: Position, k: int) -> bool {
    &&& s.0.dom().finite()
    &&& s.1.dom().finite()
    &&& forall|p: Position| #[trigger] s.0.contains_key(p) ==> node_ok(p, s.0[p], target)
    &&& forall|p: Position| #[trigger] s.1.contains_key(p) ==> node_ok(p, s.1[p], target)
    &&& forall|p: Position| !(#[trigger] s.0.contains_key(p) && s.1.contains_key(p))
    &&& forall|p: Position| #[trigger] s.0.contains_key(p) ==> parent_ok(s.0[p], s.1)
    &&& route_wf(s.1)
    &&& costs_fit(s.1)
    &&& forall|p: Position| #[trigger] s.0.contains_key(p) && s.0[p].parent is None ==> p == car
    &&& forall|p: Position| #[trigger] s.1.contains_key(p) && s.1[p].parent is None ==> p == car
    &&& (k == 0 ==> s.0 == start_maps(car, target).0 && s.1 == start_maps(car, target).1)
    &&& (k > 0 ==> s.1.contains_key(car) && s.1[car] == start_node(car, target))
}

/// The `i`-th neighbour of `p` has coordinates in i32.
pub open spec fn neighbour_fits(p: Position, i: int) -> bool {
    in_i32(p.x + offset_x(i)) && in_i32(p.y + offset_y(i))
}

/// The four differences to the wall lines, and their absolute values, are in i32.
pub open spec fn wall_diffs_fit(n: Position, w: Bounds) -> bool {
    &&& -i32::MAX <= w.min_x - n.x <= i32::MAX
    &&& -i32::MAX <= w.max_x - n.x <= i32::MAX
    &&& -i32::MAX <= w.min_y - n.y <= i32::MAX
    &&& -i32::MAX <= w.max_y - n.y <= i32::MAX
}

/// Offering the neighbour `n` computes every value in i32: the wall distances, the
/// squared distance to the cross, the new cost and, for a new node, its squared
/// distance to the target.
pub open spec fn relax_fits(
    open: Map<Position, Node>,
    closed: Map<Position, Node>,
    cur: Position,
    cur_node: Node,
    n: Position,
    target: Position,
    b: ObstacleBounds,
    costs: CostTables,
) -> bool {
    !closed.contains_key(n) ==> {
        &&& wall_diffs_fit(n, b.walls)
        &&& rect_dist_sq(n, b.cross) <= i32::MAX
        &&& cur_node.g_cost + step_cost(cur, n, b, costs) <= i32::MAX
        &&& (!open.contains_key(n) ==> sq_dist(n, target) <= i32::MAX)
    }
}

/// Expanding `cur` computes every value in i32: its eight neighbours' coordinates and
/// everything that offering each of them computes.
pub open spec fn expand_fits(
    open: Map<Position, Node>,
    closed: Map<Position, Node>,
    cur: Position,
    cur_node: Node,
    target: Position,
    b: ObstacleBounds,
    costs: CostTables,
) -> bool {
    &&& forall|i: int| 0 <= i < 8 ==> #[trigger] neighbour_fits(cur, i)
    &&& forall|j: nat|
        j < 8 ==> #[trigger] relax_fits(
            expand(open, closed, cur, cur_node, target, b, costs, j),
            closed,
            cur,
            cur_node,
            neighbour(cur, j as int),
            target,
            b,
            costs,
        )
}

/// Popping `p` from `s` and expanding it, unless it is near the target, computes every
/// value in i32.
pub open spec fn pop_fits(s: SearchMaps, p: Position, target: Position, b: ObstacleBounds, costs: CostTables) -> bool {
    sq_dist(p, target) >= NEAR_SQ ==> expand_fits(
        s.0.remove(p),
        s.1.insert(p, s.0[p]),
        p,
        s.0[p],
        target,
        b,
        costs,
    )
}

/// After these pops the search goes on: the pop budget is not spent and the last pop
/// was not near the target.
pub open spec fn continues(target: Position, pops: Seq<Position>) -> bool {
    pops.len() < MAX_POPS && !(pops.len() > 0 && sq_dist(pops.last(), target) < NEAR_SQ)
}

/// No run of the search from `car` to `target` leaves i32 in any value it computes:
/// the start's squared distance, the total costs it compares before each pop, and
/// everything each expansion computes.
pub open spec fn no_overflow(car: Position, target: Position, b: ObstacleBounds, costs: CostTables) -> bool {
    &&& sq_dist(car, target) <= i32::MAX
    &&& forall|pops: Seq<Position>|
        #[trigger] valid_pops(car, target, b, costs, pops) && continues(target, pops) ==> {
            let s = run(car, target, b, costs, pops);
            &&& costs_fit(s.0)
            &&& forall|p: Position| #[trigger] is_min_in(s.0, p) ==> pop_fits(s, p, target, b, costs)
        }
}

/// Bounds of one step of the search.
pub proof fn lemma_step_cost_range(cur: Position, i: int, b: ObstacleBounds, costs: CostTables)
    requires
        0 <= i < 8,
        table_ok(costs),
        neighbour_fits(cur, i),
    ensures
        400 <= step_cost(cur, neighbour(cur, i), b, costs),
        sq_dist(neighbour(cur, i), cur) == offset_x(i) * offset_x(i) + offset_y(i) * offset_y(i),
        400 <= sq_dist(neighbour(cur, i), cur) <= 800,
{
    let n = neighbour(cur, i);
    let ox = offset_x(i);
    let oy = offset_y(i);
    assert(n.x - cur.x == ox);
    assert(n.y - cur.y == oy);
    assert(ox == 20 || ox == -20 || ox == 0);
    assert(oy == 20 || oy == -20 || oy == 0);
    assert(ox != 0 || oy != 0);
    assert(ox * ox == 400 || ox * ox == 0);
    assert(oy * oy == 400 || oy * oy == 0);
    assert(sq_dist(n, cur) == ox * ox + oy * oy);
    lemma_soft_cost_range(costs, nearest_wall(n, b.walls), rect_dist_sq(n, b.cross));
}

/// Both soft costs are never negative and fit in i32.
pub proof fn lemma_soft_cost_range(costs: CostTables, n: int, d: int)
    requires
        table_ok(costs),
    ensures
        0 <= wall_cost(costs, n) <= i32::MAX,
        0 <= cross_cost(costs, d) <= i32::MAX,
{
    if 0 <= n < WALL_BUFFER && n < costs.0.len() {
        assert(0 <= costs.0[n]);
    }
    if 0 <= d < costs.1.len() {
        assert(0 <= costs.1[d]);
    }
}

/// Offering neighbours keeps every node acceptable, every parent closed and cheaper,
/// and open and closed apart.
pub proof fn lemma_expand_inv(
    open: Map<Position, Node>,
    closed: Map<Position, Node>,
    cur: Position,
    node: Node,
    car: Position,
    target: Position,
    b: ObstacleBounds,
    costs: CostTables,
    j: nat,
)
    requires
        j <= 8,
        table_ok(costs),
        open.dom().finite(),
        closed.contains_key(cur),
        closed[cur] == node,
        node_ok(cur, node, target),
        forall|i: int| 0 <= i < 8 ==> #[trigger] neighbour_fits(cur, i),
        forall|i: nat|
            i < j ==> #[trigger] relax_fits(
                expand(open, closed, cur, node, target, b, costs, i),
                closed,
                cur,
                node,
                neighbour(cur, i as int),
                target,
                b,
                costs,
            ),
        forall|p: Position| #[trigger] open.contains_key(p) ==> node_ok(p, open[p], target),
        forall|p: Position| !(#[trigger] open.contains_key(p) && closed.contains_key(p)),
        forall|p: Position| #[trigger] open.contains_key(p) ==> parent_ok(open[p], closed),
        forall|p: Position| #[trigger] open.contains_key(p) && open[p].parent is None ==> p == car,
    ensures
        ({
            let o = expand(open, closed, cur, node, target, b, costs, j);
            &&& forall|p: Position| #[trigger] o.contains_key(p) && o[p].parent is None ==> p == car
            &&& o.dom().finite()
            &&& forall|p: Position| #[trigger] o.contains_key(p) ==> node_ok(p, o[p], target)
            &&& forall|p: Position| !(#[trigger] o.contains_key(p) && closed.contains_key(p))
            &&& forall|p: Position| #[trigger] o.contains_key(p) ==> parent_ok(o[p], closed)
        }),
    decreases j,
{
    if j > 0 {
        let jm: nat = (j - 1) as nat;
        lemma_expand_inv(open, closed, cur, node, car, target, b, costs, jm);
        let prev = expand(open, closed, cur, node, target, b, costs, jm);
        let n = neighbour(cur, j - 1);
        assert(neighbour_fits(cur, j - 1));
        lemma_step_cost_range(cur, j - 1, b, costs);
        assert(relax_fits(prev, closed, cur, node, neighbour(cur, jm as int), target, b, costs));
        let o = expand(open, closed, cur, node, target, b, costs, j);
        assert(o == relax(prev, closed, cur, node, n, target, b, costs));
        if !closed.contains_key(n) {
            let g = node.g_cost + step_cost(cur, n, b, costs);
            assert(0 < g <= i32::MAX);
            lemma_sq_dist_bounds(n, target);
            assert forall|p: Position| #[trigger] o.contains_key(p) implies node_ok(p, o[p], target) && parent_ok(
                o[p],
                closed,
            ) && (o[p].parent is None ==> p == car) by {
                if p != n {
                    assert(o[p] == prev[p]);
                }
            }
        }
    }
}

/// The maps the search starts from.
pub proof fn lemma_start_inv(car: Position, target: Position)
    requires
        sq_dist(car, target) <= i32::MAX,
    ensures
        maps_inv(start_maps(car, target), car, target, 0),
{
    let s = start_maps(car, target);
    lemma_sq_dist_bounds(car, target);
    assert(s.0.dom() =~= set![car]);
    assert(s.1.dom() =~= Set::<Position>::empty());
}

/// Popping a least open node keeps the invariant, one pop further, when the pop
/// computes everything in i32.
pub proof fn lemma_pop_inv(
    s: SearchMaps,
    p: Position,
    car: Position,
    target: Position,
    b: ObstacleBounds,
    costs: CostTables,
    k: int,
)
    requires
        0 <= k,
        table_ok(costs),
        maps_inv(s, car, target, k),
        is_min_in(s.0, p),
        costs_fit(s.0),
        pop_fits(s, p, target, b, costs),
    ensures
        maps_inv(pop_step(s, p, target, b, costs), car, target, k + 1),
        k == 0 ==> p == car,
{
    let node = s.0[p];
    let closed = s.1.insert(p, node);
    let open = s.0.remove(p);
    assert forall|q: Position| #[trigger] open.contains_key(q) implies parent_ok(open[q], closed) by {
        assert(parent_ok(s.0[q], s.1));
    }
    assert forall|q: Position| #[trigger] closed.contains_key(q) implies parent_ok(closed[q], closed) by {
        if q == p {
            assert(parent_ok(s.0[q], s.1));
        } else {
            assert(parent_ok(s.1[q], s.1));
        }
    }
    assert(route_wf(closed));
    assert forall|q: Position| #[trigger] closed.contains_key(q) implies i32::MIN <= f_of(closed[q]) <= i32::MAX by {
        if q == p {
            assert(s.0.contains_key(q));
        } else {
            assert(s.1.contains_key(q));
        }
    }
    if k == 0 {
        assert(s.0.contains_key(p));
        assert(p == car);
    }
    if k > 0 {
        assert(s.1.contains_key(car));
        assert(car != p);
    }
    if sq_dist(p, target) >= NEAR_SQ {
        lemma_expand_inv(open, closed, p, node, car, target, b, costs, 8);
    }
}

/// A valid sequence of pops stays valid when its last pop is dropped, and the search
/// went on after that shorter sequence.
pub proof fn lemma_valid_prefix(
    car: Position,
    target: Position,
    b: ObstacleBounds,
    costs: CostTables,
    pops: Seq<Position>,
)
    requires
        pops.len() > 0,
        valid_pops(car, target, b, costs, pops),
    ensures
        valid_pops(car, target, b, costs, pops.drop_last()),
        continues(target, pops.drop_last()),
{
    let pre = pops.drop_last();
    assert forall|i: int| 0 <= i < pre.len() implies is_min_in(
        #[trigger] run(car, target, b, costs, pre.take(i)).0,
        pre[i],
    ) by {
        assert(pre.take(i) =~= pops.take(i));
        assert(is_min_in(run(car, target, b, costs, pops.take(i)).0, pops[i]));
    }
    assert forall|i: int| 0 <= i < pre.len() - 1 implies sq_dist(#[trigger] pre[i], target) >= NEAR_SQ by {
        assert(pre[i] == pops[i]);
    }
    if pre.len() > 0 {
        assert(pre.last() == pops[pre.len() - 1]);
        assert(sq_dist(pops[pre.len() - 1], target) >= NEAR_SQ);
    }
}

/// Every valid run of a search that never overflows keeps the invariant.
pub proof fn lemma_run_inv(
    car: Position,
    target: Position,
    b: ObstacleBounds,
    costs: CostTables,
    pops: Seq<Position>,
)
    requires
        no_overflow(car, target, b, costs),
        table_ok(costs),
        valid_pops(car, target, b, costs, pops),
    ensures
        maps_inv(run(car, target, b, costs, pops), car, target, pops.len() as int),
    decreases pops.len(),
{
    if pops.len() == 0 {
        lemma_start_inv(car, target);
    } else {
        let pre = pops.drop_last();
        lemma_valid_prefix(car, target, b, costs, pops);
        lemma_run_inv(car, target, b, costs, pre);
        assert(pops.take(pre.len() as int) =~= pre);
        assert(is_min_in(run(car, target, b, costs, pops.take(pre.len() as int)).0, pops[pre.len() as int]));
        let s = run(car, target, b, costs, pre);
        assert(valid_pops(car, target, b, costs, pre) && continues(target, pre));
        assert(is_min_in(s.0, pops.last()));
        lemma_pop_inv(s, pops.last(), car, target, b, costs, pre.len() as int);
    }
}

} // verus!
