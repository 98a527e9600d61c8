//! The shape of what a search leaves behind: every node lies on the grid around the
//! car, every parent link is one grid step whose cost the node carries, every
//! expanded position has all its neighbours searched, and the sizes stay bounded.
use vstd::prelude::*;
use crate::geometry::{Position, sq_dist};
use crate::route::{Node, f_of};
use crate::path::ObstacleBounds;
use crate::search::{
    neighbour, offset_x, offset_y, step_cost, relax, expand, relax_fits, neighbour_fits, node_ok,
    lemma_step_cost_range, table_ok, CostTables, NEAR_SQ, GRID_STEP, SearchMaps, maps_inv, is_min_in, costs_fit,
    pop_fits, pop_step, parent_ok, expand_fits, start_maps, run, valid_pops, continues, no_overflow,
    lemma_valid_prefix, lemma_run_inv, lemma_pop_inv, MAX_POPS, search_done, is_search_result,
};

verus! {

/// `p` lies on the grid of 20 px steps around the car.
pub open spec fn on_grid(p: Position, car: Position) -> bool {
    (p.x - car.x) % (GRID_STEP as int) == 0 && (p.y - car.y) % (GRID_STEP as int) == 0
}

/// One axis of a grid step: -20, 0 or 20.
pub open spec fn step_axis(v: int) -> bool {
    v == -20 || v == 0 || v == 20
}

/// `p` is one of the eight grid neighbours of `q`.
pub open spec fn is_step(q: Position, p: Position) -> bool {
    q != p && step_axis(p.x - q.x) && step_axis(p.y - q.y)
}

/// A node at `p` with a parent is one grid step from it and costs exactly the parent's
/// cost plus the cost of that step.
pub open spec fn link_ok(
    p: Position,
    n: Node,
    closed: Map<Position, Node>,
    b: ObstacleBounds,
    costs: CostTables,
) -> bool {
    n.parent matches Some(q) ==> is_step(q, p) && n.g_cost == closed[q].g_cost + step_cost(q, p, b, costs)
}

/// The `i`-th neighbour, when its coordinates fit, is one grid step away.
pub proof fn lemma_neighbour_step(p: Position, i: int)
    requires
        0 <= i < 8,
        neighbour_fits(p, i),
    ensures
        is_step(p, neighbour(p, i)),
        neighbour(p, i).x == p.x + offset_x(i),
        neighbour(p, i).y == p.y + offset_y(i),
{
}

/// Distinct indices give distinct neighbours.
pub proof fn lemma_neighbours_differ(p: Position, i: int, j: int)
    requires
        0 <= i < 8,
        0 <= j < 8,
        i != j,
        neighbour_fits(p, i),
        neighbour_fits(p, j),
    ensures
        neighbour(p, i) != neighbour(p, j),
{
}

/// What offering the first `j` neighbours of `cur` does to the open nodes: it keeps
/// every key, never raises a cost, adds at most `j` keys, and every changed node is a
/// neighbour linked to `cur` at the cost of that step; each offered neighbour is then
/// open at no more than that cost, or closed.
pub proof fn lemma_expand_shape(
    open: Map<Position, Node>,
    closed: Map<Position, Node>,
    cur: Position,
    node: Node,
    target: Position,
    b: ObstacleBounds,
    costs: CostTables,
    j: nat,
)
    requires
        j <= 8,
        table_ok(costs),
        open.dom().finite(),
        node_ok(cur, node, target),
        forall|i: int| 0 <= i < 8 ==> #[trigger] neighbour_fits(cur, i),
        forall|i: nat|
            i < j ==> #[trigger] relax_fits(
                expand(open, closed, cur, node, target, b, costs, i),
                closed,
                cur,
                node,
                neighbour(cur, i as int),
                target,
                b,
                costs,
            ),
    ensures
        ({
            let o = expand(open, closed, cur, node, target, b, costs, j);
            &&& o.dom().finite()
            &&& o.dom().len() <= open.dom().len() + j
            &&& forall|p: Position| #[trigger] open.contains_key(p) ==> o.contains_key(p) && o[p].g_cost
                <= open[p].g_cost
            &&& forall|p: Position| #[trigger] o.contains_key(p) ==> (open.contains_key(p) && o[p] == open[p]) || (exists|i: int|
                0 <= i < j && p == #[trigger] neighbour(cur, i)) && !closed.contains_key(p) && o[p].parent
                == Some(cur) && o[p].g_cost == node.g_cost + step_cost(cur, p, b, costs)
            &&& forall|i: int|
                0 <= i < j ==> (o.contains_key(#[trigger] neighbour(cur, i)) && o[neighbour(cur, i)].g_cost
                    <= node.g_cost + step_cost(cur, neighbour(cur, i), b, costs)) || closed.contains_key(
                    neighbour(cur, i),
                )
        }),
    decreases j,
{
    if j > 0 {
        let jm: nat = (j - 1) as nat;
        lemma_expand_shape(open, closed, cur, node, target, b, costs, jm);
        let prev = expand(open, closed, cur, node, target, b, costs, jm);
        let n = neighbour(cur, j - 1);
        assert(neighbour_fits(cur, j - 1));
        lemma_step_cost_range(cur, j - 1, b, costs);
        assert(relax_fits(prev, closed, cur, node, neighbour(cur, jm as int), target, b, costs));
        let o = expand(open, closed, cur, node, target, b, costs, j);
        assert(o == relax(prev, closed, cur, node, n, target, b, costs));
        if !closed.contains_key(n) {
            let g = node.g_cost + step_cost(cur, n, b, costs);
            assert(0 < g <= i32::MAX);
            assert(o.dom().subset_of(prev.dom().insert(n)));
            vstd::set_lib::lemma_len_subset(o.dom(), prev.dom().insert(n));
            assert forall|p: Position| #[trigger] o.contains_key(p) implies (open.contains_key(p) && o[p] == open[p]) || (exists|i: int|
                0 <= i < j && p == #[trigger] neighbour(cur, i)) && !closed.contains_key(p) && o[p].parent
                == Some(cur) && o[p].g_cost == node.g_cost + step_cost(cur, p, b, costs) by {
                if p != n {
                    assert(o[p] == prev[p]);
                    assert(prev.contains_key(p));
                } else if o[p] != prev[p] || !prev.contains_key(p) {
                    assert(p == neighbour(cur, j - 1));
                }
            }
            assert forall|i: int|
                0 <= i < j implies (o.contains_key(#[trigger] neighbour(cur, i)) && o[neighbour(cur, i)].g_cost
                <= node.g_cost + step_cost(cur, neighbour(cur, i), b, costs)) || closed.contains_key(
                neighbour(cur, i),
            ) by {
                if i < j - 1 {
                    lemma_neighbours_differ(cur, i, j - 1);
                    assert(neighbour(cur, i) != n);
                }
            }
        } else {
            assert(o == prev);
        }
    }
}

/// Every neighbour of the closed position `q` has coordinates in i32 and has been
/// searched, and an open one costs no more than reaching it from `q`.
pub open spec fn neighbours_searched(s: SearchMaps, q: Position, b: ObstacleBounds, costs: CostTables) -> bool {
    forall|i: int|
        0 <= i < 8 ==> neighbour_fits(q, i) && (s.0.contains_key(#[trigger] neighbour(q, i)) || s.1.contains_key(neighbour(q, i))) && (
        s.0.contains_key(neighbour(q, i)) ==> s.0[neighbour(q, i)].g_cost <= s.1[q].g_cost + step_cost(
            q,
            neighbour(q, i),
            b,
            costs,
        ))
}

/// What the maps look like after the pops `pops`.
pub open spec fn shape_inv(
    s: SearchMaps,
    car: Position,
    target: Position,
    b: ObstacleBounds,
    costs: CostTables,
    pops: Seq<Position>,
) -> bool {
    &&& forall|p: Position| #[trigger] s.0.contains_key(p) ==> on_grid(p, car) && link_ok(p, s.0[p], s.1, b, costs)
    &&& forall|p: Position| #[trigger] s.1.contains_key(p) ==> on_grid(p, car) && link_ok(p, s.1[p], s.1, b, costs)
    &&& s.1.dom().len() == pops.len()
    &&& s.0.dom().len() <= 1 + 7 * pops.len()
    &&& forall|p: Position| #[trigger] s.1.contains_key(p) ==> exists|i: int| 0 <= i < pops.len() && #[trigger] pops[i] == p
    &&& forall|i: int| 0 <= i < pops.len() ==> s.1.contains_key(#[trigger] pops[i])
    &&& forall|q: Position|
        #[trigger] s.1.contains_key(q) && sq_dist(q, target) >= NEAR_SQ ==> neighbours_searched(s, q, b, costs)
}

/// After moving the least open node `p` to the closed nodes, every node keeps its
/// place on the grid and its link, and the closed nodes are the pops so far.
proof fn lemma_pop_moves(
    s: SearchMaps,
    p: Position,
    car: Position,
    target: Position,
    b: ObstacleBounds,
    costs: CostTables,
    pops: Seq<Position>,
)
    requires
        maps_inv(s, car, target, pops.len() as int),
        shape_inv(s, car, target, b, costs, pops),
        is_min_in(s.0, p),
    ensures
        ({
            let closed = s.1.insert(p, s.0[p]);
            let open1 = s.0.remove(p);
            let np = pops.push(p);
            &&& closed.dom().len() == np.len()
            &&& open1.dom().len() == s.0.dom().len() - 1
            &&& open1.dom().finite()
            &&& forall|q: Position| #[trigger] open1.contains_key(q) ==> on_grid(q, car) && link_ok(q, open1[q], closed, b, costs)
            &&& forall|q: Position| #[trigger] closed.contains_key(q) ==> on_grid(q, car) && link_ok(q, closed[q], closed, b, costs)
            &&& forall|q: Position| #[trigger] closed.contains_key(q) ==> exists|i: int| 0 <= i < np.len() && #[trigger] np[i] == q
            &&& forall|i: int| 0 <= i < np.len() ==> closed.contains_key(#[trigger] np[i])
        }),
{
    let k = pops.len();
    let node = s.0[p];
    let closed = s.1.insert(p, node);
    let open1 = s.0.remove(p);
    let np = pops.push(p);
    assert(!s.1.contains_key(p));
    assert(closed.dom() =~= s.1.dom().insert(p));
    assert(open1.dom() =~= s.0.dom().remove(p));
    assert forall|q: Position| #[trigger] open1.contains_key(q) implies on_grid(q, car) && link_ok(q, open1[q], closed, b, costs) by {
        assert(s.0.contains_key(q));
        assert(parent_ok(s.0[q], s.1));
        assert(link_ok(q, s.0[q], s.1, b, costs));
    }
    assert forall|q: Position| #[trigger] closed.contains_key(q) implies on_grid(q, car) && link_ok(q, closed[q], closed, b, costs) by {
        if q == p {
            assert(parent_ok(s.0[q], s.1));
            assert(link_ok(q, s.0[q], s.1, b, costs));
        } else {
            assert(s.1.contains_key(q));
            assert(parent_ok(s.1[q], s.1));
            assert(link_ok(q, s.1[q], s.1, b, costs));
        }
    }
    assert forall|q: Position| #[trigger] closed.contains_key(q) implies exists|i: int| 0 <= i < np.len() && #[trigger] np[i] == q by {
        if q == p {
            assert(np[k as int] == p);
        } else {
            let i = choose|i: int| 0 <= i < pops.len() && #[trigger] pops[i] == q;
            assert(np[i] == q);
        }
    }
    assert forall|i: int| 0 <= i < np.len() implies closed.contains_key(#[trigger] np[i]) by {
        if i < k {
            assert(np[i] == pops[i]);
        }
    }
}

/// Positions closed before the pop keep all their neighbours searched, as long as the
/// new open nodes keep every old key at no higher cost.
proof fn lemma_old_neighbours(
    s: SearchMaps,
    p: Position,
    o: Map<Position, Node>,
    target: Position,
    b: ObstacleBounds,
    costs: CostTables,
    q: Position,
)
    requires
        s.1.contains_key(q),
        !s.1.contains_key(p),
        neighbours_searched(s, q, b, costs),
        forall|n: Position| #[trigger] s.0.remove(p).contains_key(n) ==> o.contains_key(n) && o[n].g_cost <= s.0.remove(p)[n].g_cost,
        forall|n: Position| !(#[trigger] o.contains_key(n) && s.1.insert(p, s.0[p]).contains_key(n)),
    ensures
        neighbours_searched((o, s.1.insert(p, s.0[p])), q, b, costs),
{
    let closed = s.1.insert(p, s.0[p]);
    let open1 = s.0.remove(p);
    assert forall|i: int| 0 <= i < 8 implies neighbour_fits(q, i) && (o.contains_key(#[trigger] neighbour(q, i)) || closed.contains_key(neighbour(q, i))) && (
        o.contains_key(neighbour(q, i)) ==> o[neighbour(q, i)].g_cost <= closed[q].g_cost + step_cost(q, neighbour(q, i), b, costs)) by {
        let n = neighbour(q, i);
        if s.0.contains_key(n) && n != p {
            assert(open1.contains_key(n));
        }
        if o.contains_key(n) {
            assert(!closed.contains_key(n));
            assert(s.0.contains_key(n) && n != p);
        }
    }
}

/// The nodes that an expansion of `p` sets are on the grid and linked to `p`.
proof fn lemma_new_links(
    open1: Map<Position, Node>,
    closed: Map<Position, Node>,
    o: Map<Position, Node>,
    p: Position,
    node: Node,
    car: Position,
    b: ObstacleBounds,
    costs: CostTables,
)
    requires
        closed.contains_key(p),
        closed[p] == node,
        on_grid(p, car),
        forall|i: int| 0 <= i < 8 ==> #[trigger] neighbour_fits(p, i),
        forall|q: Position| #[trigger] open1.contains_key(q) ==> on_grid(q, car) && link_ok(q, open1[q], closed, b, costs),
        forall|q: Position| #[trigger] o.contains_key(q) ==> (open1.contains_key(q) && o[q] == open1[q]) || (exists|i: int|
            0 <= i < 8 && q == #[trigger] neighbour(p, i)) && !closed.contains_key(q) && o[q].parent == Some(p)
            && o[q].g_cost == node.g_cost + step_cost(p, q, b, costs),
    ensures
        forall|q: Position| #[trigger] o.contains_key(q) ==> on_grid(q, car) && link_ok(q, o[q], closed, b, costs),
{
    assert forall|q: Position| #[trigger] o.contains_key(q) implies on_grid(q, car) && link_ok(q, o[q], closed, b, costs) by {
        if !(open1.contains_key(q) && o[q] == open1[q]) {
            let i = choose|i: int| 0 <= i < 8 && q == #[trigger] neighbour(p, i);
            assert(neighbour_fits(p, i));
            lemma_neighbour_step(p, i);
        }
    }
}

/// Expanding the popped position `p` keeps every open node on the grid and linked,
/// and leaves every expanded position with all its neighbours searched.
#[verifier::rlimit(40)]
proof fn lemma_pop_expands(
    s: SearchMaps,
    p: Position,
    car: Position,
    target: Position,
    b: ObstacleBounds,
    costs: CostTables,
    pops: Seq<Position>,
)
    requires
        table_ok(costs),
        maps_inv(s, car, target, pops.len() as int),
        shape_inv(s, car, target, b, costs, pops),
        is_min_in(s.0, p),
        costs_fit(s.0),
        pop_fits(s, p, target, b, costs),
        sq_dist(p, target) >= NEAR_SQ,
    ensures
        ({
            let s2 = pop_step(s, p, target, b, costs);
            &&& s2.0.dom().len() <= s.0.dom().len() + 7
            &&& forall|q: Position| #[trigger] s2.0.contains_key(q) ==> on_grid(q, car) && link_ok(q, s2.0[q], s2.1, b, costs)
            &&& forall|q: Position|
                #[trigger] s2.1.contains_key(q) && sq_dist(q, target) >= NEAR_SQ ==> neighbours_searched(s2, q, b, costs)
        }),
{
    lemma_pop_inv(s, p, car, target, b, costs, pops.len() as int);
    lemma_pop_moves(s, p, car, target, b, costs, pops);
    let node = s.0[p];
    let closed = s.1.insert(p, node);
    let open1 = s.0.remove(p);
    let s2 = pop_step(s, p, target, b, costs);
    assert(node_ok(p, node, target));
    assert(expand_fits(open1, closed, p, node, target, b, costs));
    lemma_expand_shape(open1, closed, p, node, target, b, costs, 8);
    let o = expand(open1, closed, p, node, target, b, costs, 8);
    assert(s2 == (o, closed));
    assert(closed.contains_key(p));
    lemma_new_links(open1, closed, o, p, node, car, b, costs);
    assert forall|q: Position| #[trigger] closed.contains_key(q) && sq_dist(q, target) >= NEAR_SQ implies neighbours_searched(s2, q, b, costs) by {
        if q != p {
            lemma_old_neighbours(s, p, o, target, b, costs, q);
        }
    }
}

/// Popping a least open node keeps the shape, one pop further.
pub proof fn lemma_pop_shape(
    s: SearchMaps,
    p: Position,
    car: Position,
    target: Position,
    b: ObstacleBounds,
    costs: CostTables,
    pops: Seq<Position>,
)
    requires
        table_ok(costs),
        maps_inv(s, car, target, pops.len() as int),
        shape_inv(s, car, target, b, costs, pops),
        is_min_in(s.0, p),
        costs_fit(s.0),
        pop_fits(s, p, target, b, costs),
    ensures
        shape_inv(pop_step(s, p, target, b, costs), car, target, b, costs, pops.push(p)),
{
    lemma_pop_moves(s, p, car, target, b, costs, pops);
    let s2 = pop_step(s, p, target, b, costs);
    if sq_dist(p, target) >= NEAR_SQ {
        lemma_pop_expands(s, p, car, target, b, costs, pops);
    } else {
        lemma_pop_inv(s, p, car, target, b, costs, pops.len() as int);
        assert forall|q: Position| #[trigger] s2.1.contains_key(q) && sq_dist(q, target) >= NEAR_SQ implies neighbours_searched(s2, q, b, costs) by {
            lemma_old_neighbours(s, p, s2.0, target, b, costs, q);
        }
    }
}

/// Every valid run of a search that never overflows keeps the shape.
pub proof fn lemma_shape_run(
    car: Position,
    target: Position,
    b: ObstacleBounds,
    costs: CostTables,
    pops: Seq<Position>,
)
    requires
        no_overflow(car, target, b, costs),
        table_ok(costs),
        valid_pops(car, target, b, costs, pops),
    ensures
        shape_inv(run(car, target, b, costs, pops), car, target, b, costs, pops),
    decreases pops.len(),
{
    if pops.len() == 0 {
        let s = start_maps(car, target);
        assert(s.0.dom() =~= set![car]);
        assert(s.1.dom() =~= Set::<Position>::empty());
        assert(on_grid(car, car));
    } else {
        let pre = pops.drop_last();
        lemma_valid_prefix(car, target, b, costs, pops);
        lemma_shape_run(car, target, b, costs, pre);
        lemma_run_inv(car, target, b, costs, pre);
        assert(pops.take(pre.len() as int) =~= pre);
        assert(is_min_in(run(car, target, b, costs, pops.take(pre.len() as int)).0, pops[pre.len() as int]));
        let s = run(car, target, b, costs, pre);
        assert(valid_pops(car, target, b, costs, pre) && continues(target, pre));
        assert(is_min_in(s.0, pops.last()));
        lemma_pop_shape(s, pops.last(), car, target, b, costs, pre);
        assert(pre.push(pops.last()) =~= pops);
    }
}

/// A closed position near the target is the last pop.
proof fn lemma_near_is_last(
    car: Position,
    target: Position,
    b: ObstacleBounds,
    costs: CostTables,
    pops: Seq<Position>,
    p: Position,
)
    requires
        valid_pops(car, target, b, costs, pops),
        shape_inv(run(car, target, b, costs, pops), car, target, b, costs, pops),
        run(car, target, b, costs, pops).1.contains_key(p),
        sq_dist(p, target) < NEAR_SQ,
    ensures
        pops.len() > 0 && p == pops.last(),
{
    let closed = run(car, target, b, costs, pops).1;
    let i = choose|i: int| 0 <= i < pops.len() && #[trigger] pops[i] == p;
    if i < pops.len() - 1 {
        assert(sq_dist(pops[i], target) >= NEAR_SQ);
    }
}

/// A finite set of positions that is not empty has one of largest `x`.
proof fn lemma_max_x(s: Set<Position>) -> (m: Position)
    requires
        s.finite(),
        s.len() > 0,
    ensures
        s.contains(m),
        forall|p: Position| #[trigger] s.contains(p) ==> p.x <= m.x,
    decreases s.len(),
{
    if s =~= Set::<Position>::empty() {
        assert(s.len() == 0);
    }
    let e = s.choose();
    let rest = s.remove(e);
    if rest.len() == 0 {
        assert forall|p: Position| #[trigger] s.contains(p) implies p.x <= e.x by {
            if p != e {
                assert(rest.contains(p));
            }
        }
        e
    } else {
        let m2 = lemma_max_x(rest);
        assert forall|p: Position| #[trigger] s.contains(p) implies p.x <= (if m2.x >= e.x { m2 } else { e }).x by {
            if p != e {
                assert(rest.contains(p));
            }
        }
        if m2.x >= e.x {
            m2
        } else {
            e
        }
    }
}

/// A search that has popped something and closed nothing near the target still has
/// open nodes: the closed position of largest `x` was expanded, and its right-hand
/// neighbour lies further right, so it is open.
proof fn lemma_open_left(
    car: Position,
    target: Position,
    b: ObstacleBounds,
    costs: CostTables,
    pops: Seq<Position>,
)
    requires
        no_overflow(car, target, b, costs),
        table_ok(costs),
        valid_pops(car, target, b, costs, pops),
        pops.len() > 0,
        forall|p: Position| #[trigger] run(car, target, b, costs, pops).1.contains_key(p) ==> sq_dist(p, target) >= NEAR_SQ,
    ensures
        !(run(car, target, b, costs, pops).0.dom() =~= Set::<Position>::empty()),
{
    let s = run(car, target, b, costs, pops);
    lemma_run_inv(car, target, b, costs, pops);
    lemma_shape_run(car, target, b, costs, pops);
    let m = lemma_max_x(s.1.dom());
    assert(s.1.contains_key(m));
    assert(neighbours_searched(s, m, b, costs));
    let n = neighbour(m, 0);
    assert(neighbour_fits(m, 0));
    assert(n.x == m.x + 20);
    if s.0.dom() =~= Set::<Position>::empty() {
        assert(!s.0.contains_key(n));
        assert(s.1.contains_key(n));
        assert(s.1.dom().contains(n));
    }
}

/// What a search that never overflows leaves behind. Every node lies on the 20 px grid
/// around the car; a node with a parent is one grid step from it and costs exactly the
/// parent's cost plus that step's cost (squared length, wall and cross penalties).
/// Every expanded position (closed and not near the target) has all eight neighbours
/// open or closed, and an open one costs no more than reaching it from there. Between
/// 1 and 1000 positions are closed, at most eight times as many are open, at most one
/// closed position is near the target, and one is unless the pop budget is spent.
pub proof fn law_search_shape(
    car: Position,
    target: Position,
    b: ObstacleBounds,
    costs: CostTables,
    open: Map<Position, Node>,
    closed: Map<Position, Node>,
)
    requires
        no_overflow(car, target, b, costs),
        table_ok(costs),
        is_search_result(car, target, b, costs, open, closed),
    ensures
        forall|p: Position| #[trigger] open.contains_key(p) ==> on_grid(p, car) && link_ok(p, open[p], closed, b, costs),
        forall|p: Position| #[trigger] closed.contains_key(p) ==> on_grid(p, car) && link_ok(p, closed[p], closed, b, costs),
        forall|q: Position|
            #[trigger] closed.contains_key(q) && sq_dist(q, target) >= NEAR_SQ ==> neighbours_searched((open, closed), q, b, costs),
        1 <= closed.dom().len() <= MAX_POPS,
        open.dom().len() <= 8 * closed.dom().len(),
        forall|p: Position, q: Position|
            #[trigger] closed.contains_key(p) && #[trigger] closed.contains_key(q) && sq_dist(p, target) < NEAR_SQ
                && sq_dist(q, target) < NEAR_SQ ==> p == q,
        (exists|p: Position| #[trigger] closed.contains_key(p) && sq_dist(p, target) < NEAR_SQ) || closed.dom().len()
            == MAX_POPS,
{
    let pops = choose|pops: Seq<Position>|
        {
            &&& valid_pops(car, target, b, costs, pops)
            &&& search_done(car, target, b, costs, pops)
            &&& #[trigger] run(car, target, b, costs, pops) == (open, closed)
        };
    lemma_shape_run(car, target, b, costs, pops);
    if pops.len() == 0 {
        let s0 = start_maps(car, target);
        assert(s0.0.contains_key(car));
        assert(run(car, target, b, costs, pops) == s0);
        assert(!(s0.0.dom() =~= Set::<Position>::empty()));
    }
    assert forall|p: Position, q: Position|
        #[trigger] closed.contains_key(p) && #[trigger] closed.contains_key(q) && sq_dist(p, target) < NEAR_SQ
            && sq_dist(q, target) < NEAR_SQ implies p == q by {
        lemma_near_is_last(car, target, b, costs, pops, p);
        lemma_near_is_last(car, target, b, costs, pops, q);
    }
    if pops.len() > 0 && sq_dist(pops.last(), target) < NEAR_SQ {
        assert(closed.contains_key(pops[pops.len() - 1]));
    }
    if !(exists|p: Position| #[trigger] closed.contains_key(p) && sq_dist(p, target) < NEAR_SQ) && pops.len() > 0 {
        lemma_open_left(car, target, b, costs, pops);
    }
}

/// Every pop takes an open node of least total cost `g + h`; among open nodes of equal
/// total cost it takes one of least heuristic cost `h`. So the heuristic only breaks
/// ties, and the wall and cross costs in `g` decide which node is closed next.
pub proof fn law_pops_take_least_total_cost(
    car: Position,
    target: Position,
    b: ObstacleBounds,
    costs: CostTables,
    pops: Seq<Position>,
)
    requires
        valid_pops(car, target, b, costs, pops),
    ensures
        forall|i: int|
            #![trigger pops[i]]
            0 <= i < pops.len() ==> {
                let open = run(car, target, b, costs, pops.take(i)).0;
                &&& open.contains_key(pops[i])
                &&& forall|q: Position|
                    #[trigger] open.contains_key(q) ==> f_of(open[pops[i]]) <= f_of(open[q]) && (f_of(open[pops[i]])
                        == f_of(open[q]) ==> open[pops[i]].h_cost <= open[q].h_cost)
            },
{
    assert forall|i: int| #![trigger pops[i]] 0 <= i < pops.len() implies {
        let open = run(car, target, b, costs, pops.take(i)).0;
        &&& open.contains_key(pops[i])
        &&& forall|q: Position|
            #[trigger] open.contains_key(q) ==> f_of(open[pops[i]]) <= f_of(open[q]) && (f_of(open[pops[i]])
                == f_of(open[q]) ==> open[pops[i]].h_cost <= open[q].h_cost)
    } by {
        let open = run(car, target, b, costs, pops.take(i)).0;
        assert(is_min_in(open, pops[i]));
        assert forall|q: Position| #[trigger] open.contains_key(q) implies f_of(open[pops[i]]) <= f_of(open[q])
            && (f_of(open[pops[i]]) == f_of(open[q]) ==> open[pops[i]].h_cost <= open[q].h_cost) by {
            assert(crate::search::lex_le(open[pops[i]], open[q]));
        }
    }
}

} // verus!
