use vstd::prelude::*;
use crate::geometry::{Position, sq_dist, squared_distance, lemma_sq_dist_bounds};
use crate::route::{Node, Route, f_of};
use crate::geometry::checked_squared_distance;
use crate::search::{
    is_search_result, start_node, route_wf, costs_fit, parent_ok, neighbour, lex_le, start_maps, run,
    valid_pops, search_done, is_min_in, node_ok, expand, nearest_wall, step_cost, lemma_run_inv,
    lemma_step_cost_range, MAX_POPS, NEAR_SQ, WALL_BUFFER, table_ok, cross_cost, wall_cost,
    lemma_soft_cost_range, CostTables, neighbour_fits, wall_diffs_fit, relax_fits, expand_fits, pop_fits,
    continues, no_overflow, maps_inv, offset_x, offset_y, lemma_start_inv, lemma_pop_inv,
};

verus! {

/// Axis-aligned bounding box of a point cloud.
#[derive(Debug, Clone, Copy)]
pub struct Bounds {
    pub min_x: i32,
    pub max_x: i32,
    pub min_y: i32,
    pub max_y: i32,
}

/// Bounding boxes of the arena walls and of the central cross.
#[derive(Clone, Copy)]
pub struct ObstacleBounds {
    pub walls: Bounds,
    pub cross: Bounds,
}

/// Raw pixel clouds of the walls and of the cross.
pub struct Obstacles {
    pub walls: Vec<Position>,
    pub cross: Vec<Position>,
}

/// The soft penalties of the search as tables: `wall[n]` is the cost at distance `n`
/// from the nearest wall line (inside the wall buffer), `cross[d]` the cost at squared
/// distance `d` from the cross; nothing is charged past a table's end.
pub struct PenaltyTables {
    pub wall: Vec<i32>,
    pub cross: Vec<i32>,
}

impl View for PenaltyTables {
    type V = CostTables;

    open spec fn view(&self) -> CostTables {
        (self.wall@, self.cross@)
    }
}

/// The waypoint to steer towards and the length of the planned route.
pub struct NextInstruction {
    pub pos: Position,
    pub route_lenth: usize,
}

/// `b` is the exact bounding box of `points`.
pub open spec fn is_bounding_box(points: Seq<Position>, b: Bounds) -> bool {
    &&& forall|i: int|
        0 <= i < points.len() ==> b.min_x <= #[trigger] points[i].x <= b.max_x && b.min_y
            <= points[i].y <= b.max_y
    &&& exists|i: int| 0 <= i < points.len() && #[trigger] points[i].x == b.min_x
    &&& exists|i: int| 0 <= i < points.len() && #[trigger] points[i].x == b.max_x
    &&& exists|i: int| 0 <= i < points.len() && #[trigger] points[i].y == b.min_y
    &&& exists|i: int| 0 <= i < points.len() && #[trigger] points[i].y == b.max_y
}

/// The bounding box of a point cloud; `None` for an empty cloud.
pub fn bounds(points: &[Position]) -> (r: Option<Bounds>)
    ensures
        r is None <==> points@.len() == 0,
        r matches Some(b) ==> is_bounding_box(points@, b),
{
    if points.len() == 0 {
        return None;
    }
    let mut b = Bounds { min_x: points[0].x, max_x: points[0].x, min_y: points[0].y, max_y: points[0].y };
    let mut ix: usize = 0;
    let mut ax: usize = 0;
    let mut iy: usize = 0;
    let mut ay: usize = 0;
    let mut i: usize = 1;
    while i < points.len()
        invariant
            1 <= i <= points@.len(),
            ix < i && ax < i && iy < i && ay < i,
            points@[ix as int].x == b.min_x,
            points@[ax as int].x == b.max_x,
            points@[iy as int].y == b.min_y,
            points@[ay as int].y == b.max_y,
            forall|j: int|
                0 <= j < i ==> b.min_x <= #[trigger] points@[j].x <= b.max_x && b.min_y
                    <= points@[j].y <= b.max_y,
        decreases points@.len() - i,
    {
        let p = points[i];
        if p.x < b.min_x {
            b.min_x = p.x;
            ix = i;
        }
        if p.x > b.max_x {
            b.max_x = p.x;
            ax = i;
        }
        if p.y < b.min_y {
            b.min_y = p.y;
            iy = i;
        }
        if p.y > b.max_y {
            b.max_y = p.y;
            ay = i;
        }
        i = i + 1;
    }
    proof {
        assert(points@[ix as int].x == b.min_x);
        assert(points@[ax as int].x == b.max_x);
        assert(points@[iy as int].y == b.min_y);
        assert(points@[ay as int].y == b.max_y);
    }
    Some(b)
}

/// Squared distance between two positions as the planner computes it.
pub fn dist_to_target(pos: &Position, target: &Position) -> (d: i32)
    requires
        sq_dist(*pos, *target) <= i32::MAX,
    ensures
        d == sq_dist(*pos, *target),
{
    squared_distance(pos, target)
}

/// Gap between a coordinate and an interval (0 inside it).
pub open spec fn axis_gap(v: int, lo: int, hi: int) -> int {
    if v < lo {
        lo - v
    } else if v > hi {
        v - hi
    } else {
        0
    }
}

/// Squared distance from a point to an axis-aligned box (0 inside it).
pub open spec fn rect_dist_sq(p: Position, b: Bounds) -> int {
    axis_gap(p.x as int, b.min_x as int, b.max_x as int) * axis_gap(
        p.x as int,
        b.min_x as int,
        b.max_x as int,
    ) + axis_gap(p.y as int, b.min_y as int, b.max_y as int) * axis_gap(
        p.y as int,
        b.min_y as int,
        b.max_y as int,
    )
}

/// Squared distance from `p` to the box `b` when it fits in i32, else `None`.
fn rect_dist_checked(p: &Position, b: &Bounds) -> (r: Option<i32>)
    ensures
        r is None <==> rect_dist_sq(*p, *b) > i32::MAX,
        r matches Some(d) ==> d == rect_dist_sq(*p, *b),
{
    let dx: i64 = if p.x < b.min_x {
        b.min_x as i64 - p.x as i64
    } else if p.x > b.max_x {
        p.x as i64 - b.max_x as i64
    } else {
        0
    };
    let dy: i64 = if p.y < b.min_y {
        b.min_y as i64 - p.y as i64
    } else if p.y > b.max_y {
        p.y as i64 - b.max_y as i64
    } else {
        0
    };
    let dx2: i128 = dx as i128;
    let dy2: i128 = dy as i128;
    assert(0 <= dx2 * dx2 <= 0x1_0000_0000 * 0x1_0000_0000) by (nonlinear_arith)
        requires
            0 <= dx2 <= 0x1_0000_0000,
    ;
    assert(0 <= dy2 * dy2 <= 0x1_0000_0000 * 0x1_0000_0000) by (nonlinear_arith)
        requires
            0 <= dy2 <= 0x1_0000_0000,
    ;
    let d: i128 = dx2 * dx2 + dy2 * dy2;
    if d > i32::MAX as i128 {
        None
    } else {
        Some(d as i32)
    }
}

/// Squared distance from `p` to the box `b`, which must fit in i32.
pub fn dist_to_rect(p: &Position, b: &Bounds) -> (d: i32)
    requires
        rect_dist_sq(*p, *b) <= i32::MAX,
    ensures
        d == rect_dist_sq(*p, *b),
{
    rect_dist_checked(p, b).unwrap()
}

/// Index `i` holds a ball nearest to `car`, and no later ball is as near.
pub open spec fn is_last_nearest(car: Position, balls: Seq<Position>, i: int) -> bool {
    &&& 0 <= i < balls.len()
    &&& forall|j: int| 0 <= j < balls.len() ==> sq_dist(car, balls[i]) <= sq_dist(car, #[trigger] balls[j])
    &&& forall|j: int| i < j < balls.len() ==> sq_dist(car, balls[i]) < sq_dist(car, #[trigger] balls[j])
}

/// The ball nearest to the car (squared distance); on ties the last one in the list.
pub fn find_nearest_ball(car: &Position, balls: &Vec<Position>) -> (r: Option<Position>)
    requires
        forall|i: int| 0 <= i < balls@.len() ==> sq_dist(*car, #[trigger] balls@[i]) <= i32::MAX,
    ensures
        r is None <==> balls@.len() == 0,
        r matches Some(b) ==> exists|i: int| is_last_nearest(*car, balls@, i) && balls@[i] == b,
{
    let mut shortest: Option<Position> = None;
    let mut distance: Option<i32> = None;
    let ghost mut best: int = -1;
    let mut k: usize = 0;
    while k < balls.len()
        invariant
            0 <= k <= balls@.len(),
            forall|i: int| 0 <= i < balls@.len() ==> sq_dist(*car, #[trigger] balls@[i]) <= i32::MAX,
            k == 0 ==> shortest is None && distance is None,
            k > 0 ==> {
                &&& 0 <= best < k
                &&& shortest == Some(balls@[best])
                &&& distance == Some(sq_dist(*car, balls@[best]) as i32)
                &&& forall|j: int| 0 <= j < k ==> sq_dist(*car, balls@[best]) <= sq_dist(*car, #[trigger] balls@[j])
                &&& forall|j: int| best < j < k ==> sq_dist(*car, balls@[best]) < sq_dist(*car, #[trigger] balls@[j])
            },
        decreases balls@.len() - k,
    {
        let ball = balls[k];
        proof {
            lemma_sq_dist_bounds(*car, ball);
            if k > 0 {
                lemma_sq_dist_bounds(*car, balls@[best]);
            }
        }
        let d = squared_distance(car, &ball);
        let mut skip = false;
        if let Some(dist) = distance {
            if d > dist {
                skip = true;
            }
        }
        if !skip {
            shortest = Some(ball);
            distance = Some(d);
            proof {
                best = k as int;
            }
        }
        k = k + 1;
    }
    proof {
        if k > 0 {
            assert(is_last_nearest(*car, balls@, best));
        }
    }
    shortest
}


/// The `idx`-th grid neighbour of `cur`, when its coordinates fit in i32.
fn neighbour_checked(cur: &Position, idx: usize) -> (r: Option<Position>)
    requires
        idx < 8,
    ensures
        r is None <==> !neighbour_fits(*cur, idx as int),
        r matches Some(n) ==> n == neighbour(*cur, idx as int),
{
    let dx: i64 = if idx == 0 || idx == 2 || idx == 4 {
        20
    } else if idx == 1 || idx == 3 || idx == 5 {
        -20
    } else {
        0
    };
    let dy: i64 = if idx == 0 || idx == 1 || idx == 7 {
        20
    } else if idx == 2 || idx == 3 || idx == 6 {
        -20
    } else {
        0
    };
    assert(dx == offset_x(idx as int) && dy == offset_y(idx as int));
    let x = cur.x as i64 + dx;
    let y = cur.y as i64 + dy;
    if x < i32::MIN as i64 || x > i32::MAX as i64 || y < i32::MIN as i64 || y > i32::MAX as i64 {
        None
    } else {
        Some(Position { x: x as i32, y: y as i32 })
    }
}

/// Distance from `n` to the nearest wall line, when the four differences and their
/// absolute values fit in i32.
fn nearest_wall_checked(n: &Position, w: &Bounds) -> (r: Option<i32>)
    ensures
        r is None <==> !wall_diffs_fit(*n, *w),
        r matches Some(v) ==> v == nearest_wall(*n, *w) && v >= 0,
{
    let d0 = w.min_x as i64 - n.x as i64;
    let d1 = w.max_x as i64 - n.x as i64;
    let d2 = w.min_y as i64 - n.y as i64;
    let d3 = w.max_y as i64 - n.y as i64;
    let lo = -(i32::MAX as i64);
    let hi = i32::MAX as i64;
    if d0 < lo || d0 > hi || d1 < lo || d1 > hi || d2 < lo || d2 > hi || d3 < lo || d3 > hi {
        return None;
    }
    let a0: i64 = if d0 < 0 { -d0 } else { d0 };
    let a1: i64 = if d1 < 0 { -d1 } else { d1 };
    let a2: i64 = if d2 < 0 { -d2 } else { d2 };
    let a3: i64 = if d3 < 0 { -d3 } else { d3 };
    let m01: i64 = if a0 <= a1 { a0 } else { a1 };
    let m23: i64 = if a2 <= a3 { a2 } else { a3 };
    let m: i64 = if m01 <= m23 { m01 } else { m23 };
    Some(m as i32)
}

/// Index of the first entry that no other entry precedes in (total cost, heuristic cost).
fn min_entry(entries: &Vec<(Position, Node)>) -> (best: usize)
    requires
        entries@.len() > 0,
        forall|i: int|
            0 <= i < entries@.len() ==> i32::MIN <= #[trigger] f_of(entries@[i].1) <= i32::MAX,
    ensures
        best < entries@.len(),
        forall|j: int| 0 <= j < entries@.len() ==> lex_le(entries@[best as int].1, #[trigger] entries@[j].1),
        forall|j: int|
            0 <= j < entries@.len() ==> f_of(entries@[best as int].1) <= f_of(#[trigger] entries@[j].1) && (f_of(
                entries@[best as int].1,
            ) == f_of(entries@[j].1) ==> entries@[best as int].1.h_cost <= entries@[j].1.h_cost),
{
    let mut best: usize = 0;
    let mut best_f: i32 = entries[0].1.f_cost();
    let mut best_h: i32 = entries[0].1.h_cost;
    let mut j: usize = 1;
    while j < entries.len()
        invariant
            1 <= j <= entries@.len(),
            best < j,
            best_f == f_of(entries@[best as int].1),
            best_h == entries@[best as int].1.h_cost,
            forall|i: int|
                0 <= i < entries@.len() ==> i32::MIN <= #[trigger] f_of(entries@[i].1) <= i32::MAX,
            forall|k: int| 0 <= k < j ==> lex_le(entries@[best as int].1, #[trigger] entries@[k].1),
        decreases entries@.len() - j,
    {
        let f = entries[j].1.f_cost();
        let h = entries[j].1.h_cost;
        if f < best_f || (f == best_f && h < best_h) {
            best = j;
            best_f = f;
            best_h = h;
        }
        j = j + 1;
    }
    best
}

/// Whether no entry of either penalty table is negative.
pub fn tables_ok(pen: &PenaltyTables) -> (ok: bool)
    ensures
        ok == table_ok(pen@),
{
    let mut i: usize = 0;
    while i < pen.wall.len()
        invariant
            i <= pen.wall@.len(),
            forall|k: int| 0 <= k < i ==> 0 <= #[trigger] pen.wall@[k],
        decreases pen.wall@.len() - i,
    {
        if pen.wall[i] < 0 {
            assert(pen@.0[i as int] < 0);
            return false;
        }
        i = i + 1;
    }
    let mut j: usize = 0;
    while j < pen.cross.len()
        invariant
            j <= pen.cross@.len(),
            forall|k: int| 0 <= k < pen.wall@.len() ==> 0 <= #[trigger] pen.wall@[k],
            forall|k: int| 0 <= k < j ==> 0 <= #[trigger] pen.cross@[k],
        decreases pen.cross@.len() - j,
    {
        if pen.cross[j] < 0 {
            assert(pen@.1[j as int] < 0);
            return false;
        }
        j = j + 1;
    }
    true
}

/// What the planner promises of the open and closed nodes it returns.
pub open spec fn route_result(
    car: Position,
    target: Position,
    b: ObstacleBounds,
    costs: CostTables,
    r: (Map<Position, Node>, Map<Position, Node>),
) -> bool {
    &&& is_search_result(car, target, b, costs, r.0, r.1)
    &&& r.1.contains_key(car)
    &&& r.1[car] == start_node(car, target)
    &&& route_wf(r.1)
    &&& chains_finite(r.1)
    &&& costs_fit(r.1)
    &&& forall|p: Position| #[trigger] r.0.contains_key(p) ==> parent_ok(r.0[p], r.1)
    &&& forall|p: Position| !(#[trigger] r.0.contains_key(p) && r.1.contains_key(p))
    &&& forall|p: Position| #[trigger] r.0.contains_key(p) ==> r.0[p].h_cost == sq_dist(p, target)
    &&& forall|p: Position| #[trigger] r.1.contains_key(p) ==> r.1[p].h_cost == sq_dist(p, target)
}

/// Weighted grid search from `car` towards `target` around the walls and the cross.
///
/// Positions lie on a 20 px grid around the car. A least open node (by total cost, then
/// heuristic cost) is closed in each round; the search stops when it closes a node
/// within 80 px of the target, when nothing is open, or after 1000 rounds. A
/// neighbour costs its squared step length plus the soft wall and cross penalties read
/// from `pen` (see `step_cost`).
/// Returns the open and the closed nodes. No value the search computes may leave i32
/// (see `no_overflow`).
pub fn calc_route(car: &Position, target: &Position, bounds: &ObstacleBounds, pen: &PenaltyTables) -> (r: (
    Route,
    Route,
))
    requires
        table_ok(pen@),
        no_overflow(*car, *target, *bounds, pen@),
    ensures
        route_result(*car, *target, *bounds, pen@, (r.0@, r.1@)),
{
    let r = search_route(car, target, bounds, pen);
    r.unwrap()
}

/// The search of `calc_route`, stopped with `None` as soon as a value it computes would
/// leave i32; it always finishes when no run of the search can overflow.
pub fn calc_route_checked(car: &Position, target: &Position, bounds: &ObstacleBounds, pen: &PenaltyTables) -> (r:
    Option<(Route, Route)>)
    requires
        table_ok(pen@),
    ensures
        r matches Some(x) ==> route_result(*car, *target, *bounds, pen@, (x.0@, x.1@)),
        r is None ==> !no_overflow(*car, *target, *bounds, pen@),
{
    search_route(car, target, bounds, pen)
}

/// The wall cost at distance `n` from the nearest wall line.
fn wall_cost_at(n: i32, pen: &PenaltyTables) -> (c: i32)
    requires
        n >= 0,
        table_ok(pen@),
    ensures
        c == wall_cost(pen@, n as int),
{
    if n < WALL_BUFFER && (n as usize) < pen.wall.len() {
        pen.wall[n as usize]
    } else {
        0
    }
}

/// The cross cost at squared distance `d` from the cross.
fn cross_cost_at(d: i32, pen: &PenaltyTables) -> (c: i32)
    requires
        d >= 0,
        table_ok(pen@),
    ensures
        c == cross_cost(pen@, d as int),
{
    if (d as usize) < pen.cross.len() {
        pen.cross[d as usize]
    } else {
        0
    }
}

/// A run that goes on into a state whose total costs do not all fit in i32 overflows.
proof fn lemma_costs_witness(
    car: Position,
    target: Position,
    b: ObstacleBounds,
    costs: CostTables,
    pops: Seq<Position>,
)
    requires
        valid_pops(car, target, b, costs, pops),
        continues(target, pops),
        !costs_fit(run(car, target, b, costs, pops).0),
    ensures
        !no_overflow(car, target, b, costs),
{
}

/// A run that goes on into a pop that leaves i32 overflows.
proof fn lemma_pop_witness(
    car: Position,
    target: Position,
    b: ObstacleBounds,
    costs: CostTables,
    pops: Seq<Position>,
    p: Position,
)
    requires
        valid_pops(car, target, b, costs, pops),
        continues(target, pops),
        is_min_in(run(car, target, b, costs, pops).0, p),
        !pop_fits(run(car, target, b, costs, pops), p, target, b, costs),
    ensures
        !no_overflow(car, target, b, costs),
{
}

fn search_route(car: &Position, target: &Position, bounds: &ObstacleBounds, pen: &PenaltyTables) -> (r: Option<
    (Route, Route),
>)
    requires
        table_ok(pen@),
    ensures
        r matches Some(x) ==> route_result(*car, *target, *bounds, pen@, (x.0@, x.1@)),
        r is None ==> !no_overflow(*car, *target, *bounds, pen@),
{
    let ghost tv: CostTables = pen@;
    let mut open = Route::new();
    let mut closed = Route::new();
    let h0 = match checked_squared_distance(car, target) {
        None => {
            return None;
        },
        Some(h) => h,
    };
    open.insert(*car, Node { g_cost: 0, h_cost: h0, parent: None });
    let ghost mut pops: Seq<Position> = Seq::empty();
    proof {
        assert(open@ =~= start_maps(*car, *target).0);
        assert(closed@ =~= start_maps(*car, *target).1);
        lemma_start_inv(*car, *target);
    }
    let mut i: usize = 0;
    let mut done = false;
    while !done
        invariant
            tv == pen@,
            table_ok(tv),
            i == pops.len(),
            i <= MAX_POPS,
            valid_pops(*car, *target, *bounds, tv, pops),
            maps_inv(run(*car, *target, *bounds, tv, pops), *car, *target, pops.len() as int),
            open@ == run(*car, *target, *bounds, tv, pops).0,
            closed@ == run(*car, *target, *bounds, tv, pops).1,
            done ==> search_done(*car, *target, *bounds, tv, pops),
            !done && pops.len() > 0 ==> sq_dist(pops.last(), *target) >= NEAR_SQ,
        decreases MAX_POPS - i, (if done { 0int } else { 1int }),
    {
        if i >= MAX_POPS {
            done = true;
        } else {
            let entries = open.entries();
            if entries.len() == 0 {
                proof {
                    assert(open@.dom() =~= Set::<Position>::empty());
                }
                done = true;
            } else {
                proof {
                    assert(continues(*target, pops));
                }
                let mut j: usize = 0;
                while j < entries.len()
                    invariant
                        j <= entries@.len(),
                        forall|k: int|
                            0 <= k < entries@.len() ==> open@.contains_key(#[trigger] entries@[k].0)
                                && open@[entries@[k].0] == entries@[k].1,
                        forall|k: int| 0 <= k < j ==> i32::MIN <= #[trigger] f_of(entries@[k].1) <= i32::MAX,
                        valid_pops(*car, *target, *bounds, tv, pops),
                        continues(*target, pops),
                        open@ == run(*car, *target, *bounds, tv, pops).0,
                        tv == pen@,
                    decreases entries@.len() - j,
                {
                    let f: i64 = entries[j].1.g_cost as i64 + entries[j].1.h_cost as i64;
                    if f < i32::MIN as i64 || f > i32::MAX as i64 {
                        proof {
                            assert(open@.contains_key(entries@[j as int].0));
                            assert(!costs_fit(open@));
                            assert(continues(*target, pops));
                            lemma_costs_witness(*car, *target, *bounds, tv, pops);
                        }
                        return None;
                    }
                    j = j + 1;
                }
                let best = min_entry(&entries);
                let cur_pos = entries[best].0;
                let cur_node = entries[best].1;
                let ghost s = run(*car, *target, *bounds, tv, pops);
                proof {
                    assert forall|q: Position| #[trigger] s.0.contains_key(q) implies lex_le(s.0[cur_pos], s.0[q]) by {
                        let k = choose|k: int| 0 <= k < entries@.len() && #[trigger] entries@[k].0 == q;
                        assert(lex_le(entries@[best as int].1, entries@[k].1));
                    }
                    assert(is_min_in(s.0, cur_pos));
                    assert forall|q: Position| #[trigger] s.0.contains_key(q) implies i32::MIN <= f_of(s.0[q])
                        <= i32::MAX by {
                        let k = choose|k: int| 0 <= k < entries@.len() && #[trigger] entries@[k].0 == q;
                        assert(i32::MIN <= f_of(entries@[k].1) <= i32::MAX);
                    }
                    assert(costs_fit(s.0));
                    assert(continues(*target, pops));
                    assert(node_ok(cur_pos, cur_node, *target));
                }
                open.remove(&cur_pos);
                closed.insert(cur_pos, cur_node);
                let ghost old_pops = pops;
                let ghost open1 = open@;
                let ghost closed2 = closed@;
                proof {
                    pops = pops.push(cur_pos);
                    assert(pops.drop_last() =~= old_pops);
                    assert forall|k: int| 0 <= k < pops.len() implies is_min_in(
                        #[trigger] run(*car, *target, *bounds, tv, pops.take(k)).0,
                        pops[k],
                    ) by {
                        if k < old_pops.len() {
                            assert(pops.take(k) =~= old_pops.take(k));
                        } else {
                            assert(pops.take(k) =~= old_pops);
                        }
                    }
                    assert forall|k: int| 0 <= k < pops.len() - 1 implies sq_dist(#[trigger] pops[k], *target)
                        >= NEAR_SQ by {
                        assert(pops[k] == old_pops[k]);
                    }
                    assert(valid_pops(*car, *target, *bounds, tv, pops));
                    assert(open1 == s.0.remove(cur_pos));
                    assert(closed2 == s.1.insert(cur_pos, s.0[cur_pos]));
                }
                i = i + 1;
                if cur_node.h_cost < NEAR_SQ {
                    proof {
                        assert(pop_fits(s, cur_pos, *target, *bounds, tv));
                        lemma_pop_inv(s, cur_pos, *car, *target, *bounds, tv, old_pops.len() as int);
                        assert(open@ =~= run(*car, *target, *bounds, tv, pops).0);
                        assert(closed@ =~= run(*car, *target, *bounds, tv, pops).1);
                    }
                    done = true;
                } else {
                    let mut idx: usize = 0;
                    while idx < 8
                        invariant
                            tv == pen@,
                            table_ok(tv),
                                            0 <= idx <= 8,
                            i == old_pops.len() + 1,
                            i <= MAX_POPS,
                            s == run(*car, *target, *bounds, tv, old_pops),
                            valid_pops(*car, *target, *bounds, tv, old_pops),
                            continues(*target, old_pops),
                            is_min_in(s.0, cur_pos),
                            cur_node == s.0[cur_pos],
                            node_ok(cur_pos, cur_node, *target),
                            sq_dist(cur_pos, *target) >= NEAR_SQ,
                            open1 == s.0.remove(cur_pos),
                            closed2 == s.1.insert(cur_pos, s.0[cur_pos]),
                            open@ == expand(open1, closed2, cur_pos, cur_node, *target, *bounds, tv, idx as nat),
                            closed@ == closed2,
                            forall|k: int| 0 <= k < idx ==> #[trigger] neighbour_fits(cur_pos, k),
                            forall|k: nat|
                                k < idx ==> #[trigger] relax_fits(
                                    expand(open1, closed2, cur_pos, cur_node, *target, *bounds, tv, k),
                                    closed2,
                                    cur_pos,
                                    cur_node,
                                    neighbour(cur_pos, k as int),
                                    *target,
                                    *bounds,
                                    tv,
                                ),
                        decreases 8 - idx,
                    {
                        let ghost before = open@;
                        let n = match neighbour_checked(&cur_pos, idx) {
                            None => {
                                proof {
                                    assert(!expand_fits(open1, closed2, cur_pos, cur_node, *target, *bounds, tv));
                                    lemma_pop_witness(*car, *target, *bounds, tv, old_pops, cur_pos);
                                }
                                return None;
                            },
                            Some(n) => n,
                        };
                        proof {
                            lemma_step_cost_range(cur_pos, idx as int, *bounds, tv);
                        }
                        if !closed.contains(&n) {
                            let nearest = match nearest_wall_checked(&n, &bounds.walls) {
                                None => {
                                    proof {
                                        assert(!relax_fits(
                                            expand(open1, closed2, cur_pos, cur_node, *target, *bounds, tv, idx as nat),
                                            closed2,
                                            cur_pos,
                                            cur_node,
                                            neighbour(cur_pos, idx as int),
                                            *target,
                                            *bounds,
                                            tv,
                                        ));
                                        assert(!expand_fits(open1, closed2, cur_pos, cur_node, *target, *bounds, tv));
                                        lemma_pop_witness(*car, *target, *bounds, tv, old_pops, cur_pos);
                                    }
                                    return None;
                                },
                                Some(v) => v,
                            };
                            let cross_dist_sq = match rect_dist_checked(&n, &bounds.cross) {
                                None => {
                                    proof {
                                        assert(!relax_fits(
                                            expand(open1, closed2, cur_pos, cur_node, *target, *bounds, tv, idx as nat),
                                            closed2,
                                            cur_pos,
                                            cur_node,
                                            neighbour(cur_pos, idx as int),
                                            *target,
                                            *bounds,
                                            tv,
                                        ));
                                        assert(!expand_fits(open1, closed2, cur_pos, cur_node, *target, *bounds, tv));
                                        lemma_pop_witness(*car, *target, *bounds, tv, old_pops, cur_pos);
                                    }
                                    return None;
                                },
                                Some(d) => d,
                            };
                            proof {
                                lemma_soft_cost_range(tv, nearest as int, cross_dist_sq as int);
                            }
                            let mut obstacle_cost: i64 = 0;
                            if nearest < WALL_BUFFER {
                                obstacle_cost = wall_cost_at(nearest, pen) as i64;
                            }
                            assert(cross_dist_sq >= 0) by {
                                lemma_rect_dist_nonneg(n, bounds.cross);
                            }
                            obstacle_cost = obstacle_cost + cross_cost_at(cross_dist_sq, pen) as i64;
                            let movement_cost = dist_to_target(&n, &cur_pos);
                            let new_g: i64 = cur_node.g_cost as i64 + movement_cost as i64 + obstacle_cost;
                            assert(new_g == cur_node.g_cost + step_cost(cur_pos, n, *bounds, tv));
                            if new_g > i32::MAX as i64 {
                                proof {
                                    assert(!relax_fits(
                                        expand(open1, closed2, cur_pos, cur_node, *target, *bounds, tv, idx as nat),
                                        closed2,
                                        cur_pos,
                                        cur_node,
                                        neighbour(cur_pos, idx as int),
                                        *target,
                                        *bounds,
                                        tv,
                                    ));
                                    assert(!expand_fits(open1, closed2, cur_pos, cur_node, *target, *bounds, tv));
                                    lemma_pop_witness(*car, *target, *bounds, tv, old_pops, cur_pos);
                                }
                                return None;
                            }
                            match open.get(&n) {
                                None => {
                                    let h = match checked_squared_distance(&n, target) {
                                        None => {
                                            proof {
                                                assert(!relax_fits(
                                                    expand(
                                                        open1,
                                                        closed2,
                                                        cur_pos,
                                                        cur_node,
                                                        *target,
                                                        *bounds,
                                                        tv,
                                                        idx as nat,
                                                    ),
                                                    closed2,
                                                    cur_pos,
                                                    cur_node,
                                                    neighbour(cur_pos, idx as int),
                                                    *target,
                                                    *bounds,
                                                    tv,
                                                ));
                                                assert(!expand_fits(
                                                    open1,
                                                    closed2,
                                                    cur_pos,
                                                    cur_node,
                                                    *target,
                                                    *bounds,
                                                    tv,
                                                ));
                                                lemma_pop_witness(*car, *target, *bounds, tv, old_pops, cur_pos);
                                            }
                                            return None;
                                        },
                                        Some(h) => h,
                                    };
                                    open.insert(n, Node { g_cost: new_g as i32, h_cost: h, parent: Some(cur_pos) });
                                },
                                Some(node) => {
                                    if (new_g as i32) < node.g_cost {
                                        open.insert(
                                            n,
                                            Node { g_cost: new_g as i32, h_cost: node.h_cost, parent: Some(cur_pos) },
                                        );
                                    }
                                },
                            }
                        }
                        proof {
                            assert(relax_fits(
                                before,
                                closed2,
                                cur_pos,
                                cur_node,
                                neighbour(cur_pos, idx as int),
                                *target,
                                *bounds,
                                tv,
                            ));
                            assert(expand(open1, closed2, cur_pos, cur_node, *target, *bounds, tv, (idx + 1) as nat)
                                == crate::search::relax(
                                before,
                                closed2,
                                cur_pos,
                                cur_node,
                                n,
                                *target,
                                *bounds,
                                tv,
                            ));
                            assert(open@ =~= expand(
                                open1,
                                closed2,
                                cur_pos,
                                cur_node,
                                *target,
                                *bounds,
                                tv,
                                (idx + 1) as nat,
                            ));
                        }
                        idx = idx + 1;
                    }
                    proof {
                        assert(expand_fits(open1, closed2, cur_pos, cur_node, *target, *bounds, tv));
                        assert(pop_fits(s, cur_pos, *target, *bounds, tv));
                        lemma_pop_inv(s, cur_pos, *car, *target, *bounds, tv, old_pops.len() as int);
                        assert(open@ == run(*car, *target, *bounds, tv, pops).0);
                        assert(closed@ == run(*car, *target, *bounds, tv, pops).1);
                    }
                }
            }
        }
    }
    proof {
        let sm = run(*car, *target, *bounds, tv, pops);
        if pops.len() == 0 {
            assert(sm.0.contains_key(*car));
        }
        assert(is_search_result(*car, *target, *bounds, tv, open@, closed@));
        lemma_wf_chains_finite(closed@);
    }
    Some((open, closed))
}

/// A squared distance to a box is never negative.
proof fn lemma_rect_dist_nonneg(p: Position, b: Bounds)
    ensures
        rect_dist_sq(p, b) >= 0,
{
    let gx = axis_gap(p.x as int, b.min_x as int, b.max_x as int);
    let gy = axis_gap(p.y as int, b.min_y as int, b.max_y as int);
    assert(gx * gx >= 0 && gy * gy >= 0) by (nonlinear_arith);
}

/// Every node's chain of parents stays inside the route and ends at a node without a
/// parent: the parent links form no cycle.
pub open spec fn chains_finite(m: Map<Position, Node>) -> bool {
    forall|p: Position| #[trigger] m.contains_key(p) ==> exists|chain: Seq<Position>| is_parent_chain(m, p, chain)
}

/// The chain of parents of `p` in a route whose parent links lower the cost.
pub proof fn lemma_chain_of(m: Map<Position, Node>, p: Position) -> (chain: Seq<Position>)
    requires
        route_wf(m),
        m.contains_key(p),
    ensures
        is_parent_chain(m, p, chain),
    decreases m[p].g_cost - i32::MIN,
{
    match m[p].parent {
        None => Seq::empty(),
        Some(q) => {
            assert(parent_ok(m[p], m));
            let c = lemma_chain_of(m, q);
            let chain = seq![q] + c;
            assert forall|i: int| 0 <= i < chain.len() - 1 implies m[#[trigger] chain[i]].parent == Some(
                chain[i + 1],
            ) by {
                if i > 0 {
                    assert(chain[i] == c[i - 1] && chain[i + 1] == c[i]);
                }
            }
            assert forall|i: int| 0 <= i < chain.len() implies m.contains_key(#[trigger] chain[i]) by {
                if i > 0 {
                    assert(chain[i] == c[i - 1]);
                }
            }
            if c.len() > 0 {
                assert(chain.last() == c.last());
            }
            chain
        },
    }
}

/// A route whose parent links lower the cost has finite chains.
pub proof fn lemma_wf_chains_finite(m: Map<Position, Node>)
    requires
        route_wf(m),
    ensures
        chains_finite(m),
{
    assert forall|p: Position| #[trigger] m.contains_key(p) implies exists|chain: Seq<Position>|
        is_parent_chain(m, p, chain) by {
        let c = lemma_chain_of(m, p);
    }
}

/// `chain` lists the parents of `p` in order: its parent, that node's parent, and so on
/// up to a node without a parent. All of them are in `m`.
pub open spec fn is_parent_chain(m: Map<Position, Node>, p: Position, chain: Seq<Position>) -> bool {
    &&& m.contains_key(p)
    &&& (chain.len() == 0 <==> m[p].parent is None)
    &&& chain.len() > 0 ==> m[p].parent == Some(chain[0])
    &&& forall|i: int| 0 <= i < chain.len() ==> m.contains_key(#[trigger] chain[i])
    &&& forall|i: int| 0 <= i < chain.len() - 1 ==> m[#[trigger] chain[i]].parent == Some(chain[i + 1])
    &&& chain.len() > 0 ==> m[chain.last()].parent is None
}

/// `p` is a node of `m` of least total cost.
pub open spec fn is_min_f(m: Map<Position, Node>, p: Position) -> bool {
    m.contains_key(p) && forall|q: Position| #[trigger] m.contains_key(q) ==> f_of(m[p]) <= f_of(m[q])
}

/// The waypoint chosen from a parent chain: the car itself for an empty chain, the
/// first parent for chains of up to five, else the fifth position from the root.
pub open spec fn waypoint(car: Position, chain: Seq<Position>) -> Position {
    if chain.len() == 0 {
        car
    } else if chain.len() <= 5 {
        chain[0]
    } else {
        chain[chain.len() - 5]
    }
}

/// The parents of the node at `p`, from its parent to the root.
fn parent_chain(route: &Route, p: &Position) -> (chain: Vec<Position>)
    requires
        route@.contains_key(*p),
        chains_finite(route@),
    ensures
        is_parent_chain(route@, *p, chain@),
{
    let ghost gc = choose|c: Seq<Position>| is_parent_chain(route@, *p, c);
    let mut inspect = route.get(p).unwrap();
    let mut pos: Vec<Position> = Vec::new();
    while inspect.parent.is_some()
        invariant
            is_parent_chain(route@, *p, gc),
            pos@.len() <= gc.len(),
            pos@ == gc.take(pos@.len() as int),
            pos@.len() == 0 ==> inspect == route@[*p],
            pos@.len() > 0 ==> inspect == route@[gc[pos@.len() - 1]],
        decreases gc.len() - pos@.len(),
    {
        let parent = inspect.parent.unwrap();
        let ghost k = pos@.len() as int;
        proof {
            if k > 0 {
                if k == gc.len() {
                    assert(route@[gc.last()].parent is None);
                }
                assert(route@[gc[k - 1]].parent == Some(gc[k]));
            }
            assert(parent == gc[k]);
            assert(route@.contains_key(gc[k]));
        }
        pos.push(parent);
        proof {
            assert(pos@ =~= gc.take(k + 1));
        }
        inspect = route.get(&parent).unwrap();
    }
    proof {
        let k = pos@.len() as int;
        if k < gc.len() {
            if k > 0 {
                assert(route@[gc[k - 1]].parent == Some(gc[k]));
            }
        }
        assert(pos@ =~= gc);
    }
    pos
}

/// Index of the first entry of least total cost.
fn min_f_entry(entries: &Vec<(Position, Node)>) -> (best: usize)
    requires
        entries@.len() > 0,
        forall|i: int|
            0 <= i < entries@.len() ==> i32::MIN <= #[trigger] f_of(entries@[i].1) <= i32::MAX,
    ensures
        best < entries@.len(),
        forall|j: int| 0 <= j < entries@.len() ==> f_of(entries@[best as int].1) <= #[trigger] f_of(entries@[j].1),
{
    let mut best: usize = 0;
    let mut best_f: i32 = entries[0].1.f_cost();
    let mut j: usize = 1;
    while j < entries.len()
        invariant
            1 <= j <= entries@.len(),
            best < j,
            best_f == f_of(entries@[best as int].1),
            forall|i: int|
                0 <= i < entries@.len() ==> i32::MIN <= #[trigger] f_of(entries@[i].1) <= i32::MAX,
            forall|k: int| 0 <= k < j ==> f_of(entries@[best as int].1) <= #[trigger] f_of(entries@[k].1),
        decreases entries@.len() - j,
    {
        let f = entries[j].1.f_cost();
        if f < best_f {
            best = j;
            best_f = f;
        }
        j = j + 1;
    }
    best
}

/// Entries of `route` with total costs known to fit, for the minimum searches.
proof fn lemma_entries_fit(route: &Route, entries: Seq<(Position, Node)>)
    requires
        costs_fit(route@),
        forall|i: int|
            0 <= i < entries.len() ==> route@.contains_key(#[trigger] entries[i].0) && route@[entries[i].0]
                == entries[i].1,
    ensures
        forall|i: int| 0 <= i < entries.len() ==> i32::MIN <= #[trigger] f_of(entries[i].1) <= i32::MAX,
{
    assert forall|i: int| 0 <= i < entries.len() implies i32::MIN <= #[trigger] f_of(entries[i].1) <= i32::MAX by {
        assert(route@.contains_key(entries[i].0));
    }
}

/// The next waypoint along the route: from a node of least total cost, follow the
/// parents back to the start; steer to the fifth position from the start on long
/// routes, to the first parent on short ones, and to the car itself when the node
/// has no parent.
pub fn next_point(car: &Position, route: &Route) -> (r: NextInstruction)
    requires
        exists|p: Position| #[trigger] route@.contains_key(p),
        chains_finite(route@),
        costs_fit(route@),
    ensures
        exists|p: Position, chain: Seq<Position>|
            {
                &&& is_min_f(route@, p)
                &&& #[trigger] is_parent_chain(route@, p, chain)
                &&& r.pos == waypoint(*car, chain)
                &&& r.route_lenth == chain.len()
                &&& (chain.len() == 0 ==> r.pos == *car)
                &&& (0 < chain.len() <= 5 ==> route@[p].parent == Some(r.pos))
                &&& (chain.len() > 5 ==> r.pos == chain[chain.len() - 5] && is_parent_chain(
                    route@,
                    r.pos,
                    chain.subrange(chain.len() - 4, chain.len() as int),
                ))
            },
{
    let entries = route.entries();
    proof {
        let p = choose|p: Position| #[trigger] route@.contains_key(p);
        assert(exists|i: int| 0 <= i < entries@.len() && #[trigger] entries@[i].0 == p);
        lemma_entries_fit(route, entries@);
    }
    let best = min_f_entry(&entries);
    let start = entries[best].0;
    proof {
        assert forall|q: Position| #[trigger] route@.contains_key(q) implies f_of(route@[start]) <= f_of(route@[q]) by {
            let k = choose|k: int| 0 <= k < entries@.len() && #[trigger] entries@[k].0 == q;
            assert(f_of(entries@[best as int].1) <= f_of(entries@[k].1));
        }
    }
    let pos = parent_chain(route, &start);
    let n = pos.len();
    let point = if n == 0 {
        *car
    } else if n <= 5 {
        pos[0]
    } else {
        pos[n - 5]
    };
    proof {
        assert(is_parent_chain(route@, start, pos@));
        if n > 5 {
            let c = pos@;
            let sub = c.subrange(n - 4, n as int);
            assert(c[n - 5 + 1] == sub[0]);
            assert forall|i: int| 0 <= i < sub.len() implies route@.contains_key(#[trigger] sub[i]) by {
                assert(sub[i] == c[n - 4 + i]);
            }
            assert forall|i: int| 0 <= i < sub.len() - 1 implies route@[#[trigger] sub[i]].parent == Some(sub[i + 1]) by {
                assert(sub[i] == c[n - 4 + i]);
                assert(sub[i + 1] == c[n - 4 + i + 1]);
            }
            assert(sub.last() == c.last());
            assert(is_parent_chain(route@, point, sub));
        }
    }
    NextInstruction { pos: point, route_lenth: n }
}

/// The node of least total cost below `i32::MAX` (the first found on ties) and its
/// chain of parents; `None` when no node costs less than `i32::MAX`.
pub fn best_route(route: &Route) -> (r: Option<(Position, Vec<Position>)>)
    requires
        chains_finite(route@),
        costs_fit(route@),
    ensures
        r is None <==> forall|q: Position| #[trigger] route@.contains_key(q) ==> f_of(route@[q]) >= i32::MAX,
        r matches Some((p, chain)) ==> {
            &&& is_min_f(route@, p)
            &&& f_of(route@[p]) < i32::MAX
            &&& is_parent_chain(route@, p, chain@)
        },
{
    let entries = route.entries();
    proof {
        lemma_entries_fit(route, entries@);
    }
    let mut min_cost: i32 = i32::MAX;
    let mut min_pos: Option<Position> = None;
    let mut j: usize = 0;
    while j < entries.len()
        invariant
            j <= entries@.len(),
            forall|i: int|
                0 <= i < entries@.len() ==> i32::MIN <= #[trigger] f_of(entries@[i].1) <= i32::MAX,
            forall|i: int|
                0 <= i < entries@.len() ==> route@.contains_key(#[trigger] entries@[i].0) && route@[entries@[i].0]
                    == entries@[i].1,
            min_pos is None ==> min_cost == i32::MAX,
            min_pos matches Some(p) ==> route@.contains_key(p) && f_of(route@[p]) == min_cost && min_cost < i32::MAX,
            forall|k: int| 0 <= k < j ==> min_cost <= #[trigger] f_of(entries@[k].1),
        decreases entries@.len() - j,
    {
        let f = entries[j].1.f_cost();
        if f < min_cost {
            min_cost = f;
            min_pos = Some(entries[j].0);
        }
        j = j + 1;
    }
    match min_pos {
        Some(p) => {
            proof {
                assert forall|q: Position| #[trigger] route@.contains_key(q) implies f_of(route@[p]) <= f_of(
                    route@[q],
                ) by {
                    let k = choose|k: int| 0 <= k < entries@.len() && #[trigger] entries@[k].0 == q;
                    assert(min_cost <= f_of(entries@[k].1));
                }
            }
            let chain = parent_chain(route, &p);
            Some((p, chain))
        },
        None => {
            proof {
                assert forall|q: Position| #[trigger] route@.contains_key(q) implies f_of(route@[q]) >= i32::MAX by {
                    let k = choose|k: int| 0 <= k < entries@.len() && #[trigger] entries@[k].0 == q;
                    assert(min_cost <= f_of(entries@[k].1));
                }
            }
            None
        },
    }
}

/// The root of the route's chain: from a node of least total cost below `i32::MAX`,
/// the last parent reached; `None` when that node has no parent. Such a node must
/// exist.
pub fn get_first_node(route: &Route) -> (r: Option<Position>)
    requires
        exists|q: Position| #[trigger] route@.contains_key(q) && f_of(route@[q]) < i32::MAX,
        chains_finite(route@),
        costs_fit(route@),
    ensures
        exists|p: Position, chain: Seq<Position>|
            {
                &&& is_min_f(route@, p)
                &&& #[trigger] is_parent_chain(route@, p, chain)
                &&& r == (if chain.len() == 0 { None } else { Some(chain.last()) })
            },
{
    let found = best_route(route);
    let (p, chain) = found.unwrap();
    let n = chain.len();
    if n == 0 {
        None
    } else {
        Some(chain[n - 1])
    }
}

} // verus!

verus! {

/// A square leaves 0 or 1 when divided by 4.
proof fn lemma_square_mod4(a: int)
    ensures
        (a * a) % 4 == 0 || (a * a) % 4 == 1,
{
    let k = a / 2;
    let r = a % 2;
    assert(a == 2 * k + r);
    assert(a * a == 4 * (k * k + k * r) + r * r) by (nonlinear_arith)
        requires
            a == 2 * k + r,
    ;
    assert(r * r == r) by (nonlinear_arith)
        requires
            0 <= r < 2,
    ;
}

/// A sum of two squares never equals `i32::MAX`, which leaves 3 when divided by 4.
proof fn lemma_sq_dist_not_max(a: Position, b: Position)
    ensures
        sq_dist(a, b) != i32::MAX,
{
    lemma_square_mod4(a.x - b.x);
    lemma_square_mod4(a.y - b.y);
}

/// What the planner leaves in its closed nodes can always be followed: every parent
/// link stays inside them and lowers the cost, all costs fit, and the car is there as
/// the start node. So the closed nodes of any search that stays in i32 meet what `next_point`,
/// `best_route` and `get_first_node` need.
pub proof fn law_search_route_is_followable(
    car: Position,
    target: Position,
    b: ObstacleBounds,
    costs: CostTables,
    open: Map<Position, Node>,
    closed: Map<Position, Node>,
)
    requires
        no_overflow(car, target, b, costs),
        table_ok(costs),
        is_search_result(car, target, b, costs, open, closed),
    ensures
        route_wf(closed),
        chains_finite(closed),
        costs_fit(closed),
        closed.contains_key(car),
        closed[car] == start_node(car, target),
        exists|q: Position| #[trigger] closed.contains_key(q) && f_of(closed[q]) < i32::MAX,
{
    let pops = choose|pops: Seq<Position>|
        {
            &&& valid_pops(car, target, b, costs, pops)
            &&& search_done(car, target, b, costs, pops)
            &&& #[trigger] run(car, target, b, costs, pops) == (open, closed)
        };
    lemma_run_inv(car, target, b, costs, pops);
    if pops.len() == 0 {
        assert(open.contains_key(car));
    }
    lemma_sq_dist_not_max(car, target);
    assert(closed.contains_key(car) && f_of(closed[car]) < i32::MAX);
    lemma_wf_chains_finite(closed);
}

/// Every chain of parents in a search's closed nodes leads back to the car: a node
/// has no parent exactly when it is the car, and otherwise its chain ends at the car.
pub proof fn law_chains_end_at_car(
    car: Position,
    target: Position,
    b: ObstacleBounds,
    costs: CostTables,
    open: Map<Position, Node>,
    closed: Map<Position, Node>,
    p: Position,
    chain: Seq<Position>,
)
    requires
        no_overflow(car, target, b, costs),
        table_ok(costs),
        is_search_result(car, target, b, costs, open, closed),
        is_parent_chain(closed, p, chain),
    ensures
        chain.len() == 0 <==> p == car,
        chain.len() > 0 ==> chain.last() == car,
{
    let pops = choose|pops: Seq<Position>|
        {
            &&& valid_pops(car, target, b, costs, pops)
            &&& search_done(car, target, b, costs, pops)
            &&& #[trigger] run(car, target, b, costs, pops) == (open, closed)
        };
    lemma_run_inv(car, target, b, costs, pops);
    if pops.len() == 0 {
        assert(open.contains_key(car));
    }
    if chain.len() > 0 {
        assert(closed.contains_key(chain[chain.len() - 1]));
    }
}

/// A car already within 80 px of its target needs no search: nothing can overflow, and
/// the search closes the car alone and leaves nothing open.
pub proof fn law_near_target_closes_only_the_car(
    car: Position,
    target: Position,
    b: ObstacleBounds,
    costs: CostTables,
    open: Map<Position, Node>,
    closed: Map<Position, Node>,
)
    requires
        sq_dist(car, target) < NEAR_SQ,
    ensures
        no_overflow(car, target, b, costs),
        is_search_result(car, target, b, costs, open, closed) ==> open == Map::<Position, Node>::empty()
            && closed == Map::<Position, Node>::empty().insert(car, start_node(car, target)),
{
    lemma_sq_dist_bounds(car, target);
    let s0 = start_maps(car, target);
    assert forall|pops: Seq<Position>|
        #[trigger] valid_pops(car, target, b, costs, pops) && continues(target, pops) implies {
            let s = run(car, target, b, costs, pops);
            &&& costs_fit(s.0)
            &&& forall|p: Position| #[trigger] is_min_in(s.0, p) ==> pop_fits(s, p, target, b, costs)
        } by {
        if pops.len() > 0 {
            assert(pops.take(0) =~= Seq::<Position>::empty());
            assert(is_min_in(run(car, target, b, costs, pops.take(0)).0, pops[0]));
            assert(pops[0] == car);
            if pops.len() > 1 {
                assert(sq_dist(pops[0], target) >= NEAR_SQ);
            }
        }
        assert(pops.len() == 0);
        assert(run(car, target, b, costs, pops) == s0);
        assert(costs_fit(s0.0));
    }
    if is_search_result(car, target, b, costs, open, closed) {
        let pops = choose|pops: Seq<Position>|
            {
                &&& valid_pops(car, target, b, costs, pops)
                &&& search_done(car, target, b, costs, pops)
                &&& #[trigger] run(car, target, b, costs, pops) == (open, closed)
            };
        if pops.len() == 0 {
            assert(s0.0.contains_key(car));
            assert(run(car, target, b, costs, pops) == s0);
        }
        assert(pops.take(0) =~= Seq::<Position>::empty());
        assert(is_min_in(run(car, target, b, costs, pops.take(0)).0, pops[0]));
        assert(pops[0] == car);
        if pops.len() > 1 {
            assert(sq_dist(pops[0], target) >= NEAR_SQ);
        }
        assert(pops.drop_last() =~= Seq::<Position>::empty());
        assert(open =~= Map::<Position, Node>::empty());
        assert(closed =~= Map::<Position, Node>::empty().insert(car, start_node(car, target)));
    }
}

} // verus!
