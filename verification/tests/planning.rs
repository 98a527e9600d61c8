use track_analyzer::geometry::{checked_squared_distance, pythagoras, squared_distance, Position};
use track_analyzer::path::{
    best_route, bounds, calc_route, calc_route_checked, dist_to_rect, dist_to_target, find_nearest_ball,
    get_first_node, next_point, tables_ok, Bounds, ObstacleBounds, PenaltyTables,
};
use track_analyzer::penalty::{obstacle_penalty, CROSS_WEIGHT};
use track_analyzer::route::{Node, Route};

fn p(x: i32, y: i32) -> Position {
    Position::new(x, y)
}

/// The wall penalty of the planner, in f32 as the application tabulates it.
fn float_wall_penalty(nearest_wall: i32) -> i32 {
    let normalized = (350 - nearest_wall) as f32 / 350.0;
    (normalized.powf(4.0) * 70000.0) as i32
}

/// The cross penalty of the planner, in f32 as the application tabulates it.
fn float_cross_penalty(dist_sq: i32, safety_radius: i32) -> i32 {
    let dist = (dist_sq as f32).sqrt();
    if dist >= safety_radius as f32 {
        return 0;
    }
    let normalized = (safety_radius as f32 - dist) / safety_radius as f32;
    (normalized.powf(4.0) * 60000.0) as i32
}

fn tables() -> PenaltyTables {
    PenaltyTables {
        wall: (0..350).map(float_wall_penalty).collect(),
        cross: (0..160000).map(|d| float_cross_penalty(d, 400)).collect(),
    }
}

fn arena() -> ObstacleBounds {
    ObstacleBounds {
        walls: Bounds { min_x: 0, max_x: 1500, min_y: 0, max_y: 1000 },
        cross: Bounds { min_x: 700, max_x: 800, min_y: 450, max_y: 550 },
    }
}

#[test]
fn position_new_keeps_coordinates() {
    let q = p(3, -7);
    assert_eq!(q.x, 3);
    assert_eq!(q.y, -7);
}

#[test]
fn squared_distances() {
    assert_eq!(squared_distance(&p(0, 0), &p(3, 4)), 25);
    assert_eq!(pythagoras(&p(1, 1), &p(4, 5)), 25);
    assert_eq!(pythagoras(&p(4, 5), &p(1, 1)), 25);
    assert_eq!(dist_to_target(&p(-10, 0), &p(10, 0)), 400);
}

#[test]
fn bounds_of_points() {
    let pts = vec![p(5, 9), p(-2, 4), p(7, -1), p(0, 0)];
    let b = bounds(&pts).unwrap();
    assert_eq!((b.min_x, b.max_x, b.min_y, b.max_y), (-2, 7, -1, 9));
    assert!(bounds(&[]).is_none());
    let single = bounds(&[p(3, 3)]).unwrap();
    assert_eq!((single.min_x, single.max_x, single.min_y, single.max_y), (3, 3, 3, 3));
}

#[test]
fn distance_to_rectangle() {
    let b = Bounds { min_x: 10, max_x: 20, min_y: 10, max_y: 20 };
    assert_eq!(dist_to_rect(&p(15, 15), &b), 0);
    assert_eq!(dist_to_rect(&p(10, 20), &b), 0);
    assert_eq!(dist_to_rect(&p(5, 15), &b), 25);
    assert_eq!(dist_to_rect(&p(23, 24), &b), 9 + 16);
    assert_eq!(dist_to_rect(&p(0, 0), &b), 200);
}

#[test]
fn nearest_ball_prefers_the_last_of_equals() {
    let car = p(0, 0);
    assert_eq!(find_nearest_ball(&car, &vec![]), None);
    let balls = vec![p(10, 0), p(5, 5), p(0, 10), p(3, 4)];
    assert_eq!(find_nearest_ball(&car, &balls), Some(p(3, 4)));
    let ties = vec![p(10, 0), p(0, 10), p(-10, 0)];
    assert_eq!(find_nearest_ball(&car, &ties), Some(p(-10, 0)));
    let first_best = vec![p(1, 0), p(9, 9)];
    assert_eq!(find_nearest_ball(&car, &first_best), Some(p(1, 0)));
}

#[test]
fn cross_penalty_values() {
    // At the cross the full weight, beyond the safety radius nothing.
    assert_eq!(obstacle_penalty(0, 400), CROSS_WEIGHT);
    assert_eq!(obstacle_penalty(160000, 400), 0);
    assert_eq!(obstacle_penalty(200000, 400), 0);
    assert_eq!(obstacle_penalty(-5, 400), 0);
    assert_eq!(obstacle_penalty(5, 0), 0);
    // 100 px away: ((400 - 100) / 400)^4 * 60000 = 18984.375.
    assert_eq!(obstacle_penalty(10000, 400), 18984);
    // 200 px away: (1/2)^4 * 60000 = 3750 exactly.
    assert_eq!(obstacle_penalty(40000, 400), 3750);
    // A non-square distance: sqrt(2) px away.
    let v = obstacle_penalty(2, 400);
    assert!(v < CROSS_WEIGHT && v > 59000);
    // The largest radius evaluated exactly: 1000 px away is (1/2)^4 of the weight.
    assert_eq!(obstacle_penalty(1000000, 2000), 3750);
}

#[test]
fn cross_penalty_never_grows_with_distance() {
    let mut last = obstacle_penalty(0, 400);
    let mut d = 0;
    while d <= 170000 {
        let v = obstacle_penalty(d, 400);
        assert!(v <= last, "penalty grew at {}", d);
        assert!(v >= 0 && v <= CROSS_WEIGHT);
        last = v;
        d += 997;
    }
}

#[test]
fn exact_cross_penalty_and_float_table_differ_by_at_most_one() {
    let t = tables();
    for d in (0..160000).step_by(13) {
        let exact = obstacle_penalty(d, 400);
        let float = t.cross[d as usize];
        assert!((exact - float).abs() <= 1, "at {}: {} against {}", d, exact, float);
    }
}

#[test]
fn penalty_tables_hold_the_float_values() {
    let t = tables();
    assert!(tables_ok(&t));
    assert_eq!(t.wall[0], 70000);
    assert_eq!(t.wall[175], 4375);
    assert_eq!(t.wall[35], 45926);
    assert_eq!(t.wall[105], 16806);
    assert_eq!(t.cross[0], 60000);
    assert_eq!(t.cross[40000], 3750);
    assert_eq!(t.cross.len(), 160000);
}

#[test]
fn search_charges_the_wall_table() {
    // 35 px from the left wall, far from the cross: the step onto it costs 400 plus the
    // wall table's entry.
    let b = ObstacleBounds {
        walls: Bounds { min_x: 0, max_x: 2000, min_y: 0, max_y: 2000 },
        cross: Bounds { min_x: 1900, max_x: 1950, min_y: 1900, max_y: 1950 },
    };
    let car = p(55, 1000);
    let target = p(1500, 1000);
    let t = tables();
    let (open, closed) = calc_route(&car, &target, &b, &t);
    let n = match closed.get(&p(35, 1000)) {
        Some(n) => n,
        None => open.get(&p(35, 1000)).unwrap(),
    };
    assert_eq!(n.parent, Some(car));
    assert_eq!(n.g_cost, 400 + t.wall[35]);
    assert_eq!(n.g_cost, 400 + 45926);
}

#[test]
fn node_total_cost() {
    let n = Node { g_cost: 12, h_cost: 30, parent: None };
    assert_eq!(n.f_cost(), 42);
}

#[test]
fn route_map_operations() {
    let mut r = Route::new();
    assert!(!r.contains(&p(1, 2)));
    r.insert(p(1, 2), Node { g_cost: 1, h_cost: 2, parent: None });
    r.insert(p(-1, -2), Node { g_cost: 3, h_cost: 4, parent: Some(p(1, 2)) });
    assert!(r.contains(&p(1, 2)));
    assert!(r.contains(&p(-1, -2)));
    assert!(!r.contains(&p(2, 1)));
    assert_eq!(r.get(&p(-1, -2)).unwrap().parent, Some(p(1, 2)));
    r.insert(p(1, 2), Node { g_cost: 5, h_cost: 6, parent: None });
    assert_eq!(r.get(&p(1, 2)).unwrap().g_cost, 5);
    assert_eq!(r.entries().len(), 2);
    r.remove(&p(1, 2));
    assert!(!r.contains(&p(1, 2)));
    assert_eq!(r.entries().len(), 1);
}

#[test]
fn search_next_to_target_closes_only_the_car() {
    let car = p(500, 300);
    let target = p(540, 300);
    let (open, closed) = calc_route(&car, &target, &arena(), &tables());
    assert_eq!(open.entries().len(), 0);
    assert_eq!(closed.entries().len(), 1);
    let start = closed.get(&car).unwrap();
    assert_eq!(start.g_cost, 0);
    assert_eq!(start.h_cost, 1600);
    assert_eq!(start.parent, None);
    let next = next_point(&car, &closed);
    assert_eq!(next.pos, car);
    assert_eq!(next.route_lenth, 0);
    assert_eq!(get_first_node(&closed), None);
}

#[test]
fn search_chains_lead_back_to_the_car() {
    let car = p(300, 300);
    let target = p(1200, 700);
    let (open, closed) = calc_route(&car, &target, &arena(), &tables());
    assert!(closed.entries().len() > 1);
    assert!(closed.entries().len() <= 1000);
    // Open and closed never share a position.
    for (q, _) in open.entries() {
        assert!(!closed.contains(&q));
    }
    // Every parent is closed and cheaper.
    for (_, n) in closed.entries() {
        if let Some(par) = n.parent {
            let pn = closed.get(&par).unwrap();
            assert!(pn.g_cost < n.g_cost);
        }
    }
    // The route's root is the car, and the waypoint is a closed position.
    assert_eq!(get_first_node(&closed), Some(car));
    let next = next_point(&car, &closed);
    assert!(next.route_lenth > 0);
    assert!(closed.contains(&next.pos));
    let (end, chain) = best_route(&closed).unwrap();
    assert_eq!(chain.len(), next.route_lenth);
    assert_eq!(*chain.last().unwrap(), car);
    assert!(closed.contains(&end));
    // Heuristic costs are exact squared distances to the target.
    for (q, n) in closed.entries() {
        assert_eq!(n.h_cost, squared_distance(&q, &target));
    }
}

#[test]
fn search_reaches_a_target_in_the_open() {
    let car = p(300, 500);
    let target = p(500, 500);
    let (_, closed) = calc_route(&car, &target, &arena(), &tables());
    // The search ends on a node within 80 px of the target.
    let near = closed
        .entries()
        .iter()
        .any(|(q, _)| squared_distance(q, &target) < 6400);
    assert!(near);
    assert_eq!(get_first_node(&closed), Some(car));
}

#[test]
fn next_point_on_a_hand_built_route() {
    // A straight chain of seven nodes back to the car at (0, 0).
    let car = p(0, 0);
    let mut r = Route::new();
    r.insert(car, Node { g_cost: 0, h_cost: 700, parent: None });
    for i in 1..7 {
        r.insert(
            p(20 * i, 0),
            Node { g_cost: 10 * i, h_cost: 700 - 100 * i, parent: Some(p(20 * (i - 1), 0)) },
        );
    }
    // The node at x = 120 costs least (60 + 100); its chain has six parents, so the
    // waypoint is the fifth position counted from the root: x = 80.
    let next = next_point(&car, &r);
    assert_eq!(next.route_lenth, 6);
    assert_eq!(next.pos, p(80, 0));
    assert_eq!(get_first_node(&r), Some(car));
}

#[test]
fn best_route_on_short_chain() {
    let car = p(0, 0);
    let mut r = Route::new();
    r.insert(car, Node { g_cost: 0, h_cost: 100, parent: None });
    r.insert(p(20, 0), Node { g_cost: 5, h_cost: 10, parent: Some(car) });
    let next = next_point(&car, &r);
    assert_eq!(next.route_lenth, 1);
    assert_eq!(next.pos, car);
    let (end, chain) = best_route(&r).unwrap();
    assert_eq!(end, p(20, 0));
    assert_eq!(chain, vec![car]);
}

fn closed_set(r: &Route) -> Vec<(i32, i32, i32, i32)> {
    let mut v: Vec<(i32, i32, i32, i32)> =
        r.entries().iter().map(|(q, n)| (q.x, q.y, n.g_cost, n.h_cost)).collect();
    v.sort();
    v
}

#[test]
fn table_search_with_a_costly_cross() {
    // A cross that costs far more near it than the quartic penalty.
    let table = PenaltyTables { wall: tables().wall, cross: (0..160000).map(|d| if d < 40000 { 500000 } else { 0 }).collect() };
    let car = p(450, 500);
    let target = p(1000, 500);
    let (_, closed) = calc_route_checked(&car, &target, &arena(), &table).unwrap();
    assert_eq!(get_first_node(&closed), Some(car));
    for (_, n) in closed.entries() {
        if let Some(par) = n.parent {
            assert!(closed.get(&par).unwrap().g_cost < n.g_cost);
        }
    }
}

#[test]
fn input_checks() {
    assert!(tables_ok(&PenaltyTables { wall: vec![0, 500000, 7], cross: vec![i32::MAX] }));
    assert!(!tables_ok(&PenaltyTables { wall: vec![0, -1], cross: vec![] }));
    assert!(!tables_ok(&PenaltyTables { wall: vec![], cross: vec![3, -1] }));
    assert!(tables_ok(&PenaltyTables { wall: vec![], cross: vec![] }));
    assert_eq!(checked_squared_distance(&p(0, 0), &p(3, 4)), Some(25));
    assert_eq!(checked_squared_distance(&p(0, 0), &p(46341, 0)), None);
    assert_eq!(checked_squared_distance(&p(i32::MIN, 0), &p(i32::MAX, 0)), None);
    assert_eq!(checked_squared_distance(&p(0, 0), &p(46340, 0)), Some(46340 * 46340));
}

#[test]
fn search_far_from_the_arena_stops_at_once() {
    let car = p(10000, 0);
    let target = p(10040, 0);
    let (open, closed) = calc_route_checked(&car, &target, &arena(), &tables()).unwrap();
    assert!(open.entries().is_empty());
    assert_eq!(closed.entries().len(), 1);
    let start = closed.get(&car).unwrap();
    assert_eq!((start.g_cost, start.h_cost, start.parent), (0, 1600, None));
    let (open2, closed2) = calc_route(&car, &target, &arena(), &tables());
    assert_eq!(closed_set(&open2), closed_set(&open));
    assert_eq!(closed_set(&closed2), closed_set(&closed));
}

#[test]
fn search_far_from_the_arena_reaches_its_target() {
    let car = p(5000, 5000);
    let target = p(5300, 5000);
    let (_, closed) = calc_route_checked(&car, &target, &arena(), &tables()).unwrap();
    assert_eq!(get_first_node(&closed), Some(car));
    let near = closed.entries().iter().any(|(q, _)| squared_distance(q, &target) < 6400);
    assert!(near);
}

#[test]
fn search_refuses_a_target_out_of_i32_range() {
    assert!(calc_route_checked(&p(0, 0), &p(100000, 0), &arena(), &tables()).is_none());
    let zero = PenaltyTables { wall: vec![0; 10], cross: vec![0; 10] };
    assert!(calc_route_checked(&p(0, 0), &p(100000, 0), &arena(), &zero).is_none());
}

#[test]
fn next_point_on_a_route_with_zero_costs() {
    let car = p(0, 0);
    let mut r = Route::new();
    for i in 0..7 {
        let parent = if i == 0 { None } else { Some(p(20 * (i - 1), 0)) };
        r.insert(p(20 * i, 0), Node { g_cost: 0, h_cost: 6 - i, parent });
    }
    let next = next_point(&car, &r);
    assert_eq!(next.pos, p(80, 0));
    assert_eq!(next.route_lenth, 6);
}

#[test]
fn search_result_shape() {
    let car = p(450, 450);
    let target = p(1000, 550);
    let b = arena();
    let t = tables();
    let (open, closed) = calc_route(&car, &target, &b, &t);
    let step = |q: &Position, n: &Position| -> i32 {
        let w = b.walls;
        let nearest =
            [(w.min_x - n.x).abs(), (w.max_x - n.x).abs(), (w.min_y - n.y).abs(), (w.max_y - n.y).abs()]
                .into_iter()
                .min()
                .unwrap();
        let wall = if nearest < 350 { t.wall[nearest as usize] } else { 0 };
        let d = dist_to_rect(n, &b.cross);
        let cross = if d < 160000 { t.cross[d as usize] } else { 0 };
        squared_distance(n, q) + wall + cross
    };
    let closed_entries = closed.entries();
    let open_entries = open.entries();
    assert!(!closed_entries.is_empty() && closed_entries.len() <= 1000);
    assert!(open_entries.len() <= 8 * closed_entries.len());
    for (q, n) in closed_entries.iter().chain(open_entries.iter()) {
        assert_eq!((q.x - car.x) % 20, 0);
        assert_eq!((q.y - car.y) % 20, 0);
        if let Some(par) = n.parent {
            assert!((q.x - par.x).abs() <= 20 && (q.y - par.y).abs() <= 20 && *q != par);
            assert_eq!(n.g_cost, closed.get(&par).unwrap().g_cost + step(&par, q));
        }
    }
    let near: Vec<_> = closed_entries.iter().filter(|(q, _)| squared_distance(q, &target) < 6400).collect();
    assert_eq!(near.len(), 1);
    for (q, n) in closed_entries.iter() {
        if squared_distance(q, &target) >= 6400 {
            for dx in [-20, 0, 20] {
                for dy in [-20, 0, 20] {
                    if dx == 0 && dy == 0 {
                        continue;
                    }
                    let m = p(q.x + dx, q.y + dy);
                    match open.get(&m) {
                        Some(o) => assert!(o.g_cost <= n.g_cost + step(q, &m)),
                        None => assert!(closed.get(&m).is_some()),
                    }
                }
            }
        }
    }
}
