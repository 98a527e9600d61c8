//! Drawing for the offline tools: squares around map positions, the planned route and
//! the searched nodes, and the boxes of detections.
use vstd::prelude::*;
use crate::color::Rgb;
use crate::frame::{Frame, in_rect};
use crate::geometry::Position;
use crate::route::{Node, Route, f_of};
use crate::path::{best_route, is_min_f, is_parent_chain, chains_finite};
use crate::search::costs_fit;

verus! {

/// Colours of the route map.
#[derive(Debug, Clone, Copy, PartialEq, Eq, Structural)]
pub enum MapColor {
    Ball,
    Car,
    Obstacle,
    Debug,
    RouteOpen,
    RouteClosed,
    RouteChosen,
}

pub open spec fn map_rgb(c: MapColor) -> Rgb {
    match c {
        MapColor::Ball => Rgb { r: 200, g: 150, b: 100 },
        MapColor::Car => Rgb { r: 150, g: 200, b: 150 },
        MapColor::Obstacle => Rgb { r: 100, g: 150, b: 200 },
        MapColor::Debug => Rgb { r: 211, g: 176, b: 33 },
        MapColor::RouteOpen => Rgb { r: 192, g: 132, b: 252 },
        MapColor::RouteClosed => Rgb { r: 139, g: 92, b: 246 },
        MapColor::RouteChosen => Rgb { r: 192, g: 170, b: 252 },
    }
}

impl MapColor {
    pub fn rgb(&self) -> (c: Rgb)
        ensures
            c == map_rgb(*self),
    {
        match self {
            MapColor::Ball => Rgb { r: 200, g: 150, b: 100 },
            MapColor::Car => Rgb { r: 150, g: 200, b: 150 },
            MapColor::Obstacle => Rgb { r: 100, g: 150, b: 200 },
            MapColor::Debug => Rgb { r: 211, g: 176, b: 33 },
            MapColor::RouteOpen => Rgb { r: 192, g: 132, b: 252 },
            MapColor::RouteClosed => Rgb { r: 139, g: 92, b: 246 },
            MapColor::RouteChosen => Rgb { r: 192, g: 170, b: 252 },
        }
    }
}

/// Pixel (i, j) lies in the square of half-size `size` around `p`:
/// [p.x - size, p.x + size) x [p.y - size, p.y + size).
pub open spec fn in_square(p: Position, size: int, i: int, j: int) -> bool {
    in_rect(p.x - size, p.y - size, p.x + size, p.y + size, i, j)
}

/// The corners of the square of half-size `size` around `p` fit in i32.
pub open spec fn square_fits(p: Position, size: int) -> bool {
    &&& i32::MIN <= p.x - size <= i32::MAX
    &&& i32::MIN <= p.x + size <= i32::MAX
    &&& i32::MIN <= p.y - size <= i32::MAX
    &&& i32::MIN <= p.y + size <= i32::MAX
}

/// Whether the square of half-size `size` around `p` has corners within i32.
pub fn square_in_range(p: &Position, size: i32) -> (ok: bool)
    ensures
        ok == square_fits(*p, size as int),
{
    let x = p.x as i64;
    let y = p.y as i64;
    let s = size as i64;
    let lo = i32::MIN as i64;
    let hi = i32::MAX as i64;
    lo <= x - s && x - s <= hi && lo <= x + s && x + s <= hi && lo <= y - s && y - s <= hi && lo <= y + s && y
        + s <= hi
}

/// Every position of `route` has room for a square of half-size `size`.
pub fn route_squares_in_range(route: &Route, size: i32) -> (ok: bool)
    ensures
        ok == all_squares_fit(route@, size as int),
{
    let entries = route.entries();
    let mut k: usize = 0;
    while k < entries.len()
        invariant
            k <= entries@.len(),
            forall|t: int|
                0 <= t < entries@.len() ==> route@.contains_key(#[trigger] entries@[t].0) && route@[entries@[t].0]
                    == entries@[t].1,
            forall|q: Position|
                #[trigger] route@.contains_key(q) ==> exists|t: int| 0 <= t < entries@.len() && #[trigger] entries@[t].0 == q,
            forall|t: int| 0 <= t < k ==> square_fits(#[trigger] entries@[t].0, size as int),
        decreases entries@.len() - k,
    {
        if !square_in_range(&entries[k].0, size) {
            assert(route@.contains_key(entries@[k as int].0));
            return false;
        }
        k = k + 1;
    }
    assert forall|q: Position| #[trigger] route@.contains_key(q) implies square_fits(q, size as int) by {
        let t = choose|t: int| 0 <= t < entries@.len() && #[trigger] entries@[t].0 == q;
        assert(square_fits(entries@[t].0, size as int));
    }
    true
}

/// Whether a detection box may be drawn: empty, or inside the image.
pub fn box_in_image(img: &Frame, x: i32, y: i32, x2: i32, y2: i32) -> (ok: bool)
    requires
        img.wf(),
    ensures
        ok == (x < x2 && y < y2 ==> 0 <= x && 0 <= y && x2 <= img.spec_width() && y2 <= img.spec_height()),
{
    let (w, h) = img.dimensions();
    !(x < x2 && y < y2) || (0 <= x && 0 <= y && x2 as i64 <= w as i64 && y2 as i64 <= h as i64)
}

/// `after` has the same size as `before`, is well formed, and differs from it only as
/// `f` says: `f(i, j)` is `Some(c)` where pixel (i, j) was painted `c`.
pub open spec fn painted(before: Frame, after: Frame, f: spec_fn(int, int) -> Option<Rgb>) -> bool {
    &&& after.wf()
    &&& after.spec_width() == before.spec_width()
    &&& after.spec_height() == before.spec_height()
    &&& forall|i: int, j: int|
        0 <= i < before.spec_width() && 0 <= j < before.spec_height() ==> #[trigger] after.pixel(i, j) == (match f(
            i,
            j,
        ) {
            Some(c) => c,
            None => before.pixel(i, j),
        })
}

/// Paints the square of half-size `size` around `pos`, skipping what lies outside the
/// image.
pub fn draw_pixel(img: &mut Frame, pos: &Position, size: i32, color: MapColor)
    requires
        old(img).wf(),
        square_fits(*pos, size as int),
    ensures
        painted(
            *old(img),
            *final(img),
            |i: int, j: int|
                if in_square(*pos, size as int, i, j) {
                    Some(map_rgb(color))
                } else {
                    None
                },
        ),
{
    img.fill_rect(pos.x - size, pos.y - size, pos.x + size, pos.y + size, color.rgb());
}

/// Pixel (i, j) lies in the square of half-size `size` around a position of `chain`.
pub open spec fn on_chain(chain: Seq<Position>, size: int, i: int, j: int) -> bool {
    exists|k: int| 0 <= k < chain.len() && in_square(#[trigger] chain[k], size, i, j)
}

/// What drawing the route paints: the chain of parents in small squares over a large
/// square at the node where the route ends.
pub open spec fn route_paint(p: Position, chain: Seq<Position>) -> spec_fn(int, int) -> Option<Rgb> {
    |i: int, j: int|
        if on_chain(chain, 7, i, j) {
            Some(map_rgb(MapColor::RouteChosen))
        } else if in_square(p, 20, i, j) {
            Some(map_rgb(MapColor::RouteOpen))
        } else {
            None
        }
}

/// Every position of the map has room for a square of half-size `size`.
pub open spec fn all_squares_fit(m: Map<Position, Node>, size: int) -> bool {
    forall|q: Position| #[trigger] m.contains_key(q) ==> square_fits(q, size)
}

/// Draws the planned route: a large square at a node of least total cost below
/// `i32::MAX` (the first found on ties), and a small square at each of its parents
/// back to the start. Returns whether such a node was found; the image is unchanged
/// when not.
pub fn draw_route(img: &mut Frame, route: &Route) -> (found: bool)
    requires
        old(img).wf(),
        chains_finite(route@),
        costs_fit(route@),
        all_squares_fit(route@, 20),
    ensures
        found <==> exists|q: Position| #[trigger] route@.contains_key(q) && f_of(route@[q]) < i32::MAX,
        !found ==> *final(img) == *old(img),
        found ==> exists|p: Position, chain: Seq<Position>|
            {
                &&& is_min_f(route@, p)
                &&& #[trigger] is_parent_chain(route@, p, chain)
                &&& painted(*old(img), *final(img), route_paint(p, chain))
            },
{
    match best_route(route) {
        None => false,
        Some((p, chain)) => {
            assert(route@.contains_key(p));
            draw_pixel(img, &p, 20, MapColor::RouteOpen);
            let ghost first = *img;
            let mut k: usize = 0;
            while k < chain.len()
                invariant
                    is_parent_chain(route@, p, chain@),
                    all_squares_fit(route@, 20),
                    0 <= k <= chain@.len(),
                    first.wf(),
                    painted(*old(img), first, |i: int, j: int|
                        if in_square(p, 20, i, j) {
                            Some(map_rgb(MapColor::RouteOpen))
                        } else {
                            None
                        }),
                    painted(first, *img, |i: int, j: int|
                        if on_chain(chain@.take(k as int), 7, i, j) {
                            Some(map_rgb(MapColor::RouteChosen))
                        } else {
                            None
                        }),
                decreases chain@.len() - k,
            {
                let q = chain[k];
                assert(route@.contains_key(chain@[k as int]));
                let ghost before = *img;
                draw_pixel(img, &q, 7, MapColor::RouteChosen);
                proof {
                    assert forall|i: int, j: int|
                        0 <= i < first.spec_width() && 0 <= j < first.spec_height() implies #[trigger] img.pixel(
                        i,
                        j,
                    ) == (if on_chain(chain@.take(k + 1), 7, i, j) {
                        map_rgb(MapColor::RouteChosen)
                    } else {
                        first.pixel(i, j)
                    }) by {
                        if in_square(q, 7, i, j) {
                            assert(chain@.take(k + 1)[k as int] == q);
                        } else if on_chain(chain@.take(k as int), 7, i, j) {
                            let t = choose|t: int|
                                0 <= t < k && in_square(#[trigger] chain@.take(k as int)[t], 7, i, j);
                            assert(chain@.take(k + 1)[t] == chain@.take(k as int)[t]);
                        } else if on_chain(chain@.take(k + 1), 7, i, j) {
                            let t = choose|t: int|
                                0 <= t < k + 1 && in_square(#[trigger] chain@.take(k + 1)[t], 7, i, j);
                            if t < k {
                                assert(chain@.take(k as int)[t] == chain@.take(k + 1)[t]);
                            }
                        }
                    }
                }
                k = k + 1;
            }
            proof {
                assert(chain@.take(chain@.len() as int) =~= chain@);
            }
            true
        },
    }
}

/// Pixel (i, j) lies in the square of half-size `size` around a position of `m`.
pub open spec fn near_key(m: Map<Position, Node>, size: int, i: int, j: int) -> bool {
    exists|q: Position| #[trigger] m.contains_key(q) && in_square(q, size, i, j)
}

/// What drawing the searched nodes paints: closed nodes over open ones.
pub open spec fn search_paint(open: Map<Position, Node>, closed: Map<Position, Node>) -> spec_fn(int, int) -> Option<Rgb> {
    |i: int, j: int|
        if near_key(closed, 3, i, j) {
            Some(map_rgb(MapColor::RouteClosed))
        } else if near_key(open, 3, i, j) {
            Some(map_rgb(MapColor::RouteOpen))
        } else {
            None
        }
}

/// Paints a small square at every node of `route` in `color`.
fn draw_nodes(img: &mut Frame, route: &Route, color: MapColor)
    requires
        old(img).wf(),
        all_squares_fit(route@, 3),
    ensures
        painted(
            *old(img),
            *final(img),
            |i: int, j: int|
                if near_key(route@, 3, i, j) {
                    Some(map_rgb(color))
                } else {
                    None
                },
        ),
{
    let entries = route.entries();
    let mut k: usize = 0;
    while k < entries.len()
        invariant
            all_squares_fit(route@, 3),
            0 <= k <= entries@.len(),
            forall|t: int|
                0 <= t < entries@.len() ==> route@.contains_key(#[trigger] entries@[t].0) && route@[entries@[t].0]
                    == entries@[t].1,
            forall|q: Position|
                #[trigger] route@.contains_key(q) ==> exists|t: int| 0 <= t < entries@.len() && #[trigger] entries@[t].0 == q,
            painted(*old(img), *img, |i: int, j: int|
                if exists|t: int| 0 <= t < k && in_square(#[trigger] entries@[t].0, 3, i, j) {
                    Some(map_rgb(color))
                } else {
                    None
                }),
        decreases entries@.len() - k,
    {
        let q = entries[k].0;
        assert(route@.contains_key(entries@[k as int].0));
        draw_pixel(img, &q, 3, color);
        proof {
            assert forall|i: int, j: int|
                0 <= i < old(img).spec_width() && 0 <= j < old(img).spec_height() implies #[trigger] img.pixel(i, j)
                == (if exists|t: int| 0 <= t < k + 1 && in_square(#[trigger] entries@[t].0, 3, i, j) {
                map_rgb(color)
            } else {
                old(img).pixel(i, j)
            }) by {
                if in_square(q, 3, i, j) {
                    assert(entries@[k as int].0 == q);
                }
            }
        }
        k = k + 1;
    }
    proof {
        assert forall|i: int, j: int|
            0 <= i < old(img).spec_width() && 0 <= j < old(img).spec_height() implies #[trigger] img.pixel(i, j)
            == (if near_key(route@, 3, i, j) {
            map_rgb(color)
        } else {
            old(img).pixel(i, j)
        }) by {
            if near_key(route@, 3, i, j) {
                let q = choose|q: Position| #[trigger] route@.contains_key(q) && in_square(q, 3, i, j);
                let t = choose|t: int| 0 <= t < entries@.len() && #[trigger] entries@[t].0 == q;
                assert(in_square(entries@[t].0, 3, i, j));
            } else if exists|t: int| 0 <= t < entries@.len() && in_square(#[trigger] entries@[t].0, 3, i, j) {
                let t = choose|t: int| 0 <= t < entries@.len() && in_square(#[trigger] entries@[t].0, 3, i, j);
                assert(route@.contains_key(entries@[t].0));
            }
        }
    }
}

/// Draws the nodes a search left: small squares at its open nodes, then at its closed
/// ones, which cover the open ones where they overlap.
pub fn draw_route_map_debug(img: &mut Frame, open: &Route, closed: &Route)
    requires
        old(img).wf(),
        all_squares_fit(open@, 3),
        all_squares_fit(closed@, 3),
    ensures
        painted(*old(img), *final(img), search_paint(open@, closed@)),
{
    draw_nodes(img, open, MapColor::RouteOpen);
    let ghost mid = *img;
    draw_nodes(img, closed, MapColor::RouteClosed);
    assert forall|i: int, j: int|
        0 <= i < old(img).spec_width() && 0 <= j < old(img).spec_height() implies #[trigger] img.pixel(i, j) == (
    match search_paint(open@, closed@)(i, j) {
        Some(c) => c,
        None => old(img).pixel(i, j),
    }) by {
        assert(mid.pixel(i, j) == mid.pixel(i, j));
    }
}

/// Pixel (i, j) lies on the outline of the box [x, x2) x [y, y2): in the box, and in
/// its first or last column or row.
pub open spec fn on_outline(x: int, y: int, x2: int, y2: int, i: int, j: int) -> bool {
    in_rect(x, y, x2, y2, i, j) && (i == x || i == x2 - 1 || j == y || j == y2 - 1)
}

/// Draws the outline of the box [x, x2) x [y, y2) of a detection in green: its first
/// and last columns and rows. The box must lie inside the image unless it is empty.
pub fn draw_detection(img: &mut Frame, x: i32, y: i32, x2: i32, y2: i32)
    requires
        old(img).wf(),
        x < x2 && y < y2 ==> 0 <= x && 0 <= y && x2 <= old(img).spec_width() && y2 <= old(img).spec_height(),
    ensures
        painted(
            *old(img),
            *final(img),
            |i: int, j: int|
                if on_outline(x as int, y as int, x2 as int, y2 as int, i, j) {
                    Some(Rgb { r: 20, g: 200, b: 20 })
                } else {
                    None
                },
        ),
{
    if !(x < x2 && y < y2) {
        return;
    }
    let c = Rgb { r: 20, g: 200, b: 20 };
    img.fill_rect(x, y, x2, y + 1, c);
    img.fill_rect(x, y2 - 1, x2, y2, c);
    img.fill_rect(x, y, x + 1, y2, c);
    img.fill_rect(x2 - 1, y, x2, y2, c);
}

} // verus!
