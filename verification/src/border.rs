//! The field border corners and the cross arm tips, found by extreme-pixel scans of
//! the two largest groups and drawn into the working image.
use vstd::prelude::*;
use crate::color::{Color, color_rgb};
use crate::frame::Frame;
use crate::geometry::Position;
use crate::features::{trunc_div, is_stable_size_sort};
use crate::vision::{State, Grouping};

verus! {

/// Start value of the cross scans.
pub const MAX: i32 = 100000;

/// One extreme-pixel scan: which coordinate to maximise or minimise, and which pixels
/// take part (those whose other coordinate lies below or above `bound`).
#[derive(Clone, Copy)]
pub struct ScanRule {
    pub key_x: bool,
    pub maximize: bool,
    pub filtered: bool,
    pub filter_x: bool,
    pub filter_below: bool,
    pub bound: i32,
}

pub open spec fn coord(p: Position, is_x: bool) -> int {
    if is_x {
        p.x as int
    } else {
        p.y as int
    }
}

/// `p` takes part in the scan.
pub open spec fn qualifies(p: Position, r: ScanRule) -> bool {
    !r.filtered || (if r.filter_below {
        coord(p, r.filter_x) < r.bound
    } else {
        coord(p, r.filter_x) > r.bound
    })
}

/// `p` is strictly more extreme than `cur`.
pub open spec fn beats(p: Position, cur: Position, r: ScanRule) -> bool {
    if r.maximize {
        coord(p, r.key_x) > coord(cur, r.key_x)
    } else {
        coord(p, r.key_x) < coord(cur, r.key_x)
    }
}

/// Scanning `s` in order from `init`: a taking-part pixel replaces the current one when
/// strictly more extreme.
pub open spec fn scan_extreme(s: Seq<Position>, init: Position, r: ScanRule) -> Position
    decreases s.len(),
{
    if s.len() == 0 {
        init
    } else {
        let c = scan_extreme(s.drop_last(), init, r);
        if qualifies(s.last(), r) && beats(s.last(), c, r) {
            s.last()
        } else {
            c
        }
    }
}

/// The scan yields the start value when no taking-part pixel is more extreme than it;
/// otherwise the first taking-part pixel of the most extreme value, which no
/// taking-part pixel beats.
pub proof fn lemma_scan_extreme(s: Seq<Position>, init: Position, r: ScanRule)
    ensures
        ({
            let e = scan_extreme(s, init, r);
            &&& (forall|i: int| 0 <= i < s.len() && qualifies(s[i], r) ==> !beats(#[trigger] s[i], e, r))
            &&& (e == init || exists|i: int|
                0 <= i < s.len() && #[trigger] s[i] == e && qualifies(e, r) && beats(e, init, r) && (forall|j: int|
                    0 <= j < i && qualifies(s[j], r) ==> beats(e, #[trigger] s[j], r)))
        }),
    decreases s.len(),
{
    if s.len() > 0 {
        let pre = s.drop_last();
        lemma_scan_extreme(pre, init, r);
        let c = scan_extreme(pre, init, r);
        let e = scan_extreme(s, init, r);
        assert forall|i: int| 0 <= i < s.len() && qualifies(s[i], r) implies !beats(#[trigger] s[i], e, r) by {
            if i < pre.len() {
                assert(s[i] == pre[i]);
                assert(!beats(pre[i], c, r));
            }
        }
        if e != init {
            if e == c {
                let i = choose|i: int|
                    0 <= i < pre.len() && #[trigger] pre[i] == c && qualifies(c, r) && beats(c, init, r) && (
                    forall|j: int| 0 <= j < i && qualifies(pre[j], r) ==> beats(c, #[trigger] pre[j], r));
                assert(s[i] == e);
                assert forall|j: int| 0 <= j < i && qualifies(s[j], r) implies beats(e, #[trigger] s[j], r) by {
                    assert(s[j] == pre[j]);
                }
            } else {
                let i = s.len() - 1;
                assert(s[i] == e);
                if c != init {
                    let ic = choose|ic: int|
                        0 <= ic < pre.len() && #[trigger] pre[ic] == c && qualifies(c, r) && beats(c, init, r);
                }
                assert forall|j: int| 0 <= j < i && qualifies(s[j], r) implies beats(e, #[trigger] s[j], r) by {
                    assert(s[j] == pre[j]);
                    assert(!beats(pre[j], c, r));
                }
            }
        }
    }
}

/// Runs the scan over `points`.
pub fn extreme(points: &Vec<Position>, init: Position, r: ScanRule) -> (e: Position)
    ensures
        e == scan_extreme(points@, init, r),
{
    let mut cur = init;
    let mut k: usize = 0;
    while k < points.len()
        invariant
            k <= points@.len(),
            cur == scan_extreme(points@.take(k as int), init, r),
        decreases points@.len() - k,
    {
        let p = points[k];
        proof {
            assert(points@.take(k + 1).drop_last() =~= points@.take(k as int));
        }
        let q = if !r.filtered {
            true
        } else if r.filter_below {
            (if r.filter_x { p.x } else { p.y }) < r.bound
        } else {
            (if r.filter_x { p.x } else { p.y }) > r.bound
        };
        let kp = if r.key_x { p.x } else { p.y };
        let kc = if r.key_x { cur.x } else { cur.y };
        let b = if r.maximize { kp > kc } else { kp < kc };
        if q && b {
            cur = p;
        }
        k = k + 1;
    }
    proof {
        assert(points@.take(points@.len() as int) =~= points@);
    }
    cur
}

/// Half-size actually used by `draw_mark`: shrunk to `x` at the left edge, or to `y`
/// near the top edge right of the diagonal.
pub open spec fn mark_size(x: int, y: int, size: int) -> int {
    if x < size {
        x
    } else if y < size && x > y {
        y
    } else {
        size
    }
}

/// `draw_mark` at `p` (coordinates taken as u32) with half-size 10 neither underflows
/// nor overflows.
pub open spec fn draw_safe(p: Position) -> bool {
    let x = p.x as u32 as int;
    let y = p.y as u32 as int;
    let m = mark_size(x, y, 10);
    y >= m && x + m <= u32::MAX && y + m <= u32::MAX
}

/// Pixel (i, j) lies in the square drawn around (x, y).
pub open spec fn in_mark(x: int, y: int, size: int, i: int, j: int) -> bool {
    let m = mark_size(x, y, size);
    x - m <= i < x + m && y - m <= j < y + m
}

/// Pixel (i, j) lies in the square of one of the marks drawn at `pts`.
pub open spec fn covered(pts: Seq<Position>, i: int, j: int) -> bool {
    exists|k: int|
        0 <= k < pts.len() && in_mark(#[trigger] pts[k].x as u32 as int, pts[k].y as u32 as int, 10, i, j)
}

/// `after` is `before` with white marks drawn at `pts`.
pub open spec fn marks_drawn(before: Frame, after: Frame, pts: Seq<Position>) -> bool {
    &&& after.wf()
    &&& after.spec_width() == before.spec_width()
    &&& after.spec_height() == before.spec_height()
    &&& forall|i: int, j: int|
        0 <= i < before.spec_width() && 0 <= j < before.spec_height() ==> #[trigger] after.pixel(i, j) == (if covered(
            pts,
            i,
            j,
        ) {
            color_rgb(Color::White)
        } else {
            before.pixel(i, j)
        })
}

/// Everything but the working image is unchanged.
pub open spec fn same_but_img(a: State, b: State) -> bool {
    &&& a.original_img == b.original_img
    &&& a.targets == b.targets
    &&& a.marks == b.marks
    &&& a.groupings == b.groupings
    &&& a.last_corners == b.last_corners
}

impl State {
    /// Paints the square of half-size `size` around (x, y) into the working image, the
    /// half-size shrunk near the top and left edges (see `mark_size`); pixels outside
    /// the image are skipped.
    pub fn draw_mark(&mut self, x: u32, y: u32, size: u32, color: Color)
        requires
            old(self).wf(),
            y >= mark_size(x as int, y as int, size as int),
            x + mark_size(x as int, y as int, size as int) <= u32::MAX,
            y + mark_size(x as int, y as int, size as int) <= u32::MAX,
        ensures
            final(self).wf(),
            same_but_img(*final(self), *old(self)),
            final(self).img.spec_width() == old(self).img.spec_width(),
            final(self).img.spec_height() == old(self).img.spec_height(),
            forall|i: int, j: int|
                0 <= i < old(self).img.spec_width() && 0 <= j < old(self).img.spec_height()
                    ==> #[trigger] final(self).img.pixel(i, j) == (if in_mark(x as int, y as int, size as int, i, j) {
                    color_rgb(color)
                } else {
                    old(self).img.pixel(i, j)
                }),
    {
        let size = if x < size {
            x
        } else if y < size && x > y {
            y
        } else {
            size
        };
        let (w, h) = self.img.dimensions();
        let c = color.rgb();
        let ghost m = size as int;
        let mut xi: u32 = x - size;
        while xi < x + size
            invariant
                self.wf(),
                same_but_img(*self, *old(self)),
                self.img.spec_width() == w,
                self.img.spec_height() == h,
                w == old(self).img.spec_width(),
                h == old(self).img.spec_height(),
                x - size <= xi <= x + size,
                x >= size,
                x + size <= u32::MAX,
                y >= size,
                y + size <= u32::MAX,
                c == color_rgb(color),
                forall|i: int, j: int|
                    0 <= i < w && 0 <= j < h ==> #[trigger] self.img.pixel(i, j) == (if x - size <= i < xi && y
                        - size <= j < y + size {
                        c
                    } else {
                        old(self).img.pixel(i, j)
                    }),
            decreases x + size - xi,
        {
            let mut yi: u32 = y - size;
            while yi < y + size
                invariant
                    self.wf(),
                    same_but_img(*self, *old(self)),
                    self.img.spec_width() == w,
                    self.img.spec_height() == h,
                    w == old(self).img.spec_width(),
                    h == old(self).img.spec_height(),
                    x - size <= xi < x + size,
                    x >= size,
                    x + size <= u32::MAX,
                    y - size <= yi <= y + size,
                    y >= size,
                    y + size <= u32::MAX,
                    c == color_rgb(color),
                    forall|i: int, j: int|
                        0 <= i < w && 0 <= j < h ==> #[trigger] self.img.pixel(i, j) == (if (x - size <= i < xi && y
                            - size <= j < y + size) || (i == xi && y - size <= j < yi) {
                            c
                        } else {
                            old(self).img.pixel(i, j)
                        }),
                decreases y + size - yi,
            {
                if !(xi >= w || yi >= h) {
                    self.img.put_pixel(xi, yi, c);
                }
                yi = yi + 1;
            }
            xi = xi + 1;
        }
    }
}


pub open spec fn pt(x: int, y: int) -> Position {
    Position { x: x as i32, y: y as i32 }
}

pub open spec fn rule(key_x: bool, maximize: bool, filter_x: bool, filter_below: bool, bound: int) -> ScanRule {
    ScanRule { key_x, maximize, filtered: true, filter_x, filter_below, bound: bound as i32 }
}

pub open spec fn free_rule(key_x: bool, maximize: bool) -> ScanRule {
    ScanRule { key_x, maximize, filtered: false, filter_x: false, filter_below: false, bound: 0 }
}

/// `a + (b - a) / 2` with Rust's rounding: a point between `a` and `b`.
pub open spec fn halfway(a: int, b: int) -> int {
    a + trunc_div(b - a, 2)
}

proof fn lemma_halfway(a: int, b: int)
    ensures
        (a <= b ==> a <= halfway(a, b) <= b),
        (b <= a ==> b <= halfway(a, b) <= a),
        a - trunc_div(a - b, 2) == halfway(a, b),
{
}

/// The eight border extremes of the largest group and the midpoint of its left edge, in
/// the order they are drawn: top_right, top_left, right_top, right_bottom, left_bottom,
/// left_top, bottom_right, bottom_left, midpoint. Each extreme is searched in a quarter
/// band of the image (`scan_extreme`) from a frame-corner start value.
pub open spec fn border_points(s: Seq<Position>, w: int, h: int) -> Seq<Position> {
    let top_right = scan_extreme(s, pt(0, h), rule(true, true, false, true, h / 4));
    let top_left = scan_extreme(s, pt(w, h), rule(true, false, false, true, h / 4));
    let right_top = scan_extreme(s, pt(0, h), rule(false, false, true, false, w / 4 * 3));
    let right_bottom = scan_extreme(s, pt(0, 0), rule(false, true, true, false, w / 4 * 3));
    let left_bottom = scan_extreme(s, pt(w, 0), rule(false, true, true, true, w / 4));
    let left_top = scan_extreme(s, pt(w, h), rule(false, false, true, true, w / 4 * 3));
    let bottom_right = scan_extreme(s, pt(0, 0), rule(true, true, false, false, h / 4 * 3));
    let bottom_left = scan_extreme(s, pt(w, 0), rule(true, false, false, false, h / 4 * 3));
    let mid = pt(
        left_bottom.x + trunc_div(left_top.x - left_bottom.x, 2),
        left_bottom.y - trunc_div(left_bottom.y - left_top.y, 2),
    );
    seq![top_right, top_left, right_top, right_bottom, left_bottom, left_top, bottom_right, bottom_left, mid]
}

/// The corners [top_left, top_right, bottom_left, bottom_right] when none of them is
/// still at its frame-corner start value.
pub open spec fn corners_found(s: Seq<Position>, w: int, h: int) -> Option<[Position; 4]> {
    let b = border_points(s, w, h);
    let tl = b[1];
    let tr = b[0];
    let bl = b[7];
    let br = b[6];
    if tl != pt(w, h) && tr != pt(0, h) && bl != pt(w, 0) && br != pt(0, 0) {
        Some([tl, tr, bl, br])
    } else {
        None
    }
}

/// The cross's four arm tips in drawing order (right, left, top, bottom): the extreme
/// pixels of the second group, each moved to the middle of the opposite axis.
pub open spec fn cross_points(s: Seq<Position>) -> Seq<Position> {
    let right = scan_extreme(s, pt(0, 0), free_rule(true, true));
    let left = scan_extreme(s, pt(MAX as int, MAX as int), free_rule(true, false));
    let top = scan_extreme(s, pt(0, MAX as int), free_rule(false, false));
    let bottom = scan_extreme(s, pt(0, 0), free_rule(false, true));
    let mx = halfway(left.x as int, right.x as int);
    let my = halfway(top.y as int, bottom.y as int);
    seq![pt(right.x as int, my), pt(left.x as int, my), pt(mx, top.y as int), pt(mx, bottom.y as int)]
}

/// Every point of `pts` can be drawn without overflow.
pub open spec fn all_draw_safe(pts: Seq<Position>) -> bool {
    forall|k: int| 0 <= k < pts.len() ==> draw_safe(#[trigger] pts[k])
}

fn half_toward_zero(d: i64) -> (q: i64)
    requires
        -0x1_0000_0000 <= d <= 0x1_0000_0000,
    ensures
        q == trunc_div(d as int, 2),
{
    if d >= 0 {
        d / 2
    } else {
        -((-d) / 2)
    }
}

fn halfway_exec(a: i32, b: i32) -> (r: i32)
    ensures
        r == halfway(a as int, b as int),
{
    proof {
        lemma_halfway(a as int, b as int);
    }
    let d: i64 = b as i64 - a as i64;
    let q = half_toward_zero(d);
    (a as i64 + q) as i32
}

impl State {
    /// Draws white marks of half-size 10 at `pts` in order.
    fn draw_all(&mut self, pts: &Vec<Position>)
        requires
            old(self).wf(),
            all_draw_safe(pts@),
        ensures
            final(self).wf(),
            same_but_img(*final(self), *old(self)),
            marks_drawn(old(self).img, final(self).img, pts@),
    {
        let mut k: usize = 0;
        while k < pts.len()
            invariant
                self.wf(),
                k <= pts@.len(),
                all_draw_safe(pts@),
                same_but_img(*self, *old(self)),
                marks_drawn(old(self).img, self.img, pts@.take(k as int)),
            decreases pts@.len() - k,
        {
            let p = pts[k];
            assert(draw_safe(pts@[k as int]));
            let ghost before = self.img;
            self.draw_mark(p.x as u32, p.y as u32, 10, Color::White);
            proof {
                let t = pts@.take(k + 1);
                assert forall|i: int, j: int|
                    0 <= i < old(self).img.spec_width() && 0 <= j < old(self).img.spec_height() implies #[trigger] self.img.pixel(
                    i,
                    j,
                ) == (if covered(t, i, j) {
                    color_rgb(Color::White)
                } else {
                    old(self).img.pixel(i, j)
                }) by {
                    let t0 = pts@.take(k as int);
                    if covered(t, i, j) && !in_mark(p.x as u32 as int, p.y as u32 as int, 10, i, j) {
                        let q = choose|q: int|
                            0 <= q < t.len() && in_mark(#[trigger] t[q].x as u32 as int, t[q].y as u32 as int, 10, i, j);
                        assert(t[q] == t0[q]);
                    }
                    if covered(t0, i, j) {
                        let q = choose|q: int|
                            0 <= q < t0.len() && in_mark(#[trigger] t0[q].x as u32 as int, t0[q].y as u32 as int, 10, i, j);
                        assert(t[q] == t0[q]);
                    }
                    if in_mark(p.x as u32 as int, p.y as u32 as int, 10, i, j) {
                        assert(t[k as int] == p);
                    }
                }
            }
            k = k + 1;
        }
        proof {
            assert(pts@.take(pts@.len() as int) =~= pts@);
        }
    }

    /// The nine points that `find_map_border` draws for the current largest group.
    pub fn border_marks(&self) -> (pts: Vec<Position>)
        requires
            self.wf(),
            self.groupings@.len() > 0,
        ensures
            pts@ == border_points(self.groupings@[0].marks@, self.img.spec_width() as int, self.img.spec_height() as int),
    {
        let (w32, h32) = self.img.dimensions();
        let width = w32 as i32;
        let height = h32 as i32;
        let g = &self.groupings[0].marks;
        let top_right = extreme(g, Position { x: 0, y: height },
            ScanRule { key_x: true, maximize: true, filtered: true, filter_x: false, filter_below: true, bound: height / 4 });
        let top_left = extreme(g, Position { x: width, y: height },
            ScanRule { key_x: true, maximize: false, filtered: true, filter_x: false, filter_below: true, bound: height / 4 });
        let right_top = extreme(g, Position { x: 0, y: height },
            ScanRule { key_x: false, maximize: false, filtered: true, filter_x: true, filter_below: false, bound: width / 4 * 3 });
        let right_bottom = extreme(g, Position { x: 0, y: 0 },
            ScanRule { key_x: false, maximize: true, filtered: true, filter_x: true, filter_below: false, bound: width / 4 * 3 });
        let left_bottom = extreme(g, Position { x: width, y: 0 },
            ScanRule { key_x: false, maximize: true, filtered: true, filter_x: true, filter_below: true, bound: width / 4 });
        let left_top = extreme(g, Position { x: width, y: height },
            ScanRule { key_x: false, maximize: false, filtered: true, filter_x: true, filter_below: true, bound: width / 4 * 3 });
        let bottom_right = extreme(g, Position { x: 0, y: 0 },
            ScanRule { key_x: true, maximize: true, filtered: true, filter_x: false, filter_below: false, bound: height / 4 * 3 });
        let bottom_left = extreme(g, Position { x: width, y: 0 },
            ScanRule { key_x: true, maximize: false, filtered: true, filter_x: false, filter_below: false, bound: height / 4 * 3 });
        let mx = halfway_exec(left_bottom.x, left_top.x);
        proof {
            lemma_halfway(left_bottom.y as int, left_top.y as int);
        }
        let my = halfway_exec(left_bottom.y, left_top.y);
        let mid = Position { x: mx, y: my };
        let pts = vec![top_right, top_left, right_top, right_bottom, left_bottom, left_top, bottom_right, bottom_left, mid];
        proof {
            let b = border_points(self.groupings@[0].marks@, w32 as int, h32 as int);
            assert(pts@ =~= b);
        }
        pts
    }

    /// The four points that `find_cross` draws for the current second group.
    pub fn cross_marks(&self) -> (pts: Vec<Position>)
        requires
            self.groupings@.len() > 1,
        ensures
            pts@ == cross_points(self.groupings@[1].marks@),
    {
        let g = &self.groupings[1].marks;
        let right = extreme(g, Position { x: 0, y: 0 },
            ScanRule { key_x: true, maximize: true, filtered: false, filter_x: false, filter_below: false, bound: 0 });
        let left = extreme(g, Position { x: MAX, y: MAX },
            ScanRule { key_x: true, maximize: false, filtered: false, filter_x: false, filter_below: false, bound: 0 });
        let top = extreme(g, Position { x: 0, y: MAX },
            ScanRule { key_x: false, maximize: false, filtered: false, filter_x: false, filter_below: false, bound: 0 });
        let bottom = extreme(g, Position { x: 0, y: 0 },
            ScanRule { key_x: false, maximize: true, filtered: false, filter_x: false, filter_below: false, bound: 0 });
        let mx = halfway_exec(left.x, right.x);
        let my = halfway_exec(top.y, bottom.y);
        let pts = vec![
            Position { x: right.x, y: my },
            Position { x: left.x, y: my },
            Position { x: mx, y: top.y },
            Position { x: mx, y: bottom.y },
        ];
        proof {
            assert(pts@ =~= cross_points(self.groupings@[1].marks@));
        }
        pts
    }

    /// Whether every point drawn by `find_map_border` and `find_cross` can be drawn
    /// without overflow (see `draw_safe`); drawing must not go on when one cannot.
    pub fn marks_drawable(&self) -> (ok: bool)
        requires
            self.wf(),
        ensures
            ok == ((self.groupings@.len() > 0 ==> all_draw_safe(border_points(self.groupings@[0].marks@, self.img.spec_width() as int, self.img.spec_height() as int)))
                && (self.groupings@.len() > 1 ==> all_draw_safe(cross_points(self.groupings@[1].marks@)))),
    {
        let mut ok = true;
        if self.groupings.len() > 0 {
            let pts = self.border_marks();
            ok = ok && all_safe(&pts);
        }
        if self.groupings.len() > 1 {
            let pts = self.cross_marks();
            ok = ok && all_safe(&pts);
        }
        ok
    }

    /// Finds the field border corners in the largest group, draws them and the midpoint
    /// of the left edge into the working image, and records the corners
    /// [top_left, top_right, bottom_left, bottom_right] when none is still at its
    /// frame-corner start value. Does nothing without groups.
    pub fn find_map_border(&mut self)
        requires
            old(self).wf(),
            old(self).groupings@.len() > 0 ==> all_draw_safe(border_points(old(self).groupings@[0].marks@, old(self).img.spec_width() as int, old(self).img.spec_height() as int)),
        ensures
            final(self).wf(),
            old(self).groupings@.len() == 0 ==> *final(self) == *old(self),
            old(self).groupings@.len() > 0 ==> {
                let pts = border_points(old(self).groupings@[0].marks@, old(self).img.spec_width() as int, old(self).img.spec_height() as int);
                let found = corners_found(old(self).groupings@[0].marks@, old(self).img.spec_width() as int, old(self).img.spec_height() as int);
                &&& marks_drawn(old(self).img, final(self).img, pts)
                &&& final(self).original_img == old(self).original_img
                &&& final(self).targets == old(self).targets
                &&& final(self).marks == old(self).marks
                &&& final(self).groupings == old(self).groupings
                &&& final(self).last_corners == (if found is Some { found } else { old(self).last_corners })
            },
    {
        if self.groupings.len() == 0 {
            return;
        }
        let (w32, h32) = self.img.dimensions();
        let width = w32 as i32;
        let height = h32 as i32;
        let pts = self.border_marks();
        self.draw_all(&pts);
        let tl = pts[1];
        let tr = pts[0];
        let bl = pts[7];
        let br = pts[6];
        let tl_ok = !(tl.x == width && tl.y == height);
        let tr_ok = !(tr.x == 0 && tr.y == height);
        let bl_ok = !(bl.x == width && bl.y == 0);
        let br_ok = !(br.x == 0 && br.y == 0);
        if tl_ok && tr_ok && bl_ok && br_ok {
            self.last_corners = Some([tl, tr, bl, br]);
        }
    }

    /// Finds the cross's arm tips in the second group and draws them into the working
    /// image. Does nothing with fewer than two groups.
    pub fn find_cross(&mut self)
        requires
            old(self).wf(),
            old(self).groupings@.len() > 1 ==> all_draw_safe(cross_points(old(self).groupings@[1].marks@)),
        ensures
            final(self).wf(),
            same_but_img(*final(self), *old(self)),
            old(self).groupings@.len() <= 1 ==> final(self).img == old(self).img,
            old(self).groupings@.len() > 1 ==> marks_drawn(old(self).img, final(self).img, cross_points(old(self).groupings@[1].marks@)),
    {
        if self.groupings.len() <= 1 {
            return;
        }
        let pts = self.cross_marks();
        self.draw_all(&pts);
    }
}

/// Whether every point can be drawn without overflow.
fn all_safe(pts: &Vec<Position>) -> (ok: bool)
    ensures
        ok == all_draw_safe(pts@),
{
    let mut k: usize = 0;
    while k < pts.len()
        invariant
            k <= pts@.len(),
            forall|i: int| 0 <= i < k ==> draw_safe(#[trigger] pts@[i]),
        decreases pts@.len() - k,
    {
        let x: u32 = pts[k].x as u32;
        let y: u32 = pts[k].y as u32;
        let m: u32 = if x < 10 {
            x
        } else if y < 10 && x > y {
            y
        } else {
            10
        };
        if !(y >= m && x as u64 + m as u64 <= u32::MAX as u64 && y as u64 + m as u64 <= u32::MAX as u64) {
            return false;
        }
        k = k + 1;
    }
    true
}


/// The points drawn for the border (largest group) and the cross (second group).
pub open spec fn drawn_points(gs: Seq<Grouping>, w: int, h: int) -> Seq<Position> {
    (if gs.len() > 0 { border_points(gs[0].marks@, w, h) } else { Seq::empty() }) + (if gs.len() > 1 {
        cross_points(gs[1].marks@)
    } else {
        Seq::empty()
    })
}

/// The border and cross marks of `gs` can all be drawn.
pub open spec fn drawable(gs: Seq<Grouping>, w: int, h: int) -> bool {
    &&& gs.len() > 0 ==> all_draw_safe(border_points(gs[0].marks@, w, h))
    &&& gs.len() > 1 ==> all_draw_safe(cross_points(gs[1].marks@))
}

/// The corners recorded after the border search of `gs`.
pub open spec fn corners_after(gs: Seq<Grouping>, w: int, h: int, before: Option<[Position; 4]>) -> Option<
    [Position; 4],
> {
    if gs.len() > 0 && corners_found(gs[0].marks@, w, h) is Some {
        corners_found(gs[0].marks@, w, h)
    } else {
        before
    }
}

proof fn lemma_marks_drawn_concat(a: Frame, b: Frame, c: Frame, p1: Seq<Position>, p2: Seq<Position>)
    requires
        marks_drawn(a, b, p1),
        marks_drawn(b, c, p2),
    ensures
        marks_drawn(a, c, p1 + p2),
{
    let p = p1 + p2;
    assert forall|i: int, j: int|
        0 <= i < a.spec_width() && 0 <= j < a.spec_height() implies #[trigger] c.pixel(i, j) == (if covered(p, i, j) {
        color_rgb(Color::White)
    } else {
        a.pixel(i, j)
    }) by {
        if covered(p, i, j) {
            let k = choose|k: int| 0 <= k < p.len() && in_mark(#[trigger] p[k].x as u32 as int, p[k].y as u32 as int, 10, i, j);
            if k < p1.len() {
                assert(p[k] == p1[k]);
                assert(b.pixel(i, j) == color_rgb(Color::White));
            } else {
                assert(p[k] == p2[k - p1.len()]);
            }
        } else {
            if covered(p1, i, j) {
                let k = choose|k: int| 0 <= k < p1.len() && in_mark(#[trigger] p1[k].x as u32 as int, p1[k].y as u32 as int, 10, i, j);
                assert(p[k] == p1[k]);
            }
            if covered(p2, i, j) {
                let k = choose|k: int| 0 <= k < p2.len() && in_mark(#[trigger] p2[k].x as u32 as int, p2[k].y as u32 as int, 10, i, j);
                assert(p[k + p1.len()] == p2[k]);
            }
        }
    }
}

proof fn lemma_marks_drawn_none(a: Frame)
    requires
        a.wf(),
    ensures
        marks_drawn(a, a, Seq::empty()),
{
}

impl State {
    /// Orders the groups by size (largest first, stable), then searches and draws the
    /// field border (largest group) and the cross (second group).
    pub fn find_borders(&mut self)
        requires
            old(self).wf(),
            forall|gs: Seq<Grouping>|
                is_stable_size_sort(old(self).groupings@, gs) ==> #[trigger] drawable(
                    gs,
                    old(self).img.spec_width() as int,
                    old(self).img.spec_height() as int,
                ),
        ensures
            final(self).wf(),
            is_stable_size_sort(old(self).groupings@, final(self).groupings@),
            final(self).original_img == old(self).original_img,
            final(self).targets == old(self).targets,
            final(self).marks == old(self).marks,
            marks_drawn(
                old(self).img,
                final(self).img,
                drawn_points(final(self).groupings@, old(self).img.spec_width() as int, old(self).img.spec_height() as int),
            ),
            final(self).last_corners == corners_after(
                final(self).groupings@,
                old(self).img.spec_width() as int,
                old(self).img.spec_height() as int,
                old(self).last_corners,
            ),
    {
        self.sort_groups_by_volume();
        assert(drawable(self.groupings@, self.img.spec_width() as int, self.img.spec_height() as int));
        self.draw_borders();
    }

    /// Like `find_borders`, but checks first that every mark can be drawn: when one
    /// cannot, the groups are only ordered, nothing is drawn and `false` is returned.
    pub fn find_borders_checked(&mut self) -> (ok: bool)
        requires
            old(self).wf(),
        ensures
            final(self).wf(),
            is_stable_size_sort(old(self).groupings@, final(self).groupings@),
            ok == drawable(final(self).groupings@, old(self).img.spec_width() as int, old(self).img.spec_height() as int),
            final(self).original_img == old(self).original_img,
            final(self).targets == old(self).targets,
            final(self).marks == old(self).marks,
            ok ==> marks_drawn(
                old(self).img,
                final(self).img,
                drawn_points(final(self).groupings@, old(self).img.spec_width() as int, old(self).img.spec_height() as int),
            ),
            ok ==> final(self).last_corners == corners_after(
                final(self).groupings@,
                old(self).img.spec_width() as int,
                old(self).img.spec_height() as int,
                old(self).last_corners,
            ),
            !ok ==> final(self).img == old(self).img && final(self).last_corners == old(self).last_corners,
    {
        self.sort_groups_by_volume();
        if self.marks_drawable() {
            self.draw_borders();
            true
        } else {
            false
        }
    }

    fn draw_borders(&mut self)
        requires
            old(self).wf(),
            drawable(old(self).groupings@, old(self).img.spec_width() as int, old(self).img.spec_height() as int),
        ensures
            final(self).wf(),
            final(self).groupings == old(self).groupings,
            final(self).original_img == old(self).original_img,
            final(self).targets == old(self).targets,
            final(self).marks == old(self).marks,
            marks_drawn(
                old(self).img,
                final(self).img,
                drawn_points(old(self).groupings@, old(self).img.spec_width() as int, old(self).img.spec_height() as int),
            ),
            final(self).last_corners == corners_after(
                old(self).groupings@,
                old(self).img.spec_width() as int,
                old(self).img.spec_height() as int,
                old(self).last_corners,
            ),
    {
        let ghost w = self.img.spec_width() as int;
        let ghost h = self.img.spec_height() as int;
        let ghost gs = self.groupings@;
        let ghost img0 = self.img;
        self.find_map_border();
        let ghost img1 = self.img;
        let ghost p1: Seq<Position> = if gs.len() > 0 { border_points(gs[0].marks@, w, h) } else { Seq::empty() };
        proof {
            if gs.len() == 0 {
                lemma_marks_drawn_none(img0);
            }
            assert(marks_drawn(img0, img1, p1));
        }
        self.find_cross();
        proof {
            let p2: Seq<Position> = if gs.len() > 1 { cross_points(gs[1].marks@) } else { Seq::empty() };
            if gs.len() <= 1 {
                lemma_marks_drawn_none(img1);
            }
            lemma_marks_drawn_concat(img0, img1, self.img, p1, p2);
            assert(drawn_points(gs, w, h) == p1 + p2);
        }
    }
}

} // verus!

verus! {

/// The extreme of a filtered scan that left its start value is a taking-part pixel
/// of the points, and no taking-part pixel is strictly more extreme.
proof fn lemma_band_extreme(s: Seq<Position>, init: Position, r: ScanRule)
    requires
        scan_extreme(s, init, r) != init,
    ensures
        s.contains(scan_extreme(s, init, r)),
        qualifies(scan_extreme(s, init, r), r),
        forall|i: int| 0 <= i < s.len() && qualifies(s[i], r) ==> !beats(#[trigger] s[i], scan_extreme(s, init, r), r),
{
    lemma_scan_extreme(s, init, r);
    let e = scan_extreme(s, init, r);
    let i = choose|i: int|
        0 <= i < s.len() && #[trigger] s[i] == e && qualifies(e, r) && beats(e, init, r) && (forall|j: int|
            0 <= j < i && qualifies(s[j], r) ==> beats(e, #[trigger] s[j], r));
    assert(s[i] == e);
}

/// The recorded corners are the border's extremes in the top and bottom quarter bands
/// of the frame, in the order [top_left, top_right, bottom_left, bottom_right]: each is
/// a border pixel of its band, the left ones have the least `x` of the band and the
/// right ones the greatest.
pub proof fn law_corners_are_band_extremes(s: Seq<Position>, w: int, h: int)
    requires
        0 <= w <= i32::MAX,
        0 <= h <= i32::MAX,
        corners_found(s, w, h) is Some,
    ensures
        ({
            let c = corners_found(s, w, h)->0;
            &&& s.contains(c[0]) && c[0].y < h / 4
            &&& s.contains(c[1]) && c[1].y < h / 4
            &&& s.contains(c[2]) && c[2].y > h / 4 * 3
            &&& s.contains(c[3]) && c[3].y > h / 4 * 3
            &&& forall|i: int| 0 <= i < s.len() && #[trigger] s[i].y < h / 4 ==> c[0].x <= s[i].x && s[i].x <= c[1].x
            &&& forall|i: int| 0 <= i < s.len() && #[trigger] s[i].y > h / 4 * 3 ==> c[2].x <= s[i].x && s[i].x
                <= c[3].x
        }),
{
    let tr_rule = rule(true, true, false, true, h / 4);
    let tl_rule = rule(true, false, false, true, h / 4);
    let br_rule = rule(true, true, false, false, h / 4 * 3);
    let bl_rule = rule(true, false, false, false, h / 4 * 3);
    lemma_band_extreme(s, pt(0, h), tr_rule);
    lemma_band_extreme(s, pt(w, h), tl_rule);
    lemma_band_extreme(s, pt(0, 0), br_rule);
    lemma_band_extreme(s, pt(w, 0), bl_rule);
    let b = border_points(s, w, h);
    assert(b[0] == scan_extreme(s, pt(0, h), tr_rule));
    assert(b[1] == scan_extreme(s, pt(w, h), tl_rule));
    assert(b[6] == scan_extreme(s, pt(0, 0), br_rule));
    assert(b[7] == scan_extreme(s, pt(w, 0), bl_rule));
}

} // verus!
