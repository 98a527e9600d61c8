//! Offline ball detection on a still image: coarse colour cells, re-centred and
//! filtered by how far the ball colour reaches along four directions.
use vstd::prelude::*;
use crate::color::Rgb;
use crate::frame::Frame;
use crate::features::trunc_div;

verus! {

/// Cell size of the coarse scan.
pub const INC: i32 = 10;

/// A probe direction.
#[derive(Debug, Clone, Copy, PartialEq, Eq, Structural)]
pub enum Direction {
    Up,
    Right,
    Diagonal,
    AntiDiagonal,
}

pub open spec fn dir_vec(d: Direction) -> (int, int) {
    match d {
        Direction::Up => (0, -1),
        Direction::Right => (1, 0),
        Direction::Diagonal => (-1, -1),
        Direction::AntiDiagonal => (1, -1),
    }
}

impl Direction {
    /// Unit step of the direction in image coordinates (y grows down).
    pub fn vec(&self) -> (v: (i32, i32))
        ensures
            v.0 == dir_vec(*self).0,
            v.1 == dir_vec(*self).1,
    {
        match self {
            Direction::Up => (0, -1),
            Direction::Right => (1, 0),
            Direction::Diagonal => (-1, -1),
            Direction::AntiDiagonal => (1, -1),
        }
    }
}

/// Ball colours the offline detector tells apart.
#[derive(Debug, Clone, Copy, PartialEq, Eq, Structural)]
pub enum BallColor {
    White,
    Orange,
}

/// A ball candidate.
#[derive(Debug, Clone, Copy)]
pub struct Mark {
    pub x: i32,
    pub y: i32,
    pub color: BallColor,
    pub to_be_deleted: bool,
}

/// The image and its average colour.
pub struct State {
    pub original_img: Frame,
    pub global_avg: Rgb,
}

pub open spec fn chan(c: Rgb, k: int) -> int {
    if k == 0 {
        c.r as int
    } else if k == 1 {
        c.g as int
    } else {
        c.b as int
    }
}

/// Sum of channel `k` over column `x`, rows `y0..y1`.
pub open spec fn col_sum(img: Frame, x: int, y0: int, y1: int, k: int) -> int
    decreases y1 - y0,
{
    if y1 <= y0 {
        0
    } else {
        col_sum(img, x, y0, y1 - 1, k) + chan(img.pixel(x, y1 - 1), k)
    }
}

/// Sum of channel `k` over columns `x0..x1`, rows `y0..y1`.
pub open spec fn rect_sum(img: Frame, x0: int, x1: int, y0: int, y1: int, k: int) -> int
    decreases x1 - x0,
{
    if x1 <= x0 {
        0
    } else {
        rect_sum(img, x0, x1 - 1, y0, y1, k) + col_sum(img, x1 - 1, y0, y1, k)
    }
}

/// End of a field along one axis: `start + size`, or two short of the image edge when
/// that reaches the edge.
pub open spec fn field_end(start: int, size: int, dim: int) -> int {
    if start + size >= dim {
        dim - 2
    } else {
        start + size
    }
}

/// The field's geometry allows an average: its ends fit in i32, its sizes multiply to a
/// positive i32, and a non-empty field starts inside the image.
pub open spec fn field_geom(img: Frame, sx: int, sy: int, width: int, height: int) -> bool {
    let xe = field_end(sx, width, img.spec_width() as int);
    let ye = field_end(sy, height, img.spec_height() as int);
    &&& i32::MIN <= sx + width <= i32::MAX
    &&& i32::MIN <= sy + height <= i32::MAX
    &&& 0 < width * height <= i32::MAX
    &&& (sx < xe && sy < ye) ==> (0 <= sx && 0 <= sy)
}

/// Sum of channel `k` over the (clipped) field.
pub open spec fn field_sum(img: Frame, sx: int, sy: int, width: int, height: int, k: int) -> int {
    rect_sum(
        img,
        sx,
        field_end(sx, width, img.spec_width() as int),
        sy,
        field_end(sy, height, img.spec_height() as int),
        k,
    )
}

/// Every channel sum over the field fits in u32.
pub open spec fn sums_fit(img: Frame, sx: int, sy: int, width: int, height: int) -> bool {
    &&& field_sum(img, sx, sy, width, height, 0) <= u32::MAX
    &&& field_sum(img, sx, sy, width, height, 1) <= u32::MAX
    &&& field_sum(img, sx, sy, width, height, 2) <= u32::MAX
}

/// The average over a field can be taken: its geometry allows it and every channel sum
/// fits in u32.
pub open spec fn field_ok(img: Frame, sx: int, sy: int, width: int, height: int) -> bool {
    field_geom(img, sx, sy, width, height) && sums_fit(img, sx, sy, width, height)
}

/// Number of pixels in the (clipped) field.
pub open spec fn field_area(img: Frame, sx: int, sy: int, width: int, height: int) -> int {
    let xe = field_end(sx, width, img.spec_width() as int);
    let ye = field_end(sy, height, img.spec_height() as int);
    if sx < xe && sy < ye {
        (xe - sx) * (ye - sy)
    } else {
        0
    }
}

/// `sum / area` rounded down, or 0 for an empty area.
pub open spec fn mean(sum: int, area: int) -> int {
    if area > 0 {
        sum / area
    } else {
        0
    }
}

/// Average colour of the field: each channel's sum over the clipped field divided by
/// the number of pixels in it; black when nothing is left of the field.
pub open spec fn avg_field(img: Frame, sx: int, sy: int, width: int, height: int) -> Rgb {
    let n = field_area(img, sx, sy, width, height);
    Rgb {
        r: mean(field_sum(img, sx, sy, width, height, 0), n) as u8,
        g: mean(field_sum(img, sx, sy, width, height, 1), n) as u8,
        b: mean(field_sum(img, sx, sy, width, height, 2), n) as u8,
    }
}

proof fn lemma_col_sum_bound(img: Frame, x: int, y0: int, y1: int, k: int)
    ensures
        0 <= col_sum(img, x, y0, y1, k) <= 255 * (if y1 > y0 { y1 - y0 } else { 0 }),
    decreases y1 - y0,
{
    if y1 > y0 {
        lemma_col_sum_bound(img, x, y0, y1 - 1, k);
    }
}

proof fn lemma_rect_sum_bound(img: Frame, x0: int, x1: int, y0: int, y1: int, k: int)
    ensures
        0 <= rect_sum(img, x0, x1, y0, y1, k) <= 255 * ((if x1 > x0 { x1 - x0 } else { 0 }) * (if y1 > y0 {
            y1 - y0
        } else {
            0
        })),
    decreases x1 - x0,
{
    if x1 > x0 {
        lemma_rect_sum_bound(img, x0, x1 - 1, y0, y1, k);
        lemma_col_sum_bound(img, x1 - 1, y0, y1, k);
        let hh = if y1 > y0 { y1 - y0 } else { 0 };
        assert(255 * ((x1 - 1 - x0) * hh) + 255 * hh == 255 * ((x1 - x0) * hh)) by (nonlinear_arith);
    }
}

/// A partial sum over the field, up to row `y` of column `x`, stays below the bound that
/// makes the channel sums fit.
proof fn lemma_partial_sum_bound(
    img: Frame,
    sx: int,
    x: int,
    sy: int,
    y: int,
    ye: int,
    width: int,
    height: int,
    k: int,
)
    requires
        sx <= x,
        x + 1 - sx <= width,
        sy <= y < ye,
        ye - sy <= height,
    ensures
        rect_sum(img, sx, x, sy, ye, k) + col_sum(img, x, sy, y + 1, k) <= 255 * (width * height),
{
    lemma_rect_sum_bound(img, sx, x, sy, ye, k);
    lemma_col_sum_bound(img, x, sy, y + 1, k);
    let cw = x - sx;
    let ch = ye - sy;
    assert(255 * (cw * ch) + 255 * (y + 1 - sy) <= 255 * (width * height)) by (nonlinear_arith)
        requires
            0 <= cw,
            cw + 1 <= width,
            0 < y + 1 - sy <= ch,
            ch <= height,
    ;
}

/// The clipped field never holds more cells than `width * height`.
proof fn lemma_field_cells(sx: int, sy: int, width: int, height: int, xe: int, ye: int)
    requires
        0 < width * height,
        xe <= sx + width,
        ye <= sy + height,
    ensures
        (if xe > sx { xe - sx } else { 0 }) * (if ye > sy { ye - sy } else { 0 }) <= width * height,
{
    let cw = if xe > sx { xe - sx } else { 0 };
    let ch = if ye > sy { ye - sy } else { 0 };
    if cw > 0 && ch > 0 {
        assert(cw * ch <= width * height) by (nonlinear_arith)
            requires
                0 < cw <= width,
                0 < ch <= height,
        ;
    } else {
        assert(cw * ch == 0) by (nonlinear_arith)
            requires
                cw == 0 || ch == 0,
        ;
    }
}

/// A small field (at most `u32::MAX / 255` pixels) has channel sums that fit in u32.
proof fn lemma_small_field_sums(img: Frame, sx: int, sy: int, width: int, height: int)
    requires
        field_geom(img, sx, sy, width, height),
        width * height <= 16843009,
    ensures
        sums_fit(img, sx, sy, width, height),
        field_ok(img, sx, sy, width, height),
{
    let xe = field_end(sx, width, img.spec_width() as int);
    let ye = field_end(sy, height, img.spec_height() as int);
    lemma_rect_sum_bound(img, sx, xe, sy, ye, 0);
    lemma_rect_sum_bound(img, sx, xe, sy, ye, 1);
    lemma_rect_sum_bound(img, sx, xe, sy, ye, 2);
    lemma_field_cells(sx, sy, width, height, xe, ye);
}

/// The channel sums over the (clipped) field, in u64.
fn field_sums(img: &Frame, sx: i32, sy: i32, width: i32, height: i32) -> (s: (u64, u64, u64))
    requires
        img.wf(),
        field_geom(*img, sx as int, sy as int, width as int, height as int),
    ensures
        s.0 == field_sum(*img, sx as int, sy as int, width as int, height as int, 0),
        s.1 == field_sum(*img, sx as int, sy as int, width as int, height as int, 1),
        s.2 == field_sum(*img, sx as int, sy as int, width as int, height as int, 2),
{
    let (iw, ih) = img.dimensions();
    let w = if sx + width >= iw as i32 {
        iw as i32 - 2
    } else {
        sx + width
    };
    let h = if sy + height >= ih as i32 {
        ih as i32 - 2
    } else {
        sy + height
    };
    let ghost xe = w as int;
    let ghost ye = h as int;
    let mut r_sum: u64 = 0;
    let mut g_sum: u64 = 0;
    let mut b_sum: u64 = 0;
    let mut x: i32 = sx;
    while x < w
        invariant
            img.wf(),
            field_geom(*img, sx as int, sy as int, width as int, height as int),
            xe == w,
            ye == h,
            w == field_end(sx as int, width as int, img.spec_width() as int),
            h == field_end(sy as int, height as int, img.spec_height() as int),
            sx <= x,
            x <= w || x == sx,
            r_sum == rect_sum(*img, sx as int, x as int, sy as int, ye, 0),
            g_sum == rect_sum(*img, sx as int, x as int, sy as int, ye, 1),
            b_sum == rect_sum(*img, sx as int, x as int, sy as int, ye, 2),
        decreases w - x,
    {
        let ghost cr = r_sum;
        let ghost cg = g_sum;
        let ghost cb = b_sum;
        let mut y: i32 = sy;
        while y < h
            invariant
                img.wf(),
                field_geom(*img, sx as int, sy as int, width as int, height as int),
                xe == w,
                ye == h,
                w == field_end(sx as int, width as int, img.spec_width() as int),
                h == field_end(sy as int, height as int, img.spec_height() as int),
                sx <= x < w,
                sy <= y,
                y <= h || y == sy,
                r_sum == cr + col_sum(*img, x as int, sy as int, y as int, 0),
                g_sum == cg + col_sum(*img, x as int, sy as int, y as int, 1),
                b_sum == cb + col_sum(*img, x as int, sy as int, y as int, 2),
                cr == rect_sum(*img, sx as int, x as int, sy as int, ye, 0),
                cg == rect_sum(*img, sx as int, x as int, sy as int, ye, 1),
                cb == rect_sum(*img, sx as int, x as int, sy as int, ye, 2),
            decreases h - y,
        {
            proof {
                lemma_partial_sum_bound(*img, sx as int, x as int, sy as int, y as int, ye, width as int, height as int, 0);
                lemma_partial_sum_bound(*img, sx as int, x as int, sy as int, y as int, ye, width as int, height as int, 1);
                lemma_partial_sum_bound(*img, sx as int, x as int, sy as int, y as int, ye, width as int, height as int, 2);
            }
            let p = img.get_pixel(x as u32, y as u32);
            r_sum = r_sum + p.r as u64;
            g_sum = g_sum + p.g as u64;
            b_sum = b_sum + p.b as u64;
            y = y + 1;
        }
        x = x + 1;
    }
    (r_sum, g_sum, b_sum)
}

/// `sum / area` rounded down (0 for an empty area) as a channel value.
fn mean_channel(sum: u64, area: u64) -> (c: u8)
    requires
        sum <= 255 * area,
    ensures
        c == mean(sum as int, area as int),
{
    if area == 0 {
        0
    } else {
        assert(sum / area <= 255) by (nonlinear_arith)
            requires
                sum <= 255 * area,
                area > 0,
        ;
        (sum / area) as u8
    }
}

/// The average colour from the channel sums over the field.
fn field_mean(img: &Frame, sx: i32, sy: i32, width: i32, height: i32, s: (u64, u64, u64)) -> (c: Rgb)
    requires
        img.wf(),
        field_geom(*img, sx as int, sy as int, width as int, height as int),
        s.0 == field_sum(*img, sx as int, sy as int, width as int, height as int, 0),
        s.1 == field_sum(*img, sx as int, sy as int, width as int, height as int, 1),
        s.2 == field_sum(*img, sx as int, sy as int, width as int, height as int, 2),
    ensures
        c == avg_field(*img, sx as int, sy as int, width as int, height as int),
{
    let (iw, ih) = img.dimensions();
    let w: i64 = if sx as i64 + width as i64 >= iw as i64 {
        iw as i64 - 2
    } else {
        sx as i64 + width as i64
    };
    let h: i64 = if sy as i64 + height as i64 >= ih as i64 {
        ih as i64 - 2
    } else {
        sy as i64 + height as i64
    };
    let ghost xe = w as int;
    let ghost ye = h as int;
    proof {
        lemma_rect_sum_bound(*img, sx as int, xe, sy as int, ye, 0);
        lemma_rect_sum_bound(*img, sx as int, xe, sy as int, ye, 1);
        lemma_rect_sum_bound(*img, sx as int, xe, sy as int, ye, 2);
        lemma_field_cells(sx as int, sy as int, width as int, height as int, xe, ye);
    }
    let area: u64 = if (sx as i64) < w && (sy as i64) < h {
        let cw = (w - sx as i64) as u64;
        let ch = (h - sy as i64) as u64;
        assert(cw * ch <= i32::MAX);
        cw * ch
    } else {
        0
    };
    assert(area == field_area(*img, sx as int, sy as int, width as int, height as int));
    Rgb { r: mean_channel(s.0, area), g: mean_channel(s.1, area), b: mean_channel(s.2, area) }
}

/// Average colour of the `width` x `height` field at (sx, sy): the field is cut two
/// pixels short of the right and bottom edges when it reaches them, and the channel
/// sums over what is left are divided by its number of pixels.
pub fn get_avg_color_in_pixel_field_wh(img: &Frame, sx: i32, sy: i32, width: i32, height: i32) -> (c: Rgb)
    requires
        img.wf(),
        field_ok(*img, sx as int, sy as int, width as int, height as int),
    ensures
        c == avg_field(*img, sx as int, sy as int, width as int, height as int),
{
    let s = field_sums(img, sx, sy, width, height);
    field_mean(img, sx, sy, width, height, s)
}

/// Colour distance below which a cell counts as background.
pub const BACKGROUND_DELTA: u32 = 8000;

/// Colour distance above which a probe still lies on the ball.
pub const EDGE_DELTA: u32 = 8022;

pub open spec fn abs_diff(a: u8, b: u8) -> int {
    if a >= b {
        a - b
    } else {
        b - a
    }
}

/// Squared colour distance: the sum over the channels of the squared differences.
pub open spec fn color_dist(a: Rgb, b: Rgb) -> int {
    abs_diff(a.r, b.r) * abs_diff(a.r, b.r) + abs_diff(a.g, b.g) * abs_diff(a.g, b.g) + abs_diff(a.b, b.b)
        * abs_diff(a.b, b.b)
}

fn channel_diff(a: u8, b: u8) -> (d: u32)
    ensures
        d == abs_diff(a, b),
        d <= 255,
{
    if a >= b {
        (a - b) as u32
    } else {
        (b - a) as u32
    }
}

/// Origin of the `i`-th probe of a field walk from (x, y) along `d`; `sign` is 1 forward
/// and -1 backward.
pub open spec fn probe_x(x: int, d: Direction, i: int, sign: int) -> int {
    2 + x + sign * i * (dir_vec(d).0 * 5)
}

pub open spec fn probe_y(y: int, d: Direction, i: int, sign: int) -> int {
    2 + y + sign * i * (dir_vec(d).1 * 5)
}

pub open spec fn in_i32(v: int) -> bool {
    i32::MIN <= v <= i32::MAX
}

/// The `i`-th probe can be taken: its coordinates fit and its field can be averaged.
pub open spec fn probe_ok(img: Frame, x: int, y: int, d: Direction, i: int, sign: int) -> bool {
    &&& in_i32(2 + x)
    &&& in_i32(2 + y)
    &&& in_i32(probe_x(x, d, i, sign))
    &&& in_i32(probe_y(y, d, i, sign))
    &&& field_ok(img, probe_x(x, d, i, sign), probe_y(y, d, i, sign), 5, 5)
}

/// Every probe of a walk from (x, y) along `d` can be taken.
pub open spec fn edge_ok(img: Frame, x: int, y: int, d: Direction) -> bool {
    forall|i: int| 0 <= i < 4 ==> #[trigger] probe_ok(img, x, y, d, i, 1) && probe_ok(img, x, y, d, i, -1)
}

impl State {
    /// The average of the `i`-th probe differs enough from the image average.
    pub open spec fn probe_hit(self, x: int, y: int, d: Direction, i: int, sign: int) -> bool {
        color_dist(
            avg_field(self.original_img, probe_x(x, d, i, sign), probe_y(y, d, i, sign), 5, 5),
            self.global_avg,
        ) > EDGE_DELTA
    }

    /// Number of leading probes among the first `n` that hit.
    pub open spec fn run_len(self, x: int, y: int, d: Direction, sign: int, n: int) -> int
        decreases n,
    {
        if n <= 0 {
            0
        } else {
            let r = self.run_len(x, y, d, sign, n - 1);
            if r == n - 1 && self.probe_hit(x, y, d, n - 1, sign) {
                n
            } else {
                r
            }
        }
    }

    /// How far the ball colour reaches forward and backward from (x, y) along `d`, in
    /// probes of half a cell (at most 4 each way).
    pub open spec fn edge_spec(self, x: int, y: int, d: Direction) -> (int, int) {
        (self.run_len(x, y, d, 1, 4), self.run_len(x, y, d, -1, 4))
    }

    /// Squared colour distance of `color` from the image average.
    pub fn color_diff(&self, color: Rgb) -> (d: u32)
        ensures
            d == color_dist(color, self.global_avg),
    {
        let dr = channel_diff(color.r, self.global_avg.r);
        let dg = channel_diff(color.g, self.global_avg.g);
        let db = channel_diff(color.b, self.global_avg.b);
        proof {
            assert(dr * dr <= 255 * 255 && dg * dg <= 255 * 255 && db * db <= 255 * 255) by (nonlinear_arith)
                requires
                    dr <= 255,
                    dg <= 255,
                    db <= 255,
            ;
        }
        dr * dr + dg * dg + db * db
    }

    /// Average colour of the `size` x `size` field at (sx, sy) of the image.
    pub fn get_avg_color_in_pixel_field(&self, sx: i32, sy: i32, size: i32) -> (c: Rgb)
        requires
            self.original_img.wf(),
            field_ok(self.original_img, sx as int, sy as int, size as int, size as int),
        ensures
            c == avg_field(self.original_img, sx as int, sy as int, size as int, size as int),
    {
        get_avg_color_in_pixel_field_wh(&self.original_img, sx, sy, size, size)
    }

    /// Walks four half-cell probes forward and backward from the mark along `dir` and
    /// counts, each way, how many probes in a row still differ from the background.
    pub fn edge(&self, mark: &Mark, dir: Direction) -> (r: (i32, i32))
        requires
            self.original_img.wf(),
            edge_ok(self.original_img, mark.x as int, mark.y as int, dir),
        ensures
            r.0 == self.edge_spec(mark.x as int, mark.y as int, dir).0,
            r.1 == self.edge_spec(mark.x as int, mark.y as int, dir).1,
            0 <= r.0 <= 4,
            0 <= r.1 <= 4,
    {
        let pos = (mark.x, mark.y);
        let inc = INC / 2;
        let v = dir.vec();
        let step = (v.0 * inc, v.1 * inc);
        let mut r: (i32, i32) = (0, 0);
        let mut s: (bool, bool) = (true, true);
        let mut i: i32 = 0;
        while i < 4
            invariant
                self.original_img.wf(),
                edge_ok(self.original_img, mark.x as int, mark.y as int, dir),
                pos == (mark.x, mark.y),
                step.0 == dir_vec(dir).0 * 5,
                step.1 == dir_vec(dir).1 * 5,
                -5 <= step.0 <= 5,
                -5 <= step.1 <= 5,
                0 <= i <= 4,
                r.0 == self.run_len(mark.x as int, mark.y as int, dir, 1, i as int),
                r.1 == self.run_len(mark.x as int, mark.y as int, dir, -1, i as int),
                s.0 == (r.0 == i),
                s.1 == (r.1 == i),
                0 <= r.0 <= i,
                0 <= r.1 <= i,
            decreases 4 - i,
        {
            assert(probe_ok(self.original_img, mark.x as int, mark.y as int, dir, i as int, 1));
            assert(probe_ok(self.original_img, mark.x as int, mark.y as int, dir, i as int, -1));
            assert(-20 <= i * step.0 <= 20 && -20 <= i * step.1 <= 20 && -20 <= (-i) * step.0 <= 20
                && -20 <= (-i) * step.1 <= 20) by (nonlinear_arith)
                requires
                    0 <= i <= 4,
                    -5 <= step.0 <= 5,
                    -5 <= step.1 <= 5,
            ;
            let new_pos = (INC / 4 + pos.0 + i * step.0, INC / 4 + pos.1 + i * step.1);
            let neg_pos = (INC / 4 + pos.0 + -i * step.0, INC / 4 + pos.1 + -i * step.1);
            let avg = self.get_avg_color_in_pixel_field(new_pos.0, new_pos.1, INC / 2);
            let da = self.color_diff(avg);
            let n_avg = self.get_avg_color_in_pixel_field(neg_pos.0, neg_pos.1, INC / 2);
            let nda = self.color_diff(n_avg);
            if da > EDGE_DELTA && s.0 {
                r.0 = r.0 + 1;
            } else {
                s.0 = false;
            }
            if nda > EDGE_DELTA && s.1 {
                r.1 = r.1 + 1;
            } else {
                s.1 = false;
            }
            i = i + 1;
        }
        r
    }
}

/// Whether the field's geometry allows an average (see `field_geom`).
fn field_fits(img: &Frame, sx: i64, sy: i64, width: i64, height: i64) -> (b: bool)
    requires
        img.wf(),
        -0x8000_0000 <= sx <= 0x8000_0000,
        -0x8000_0000 <= sy <= 0x8000_0000,
        -0x8000_0000 <= width <= 0x8000_0000,
        -0x8000_0000 <= height <= 0x8000_0000,
    ensures
        b == field_geom(*img, sx as int, sy as int, width as int, height as int),
{
    let (iw, ih) = img.dimensions();
    if sx + width < i32::MIN as i64 || sx + width > i32::MAX as i64 {
        return false;
    }
    if sy + height < i32::MIN as i64 || sy + height > i32::MAX as i64 {
        return false;
    }
    proof {
        assert(-0x4000_0000_0000_0000 <= width * height <= 0x4000_0000_0000_0000) by (nonlinear_arith)
            requires
                -0x8000_0000 <= width <= 0x8000_0000,
                -0x8000_0000 <= height <= 0x8000_0000,
        ;
    }
    let area = width * height;
    if area <= 0 || area > i32::MAX as i64 {
        return false;
    }
    let xe = if sx + width >= iw as i64 {
        iw as i64 - 2
    } else {
        sx + width
    };
    let ye = if sy + height >= ih as i64 {
        ih as i64 - 2
    } else {
        sy + height
    };
    if sx < xe && sy < ye {
        0 <= sx && 0 <= sy
    } else {
        true
    }
}

/// The truncating quarter of `10 * (a - b)`: how far a mark moves towards the side
/// where the ball colour reaches further.
pub open spec fn shift(a: int, b: int) -> int {
    trunc_div((a - b) * 10, 4)
}

fn shift_exec(a: i32, b: i32) -> (q: i32)
    requires
        0 <= a <= 4,
        0 <= b <= 4,
    ensures
        q == shift(a as int, b as int),
        -10 <= q <= 10,
{
    let v = (a - b) * INC;
    if v >= 0 {
        v / 4
    } else {
        -((-v) / 4)
    }
}

/// Ball colour of a cell's average, if any: far enough from the background, then
/// bright in every channel (white) or red-dominant without much blue (orange).
pub open spec fn classify(avg: Rgb, background: Rgb) -> Option<BallColor> {
    if color_dist(avg, background) < BACKGROUND_DELTA {
        None
    } else if avg.r > 200 && avg.g > 200 && avg.b > 200 {
        Some(BallColor::White)
    } else if avg.r > 190 && avg.g > 100 && avg.b < 140 {
        Some(BallColor::Orange)
    } else {
        None
    }
}

/// The marks that no test struck out, in order.
pub open spec fn survivors(s: Seq<Mark>) -> Seq<Mark>
    decreases s.len(),
{
    if s.len() == 0 {
        s
    } else {
        let p = survivors(s.drop_last());
        if s.last().to_be_deleted {
            p
        } else {
            p.push(s.last())
        }
    }
}

impl State {
    /// Ball colour of the coarse cell (cx, cy).
    pub open spec fn cell_class(self, cx: int, cy: int) -> Option<BallColor> {
        classify(avg_field(self.original_img, cx * INC, cy * INC, INC as int, INC as int), self.global_avg)
    }

    /// Candidates of column `cx`, rows `0..ny`, top to bottom.
    pub open spec fn column_cands(self, cx: int, ny: int) -> Seq<Mark>
        decreases ny,
    {
        if ny <= 0 {
            Seq::empty()
        } else {
            let p = self.column_cands(cx, ny - 1);
            match self.cell_class(cx, ny - 1) {
                Some(c) => p.push(
                    Mark { x: (cx * INC) as i32, y: ((ny - 1) * INC) as i32, color: c, to_be_deleted: false },
                ),
                None => p,
            }
        }
    }

    /// Candidates of columns `0..nx`, left to right.
    pub open spec fn scan_cands(self, nx: int, ny: int) -> Seq<Mark>
        decreases nx,
    {
        if nx <= 0 {
            Seq::empty()
        } else {
            self.scan_cands(nx - 1, ny) + self.column_cands(nx - 1, ny)
        }
    }

    /// Candidates of the whole image: every full cell.
    pub open spec fn candidates(self) -> Seq<Mark> {
        self.scan_cands(
            self.original_img.spec_width() as int / INC as int,
            self.original_img.spec_height() as int / INC as int,
        )
    }

    /// Position of a mark once moved towards the centre of its ball.
    pub open spec fn realigned(self, m: Mark) -> (int, int) {
        let up = self.edge_spec(m.x as int, m.y as int, Direction::Up);
        let right = self.edge_spec(m.x as int, m.y as int, Direction::Right);
        (m.x + shift(right.0, right.1), m.y + shift(up.1, up.0))
    }

    /// Every probe that refining the mark takes can be taken.
    pub open spec fn refine_ok(self, m: Mark) -> bool {
        let p = self.realigned(m);
        &&& edge_ok(self.original_img, m.x as int, m.y as int, Direction::Up)
        &&& edge_ok(self.original_img, m.x as int, m.y as int, Direction::Right)
        &&& in_i32(p.0)
        &&& in_i32(p.1)
        &&& edge_ok(self.original_img, p.0, p.1, Direction::Diagonal)
        &&& edge_ok(self.original_img, p.0, p.1, Direction::AntiDiagonal)
    }

    /// The mark moved to its ball's centre, and struck out when the colour stops short on
    /// a diagonal or the two diagonals differ by a factor of two or more.
    pub open spec fn refined(self, m: Mark) -> Mark {
        let p = self.realigned(m);
        let dg = self.edge_spec(p.0, p.1, Direction::Diagonal);
        let ad = self.edge_spec(p.0, p.1, Direction::AntiDiagonal);
        let dl = dg.0 + dg.1;
        let adl = ad.0 + ad.1;
        Mark {
            x: p.0 as i32,
            y: p.1 as i32,
            color: m.color,
            to_be_deleted: m.to_be_deleted || dg.0 <= 1 || dg.1 <= 1 || ad.0 <= 1 || ad.1 <= 1 || dl
                >= adl * 2 || adl >= dl * 2,
        }
    }

    /// The image with its average colour; `None` when that average cannot be taken (an
    /// empty image, or a channel sum beyond u32).
    pub fn new(img: Frame) -> (r: Option<State>)
        requires
            img.wf(),
        ensures
            r is None <==> !field_ok(img, 0, 0, img.spec_width() as int, img.spec_height() as int),
            r matches Some(st) ==> field_ok(img, 0, 0, img.spec_width() as int, img.spec_height() as int)
                && st.original_img == img && st.global_avg == avg_field(
                img,
                0,
                0,
                img.spec_width() as int,
                img.spec_height() as int,
            ),
    {
        let (w, h) = img.dimensions();
        if !field_fits(&img, 0, 0, w as i64, h as i64) {
            return None;
        }
        let sums = field_sums(&img, 0, 0, w as i32, h as i32);
        if sums.0 > u32::MAX as u64 || sums.1 > u32::MAX as u64 || sums.2 > u32::MAX as u64 {
            return None;
        }
        let avg = field_mean(&img, 0, 0, w as i32, h as i32, sums);
        Some(State { original_img: img, global_avg: avg })
    }

    /// Whether every probe of a walk from (x, y) along `dir` can be taken.
    pub fn edge_fits(&self, x: i32, y: i32, dir: Direction) -> (b: bool)
        requires
            self.original_img.wf(),
        ensures
            b == edge_ok(self.original_img, x as int, y as int, dir),
    {
        let v = dir.vec();
        let ghost img = self.original_img;
        let mut i: i64 = 0;
        while i < 4
            invariant
                self.original_img.wf(),
                img == self.original_img,
                v.0 == dir_vec(dir).0,
                v.1 == dir_vec(dir).1,
                -1 <= v.0 <= 1,
                -1 <= v.1 <= 1,
                0 <= i <= 4,
                forall|j: int|
                    0 <= j < i ==> #[trigger] probe_ok(img, x as int, y as int, dir, j, 1) && probe_ok(
                        img,
                        x as int,
                        y as int,
                        dir,
                        j,
                        -1,
                    ),
            decreases 4 - i,
        {
            assert(-20 <= i * (v.0 * 5) <= 20 && -20 <= i * (v.1 * 5) <= 20 && -20 <= (-1) * i * (v.0 * 5)
                <= 20 && -20 <= (-1) * i * (v.1 * 5) <= 20) by (nonlinear_arith)
                requires
                    0 <= i <= 4,
                    -1 <= v.0 <= 1,
                    -1 <= v.1 <= 1,
            ;
            let ox = 2 + x as i64;
            let oy = 2 + y as i64;
            let fx = ox + i * (v.0 as i64 * 5);
            let fy = oy + i * (v.1 as i64 * 5);
            let bx = ox + (-1) * i * (v.0 as i64 * 5);
            let by = oy + (-1) * i * (v.1 as i64 * 5);
            assert(fx == probe_x(x as int, dir, i as int, 1));
            assert(fy == probe_y(y as int, dir, i as int, 1));
            assert(bx == probe_x(x as int, dir, i as int, -1));
            assert(by == probe_y(y as int, dir, i as int, -1));
            let coords_fit = i32::MIN as i64 <= ox && ox <= i32::MAX as i64 && i32::MIN as i64 <= oy && oy
                <= i32::MAX as i64;
            if !coords_fit {
                assert(!probe_ok(img, x as int, y as int, dir, i as int, 1));
                return false;
            }
            let fwd = i32::MIN as i64 <= fx && fx <= i32::MAX as i64 && i32::MIN as i64 <= fy && fy
                <= i32::MAX as i64 && field_fits(&self.original_img, fx, fy, 5, 5);
            if !fwd {
                assert(!probe_ok(img, x as int, y as int, dir, i as int, 1));
                return false;
            }
            proof {
                lemma_small_field_sums(img, fx as int, fy as int, 5, 5);
            }
            let bwd = i32::MIN as i64 <= bx && bx <= i32::MAX as i64 && i32::MIN as i64 <= by && by
                <= i32::MAX as i64 && field_fits(&self.original_img, bx, by, 5, 5);
            if bwd {
                proof {
                    lemma_small_field_sums(img, bx as int, by as int, 5, 5);
                }
            }
            if !bwd {
                assert(probe_ok(img, x as int, y as int, dir, i as int, 1));
                assert(!probe_ok(img, x as int, y as int, dir, i as int, -1));
                assert(!edge_ok(img, x as int, y as int, dir));
                return false;
            }
            assert(probe_ok(img, x as int, y as int, dir, i as int, 1));
            assert(probe_ok(img, x as int, y as int, dir, i as int, -1));
            assert forall|j: int| 0 <= j < i + 1 implies #[trigger] probe_ok(img, x as int, y as int, dir, j, 1)
                && probe_ok(img, x as int, y as int, dir, j, -1) by {
                if j < i {
                    assert(probe_ok(img, x as int, y as int, dir, j, 1));
                }
            }
            i = i + 1;
        }
        true
    }

    /// The marks of the whole detection: candidates, each refined, then the survivors.
    pub open spec fn detected(self) -> Seq<Mark> {
        survivors(self.candidates().map_values(|m: Mark| self.refined(m)))
    }

    /// Marks every full cell whose average colour is a ball colour, column by column,
    /// each column top to bottom.
    pub fn find_candidates(&self) -> (r: Vec<Mark>)
        requires
            self.original_img.wf(),
        ensures
            r@ == self.candidates(),
    {
        let (w, h) = self.original_img.dimensions();
        let nx = w as i32 / INC;
        let ny = h as i32 / INC;
        proof {
            assert(nx * INC <= w && ny * INC <= h) by (nonlinear_arith)
                requires
                    nx == w / 10,
                    ny == h / 10,
                    w >= 0,
                    h >= 0,
            ;
        }
        let mut marks: Vec<Mark> = Vec::new();
        let mut cx: i32 = 0;
        while cx < nx
            invariant
                self.original_img.wf(),
                w == self.original_img.spec_width(),
                h == self.original_img.spec_height(),
                w <= i32::MAX,
                h <= i32::MAX,
                nx == w as int / INC as int,
                ny == h as int / INC as int,
                nx * INC <= w,
                ny * INC <= h,
                0 <= ny,
                0 <= cx <= nx,
                marks@ == self.scan_cands(cx as int, ny as int),
            decreases nx - cx,
        {
            let mut cy: i32 = 0;
            while cy < ny
                invariant
                    self.original_img.wf(),
                    w == self.original_img.spec_width(),
                    h == self.original_img.spec_height(),
                    w <= i32::MAX,
                    h <= i32::MAX,
                    nx * INC <= w,
                    ny * INC <= h,
                    0 <= cx < nx,
                    0 <= cy <= ny,
                    marks@ == self.scan_cands(cx as int, ny as int) + self.column_cands(cx as int, cy as int),
                decreases ny - cy,
            {
                proof {
                    assert((cx + 1) * INC <= nx * INC && (cy + 1) * INC <= ny * INC) by (nonlinear_arith)
                        requires
                            cx + 1 <= nx,
                            cy + 1 <= ny,
                    ;
                }
                let x = cx * INC;
                let y = cy * INC;
                proof {
                    lemma_small_field_sums(self.original_img, x as int, y as int, INC as int, INC as int);
                }
                let avg = self.get_avg_color_in_pixel_field(x, y, INC);
                let delta = self.color_diff(avg);
                let ghost before = marks@;
                if delta >= BACKGROUND_DELTA {
                    if avg.r > 200 && avg.g > 200 && avg.b > 200 {
                        marks.push(Mark { x, y, color: BallColor::White, to_be_deleted: false });
                    } else if avg.r > 190 && avg.g > 100 && avg.b < 140 {
                        marks.push(Mark { x, y, color: BallColor::Orange, to_be_deleted: false });
                    }
                }
                proof {
                    let a = self.scan_cands(cx as int, ny as int);
                    let b = self.column_cands(cx as int, cy as int);
                    assert(self.column_cands(cx as int, cy + 1) == match self.cell_class(cx as int, cy as int) {
                        Some(c) => b.push(
                            Mark { x: (cx * INC) as i32, y: (cy * INC) as i32, color: c, to_be_deleted: false },
                        ),
                        None => b,
                    });
                    match self.cell_class(cx as int, cy as int) {
                        Some(c) => {
                            assert((a + b).push(
                                Mark { x: (cx * INC) as i32, y: (cy * INC) as i32, color: c, to_be_deleted: false },
                            ) =~= a + b.push(
                                Mark { x: (cx * INC) as i32, y: (cy * INC) as i32, color: c, to_be_deleted: false },
                            ));
                        },
                        None => {},
                    }
                }
                cy = cy + 1;
            }
            cx = cx + 1;
        }
        marks
    }

    /// Refines one candidate: moves it towards the centre of its ball along the vertical
    /// and horizontal walks, then strikes it out when a diagonal walk stops after one
    /// probe or the diagonals differ by a factor of two or more. `None` when a probe
    /// would fall where no average can be taken.
    pub fn refine_mark(&self, m: Mark) -> (r: Option<Mark>)
        requires
            self.original_img.wf(),
        ensures
            r is None <==> !self.refine_ok(m),
            r matches Some(n) ==> n == self.refined(m),
    {
        if !self.edge_fits(m.x, m.y, Direction::Up) || !self.edge_fits(m.x, m.y, Direction::Right) {
            return None;
        }
        let dist = self.edge(&m, Direction::Up);
        let dist_l = self.edge(&m, Direction::Right);
        let dx = shift_exec(dist_l.0, dist_l.1);
        let dy = shift_exec(dist.1, dist.0);
        let nx = m.x as i64 + dx as i64;
        let ny = m.y as i64 + dy as i64;
        if nx < i32::MIN as i64 || nx > i32::MAX as i64 || ny < i32::MIN as i64 || ny > i32::MAX as i64 {
            return None;
        }
        let mut mark = m;
        mark.x = m.x + dx;
        mark.y = m.y + dy;
        if !self.edge_fits(mark.x, mark.y, Direction::Diagonal) || !self.edge_fits(
            mark.x,
            mark.y,
            Direction::AntiDiagonal,
        ) {
            return None;
        }
        let diag = self.edge(&mark, Direction::Diagonal);
        let anti_diag = self.edge(&mark, Direction::AntiDiagonal);
        if diag.0 <= 1 || diag.1 <= 1 {
            mark.to_be_deleted = true;
        }
        if anti_diag.0 <= 1 || anti_diag.1 <= 1 {
            mark.to_be_deleted = true;
        }
        let dl = diag.0 + diag.1;
        let adl = anti_diag.0 + anti_diag.1;
        if dl >= adl * 2 || adl >= dl * 2 {
            mark.to_be_deleted = true;
        }
        Some(mark)
    }

    /// The whole detection: candidates, refined one by one, and those not struck out.
    /// `None` when refining some candidate would probe where no average can be taken.
    pub fn detect_balls(&self) -> (r: Option<Vec<Mark>>)
        requires
            self.original_img.wf(),
        ensures
            r is None <==> exists|k: int|
                0 <= k < self.candidates().len() && !#[trigger] self.refine_ok(self.candidates()[k]),
            r matches Some(v) ==> v@ == self.detected(),
    {
        let cands = self.find_candidates();
        let ghost f = |m: Mark| self.refined(m);
        let mut out: Vec<Mark> = Vec::new();
        let mut k: usize = 0;
        while k < cands.len()
            invariant
                self.original_img.wf(),
                cands@ == self.candidates(),
                f == (|m: Mark| self.refined(m)),
                0 <= k <= cands.len(),
                forall|j: int| 0 <= j < k ==> #[trigger] self.refine_ok(cands@[j]),
                out@ == survivors(cands@.subrange(0, k as int).map_values(f)),
            decreases cands.len() - k,
        {
            let m = cands[k];
            match self.refine_mark(m) {
                None => {
                    return None;
                },
                Some(n) => {
                    proof {
                        let s1 = cands@.subrange(0, k + 1).map_values(f);
                        assert(s1.drop_last() =~= cands@.subrange(0, k as int).map_values(f));
                        assert(s1.last() == n);
                    }
                    if !n.to_be_deleted {
                        out.push(n);
                    }
                },
            }
            k = k + 1;
        }
        proof {
            assert(cands@.subrange(0, cands@.len() as int) =~= cands@);
        }
        Some(out)
    }
}

/// The survivors are exactly the marks not struck out, in their order.
pub proof fn law_survivors_are_unstruck(s: Seq<Mark>)
    ensures
        survivors(s) == s.filter(|m: Mark| !m.to_be_deleted),
    decreases s.len(),
{
    reveal_with_fuel(Seq::filter, 1);
    if s.len() > 0 {
        law_survivors_are_unstruck(s.drop_last());
    }
}

impl State {
    /// Every detected mark is a refined candidate that was not struck out, and every
    /// refined candidate that was not struck out is detected.
    pub proof fn law_detected_marks(self)
        ensures
            forall|i: int| 0 <= i < self.detected().len() ==> !(#[trigger] self.detected()[i]).to_be_deleted,
            forall|i: int|
                0 <= i < self.detected().len() ==> self.candidates().map_values(|m: Mark| self.refined(m)).contains(
                    #[trigger] self.detected()[i],
                ),
            forall|k: int|
                0 <= k < self.candidates().len() && !(#[trigger] self.refined(self.candidates()[k])).to_be_deleted
                    ==> self.detected().contains(self.refined(self.candidates()[k])),
    {
        let r = self.candidates().map_values(|m: Mark| self.refined(m));
        let pred = |m: Mark| !m.to_be_deleted;
        law_survivors_are_unstruck(r);
        assert forall|i: int| 0 <= i < self.detected().len() implies !(#[trigger] self.detected()[i]).to_be_deleted
            && r.contains(self.detected()[i]) by {
            r.lemma_filter_pred(pred, i);
            assert(r.filter(pred).contains(r.filter(pred)[i]));
            r.lemma_filter_contains_rev(pred, r.filter(pred)[i]);
        }
        assert forall|k: int|
            0 <= k < self.candidates().len() && !(#[trigger] self.refined(self.candidates()[k])).to_be_deleted implies self.detected().contains(
            self.refined(self.candidates()[k]),
        ) by {
            assert(r[k] == self.refined(self.candidates()[k]));
            r.lemma_filter_contains(pred, k);
        }
    }
}

} // verus!

verus! {

/// The candidate that a cell of the given colour yields, at the cell's corner.
pub open spec fn cell_mark(cx: int, cy: int, c: BallColor) -> Mark {
    Mark { x: (cx * INC) as i32, y: (cy * INC) as i32, color: c, to_be_deleted: false }
}

impl State {
    /// A cell of column `cx` above row `ny` with a ball colour is among that column's
    /// candidates.
    proof fn lemma_column_has(self, cx: int, ny: int, cy: int)
        requires
            0 <= cy < ny,
            self.cell_class(cx, cy) is Some,
        ensures
            self.column_cands(cx, ny).contains(cell_mark(cx, cy, self.cell_class(cx, cy)->0)),
        decreases ny,
    {
        let p = self.column_cands(cx, ny - 1);
        let m = cell_mark(cx, cy, self.cell_class(cx, cy)->0);
        if cy == ny - 1 {
            let q = p.push(m);
            assert(q[q.len() - 1] == m);
        } else {
            self.lemma_column_has(cx, ny - 1, cy);
            let i = choose|i: int| 0 <= i < p.len() && p[i] == m;
            match self.cell_class(cx, ny - 1) {
                Some(c) => {
                    let q = p.push(cell_mark(cx, ny - 1, c));
                    assert(q[i] == m);
                },
                None => {},
            }
        }
    }

    /// Every candidate of column `cx` above row `ny` comes from a cell of that column
    /// with a ball colour.
    proof fn lemma_column_only(self, cx: int, ny: int)
        ensures
            forall|i: int|
                #![trigger self.column_cands(cx, ny)[i]]
                0 <= i < self.column_cands(cx, ny).len() ==> exists|cy: int|
                    0 <= cy < ny && #[trigger] self.cell_class(cx, cy) is Some && self.column_cands(cx, ny)[i]
                        == cell_mark(cx, cy, self.cell_class(cx, cy)->0),
        decreases ny,
    {
        if ny > 0 {
            self.lemma_column_only(cx, ny - 1);
            let p = self.column_cands(cx, ny - 1);
            let q = self.column_cands(cx, ny);
            assert forall|i: int| #![trigger q[i]] 0 <= i < q.len() implies exists|cy: int|
                0 <= cy < ny && #[trigger] self.cell_class(cx, cy) is Some && q[i] == cell_mark(
                    cx,
                    cy,
                    self.cell_class(cx, cy)->0,
                ) by {
                if i < p.len() {
                    assert(q[i] == p[i]);
                    let cy = choose|cy: int|
                        0 <= cy < ny - 1 && #[trigger] self.cell_class(cx, cy) is Some && p[i] == cell_mark(
                            cx,
                            cy,
                            self.cell_class(cx, cy)->0,
                        );
                } else {
                    assert(self.cell_class(cx, ny - 1) is Some);
                }
            }
        }
    }

    /// A cell left of column `nx` and above row `ny` with a ball colour is a candidate.
    proof fn lemma_scan_has(self, nx: int, ny: int, cx: int, cy: int)
        requires
            0 <= cx < nx,
            0 <= cy < ny,
            self.cell_class(cx, cy) is Some,
        ensures
            self.scan_cands(nx, ny).contains(cell_mark(cx, cy, self.cell_class(cx, cy)->0)),
        decreases nx,
    {
        let m = cell_mark(cx, cy, self.cell_class(cx, cy)->0);
        let a = self.scan_cands(nx - 1, ny);
        let b = self.column_cands(nx - 1, ny);
        if cx == nx - 1 {
            self.lemma_column_has(cx, ny, cy);
            let i = choose|i: int| 0 <= i < b.len() && b[i] == m;
            assert((a + b)[a.len() + i] == m);
        } else {
            self.lemma_scan_has(nx - 1, ny, cx, cy);
            let i = choose|i: int| 0 <= i < a.len() && a[i] == m;
            assert((a + b)[i] == m);
        }
    }

    /// Every candidate left of column `nx` and above row `ny` comes from such a cell with
    /// a ball colour.
    proof fn lemma_scan_only(self, nx: int, ny: int)
        ensures
            forall|i: int|
                #![trigger self.scan_cands(nx, ny)[i]]
                0 <= i < self.scan_cands(nx, ny).len() ==> exists|cx: int, cy: int|
                    0 <= cx < nx && 0 <= cy < ny && #[trigger] self.cell_class(cx, cy) is Some
                        && self.scan_cands(nx, ny)[i] == cell_mark(cx, cy, self.cell_class(cx, cy)->0),
        decreases nx,
    {
        if nx > 0 {
            self.lemma_scan_only(nx - 1, ny);
            self.lemma_column_only(nx - 1, ny);
            let a = self.scan_cands(nx - 1, ny);
            let b = self.column_cands(nx - 1, ny);
            let q = self.scan_cands(nx, ny);
            assert(q == a + b);
            assert forall|i: int| #![trigger q[i]] 0 <= i < q.len() implies exists|cx: int, cy: int|
                0 <= cx < nx && 0 <= cy < ny && #[trigger] self.cell_class(cx, cy) is Some && q[i] == cell_mark(
                    cx,
                    cy,
                    self.cell_class(cx, cy)->0,
                ) by {
                if i < a.len() {
                    assert(q[i] == a[i]);
                    let (cx, cy) = choose|cx: int, cy: int|
                        0 <= cx < nx - 1 && 0 <= cy < ny && #[trigger] self.cell_class(cx, cy) is Some && a[i]
                            == cell_mark(cx, cy, self.cell_class(cx, cy)->0);
                    assert(self.cell_class(cx, cy) is Some);
                } else {
                    assert(q[i] == b[i - a.len()]);
                    let cy = choose|cy: int|
                        0 <= cy < ny && #[trigger] self.cell_class(nx - 1, cy) is Some && b[i - a.len()]
                            == cell_mark(nx - 1, cy, self.cell_class(nx - 1, cy)->0);
                    assert(self.cell_class(nx - 1, cy) is Some);
                }
            }
        }
    }

    /// Which cells are candidates. A full 10 px cell whose average colour lies at least
    /// `BACKGROUND_DELTA` from the image's average is a candidate at its top-left corner:
    /// White when every channel of its average is above 200, Orange when red is above
    /// 190, green above 100 and blue below 140. Every candidate is such a cell, and no
    /// other cell is one.
    pub proof fn law_ball_cells_are_candidates(self)
        ensures
            forall|cx: int, cy: int|
                0 <= cx < self.original_img.spec_width() as int / INC as int && 0 <= cy
                    < self.original_img.spec_height() as int / INC as int ==> {
                    let avg = #[trigger] avg_field(self.original_img, cx * INC, cy * INC, INC as int, INC as int);
                    let far = color_dist(avg, self.global_avg) >= BACKGROUND_DELTA;
                    &&& far && avg.r > 200 && avg.g > 200 && avg.b > 200 ==> self.candidates().contains(
                        cell_mark(cx, cy, BallColor::White),
                    )
                    &&& far && avg.r > 190 && avg.g > 100 && avg.b < 140 ==> self.candidates().contains(
                        cell_mark(cx, cy, BallColor::Orange),
                    )
                },
            forall|i: int|
                #![trigger self.candidates()[i]]
                0 <= i < self.candidates().len() ==> exists|cx: int, cy: int|
                    {
                        let avg = #[trigger] avg_field(self.original_img, cx * INC, cy * INC, INC as int, INC as int);
                        &&& 0 <= cx < self.original_img.spec_width() as int / INC as int
                        &&& 0 <= cy < self.original_img.spec_height() as int / INC as int
                        &&& color_dist(avg, self.global_avg) >= BACKGROUND_DELTA
                        &&& ((avg.r > 200 && avg.g > 200 && avg.b > 200 && self.candidates()[i] == cell_mark(
                            cx,
                            cy,
                            BallColor::White,
                        )) || (!(avg.r > 200 && avg.g > 200 && avg.b > 200) && avg.r > 190 && avg.g > 100
                            && avg.b < 140 && self.candidates()[i] == cell_mark(cx, cy, BallColor::Orange)))
                    },
    {
        let nx = self.original_img.spec_width() as int / INC as int;
        let ny = self.original_img.spec_height() as int / INC as int;
        assert forall|cx: int, cy: int|
            0 <= cx < nx && 0 <= cy < ny implies {
            let avg = #[trigger] avg_field(self.original_img, cx * INC, cy * INC, INC as int, INC as int);
            let far = color_dist(avg, self.global_avg) >= BACKGROUND_DELTA;
            &&& far && avg.r > 200 && avg.g > 200 && avg.b > 200 ==> self.candidates().contains(
                cell_mark(cx, cy, BallColor::White),
            )
            &&& far && avg.r > 190 && avg.g > 100 && avg.b < 140 ==> self.candidates().contains(
                cell_mark(cx, cy, BallColor::Orange),
            )
        } by {
            if self.cell_class(cx, cy) is Some {
                self.lemma_scan_has(nx, ny, cx, cy);
            }
        }
        self.lemma_scan_only(nx, ny);
        assert forall|i: int| #![trigger self.candidates()[i]] 0 <= i < self.candidates().len() implies exists|cx: int, cy: int|
            {
                let avg = #[trigger] avg_field(self.original_img, cx * INC, cy * INC, INC as int, INC as int);
                &&& 0 <= cx < nx
                &&& 0 <= cy < ny
                &&& color_dist(avg, self.global_avg) >= BACKGROUND_DELTA
                &&& ((avg.r > 200 && avg.g > 200 && avg.b > 200 && self.candidates()[i] == cell_mark(
                    cx,
                    cy,
                    BallColor::White,
                )) || (!(avg.r > 200 && avg.g > 200 && avg.b > 200) && avg.r > 190 && avg.g > 100 && avg.b < 140
                    && self.candidates()[i] == cell_mark(cx, cy, BallColor::Orange)))
            } by {
            let (cx, cy) = choose|cx: int, cy: int|
                0 <= cx < nx && 0 <= cy < ny && #[trigger] self.cell_class(cx, cy) is Some
                    && self.candidates()[i] == cell_mark(cx, cy, self.cell_class(cx, cy)->0);
            let avg = avg_field(self.original_img, cx * INC, cy * INC, INC as int, INC as int);
            assert(self.cell_class(cx, cy) == classify(avg, self.global_avg));
        }
    }
}

} // verus!
