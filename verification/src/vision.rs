use vstd::prelude::*;
use crate::color::{Color, Rgb, Hex, check_color};
use crate::frame::Frame;
use crate::geometry::Position;

verus! {

/// A colour to look for: its class, its reference colour and the largest distance per
/// channel that still matches.
pub struct BetterTarget {
    pub color: Color,
    pub target_hex: Hex,
    pub precision: u8,
}

/// The colours to look for, in order; a pixel matching several takes the last one.
pub struct Targets(pub Vec<BetterTarget>);

/// A connected group of same-coloured marked pixels.
pub struct Grouping {
    pub marks: Vec<Position>,
    pub color: Color,
}

/// The vision state of one frame.
pub struct State {
    /// the frame as captured; the colour scan reads it
    pub original_img: Frame,
    /// a working copy that the border and cross search draw into
    pub img: Frame,
    pub targets: Targets,
    /// the colour class matched at each pixel, row by row over `original_img`
    pub marks: Vec<Option<Color>>,
    pub groupings: Vec<Grouping>,
    /// the last four field corners [top_left, top_right, bottom_left, bottom_right]
    /// found without a sentinel
    pub last_corners: Option<[Position; 4]>,
}

pub open spec fn channel_ok(v: u8, t: u8, p: u8) -> bool {
    (if v >= t { v - t } else { t - v }) <= p
}

/// Every channel of `px` is within the target's precision of its colour.
pub open spec fn target_matches(t: BetterTarget, px: Rgb) -> bool {
    &&& channel_ok(px.r, t.target_hex.rgb.r, t.precision)
    &&& channel_ok(px.g, t.target_hex.rgb.g, t.precision)
    &&& channel_ok(px.b, t.target_hex.rgb.b, t.precision)
}

/// The class of the last target that `px` matches.
pub open spec fn last_match(ts: Seq<BetterTarget>, px: Rgb) -> Option<Color>
    decreases ts.len(),
{
    if ts.len() == 0 {
        None
    } else if target_matches(ts.last(), px) {
        Some(ts.last().color)
    } else {
        last_match(ts.drop_last(), px)
    }
}

/// Row-major index of pixel (x, y) in a frame of the given width.
pub open spec fn cell(w: int, x: int, y: int) -> int {
    y * w + x
}

/// Distinct pixels of a frame have distinct indices, all below `w * h`.
pub proof fn lemma_cell(w: int, h: int, x: int, y: int, x2: int, y2: int)
    requires
        0 <= x < w,
        0 <= y < h,
        0 <= x2 < w,
        0 <= y2 < h,
    ensures
        0 <= cell(w, x, y) < w * h,
        cell(w, x, y) == cell(w, x2, y2) ==> x == x2 && y == y2,
{
    assert(0 <= y * w + x < w * h) by (nonlinear_arith)
        requires
            0 <= x < w,
            0 <= y < h,
    ;
    if y * w + x == y2 * w + x2 {
        if y < y2 {
            assert(y * w + x < y2 * w + x2) by (nonlinear_arith)
                requires
                    y < y2,
                    0 <= x < w,
                    0 <= x2,
            ;
        }
        if y2 < y {
            assert(y2 * w + x2 < y * w + x) by (nonlinear_arith)
                requires
                    y2 < y,
                    0 <= x2 < w,
                    0 <= x,
            ;
        }
    }
}

/// The class marked at `p` in a `w` x `h` grid of marks; `None` outside it.
pub open spec fn mark_in(marks: Seq<Option<Color>>, w: int, h: int, p: Position) -> Option<Color> {
    if 0 <= p.x < w && 0 <= p.y < h {
        marks[cell(w, p.x as int, p.y as int)]
    } else {
        None
    }
}

impl State {
    /// The images agree in size, the marks cover the frame.
    pub open spec fn wf(&self) -> bool {
        &&& self.original_img.wf()
        &&& self.img.wf()
        &&& self.img.spec_width() == self.original_img.spec_width()
        &&& self.img.spec_height() == self.original_img.spec_height()
        &&& self.marks@.len() == self.original_img.spec_width() * self.original_img.spec_height()
    }

    pub open spec fn w(&self) -> int {
        self.original_img.spec_width() as int
    }

    pub open spec fn h(&self) -> int {
        self.original_img.spec_height() as int
    }

    pub open spec fn in_frame(&self, p: Position) -> bool {
        0 <= p.x < self.w() && 0 <= p.y < self.h()
    }

    /// The class marked at `p`; `None` outside the frame.
    pub open spec fn mark_of(&self, p: Position) -> Option<Color> {
        mark_in(self.marks@, self.w(), self.h(), p)
    }

    fn empty_marks(n: usize) -> (v: Vec<Option<Color>>)
        ensures
            v@.len() == n,
            forall|i: int| 0 <= i < n ==> #[trigger] v@[i] is None,
    {
        let mut v: Vec<Option<Color>> = Vec::new();
        let mut i: usize = 0;
        while i < n
            invariant
                i <= n,
                v@.len() == i,
                forall|k: int| 0 <= k < i ==> #[trigger] v@[k] is None,
            decreases n - i,
        {
            v.push(None);
            i = i + 1;
        }
        v
    }

    /// A state for a first frame: nothing marked or grouped, no corners yet.
    pub fn new(img: Frame, targets: Targets) -> (s: State)
        requires
            img.wf(),
        ensures
            s.wf(),
            s.targets == targets,
            forall|x: int, y: int| #[trigger] s.original_img.pixel(x, y) == img.pixel(x, y),
            s.img == img,
            s.original_img.spec_width() == img.spec_width(),
            s.original_img.spec_height() == img.spec_height(),
            forall|p: Position| #[trigger] s.mark_of(p) is None,
            s.groupings@.len() == 0,
            s.last_corners is None,
    {
        let n = img.pixel_count();
        let original_img = img.clone();
        let marks = Self::empty_marks(n);
        let s = State { original_img, img, targets, marks, groupings: Vec::new(), last_corners: None };
        proof {
            assert forall|p: Position| #[trigger] s.mark_of(p) is None by {
                if s.in_frame(p) {
                    lemma_cell(s.w(), s.h(), p.x as int, p.y as int, p.x as int, p.y as int);
                }
            }
        }
        s
    }
}


/// What the colour scan leaves at `p`: the last matching target's class, or what was
/// there before when no target matches.
pub open spec fn scanned_mark(ts: Seq<BetterTarget>, px: Rgb, before: Option<Color>) -> Option<Color> {
    match last_match(ts, px) {
        Some(c) => Some(c),
        None => before,
    }
}

/// The class of the last target in `targets` that `px` matches.
fn match_targets(targets: &Targets, px: Rgb) -> (r: Option<Color>)
    ensures
        r == last_match(targets.0@, px),
{
    let mut found: Option<Color> = None;
    let mut k: usize = 0;
    while k < targets.0.len()
        invariant
            k <= targets.0@.len(),
            found == last_match(targets.0@.take(k as int), px),
        decreases targets.0@.len() - k,
    {
        let t = &targets.0[k];
        let (red_match, _red_dist) = check_color(px.r, t.target_hex.rgb.r, t.precision);
        let (green_match, _green_dist) = check_color(px.g, t.target_hex.rgb.g, t.precision);
        let (blue_match, _blue_dist) = check_color(px.b, t.target_hex.rgb.b, t.precision);
        proof {
            assert(targets.0@.take(k + 1).drop_last() =~= targets.0@.take(k as int));
        }
        if red_match && green_match && blue_match {
            found = Some(t.color);
        }
        k = k + 1;
    }
    proof {
        assert(targets.0@.take(targets.0@.len() as int) =~= targets.0@);
    }
    found
}

impl State {
    /// Starts a new frame: both images become `img`, nothing is marked or grouped; the
    /// targets and the last corners stay.
    pub fn new_frame(&mut self, img: Frame)
        requires
            img.wf(),
        ensures
            final(self).wf(),
            final(self).targets == old(self).targets,
            final(self).last_corners == old(self).last_corners,
            final(self).original_img.spec_width() == img.spec_width(),
            final(self).original_img.spec_height() == img.spec_height(),
            forall|x: int, y: int| #[trigger] final(self).original_img.pixel(x, y) == img.pixel(x, y),
            final(self).img == img,
            forall|p: Position| #[trigger] final(self).mark_of(p) is None,
            final(self).groupings@.len() == 0,
    {
        let n = img.pixel_count();
        self.original_img = img.clone();
        self.img = img;
        self.marks = Self::empty_marks(n);
        self.groupings = Vec::new();
        proof {
            assert forall|p: Position| #[trigger] self.mark_of(p) is None by {
                if self.in_frame(p) {
                    lemma_cell(self.w(), self.h(), p.x as int, p.y as int, p.x as int, p.y as int);
                }
            }
        }
    }

    /// Marks every pixel of the frame that matches a target with the class of the last
    /// target it matches; other marks stay.
    pub fn scan_for_marks(&mut self)
        requires
            old(self).wf(),
        ensures
            final(self).wf(),
            final(self).original_img == old(self).original_img,
            final(self).img == old(self).img,
            final(self).targets == old(self).targets,
            final(self).groupings == old(self).groupings,
            final(self).last_corners == old(self).last_corners,
            forall|p: Position|
                #[trigger] final(self).mark_of(p) == (if old(self).in_frame(p) {
                    scanned_mark(
                        old(self).targets.0@,
                        old(self).original_img.pixel(p.x as int, p.y as int),
                        old(self).mark_of(p),
                    )
                } else {
                    None
                }),
    {
        let (width, height) = self.original_img.dimensions();
        let ghost w = width as int;
        let ghost h = height as int;
        let mut x: u32 = 0;
        while x < width
            invariant
                self.wf(),
                width == self.w(),
                height == self.h(),
                w == width,
                h == height,
                x <= width,
                self.original_img == old(self).original_img,
                self.img == old(self).img,
                self.targets == old(self).targets,
                self.groupings == old(self).groupings,
                self.last_corners == old(self).last_corners,
                forall|p: Position|
                    #[trigger] self.mark_of(p) == (if old(self).in_frame(p) && p.x < x {
                        scanned_mark(
                            old(self).targets.0@,
                            old(self).original_img.pixel(p.x as int, p.y as int),
                            old(self).mark_of(p),
                        )
                    } else {
                        old(self).mark_of(p)
                    }),
            decreases width - x,
        {
            let mut y: u32 = 0;
            while y < height
                invariant
                    self.wf(),
                    width == self.w(),
                    height == self.h(),
                    w == width,
                    h == height,
                    x < width,
                    y <= height,
                    self.original_img == old(self).original_img,
                    self.img == old(self).img,
                    self.targets == old(self).targets,
                    self.groupings == old(self).groupings,
                    self.last_corners == old(self).last_corners,
                    forall|p: Position|
                        #[trigger] self.mark_of(p) == (if old(self).in_frame(p) && (p.x < x || (p.x == x
                            && p.y < y)) {
                            scanned_mark(
                                old(self).targets.0@,
                                old(self).original_img.pixel(p.x as int, p.y as int),
                                old(self).mark_of(p),
                            )
                        } else {
                            old(self).mark_of(p)
                        }),
                decreases height - y,
            {
                let px = self.original_img.get_pixel(x, y);
                let found = match_targets(&self.targets, px);
                if let Some(c) = found {
                    proof {
                        lemma_cell(w, h, x as int, y as int, x as int, y as int);
                    }
                    let n = self.marks.len();
                    assert((y as usize) * (width as usize) <= (y as usize) * (width as usize) + (x as usize) < n);
                    let idx: usize = y as usize * width as usize + x as usize;
                    let ghost before = *self;
                    self.marks.set(idx, Some(c));
                    proof {
                        assert forall|p: Position| self.in_frame(p) && (p.x != x || p.y != y) implies
                            #[trigger] self.mark_of(p) == before.mark_of(p) by {
                            lemma_cell(w, h, x as int, y as int, p.x as int, p.y as int);
                            lemma_cell(w, h, p.x as int, p.y as int, x as int, y as int);
                        }
                    }
                }
                y = y + 1;
            }
            x = x + 1;
        }
    }
}

} // verus!
