//! What the rest of the program reads from the groups: sizes, centres, the car
//! markers, the balls and the obstacle pixels; and the size filter and ordering.
use vstd::prelude::*;
use crate::color::Color;
use crate::geometry::Position;
use crate::path::Obstacles;
use crate::vision::{State, Grouping};

verus! {

pub open spec fn sum_x(s: Seq<Position>) -> int
    decreases s.len(),
{
    if s.len() == 0 {
        0
    } else {
        sum_x(s.drop_last()) + s.last().x
    }
}

pub open spec fn sum_y(s: Seq<Position>) -> int
    decreases s.len(),
{
    if s.len() == 0 {
        0
    } else {
        sum_y(s.drop_last()) + s.last().y
    }
}

/// Integer division rounding toward zero, as Rust's `/` does (for `b > 0`).
pub open spec fn trunc_div(a: int, b: int) -> int {
    if a >= 0 {
        a / b
    } else {
        -((-a) / b)
    }
}

/// The pixel centroid of `s` (each coordinate's mean, rounded toward zero); (0, 0) for
/// no pixels.
pub open spec fn center_of(s: Seq<Position>) -> Position {
    if s.len() == 0 {
        Position { x: 0, y: 0 }
    } else {
        Position {
            x: trunc_div(sum_x(s), s.len() as int) as i32,
            y: trunc_div(sum_y(s), s.len() as int) as i32,
        }
    }
}

proof fn lemma_sum_bounds(s: Seq<Position>)
    ensures
        i32::MIN * s.len() <= sum_x(s) <= i32::MAX * s.len(),
        i32::MIN * s.len() <= sum_y(s) <= i32::MAX * s.len(),
    decreases s.len(),
{
    if s.len() > 0 {
        lemma_sum_bounds(s.drop_last());
        assert(i32::MIN * s.len() == i32::MIN * (s.len() - 1) + i32::MIN) by (nonlinear_arith);
        assert(i32::MAX * s.len() == i32::MAX * (s.len() - 1) + i32::MAX) by (nonlinear_arith);
    }
}

/// A mean of values within i32 is within i32.
proof fn lemma_trunc_div_range(a: int, n: int)
    requires
        n > 0,
        i32::MIN * n <= a <= i32::MAX * n,
    ensures
        i32::MIN <= trunc_div(a, n) <= i32::MAX,
{
    if a >= 0 {
        assert(a / n <= i32::MAX) by (nonlinear_arith)
            requires
                0 <= a <= i32::MAX * n,
                n > 0,
        ;
        assert(a / n >= 0) by (nonlinear_arith)
            requires
                0 <= a,
                n > 0,
        ;
    } else {
        assert((-a) / n <= -(i32::MIN as int)) by (nonlinear_arith)
            requires
                0 < -a <= -(i32::MIN as int) * n,
                n > 0,
        ;
        assert((-a) / n >= 0) by (nonlinear_arith)
            requires
                0 <= -a,
                n > 0,
        ;
    }
}

fn div_toward_zero(a: i128, n: i128) -> (q: i128)
    requires
        n > 0,
        a > i128::MIN,
    ensures
        q == trunc_div(a as int, n as int),
{
    if a >= 0 {
        a / n
    } else {
        -((-a) / n)
    }
}

impl Grouping {
    /// Number of pixels in the group.
    pub fn volume(&self) -> (v: usize)
        ensures
            v == self.marks@.len(),
    {
        self.marks.len()
    }

    /// The pixel centroid of the group; (0, 0) for an empty group.
    pub fn center(&self) -> (c: Position)
        ensures
            c == center_of(self.marks@),
    {
        let n = self.marks.len();
        if n == 0 {
            return Position { x: 0, y: 0 };
        }
        let mut sx: i128 = 0;
        let mut sy: i128 = 0;
        let mut k: usize = 0;
        while k < n
            invariant
                n == self.marks@.len(),
                k <= n,
                sx == sum_x(self.marks@.take(k as int)),
                sy == sum_y(self.marks@.take(k as int)),
                i32::MIN * k <= sx <= i32::MAX * k,
                i32::MIN * k <= sy <= i32::MAX * k,
            decreases n - k,
        {
            let p = self.marks[k];
            proof {
                assert(self.marks@.take(k + 1).drop_last() =~= self.marks@.take(k as int));
                assert(k <= usize::MAX);
                assert(i32::MAX * k <= i32::MAX * usize::MAX) by (nonlinear_arith)
                    requires
                        k <= usize::MAX,
                ;
                assert(i32::MIN * k >= i32::MIN * usize::MAX) by (nonlinear_arith)
                    requires
                        k <= usize::MAX,
                ;
                assert(i32::MIN * (k + 1) == i32::MIN * k + i32::MIN) by (nonlinear_arith);
                assert(i32::MAX * (k + 1) == i32::MAX * k + i32::MAX) by (nonlinear_arith);
            }
            sx = sx + p.x as i128;
            sy = sy + p.y as i128;
            k = k + 1;
        }
        proof {
            assert(self.marks@.take(n as int) =~= self.marks@);
            lemma_trunc_div_range(sx as int, n as int);
            lemma_trunc_div_range(sy as int, n as int);
            assert(i32::MAX * n <= i32::MAX * usize::MAX) by (nonlinear_arith)
                requires
                    n <= usize::MAX,
            ;
            assert(i32::MIN * n >= i32::MIN * usize::MAX) by (nonlinear_arith)
                requires
                    n <= usize::MAX,
            ;
        }
        let qx = div_toward_zero(sx, n as i128);
        let qy = div_toward_zero(sy, n as i128);
        Position { x: qx as i32, y: qy as i32 }
    }
}


/// The centre of the first group of colour `c`, or (0, 0) when there is none.
pub open spec fn first_center_of_color(gs: Seq<Grouping>, c: Color) -> Position
    decreases gs.len(),
{
    if gs.len() == 0 {
        Position { x: 0, y: 0 }
    } else if gs[0].color == c {
        center_of(gs[0].marks@)
    } else {
        first_center_of_color(gs.drop_first(), c)
    }
}

/// The centres of the white groups, in order.
pub open spec fn white_centers(gs: Seq<Grouping>) -> Seq<Position>
    decreases gs.len(),
{
    if gs.len() == 0 {
        Seq::empty()
    } else if gs.last().color == Color::White {
        white_centers(gs.drop_last()).push(center_of(gs.last().marks@))
    } else {
        white_centers(gs.drop_last())
    }
}

fn first_center(gs: &Vec<Grouping>, c: Color) -> (p: Position)
    ensures
        p == first_center_of_color(gs@, c),
{
    let mut k: usize = 0;
    assert(gs@.skip(0) =~= gs@);
    while k < gs.len()
        invariant
            k <= gs@.len(),
            first_center_of_color(gs@, c) == first_center_of_color(gs@.skip(k as int), c),
        decreases gs@.len() - k,
    {
        proof {
            assert(gs@.skip(k as int).drop_first() =~= gs@.skip(k + 1));
            assert(gs@.skip(k as int)[0] == gs@[k as int]);
        }
        if gs[k].color == c {
            return gs[k].center();
        }
        k = k + 1;
    }
    Position { x: 0, y: 0 }
}

fn copy_positions(v: &Vec<Position>) -> (r: Vec<Position>)
    ensures
        r@ == v@,
{
    let mut r: Vec<Position> = Vec::new();
    let mut k: usize = 0;
    while k < v.len()
        invariant
            k <= v@.len(),
            r@ == v@.take(k as int),
        decreases v@.len() - k,
    {
        r.push(v[k]);
        k = k + 1;
        assert(r@ =~= v@.take(k as int));
    }
    assert(r@ =~= v@);
    r
}

impl State {
    /// Centre of the first car-centre group, or (0, 0) when the marker is missing.
    pub fn get_car_center(&self) -> (p: Position)
        ensures
            p == first_center_of_color(self.groupings@, Color::CarCenter),
    {
        first_center(&self.groupings, Color::CarCenter)
    }

    /// Centre of the first car-direction group, or (0, 0) when the marker is missing.
    pub fn get_car_direction(&self) -> (p: Position)
        ensures
            p == first_center_of_color(self.groupings@, Color::CarDirection),
    {
        first_center(&self.groupings, Color::CarDirection)
    }

    /// Centres of the white groups, in order: the balls.
    pub fn get_balls(&self) -> (balls: Vec<Position>)
        ensures
            balls@ == white_centers(self.groupings@),
    {
        let mut balls: Vec<Position> = Vec::new();
        let mut k: usize = 0;
        while k < self.groupings.len()
            invariant
                k <= self.groupings@.len(),
                balls@ == white_centers(self.groupings@.take(k as int)),
            decreases self.groupings@.len() - k,
        {
            proof {
                assert(self.groupings@.take(k + 1).drop_last() =~= self.groupings@.take(k as int));
            }
            if self.groupings[k].color == Color::White {
                balls.push(self.groupings[k].center());
            }
            k = k + 1;
        }
        proof {
            assert(self.groupings@.take(self.groupings@.len() as int) =~= self.groupings@);
        }
        balls
    }

    /// The pixels of the largest group (the walls) and of the second (the cross), once
    /// the groups are ordered by size; `None` when there are fewer than two groups.
    pub fn get_obstacles(&self) -> (o: Option<Obstacles>)
        ensures
            o is None <==> self.groupings@.len() < 2,
            o matches Some(ob) ==> ob.walls@ == self.groupings@[0].marks@ && ob.cross@
                == self.groupings@[1].marks@,
    {
        if self.groupings.len() < 2 {
            return None;
        }
        let walls = copy_positions(&self.groupings[0].marks);
        let cross = copy_positions(&self.groupings[1].marks);
        Some(Obstacles { walls, cross })
    }
}


/// Largest y of the pixels (0 for none).
pub open spec fn max_y_or0(s: Seq<Position>) -> int
    decreases s.len(),
{
    if s.len() == 0 {
        0
    } else if s.len() == 1 {
        s[0].y as int
    } else {
        let m = max_y_or0(s.drop_last());
        if s.last().y > m { s.last().y as int } else { m }
    }
}

/// Smallest y of the pixels (0 for none).
pub open spec fn min_y_or0(s: Seq<Position>) -> int
    decreases s.len(),
{
    if s.len() == 0 {
        0
    } else if s.len() == 1 {
        s[0].y as int
    } else {
        let m = min_y_or0(s.drop_last());
        if s.last().y < m { s.last().y as int } else { m }
    }
}

/// Size filter: more than 220 pixels, and white groups less than 30 px tall.
pub open spec fn keep_group(g: Grouping) -> bool {
    let height = max_y_or0(g.marks@) - min_y_or0(g.marks@);
    if g.color == Color::White {
        g.marks@.len() > 220 && height < 30
    } else {
        g.marks@.len() > 220
    }
}

/// The groups that pass the size filter, in order.
pub open spec fn kept_groups(gs: Seq<Grouping>) -> Seq<Grouping>
    decreases gs.len(),
{
    if gs.len() == 0 {
        Seq::empty()
    } else if keep_group(gs.last()) {
        kept_groups(gs.drop_last()).push(gs.last())
    } else {
        kept_groups(gs.drop_last())
    }
}

fn group_height(g: &Grouping) -> (h: i64)
    ensures
        h == max_y_or0(g.marks@) - min_y_or0(g.marks@),
{
    let n = g.marks.len();
    if n == 0 {
        return 0;
    }
    let mut mx: i32 = g.marks[0].y;
    let mut mn: i32 = g.marks[0].y;
    let mut k: usize = 1;
    while k < n
        invariant
            n == g.marks@.len(),
            1 <= k <= n,
            mx == max_y_or0(g.marks@.take(k as int)),
            mn == min_y_or0(g.marks@.take(k as int)),
        decreases n - k,
    {
        proof {
            assert(g.marks@.take(k + 1).drop_last() =~= g.marks@.take(k as int));
        }
        let y = g.marks[k].y;
        if y > mx {
            mx = y;
        }
        if y < mn {
            mn = y;
        }
        k = k + 1;
    }
    proof {
        assert(g.marks@.take(n as int) =~= g.marks@);
    }
    mx as i64 - mn as i64
}

/// The groups ordered by size, largest first, keeping the order of equal sizes.
pub open spec fn is_stable_size_sort(input: Seq<Grouping>, output: Seq<Grouping>) -> bool {
    exists|perm: Seq<int>|
        {
            &&& perm.len() == input.len()
            &&& output.len() == input.len()
            &&& forall|k: int| 0 <= k < perm.len() ==> 0 <= #[trigger] perm[k] < input.len()
            &&& forall|k: int, l: int| 0 <= k < l < perm.len() ==> perm[k] != perm[l]
            &&& forall|k: int| 0 <= k < output.len() ==> #[trigger] output[k] == input[perm[k]]
            &&& forall|k: int, l: int|
                0 <= k < l < output.len() ==> (#[trigger] output[k]).marks@.len() >= (
                #[trigger] output[l]).marks@.len()
            &&& forall|k: int, l: int|
                0 <= k < l < output.len() && (#[trigger] output[k]).marks@.len() == (
                #[trigger] output[l]).marks@.len() ==> perm[k] < perm[l]
        }
}

impl State {
    /// Drops the groups that fail the size filter (see `keep_group`), keeping the order.
    pub fn filter_groups(&mut self)
        ensures
            final(self).groupings@ == kept_groups(old(self).groupings@),
            final(self).original_img == old(self).original_img,
            final(self).img == old(self).img,
            final(self).marks == old(self).marks,
            final(self).targets == old(self).targets,
            final(self).last_corners == old(self).last_corners,
    {
        let mut rest: Vec<Grouping> = Vec::new();
        std::mem::swap(&mut rest, &mut self.groupings);
        let ghost orig = rest@;
        let ghost mut k: int = 0;
        assert(orig.skip(0) =~= orig);
        while rest.len() > 0
            invariant
                0 <= k <= orig.len(),
                rest@ == orig.skip(k),
                self.groupings@ == kept_groups(orig.take(k)),
                self.original_img == old(self).original_img,
                self.img == old(self).img,
                self.marks == old(self).marks,
                self.targets == old(self).targets,
                self.last_corners == old(self).last_corners,
            decreases rest@.len(),
        {
            let g = rest.remove(0);
            proof {
                assert(g == orig[k]);
                assert(orig.take(k + 1).drop_last() =~= orig.take(k));
                assert(rest@ =~= orig.skip(k + 1));
                k = k + 1;
            }
            let height = group_height(&g);
            let keep = if g.color == Color::White {
                g.volume() > 220 && height < 30
            } else {
                g.volume() > 220
            };
            if keep {
                self.groupings.push(g);
            }
        }
        proof {
            assert(k == orig.len());
            assert(orig.take(k) =~= orig);
        }
    }

    /// Orders the groups by size, largest first; groups of equal size keep their order.
    pub fn sort_groups_by_volume(&mut self)
        ensures
            is_stable_size_sort(old(self).groupings@, final(self).groupings@),
            final(self).original_img == old(self).original_img,
            final(self).img == old(self).img,
            final(self).marks == old(self).marks,
            final(self).targets == old(self).targets,
            final(self).last_corners == old(self).last_corners,
    {
        let mut rest: Vec<Grouping> = Vec::new();
        std::mem::swap(&mut rest, &mut self.groupings);
        let ghost orig = rest@;
        let ghost mut k: int = 0;
        let ghost mut perm: Seq<int> = Seq::empty();
        assert(orig.skip(0) =~= orig);
        while rest.len() > 0
            invariant
                0 <= k <= orig.len(),
                rest@ == orig.skip(k),
                perm.len() == k,
                self.groupings@.len() == k,
                forall|a: int| 0 <= a < perm.len() ==> 0 <= #[trigger] perm[a] < k,
                forall|a: int, b: int| 0 <= a < b < perm.len() ==> perm[a] != perm[b],
                forall|a: int| 0 <= a < k ==> #[trigger] self.groupings@[a] == orig[perm[a]],
                forall|a: int, b: int|
                    0 <= a < b < k ==> (#[trigger] self.groupings@[a]).marks@.len() >= (
                    #[trigger] self.groupings@[b]).marks@.len(),
                forall|a: int, b: int|
                    0 <= a < b < k && (#[trigger] self.groupings@[a]).marks@.len() == (
                    #[trigger] self.groupings@[b]).marks@.len() ==> perm[a] < perm[b],
                self.original_img == old(self).original_img,
                self.img == old(self).img,
                self.marks == old(self).marks,
                self.targets == old(self).targets,
                self.last_corners == old(self).last_corners,
            decreases rest@.len(),
        {
            let g = rest.remove(0);
            let v = g.volume();
            proof {
                assert(g == orig[k]);
                assert(rest@ =~= orig.skip(k + 1));
            }
            let mut pos: usize = 0;
            while pos < self.groupings.len() && self.groupings[pos].volume() >= v
                invariant
                    pos <= self.groupings@.len(),
                    v == g.marks@.len(),
                    forall|a: int| 0 <= a < pos ==> (#[trigger] self.groupings@[a]).marks@.len() >= v,
                decreases self.groupings@.len() - pos,
            {
                pos = pos + 1;
            }
            let ghost before = self.groupings@;
            self.groupings.insert(pos, g);
            proof {
                let new_perm = perm.insert(pos as int, k);
                assert forall|a: int| 0 <= a <= k implies #[trigger] self.groupings@[a] == orig[new_perm[a]] by {
                    if a < pos {
                        assert(self.groupings@[a] == before[a]);
                    } else if a > pos {
                        assert(self.groupings@[a] == before[a - 1]);
                    }
                }
                assert forall|a: int, b: int|
                    0 <= a < b < k + 1 implies (#[trigger] self.groupings@[a]).marks@.len() >= (
                    #[trigger] self.groupings@[b]).marks@.len() by {
                    if pos < before.len() {
                        assert(before[pos as int].marks@.len() < v);
                    }
                    if b < pos {
                        assert(self.groupings@[a] == before[a] && self.groupings@[b] == before[b]);
                    } else if b == pos {
                        assert(self.groupings@[a] == before[a]);
                    } else if a < pos {
                        assert(self.groupings@[a] == before[a] && self.groupings@[b] == before[b - 1]);
                        assert(before[pos as int].marks@.len() >= before[b - 1].marks@.len()
                            || pos as int == b - 1);
                    } else if a == pos {
                        assert(self.groupings@[b] == before[b - 1]);
                        assert(before[pos as int].marks@.len() >= before[b - 1].marks@.len()
                            || pos as int == b - 1);
                    } else {
                        assert(self.groupings@[a] == before[a - 1] && self.groupings@[b] == before[b - 1]);
                    }
                }
                assert forall|a: int, b: int|
                    0 <= a < b < k + 1 && (#[trigger] self.groupings@[a]).marks@.len() == (
                    #[trigger] self.groupings@[b]).marks@.len() implies new_perm[a] < new_perm[b] by {
                    if pos < before.len() {
                        assert(before[pos as int].marks@.len() < v);
                    }
                    if b < pos {
                        assert(self.groupings@[a] == before[a] && self.groupings@[b] == before[b]);
                    } else if b == pos {
                        assert(new_perm[b] == k);
                        assert(new_perm[a] == perm[a]);
                    } else if a < pos {
                        assert(self.groupings@[a] == before[a] && self.groupings@[b] == before[b - 1]);
                    } else if a == pos {
                        assert(self.groupings@[b] == before[b - 1]);
                        assert(before[pos as int].marks@.len() >= before[b - 1].marks@.len()
                            || pos as int == b - 1);
                    } else {
                        assert(self.groupings@[a] == before[a - 1] && self.groupings@[b] == before[b - 1]);
                    }
                }
                assert forall|a: int, b: int| 0 <= a < b < new_perm.len() implies new_perm[a] != new_perm[b] by {
                    if a < pos && b < pos {
                    } else if a < pos && b == pos {
                    } else if a < pos {
                        assert(new_perm[b] == perm[b - 1]);
                    } else if a == pos {
                        assert(new_perm[b] == perm[b - 1]);
                    } else {
                        assert(new_perm[a] == perm[a - 1] && new_perm[b] == perm[b - 1]);
                    }
                }
                perm = new_perm;
                k = k + 1;
            }
        }
        proof {
            assert(k == orig.len());
            assert(is_stable_size_sort(orig, self.groupings@));
        }
    }
}

} // verus!
