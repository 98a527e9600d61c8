//! Grouping marked pixels into 8-connected components of one colour.
use vstd::prelude::*;
use crate::color::Color;
use crate::geometry::Position;
use crate::vision::{State, Grouping, mark_in, cell, lemma_cell};

verus! {

/// `p` and `q` are distinct 8-neighbours.
pub open spec fn adjacent(p: Position, q: Position) -> bool {
    p != q && -1 <= p.x - q.x <= 1 && -1 <= p.y - q.y <= 1
}

/// Some group of `gs` holds `p`.
pub open spec fn in_groups(gs: Seq<Grouping>, p: Position) -> bool {
    exists|k: int| 0 <= k < gs.len() && #[trigger] gs[k].marks@.contains(p)
}

/// Every same-coloured marked 8-neighbour of a member is a member.
pub open spec fn closed_group(marks: Seq<Option<Color>>, w: int, h: int, g: Grouping) -> bool {
    forall|p: Position, q: Position|
        #![trigger g.marks@.contains(p), adjacent(p, q)]
        g.marks@.contains(p) && adjacent(p, q) && mark_in(marks, w, h, q) == Some(g.color)
            ==> g.marks@.contains(q)
}

/// Every member after the first is an 8-neighbour of an earlier member.
pub open spec fn connected_order(s: Seq<Position>) -> bool {
    forall|i: int| 0 < i < s.len() ==> exists|j: int| 0 <= j < i && adjacent(s[j], #[trigger] s[i])
}

/// A group is a non-empty set of pixels marked with its colour, connected and closed.
pub open spec fn group_ok(marks: Seq<Option<Color>>, w: int, h: int, g: Grouping) -> bool {
    &&& g.marks@.len() > 0
    &&& g.marks@.no_duplicates()
    &&& forall|i: int| 0 <= i < g.marks@.len() ==> mark_in(marks, w, h, #[trigger] g.marks@[i]) == Some(g.color)
    &&& connected_order(g.marks@)
    &&& closed_group(marks, w, h, g)
}

/// No pixel lies in two groups.
pub open spec fn groups_disjoint(gs: Seq<Grouping>) -> bool {
    forall|a: int, b: int, p: Position|
        0 <= a < b < gs.len() ==> !(#[trigger] gs[a].marks@.contains(p) && #[trigger] gs[b].marks@.contains(p))
}

/// `gs` are exactly the connected components of the marked pixels: each a connected,
/// closed, single-coloured group, no two sharing a pixel, every marked pixel in one.
pub open spec fn groups_are_components(marks: Seq<Option<Color>>, w: int, h: int, gs: Seq<Grouping>) -> bool {
    &&& forall|k: int| 0 <= k < gs.len() ==> group_ok(marks, w, h, #[trigger] gs[k])
    &&& groups_disjoint(gs)
    &&& forall|p: Position| (#[trigger] mark_in(marks, w, h, p)) is Some ==> in_groups(gs, p)
}

/// Number of `true` entries.
pub open spec fn count_true(s: Seq<bool>) -> nat
    decreases s.len(),
{
    if s.len() == 0 {
        0
    } else {
        count_true(s.drop_last()) + (if s.last() { 1nat } else { 0nat })
    }
}

proof fn lemma_count_true_bound(s: Seq<bool>)
    ensures
        count_true(s) <= s.len(),
    decreases s.len(),
{
    if s.len() > 0 {
        lemma_count_true_bound(s.drop_last());
    }
}

proof fn lemma_count_true_set(s: Seq<bool>, i: int)
    requires
        0 <= i < s.len(),
        !s[i],
    ensures
        count_true(s.update(i, true)) == count_true(s) + 1,
    decreases s.len(),
{
    let t = s.update(i, true);
    if i == s.len() - 1 {
        assert(t.drop_last() =~= s.drop_last());
    } else {
        assert(t.drop_last() =~= s.drop_last().update(i, true));
        lemma_count_true_set(s.drop_last(), i);
    }
}

proof fn lemma_in_groups_push(gs: Seq<Grouping>, g: Grouping, p: Position)
    ensures
        in_groups(gs.push(g), p) <==> (in_groups(gs, p) || g.marks@.contains(p)),
{
    let gs2 = gs.push(g);
    if in_groups(gs, p) {
        let k = choose|k: int| 0 <= k < gs.len() && #[trigger] gs[k].marks@.contains(p);
        assert(gs2[k] == gs[k]);
    }
    if g.marks@.contains(p) {
        assert(gs2[gs.len() as int] == g);
    }
    if in_groups(gs2, p) {
        let k = choose|k: int| 0 <= k < gs2.len() && #[trigger] gs2[k].marks@.contains(p);
        if k < gs.len() {
            assert(gs2[k] == gs[k]);
        }
    }
}

/// The flood fill from `seed`: all pixels of `seed`'s colour 8-connected to it, none of
/// them in an earlier group. Marks each as taken.
#[verifier::rlimit(60)]
#[verifier::spinoff_prover]
fn flood(
    marks: &Vec<Option<Color>>,
    width: u32,
    height: u32,
    taken: &mut Vec<bool>,
    seed: Position,
    color: Color,
    Ghost(gs): Ghost<Seq<Grouping>>,
) -> (queue: Vec<Position>)
    requires
        marks@.len() == width as int * height as int,
        old(taken)@.len() == width as int * height as int,
        width <= i32::MAX,
        height <= i32::MAX,
        0 <= seed.x < width,
        0 <= seed.y < height,
        mark_in(marks@, width as int, height as int, seed) == Some(color),
        forall|k: int| 0 <= k < gs.len() ==> group_ok(marks@, width as int, height as int, #[trigger] gs[k]),
        forall|p: Position|
            0 <= p.x < width && 0 <= p.y < height ==> old(taken)@[cell(width as int, p.x as int, p.y as int)]
                == in_groups(gs, p),
        !in_groups(gs, seed),
    ensures
        final(taken)@.len() == old(taken)@.len(),
        group_ok(marks@, width as int, height as int, Grouping { marks: queue, color }),
        queue@[0] == seed,
        forall|p: Position| #[trigger] queue@.contains(p) ==> !in_groups(gs, p),
        forall|p: Position|
            0 <= p.x < width && 0 <= p.y < height ==> final(taken)@[cell(width as int, p.x as int, p.y as int)]
                == (in_groups(gs, p) || queue@.contains(p)),
{
    let ghost w = width as int;
    let ghost h = height as int;
    let mut queue: Vec<Position> = Vec::new();
    let seed_idx: usize = {
        proof {
            lemma_cell(w, h, seed.x as int, seed.y as int, seed.x as int, seed.y as int);
        }
        let n = taken.len();
        assert((seed.y as usize) * (width as usize) <= (seed.y as usize) * (width as usize) + (seed.x as usize) < n);
        seed.y as usize * width as usize + seed.x as usize
    };
    proof {
        lemma_count_true_set(taken@, seed_idx as int);
    }
    let ghost t0 = taken@;
    taken.set(seed_idx, true);
    queue.push(seed);
    proof {
        assert forall|p: Position| 0 <= p.x < width && 0 <= p.y < height implies taken@[cell(w, p.x as int, p.y as int)]
            == (in_groups(gs, p) || queue@.contains(p)) by {
            lemma_cell(w, h, p.x as int, p.y as int, seed.x as int, seed.y as int);
            lemma_cell(w, h, seed.x as int, seed.y as int, p.x as int, p.y as int);
            if p == seed {
                assert(queue@[0] == p);
            }
        }
        lemma_count_true_bound(taken@);
    }
    let mut head: usize = 0;
    while head < queue.len()
        invariant
            marks@.len() == w * h,
            taken@.len() == w * h,
            w == width as int,
            h == height as int,
            width <= i32::MAX,
            height <= i32::MAX,
            forall|k: int| 0 <= k < gs.len() ==> group_ok(marks@, w, h, #[trigger] gs[k]),
            forall|p: Position|
                0 <= p.x < width && 0 <= p.y < height ==> taken@[cell(w, p.x as int, p.y as int)]
                    == (in_groups(gs, p) || queue@.contains(p)),
            queue@.len() > 0,
            queue@[0] == seed,
            queue@.no_duplicates(),
            forall|i: int|
                0 <= i < queue@.len() ==> mark_in(marks@, w, h, #[trigger] queue@[i]) == Some(color),
            forall|i: int| 0 <= i < queue@.len() ==> !in_groups(gs, #[trigger] queue@[i]),
            connected_order(queue@),
            head <= queue@.len(),
            forall|i: int, q: Position|
                #![trigger queue@[i], adjacent(queue@[i], q)]
                0 <= i < head && adjacent(queue@[i], q) && mark_in(marks@, w, h, q) == Some(color)
                    ==> taken@[cell(w, q.x as int, q.y as int)],
            count_true(taken@) <= taken@.len(),
        decreases 2 * (taken@.len() - count_true(taken@)) + (queue@.len() - head),
    {
        let pos = queue[head];
        let ghost m0: int = 2 * (taken@.len() - count_true(taken@)) + (queue@.len() - head);
        head = head + 1;
        proof {
            assert(mark_in(marks@, w, h, pos) == Some(color));
        }
        let mut dx: i32 = -1;
        while dx <= 1
            invariant
                marks@.len() == w * h,
                taken@.len() == w * h,
                w == width as int,
                h == height as int,
                width <= i32::MAX,
                height <= i32::MAX,
                -1 <= dx <= 2,
                0 < head <= queue@.len(),
                pos == queue@[head - 1],
                0 <= pos.x < width,
                0 <= pos.y < height,
                forall|k: int| 0 <= k < gs.len() ==> group_ok(marks@, w, h, #[trigger] gs[k]),
                forall|p: Position|
                    0 <= p.x < width && 0 <= p.y < height ==> taken@[cell(w, p.x as int, p.y as int)]
                        == (in_groups(gs, p) || queue@.contains(p)),
                queue@.len() > 0,
                queue@[0] == seed,
                queue@.no_duplicates(),
                forall|i: int|
                    0 <= i < queue@.len() ==> mark_in(marks@, w, h, #[trigger] queue@[i]) == Some(color),
                forall|i: int| 0 <= i < queue@.len() ==> !in_groups(gs, #[trigger] queue@[i]),
                connected_order(queue@),
                forall|i: int, q: Position|
                    #![trigger queue@[i], adjacent(queue@[i], q)]
                    0 <= i < head - 1 && adjacent(queue@[i], q) && mark_in(marks@, w, h, q) == Some(color)
                        ==> taken@[cell(w, q.x as int, q.y as int)],
                forall|q: Position|
                    #[trigger] adjacent(pos, q) && q.x - pos.x < dx && mark_in(marks@, w, h, q) == Some(color)
                        ==> taken@[cell(w, q.x as int, q.y as int)],
                count_true(taken@) <= taken@.len(),
                2 * (taken@.len() - count_true(taken@)) + (queue@.len() - head) < m0,
            decreases 2 - dx,
        {
            let mut dy: i32 = -1;
            while dy <= 1
                invariant
                    marks@.len() == w * h,
                    taken@.len() == w * h,
                    w == width as int,
                    h == height as int,
                    width <= i32::MAX,
                    height <= i32::MAX,
                    -1 <= dx <= 1,
                    -1 <= dy <= 2,
                    0 < head <= queue@.len(),
                    pos == queue@[head - 1],
                    0 <= pos.x < width,
                    0 <= pos.y < height,
                    forall|k: int| 0 <= k < gs.len() ==> group_ok(marks@, w, h, #[trigger] gs[k]),
                    forall|p: Position|
                        0 <= p.x < width && 0 <= p.y < height ==> taken@[cell(w, p.x as int, p.y as int)]
                            == (in_groups(gs, p) || queue@.contains(p)),
                    queue@.len() > 0,
                    queue@[0] == seed,
                    queue@.no_duplicates(),
                    forall|i: int|
                        0 <= i < queue@.len() ==> mark_in(marks@, w, h, #[trigger] queue@[i]) == Some(color),
                    forall|i: int| 0 <= i < queue@.len() ==> !in_groups(gs, #[trigger] queue@[i]),
                    connected_order(queue@),
                    forall|i: int, q: Position|
                        #![trigger queue@[i], adjacent(queue@[i], q)]
                        0 <= i < head - 1 && adjacent(queue@[i], q) && mark_in(marks@, w, h, q) == Some(color)
                            ==> taken@[cell(w, q.x as int, q.y as int)],
                    forall|q: Position|
                        #[trigger] adjacent(pos, q) && (q.x - pos.x < dx || (q.x - pos.x == dx && q.y - pos.y
                            < dy)) && mark_in(marks@, w, h, q) == Some(color) ==> taken@[cell(
                            w,
                            q.x as int,
                            q.y as int,
                        )],
                    count_true(taken@) <= taken@.len(),
                    2 * (taken@.len() - count_true(taken@)) + (queue@.len() - head) < m0,
                decreases 2 - dy,
            {
                if !(dx == 0 && dy == 0) {
                    let nx: i32 = pos.x + dx;
                    let ny: i32 = pos.y + dy;
                    let nb = Position { x: nx, y: ny };
                    if 0 <= nx && nx < width as i32 && 0 <= ny && ny < height as i32 {
                        proof {
                            lemma_cell(w, h, nx as int, ny as int, nx as int, ny as int);
                        }
                        let n = taken.len();
                        assert((ny as usize) * (width as usize) <= (ny as usize) * (width as usize)
                            + (nx as usize) < n);
                        let nidx: usize = ny as usize * width as usize + nx as usize;
                        if !taken[nidx] {
                            let same = match marks[nidx] {
                                Some(c) => c == color,
                                None => false,
                            };
                            if same {
                                proof {
                                    lemma_count_true_set(taken@, nidx as int);
                                }
                                let ghost t_before = taken@;
                                let ghost q_before = queue@;
                                taken.set(nidx, true);
                                queue.push(nb);
                                proof {
                                    lemma_count_true_bound(taken@);
                                    assert(!q_before.contains(nb));
                                    assert forall|p: Position| 0 <= p.x < width && 0 <= p.y < height implies taken@[cell(
                                        w,
                                        p.x as int,
                                        p.y as int,
                                    )] == (in_groups(gs, p) || queue@.contains(p)) by {
                                        lemma_cell(w, h, p.x as int, p.y as int, nx as int, ny as int);
                                        lemma_cell(w, h, nx as int, ny as int, p.x as int, p.y as int);
                                        if p == nb {
                                            assert(queue@[queue@.len() - 1] == p);
                                        } else {
                                            if queue@.contains(p) {
                                                let k = choose|k: int| 0 <= k < queue@.len() && queue@[k] == p;
                                                assert(q_before[k] == p);
                                            }
                                            if q_before.contains(p) {
                                                let k = choose|k: int| 0 <= k < q_before.len() && q_before[k] == p;
                                                assert(queue@[k] == p);
                                            }
                                        }
                                    }
                                    assert(!in_groups(gs, nb));
                                    assert forall|i: int| 0 < i < queue@.len() implies exists|j: int|
                                        0 <= j < i && adjacent(queue@[j], #[trigger] queue@[i]) by {
                                        if i == queue@.len() - 1 {
                                            assert(adjacent(queue@[head - 1], nb));
                                        } else {
                                            assert(queue@[i] == q_before[i]);
                                            let j = choose|j: int| 0 <= j < i && adjacent(q_before[j], q_before[i]);
                                            assert(queue@[j] == q_before[j]);
                                        }
                                    }
                                    assert forall|i: int, q: Position|
                                        #![trigger queue@[i], adjacent(queue@[i], q)]
                                        0 <= i < head - 1 && adjacent(queue@[i], q) && mark_in(marks@, w, h, q)
                                            == Some(color) implies taken@[cell(w, q.x as int, q.y as int)] by {
                                        assert(queue@[i] == q_before[i]);
                                        assert(t_before[cell(w, q.x as int, q.y as int)]);
                                        lemma_cell(w, h, q.x as int, q.y as int, nx as int, ny as int);
                                    }
                                    assert forall|q: Position|
                                        #[trigger] adjacent(pos, q) && (q.x - pos.x < dx || (q.x - pos.x == dx
                                            && q.y - pos.y < dy + 1)) && mark_in(marks@, w, h, q) == Some(color)
                                            implies taken@[cell(w, q.x as int, q.y as int)] by {
                                        if q != nb {
                                            assert(t_before[cell(w, q.x as int, q.y as int)]);
                                            lemma_cell(w, h, q.x as int, q.y as int, nx as int, ny as int);
                                        }
                                    }
                                }
                            } else {
                                proof {
                                    assert forall|q: Position|
                                        #[trigger] adjacent(pos, q) && (q.x - pos.x < dx || (q.x - pos.x == dx
                                            && q.y - pos.y < dy + 1)) && mark_in(marks@, w, h, q) == Some(color)
                                            implies taken@[cell(w, q.x as int, q.y as int)] by {
                                        if q == nb {
                                            assert(mark_in(marks@, w, h, q) == marks@[nidx as int]);
                                        }
                                    }
                                }
                            }
                        }
                    }
                }
                dy = dy + 1;
            }
            dx = dx + 1;
        }
    }
    proof {
        let g = Grouping { marks: queue, color };
        assert forall|p: Position, q: Position|
            #![trigger g.marks@.contains(p), adjacent(p, q)]
            g.marks@.contains(p) && adjacent(p, q) && mark_in(marks@, w, h, q) == Some(g.color)
                implies g.marks@.contains(q) by {
            let i = choose|i: int| 0 <= i < queue@.len() && queue@[i] == p;
            assert(adjacent(queue@[i], q));
            assert(taken@[cell(w, q.x as int, q.y as int)]);
            if in_groups(gs, q) {
                let k = choose|k: int| 0 <= k < gs.len() && #[trigger] gs[k].marks@.contains(q);
                assert(group_ok(marks@, w, h, gs[k]));
                let kq = choose|kq: int| 0 <= kq < gs[k].marks@.len() && gs[k].marks@[kq] == q;
                assert(mark_in(marks@, w, h, gs[k].marks@[kq]) == Some(gs[k].color));
                assert(adjacent(q, p));
                assert(gs[k].marks@.contains(p));
                assert(!in_groups(gs, queue@[i]));
            }
        }
        assert forall|p: Position| #[trigger] queue@.contains(p) implies !in_groups(gs, p) by {
            let i = choose|i: int| 0 <= i < queue@.len() && queue@[i] == p;
            assert(!in_groups(gs, queue@[i]));
        }
    }
    queue
}


impl State {
    /// Groups the marked pixels into the connected components of each colour
    /// (8-neighbourhood, same class only) and appends them to `groupings`.
    pub fn group_marks(&mut self)
        requires
            old(self).wf(),
        ensures
            final(self).wf(),
            final(self).original_img == old(self).original_img,
            final(self).img == old(self).img,
            final(self).marks == old(self).marks,
            final(self).targets == old(self).targets,
            final(self).last_corners == old(self).last_corners,
            final(self).groupings@.len() >= old(self).groupings@.len(),
            final(self).groupings@.take(old(self).groupings@.len() as int) == old(self).groupings@,
            groups_are_components(
                final(self).marks@,
                final(self).w(),
                final(self).h(),
                final(self).groupings@.skip(old(self).groupings@.len() as int),
            ),
    {
        let (width, height) = self.original_img.dimensions();
        let ghost w = width as int;
        let ghost h = height as int;
        let n = self.marks.len();
        let mut taken: Vec<bool> = Vec::new();
        let mut i: usize = 0;
        while i < n
            invariant
                i <= n,
                taken@.len() == i,
                forall|k: int| 0 <= k < i ==> !#[trigger] taken@[k],
            decreases n - i,
        {
            taken.push(false);
            i = i + 1;
        }
        let ghost mut gs: Seq<Grouping> = Seq::empty();
        proof {
            assert forall|p: Position| 0 <= p.x < width && 0 <= p.y < height implies taken@[cell(
                w,
                p.x as int,
                p.y as int,
            )] == in_groups(gs, p) by {
                lemma_cell(w, h, p.x as int, p.y as int, p.x as int, p.y as int);
            }
        }
        let mut x: u32 = 0;
        while x < width
            invariant
                self.wf(),
                width == self.w(),
                height == self.h(),
                w == width as int,
                h == height as int,
                width <= i32::MAX,
                height <= i32::MAX,
                x <= width,
                taken@.len() == w * h,
                self.original_img == old(self).original_img,
                self.img == old(self).img,
                self.marks == old(self).marks,
                self.targets == old(self).targets,
                self.last_corners == old(self).last_corners,
                self.groupings@ == old(self).groupings@ + gs,
                forall|k: int| 0 <= k < gs.len() ==> group_ok(self.marks@, w, h, #[trigger] gs[k]),
                groups_disjoint(gs),
                forall|p: Position|
                    0 <= p.x < width && 0 <= p.y < height ==> taken@[cell(w, p.x as int, p.y as int)]
                        == in_groups(gs, p),
                forall|p: Position|
                    p.x < x && (#[trigger] mark_in(self.marks@, w, h, p)) is Some ==> in_groups(gs, p),
            decreases width - x,
        {
            let mut y: u32 = 0;
            while y < height
                invariant
                    self.wf(),
                    width == self.w(),
                    height == self.h(),
                    w == width as int,
                    h == height as int,
                    width <= i32::MAX,
                    height <= i32::MAX,
                    x < width,
                    y <= height,
                    taken@.len() == w * h,
                    self.original_img == old(self).original_img,
                    self.img == old(self).img,
                    self.marks == old(self).marks,
                    self.targets == old(self).targets,
                    self.last_corners == old(self).last_corners,
                    self.groupings@ == old(self).groupings@ + gs,
                    forall|k: int| 0 <= k < gs.len() ==> group_ok(self.marks@, w, h, #[trigger] gs[k]),
                    groups_disjoint(gs),
                    forall|p: Position|
                        0 <= p.x < width && 0 <= p.y < height ==> taken@[cell(w, p.x as int, p.y as int)]
                            == in_groups(gs, p),
                    forall|p: Position|
                        (p.x < x || (p.x == x && p.y < y)) && (#[trigger] mark_in(self.marks@, w, h, p)) is Some
                            ==> in_groups(gs, p),
                decreases height - y,
            {
                proof {
                    lemma_cell(w, h, x as int, y as int, x as int, y as int);
                }
                let nm = self.marks.len();
                assert((y as usize) * (width as usize) <= (y as usize) * (width as usize) + (x as usize) < nm);
                let idx: usize = y as usize * width as usize + x as usize;
                let seed = Position { x: x as i32, y: y as i32 };
                match self.marks[idx] {
                    Some(c) => {
                        if !taken[idx] {
                            let queue = flood(&self.marks, width, height, &mut taken, seed, c, Ghost(gs));
                            let g = Grouping { marks: queue, color: c };
                            let ghost gs_before = gs;
                            self.groupings.push(g);
                            proof {
                                gs = gs.push(g);
                                assert(self.groupings@ =~= old(self).groupings@ + gs);
                                assert forall|p: Position| 0 <= p.x < width && 0 <= p.y < height implies taken@[cell(
                                    w,
                                    p.x as int,
                                    p.y as int,
                                )] == in_groups(gs, p) by {
                                    lemma_in_groups_push(gs_before, g, p);
                                }
                                assert forall|k: int| 0 <= k < gs.len() implies group_ok(self.marks@, w, h, #[trigger] gs[k]) by {
                                    if k < gs_before.len() {
                                        assert(gs[k] == gs_before[k]);
                                    }
                                }
                                assert forall|a: int, b: int, p: Position|
                                    0 <= a < b < gs.len() implies !(#[trigger] gs[a].marks@.contains(p)
                                    && #[trigger] gs[b].marks@.contains(p)) by {
                                    if b == gs_before.len() {
                                        assert(gs[a] == gs_before[a]);
                                        if gs[a].marks@.contains(p) && g.marks@.contains(p) {
                                            assert(in_groups(gs_before, p));
                                        }
                                    } else {
                                        assert(gs[a] == gs_before[a]);
                                        assert(gs[b] == gs_before[b]);
                                    }
                                }
                                assert forall|p: Position|
                                    (p.x < x || (p.x == x && p.y < y + 1)) && (#[trigger] mark_in(
                                        self.marks@,
                                        w,
                                        h,
                                        p,
                                    )) is Some implies in_groups(gs, p) by {
                                    lemma_in_groups_push(gs_before, g, p);
                                    if p == seed {
                                        assert(g.marks@[0] == p);
                                    }
                                }
                            }
                        } else {
                            proof {
                                assert(in_groups(gs, seed));
                            }
                        }
                    },
                    None => {},
                }
                y = y + 1;
            }
            x = x + 1;
        }
        proof {
            let all = self.groupings@.skip(old(self).groupings@.len() as int);
            assert(all =~= gs);
            assert(self.groupings@.take(old(self).groupings@.len() as int) =~= old(self).groupings@);
        }
    }
}

} // verus!
