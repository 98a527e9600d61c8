use vstd::prelude::*;

verus! {

/// Weight of the soft cross penalty.
pub const CROSS_WEIGHT: i32 = 60000;

/// Largest safety radius for which the quartic penalty is evaluated exactly in 128-bit integers.
pub const MAX_SAFETY_RADIUS: i32 = 2000;

pub open spec fn pow4(x: int) -> int {
    x * x * x * x
}

/// `k` does not exceed `w * ((r - sqrt(d)) / r)^4`.
///
/// With `s = sqrt(d)`: `w * (r - s)^4 = a - s * b` where
/// `a = w (r^4 + 6 r^2 d + d^2)` and `b = w (4 r^3 + 4 r d)`, so
/// `k r^4 <= w (r - s)^4` holds exactly when `t = a - k r^4` is not negative
/// and `d b^2 <= t^2`. Everything here is an integer.
pub open spec fn quartic_fits(d: int, r: int, w: int, k: int) -> bool {
    let a = w * (pow4(r) + 6 * r * r * d + d * d);
    let b = w * (4 * r * r * r + 4 * r * d);
    let t = a - k * pow4(r);
    t >= 0 && d * b * b <= t * t
}

/// The largest `k` in `0..=hi` that fits (0 when none does).
pub open spec fn largest_fit(d: int, r: int, w: int, hi: int) -> int
    decreases hi,
{
    if hi <= 0 {
        0
    } else if quartic_fits(d, r, w, hi) {
        hi
    } else {
        largest_fit(d, r, w, hi - 1)
    }
}

/// The soft repulsion `floor(w * ((r - sqrt(d)) / r)^4)` for a squared
/// distance `d` inside the radius `r`, and 0 outside it.
pub open spec fn quartic_penalty(d: int, r: int, w: int) -> int {
    if d < 0 || r <= 0 || d >= r * r {
        0
    } else {
        largest_fit(d, r, w, w)
    }
}

/// Fitting is downward closed in `k`.
proof fn lemma_fits_mono(d: int, r: int, w: int, k1: int, k2: int)
    requires
        0 <= d,
        0 < r,
        0 <= w,
        k1 <= k2,
        quartic_fits(d, r, w, k2),
    ensures
        quartic_fits(d, r, w, k1),
{
    let a = w * (pow4(r) + 6 * r * r * d + d * d);
    let r4 = pow4(r);
    let t1 = a - k1 * r4;
    let t2 = a - k2 * r4;
    assert(r4 >= 0) by (nonlinear_arith)
        requires
            r4 == r * r * r * r,
    ;
    assert(k1 * r4 <= k2 * r4) by (nonlinear_arith)
        requires
            k1 <= k2,
            r4 >= 0,
    ;
    assert(t2 * t2 <= t1 * t1) by (nonlinear_arith)
        requires
            0 <= t2 <= t1,
    ;
}

/// When `m` fits and nothing above it up to `hi` does, `m` is the largest fit.
proof fn lemma_largest_fit_is(d: int, r: int, w: int, hi: int, m: int)
    requires
        0 <= m <= hi,
        m == 0 || quartic_fits(d, r, w, m),
        forall|j: int| m < j <= hi ==> !quartic_fits(d, r, w, j),
    ensures
        largest_fit(d, r, w, hi) == m,
    decreases hi,
{
    if hi > m {
        lemma_largest_fit_is(d, r, w, hi - 1, m);
    }
}

/// Evaluates `quartic_fits` for the given arguments.
fn fits_exec(d: i128, r: i128, w: i128, k: i128) -> (b: bool)
    requires
        0 <= d < r * r,
        0 < r <= MAX_SAFETY_RADIUS,
        0 <= w <= 100000,
        0 <= k <= w,
    ensures
        b == quartic_fits(d as int, r as int, w as int, k as int),
{
    assert(r * r <= 4000000) by (nonlinear_arith)
        requires
            0 < r <= 2000,
    ;
    let r2: i128 = r * r;
    assert(r2 * r <= 8000000000) by (nonlinear_arith)
        requires
            0 < r <= 2000,
            r2 == r * r,
            r2 <= 4000000,
    ;
    let r3: i128 = r2 * r;
    assert(r3 >= 0) by (nonlinear_arith)
        requires
            0 < r,
            r2 == r * r,
            r3 == r2 * r,
    ;
    assert(r3 * r <= 16000000000000) by (nonlinear_arith)
        requires
            0 < r <= 2000,
            r3 <= 8000000000,
            r3 >= 0,
    ;
    let r4: i128 = r3 * r;
    assert(6 * r2 * d <= 6 * 16000000000000) by (nonlinear_arith)
        requires
            0 <= d < r2,
            r2 <= 4000000,
    ;
    assert(d * d <= 16000000000000) by (nonlinear_arith)
        requires
            0 <= d < r2,
            r2 <= 4000000,
    ;
    assert(r2 * d >= 0) by (nonlinear_arith)
        requires
            0 <= d,
            r2 >= 0,
    ;
    let inner_a: i128 = r4 + 6 * r2 * d + d * d;
    assert(0 <= inner_a <= 8 * 16000000000000);
    assert(w * inner_a <= 100000 * 128000000000000) by (nonlinear_arith)
        requires
            0 <= w <= 100000,
            0 <= inner_a <= 128000000000000,
    ;
    assert(w * inner_a >= 0) by (nonlinear_arith)
        requires
            0 <= w,
            0 <= inner_a,
    ;
    let a: i128 = w * inner_a;
    assert(r * d <= 2000 * 4000000) by (nonlinear_arith)
        requires
            0 < r <= 2000,
            0 <= d < r2,
            r2 <= 4000000,
    ;
    assert(r * d >= 0) by (nonlinear_arith)
        requires
            0 < r,
            0 <= d,
    ;
    let rd: i128 = r * d;
    let inner_b: i128 = 4 * r3 + 4 * rd;
    assert(0 <= inner_b <= 64000000000);
    assert(0 <= w * inner_b <= 100000 * 64000000000) by (nonlinear_arith)
        requires
            0 <= w <= 100000,
            0 <= inner_b <= 64000000000,
    ;
    let b: i128 = w * inner_b;
    assert(0 <= k * r4 <= 100000 * 16000000000000) by (nonlinear_arith)
        requires
            0 <= k <= 100000,
            0 <= r4 <= 16000000000000,
    ;
    let t: i128 = a - k * r4;
    proof {
        let ri = r as int;
        let di = d as int;
        assert(pow4(ri) == r4);
        assert(6 * ri * ri * di == 6 * r2 * di) by (nonlinear_arith)
            requires
                r2 == ri * ri,
        ;
        assert(4 * ri * ri * ri + 4 * ri * di == 4 * r3 + 4 * rd) by (nonlinear_arith)
            requires
                r2 == ri * ri,
                r3 == r2 * ri,
                rd == ri * di,
        ;
        assert(a == w * (pow4(ri) + 6 * ri * ri * di + di * di));
        assert(b == w * (4 * ri * ri * ri + 4 * ri * di));
    }
    if t < 0 {
        return false;
    }
    assert(0 <= b * b <= 6400000000000000 * 6400000000000000) by (nonlinear_arith)
        requires
            0 <= b <= 6400000000000000,
    ;
    let bb: i128 = b * b;
    assert(0 <= d * bb <= 4000000 * 40960000000000000000000000000000) by (nonlinear_arith)
        requires
            0 <= d <= 4000000,
            0 <= bb <= 40960000000000000000000000000000,
    ;
    assert(t * t <= 12800000000000000000 * 12800000000000000000) by (nonlinear_arith)
        requires
            0 <= t <= 12800000000000000000,
    ;
    proof {
        assert(d * b * b == d * bb) by (nonlinear_arith)
            requires
                bb == b * b,
        ;
    }
    d * bb <= t * t
}

/// The cross penalty for a squared distance `dist_sq` to the obstacle and a
/// safety radius: `floor(60000 * ((r - sqrt(dist_sq)) / r)^4)` inside the
/// radius, 0 outside it. Evaluated exactly in integer arithmetic.
///
/// This is the exact floor of the real formula. The route planner does not call it:
/// it reads its cross costs from a table that the application fills with the
/// single-precision evaluation of the same formula, which differs from the exact
/// floor by one at a few dozen of the 160000 squared distances inside a radius of 400. The exact comparison multiplies numbers of up to `8 * log2(r) + 40`
/// bits, which fit in 128-bit integers for radii up to `MAX_SAFETY_RADIUS`.
pub fn obstacle_penalty(dist_sq: i32, safety_radius: i32) -> (p: i32)
    requires
        safety_radius <= MAX_SAFETY_RADIUS,
    ensures
        p == quartic_penalty(dist_sq as int, safety_radius as int, CROSS_WEIGHT as int),
        0 <= p <= CROSS_WEIGHT,
{
    if dist_sq < 0 || safety_radius <= 0 {
        return 0;
    }
    let r: i128 = safety_radius as i128;
    let d: i128 = dist_sq as i128;
    assert(r * r <= 4000000) by (nonlinear_arith)
        requires
            0 < r <= 2000,
    ;
    if d >= r * r {
        return 0;
    }
    let w: i128 = CROSS_WEIGHT as i128;
    // binary search for the largest fitting k in [0, w]
    let mut lo: i128 = 0;
    let mut hi: i128 = w;
    if fits_exec(d, r, w, w) {
        proof {
            lemma_largest_fit_is(d as int, r as int, w as int, w as int, w as int);
        }
        return CROSS_WEIGHT;
    }
    // invariant: lo fits (or is 0), hi does not fit
    while lo + 1 < hi
        invariant
            0 <= lo < hi <= w,
            w == CROSS_WEIGHT,
            0 <= d < r * r,
            0 < r <= MAX_SAFETY_RADIUS,
            lo == 0 || quartic_fits(d as int, r as int, w as int, lo as int),
            !quartic_fits(d as int, r as int, w as int, hi as int),
        decreases hi - lo,
    {
        let mid: i128 = lo + (hi - lo) / 2;
        if fits_exec(d, r, w, mid) {
            lo = mid;
        } else {
            hi = mid;
        }
    }
    proof {
        assert forall|j: int| lo < j <= w implies !quartic_fits(d as int, r as int, w as int, j) by {
            if quartic_fits(d as int, r as int, w as int, j) {
                lemma_fits_mono(d as int, r as int, w as int, hi as int, j);
            }
        }
        lemma_largest_fit_is(d as int, r as int, w as int, w as int, lo as int);
    }
    lo as i32
}

} // verus!

verus! {

/// The largest fit never leaves `0..=hi`.
pub proof fn lemma_largest_fit_range(d: int, r: int, w: int, hi: int)
    requires
        0 <= hi,
    ensures
        0 <= largest_fit(d, r, w, hi) <= hi,
    decreases hi,
{
    if hi > 0 {
        lemma_largest_fit_range(d, r, w, hi - 1);
    }
}

/// The cross penalty stays within `0..=w`.
pub proof fn lemma_quartic_penalty_range(d: int, r: int, w: int)
    requires
        0 <= w,
    ensures
        0 <= quartic_penalty(d, r, w) <= w,
{
    lemma_largest_fit_range(d, r, w, w);
}

} // verus!

verus! {

/// The cross penalty is at full weight at distance zero and vanishes from its safety
/// radius on.
pub proof fn law_penalty_ends(r: int, w: int, d: int)
    requires
        r > 0,
        w >= 0,
    ensures
        quartic_penalty(0, r, w) == w,
        d >= r * r ==> quartic_penalty(d, r, w) == 0,
{
    assert(r * r > 0) by (nonlinear_arith)
        requires
            r > 0,
    ;
    if w > 0 {
        assert(6 * r * r * 0 == 0);
        assert(quartic_fits(0, r, w, w));
    }
}

} // verus!

verus! {

/// `(q^2 + 6qd + d^2)^2 - 16 q d (q + d)^2 == (q - d)^4`.
proof fn lemma_quartic_identity(q: int, d: int)
    ensures
        (q * q + 6 * q * d + d * d) * (q * q + 6 * q * d + d * d) - d * (16 * q * ((q + d) * (q + d))) == (q - d) * (q
            - d) * (q - d) * (q - d),
{
    let s = q * q;
    let t = d * d;
    let v = q * d;
    let x = q * q + 6 * q * d + d * d;
    assert(x == s + 6 * v + t) by (nonlinear_arith)
        requires
            x == q * q + 6 * q * d + d * d,
            s == q * q,
            t == d * d,
            v == q * d,
    ;
    assert(x * x == s * s + 36 * (v * v) + t * t + 12 * (s * v) + 2 * (s * t) + 12 * (v * t)) by (nonlinear_arith)
        requires
            x == s + 6 * v + t,
    ;
    assert(v * v == s * t) by (nonlinear_arith)
        requires
            s == q * q,
            t == d * d,
            v == q * d,
    ;
    let p = (q + d) * (q + d);
    assert(p == s + 2 * v + t) by (nonlinear_arith)
        requires
            p == (q + d) * (q + d),
            s == q * q,
            t == d * d,
            v == q * d,
    ;
    assert(d * (16 * q * p) == 16 * (v * p)) by (nonlinear_arith)
        requires
            v == q * d,
    ;
    assert(v * p == s * v + 2 * (v * v) + v * t) by (nonlinear_arith)
        requires
            p == s + 2 * v + t,
    ;
    let a = q - d;
    let a2 = a * a;
    assert(a2 == s - 2 * v + t) by (nonlinear_arith)
        requires
            a2 == a * a,
            a == q - d,
            s == q * q,
            t == d * d,
            v == q * d,
    ;
    assert(a * a * a * a == a2 * a2) by (nonlinear_arith)
        requires
            a2 == a * a,
    ;
    assert(a2 * a2 == s * s + 4 * (v * v) + t * t - 4 * (s * v) + 2 * (s * t) - 4 * (v * t)) by (nonlinear_arith)
        requires
            a2 == s - 2 * v + t,
    ;
}

/// `(w x - c)^2 - d (w y)^2 == w^2 (x^2 - d y^2) - 2 c w x + c^2`.
proof fn lemma_square_gap(w: int, x: int, y: int, d: int, c: int)
    ensures
        (w * x - c) * (w * x - c) - d * (w * y) * (w * y) == w * w * (x * x - d * (y * y)) - 2 * c * (w * x) + c * c,
{
    let m = w * x;
    let n = w * y;
    let ww = w * w;
    assert((m - c) * (m - c) == m * m - 2 * c * m + c * c) by (nonlinear_arith);
    assert(m * m == ww * (x * x)) by (nonlinear_arith)
        requires
            m == w * x,
            ww == w * w,
    ;
    assert(d * n * n == ww * (d * (y * y))) by (nonlinear_arith)
        requires
            n == w * y,
            ww == w * w,
    ;
    assert(ww * (x * x) - ww * (d * (y * y)) == ww * (x * x - d * (y * y))) by (nonlinear_arith);
}

/// The terms of `quartic_fits` at `d`, written over `q = r^2`.
proof fn lemma_fits_terms(d: int, r: int)
    ensures
        pow4(r) + 6 * r * r * d + d * d == (r * r) * (r * r) + 6 * (r * r) * d + d * d,
        (4 * r * r * r + 4 * r * d) * (4 * r * r * r + 4 * r * d) == 16 * (r * r) * (((r * r) + d) * ((r * r) + d)),
{
    let q = r * r;
    assert(pow4(r) == q * q) by (nonlinear_arith)
        requires
            q == r * r,
    ;
    assert(6 * r * r * d == 6 * q * d) by (nonlinear_arith)
        requires
            q == r * r,
    ;
    assert(4 * r * r * r + 4 * r * d == 4 * r * (q + d)) by (nonlinear_arith)
        requires
            q == r * r,
    ;
    let y = 4 * r * (q + d);
    assert(y * y == 16 * q * ((q + d) * (q + d))) by (nonlinear_arith)
        requires
            q == r * r,
            y == 4 * r * (q + d),
    ;
}

/// Fitting is downward closed in the squared distance: what fits at `d2` fits at
/// every smaller `d1`.
proof fn lemma_fits_closer(d1: int, d2: int, r: int, w: int, k: int)
    requires
        0 <= d1 <= d2 < r * r,
        0 < r,
        0 <= k <= w,
        quartic_fits(d2, r, w, k),
    ensures
        quartic_fits(d1, r, w, k),
{
    let q = r * r;
    lemma_fits_terms(d1, r);
    lemma_fits_terms(d2, r);
    let r4 = pow4(r);
    assert(r4 == q * q) by (nonlinear_arith)
        requires
            q == r * r,
            r4 == r * r * r * r,
    ;
    let kk = k * r4;
    let x1 = q * q + 6 * q * d1 + d1 * d1;
    let x2 = q * q + 6 * q * d2 + d2 * d2;
    let y1 = 4 * r * r * r + 4 * r * d1;
    let y2 = 4 * r * r * r + 4 * r * d2;
    let a1 = w * x1;
    let a2 = w * x2;
    assert(a1 == w * (pow4(r) + 6 * r * r * d1 + d1 * d1));
    assert(a2 == w * (pow4(r) + 6 * r * r * d2 + d2 * d2));
    assert(q * q <= x1 <= x2) by (nonlinear_arith)
        requires
            x1 == q * q + 6 * q * d1 + d1 * d1,
            x2 == q * q + 6 * q * d2 + d2 * d2,
            q >= 0,
            0 <= d1 <= d2,
    ;
    assert(q >= 0) by (nonlinear_arith)
        requires
            q == r * r,
    ;
    assert(kk <= a1 <= a2) by (nonlinear_arith)
        requires
            kk == k * r4,
            a1 == w * x1,
            a2 == w * x2,
            r4 <= x1 <= x2,
            r4 >= 0,
            0 <= k <= w,
    ;
    assert(kk >= 0) by (nonlinear_arith)
        requires
            kk == k * r4,
            k >= 0,
            r4 >= 0,
    ;
    lemma_quartic_identity(q, d1);
    lemma_quartic_identity(q, d2);
    lemma_square_gap(w, x1, y1, d1, kk);
    lemma_square_gap(w, x2, y2, d2, kk);
    let e1 = (q - d1) * (q - d1) * (q - d1) * (q - d1);
    let e2 = (q - d2) * (q - d2) * (q - d2) * (q - d2);
    assert(x1 * x1 - d1 * (y1 * y1) == e1);
    assert(x2 * x2 - d2 * (y2 * y2) == e2);
    assert(e2 <= e1) by (nonlinear_arith)
        requires
            e1 == (q - d1) * (q - d1) * (q - d1) * (q - d1),
            e2 == (q - d2) * (q - d2) * (q - d2) * (q - d2),
            0 <= q - d2 <= q - d1,
    ;
    assert(w * w * e2 - 2 * kk * a2 <= w * w * e1 - 2 * kk * a1) by (nonlinear_arith)
        requires
            e2 <= e1,
            a1 <= a2,
            kk >= 0,
    ;
    assert(d1 * (w * y1) * (w * y1) <= (a1 - kk) * (a1 - kk));
    assert(d1 * (w * y1) * (w * y1) == d1 * (w * y1 * w * y1)) by (nonlinear_arith);
}

/// A fit of `k` at `d` makes the largest fit up to `hi` at least `k`.
proof fn lemma_largest_fit_at_least(d: int, r: int, w: int, hi: int, k: int)
    requires
        0 <= k <= hi,
        quartic_fits(d, r, w, k),
    ensures
        largest_fit(d, r, w, hi) >= k,
    decreases hi,
{
    if hi > k && !quartic_fits(d, r, w, hi) {
        lemma_largest_fit_at_least(d, r, w, hi - 1, k);
    } else if hi == k && hi > 0 {
    }
}

/// The largest fit is 0 or fits.
proof fn lemma_largest_fit_fits(d: int, r: int, w: int, hi: int)
    ensures
        largest_fit(d, r, w, hi) == 0 || quartic_fits(d, r, w, largest_fit(d, r, w, hi)),
    decreases hi,
{
    if hi > 0 && !quartic_fits(d, r, w, hi) {
        lemma_largest_fit_fits(d, r, w, hi - 1);
    }
}

/// The cross penalty never grows with the distance: a squared distance `d1` no larger
/// than `d2` costs at least as much.
pub proof fn law_cross_penalty_non_increasing(d1: int, d2: int, r: int, w: int)
    requires
        0 <= d1 <= d2,
        0 <= w,
    ensures
        quartic_penalty(d2, r, w) <= quartic_penalty(d1, r, w),
{
    lemma_quartic_penalty_range(d1, r, w);
    lemma_quartic_penalty_range(d2, r, w);
    if r > 0 && d2 < r * r {
        let k = largest_fit(d2, r, w, w);
        lemma_largest_fit_range(d2, r, w, w);
        lemma_largest_fit_fits(d2, r, w, w);
        if k > 0 {
            lemma_fits_closer(d1, d2, r, w, k);
            lemma_largest_fit_at_least(d1, r, w, w, k);
        }
    }
}

} // verus!
