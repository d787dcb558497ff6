//! Integer plane geometry: square roots, distances between grid points and
//! interpolation along a straight piece.

use vstd::prelude::*;

verus! {

/// Largest magnitude a coordinate may have. Differences of two coordinates
/// within this limit can be squared and added without leaving `u128`.
pub const COORDINATE_LIMIT: i64 = 1_000_000_000_000_000_000;

/// Whether a coordinate lies within [`COORDINATE_LIMIT`] of the origin.
pub open spec fn coordinate_in_range(v: i64) -> bool {
    -COORDINATE_LIMIT <= v <= COORDINATE_LIMIT
}

/// `r` is the square root of `n`, rounded down.
pub open spec fn is_floor_sqrt(n: int, r: int) -> bool {
    0 <= r && r * r <= n < (r + 1) * (r + 1)
}

/// `r` is the square root of `n`, rounded up.
pub open spec fn is_ceil_sqrt(n: int, r: int) -> bool {
    0 <= r && n <= r * r && (r == 0 || (r - 1) * (r - 1) < n)
}

/// The square root of `n`, rounded down.
pub open spec fn floor_sqrt(n: int) -> int {
    choose|r: int| is_floor_sqrt(n, r)
}

/// The square root of `n`, rounded up.
pub open spec fn ceil_sqrt(n: int) -> int {
    choose|r: int| is_ceil_sqrt(n, r)
}

/// Squaring is strictly monotone on the naturals.
pub proof fn lemma_square_monotone(a: int, b: int)
    by (nonlinear_arith)
    requires
        0 <= a < b,
    ensures
        a * a < b * b,
{
}

/// A number has at most one rounded-down square root.
pub proof fn lemma_floor_sqrt_unique(n: int, r: int)
    requires
        is_floor_sqrt(n, r),
    ensures
        floor_sqrt(n) == r,
{
    let c = floor_sqrt(n);
    assert(is_floor_sqrt(n, c));
    if c < r {
        lemma_square_monotone(c, r);
        if c + 1 < r {
            lemma_square_monotone(c + 1, r);
        }
    } else if r < c {
        lemma_square_monotone(r, c);
        if r + 1 < c {
            lemma_square_monotone(r + 1, c);
        }
    }
}

/// A number has at most one rounded-up square root.
pub proof fn lemma_ceil_sqrt_unique(n: int, r: int)
    requires
        is_ceil_sqrt(n, r),
    ensures
        ceil_sqrt(n) == r,
{
    let c = ceil_sqrt(n);
    assert(is_ceil_sqrt(n, c));
    if c < r {
        lemma_square_monotone(c, r);
        if c < r - 1 {
            lemma_square_monotone(c, r - 1);
        }
    } else if r < c {
        lemma_square_monotone(r, c);
        if r < c - 1 {
            lemma_square_monotone(r, c - 1);
        }
    }
}

/// The square root of `n`, rounded down.
pub fn integer_sqrt(n: u128) -> (r: u64)
    ensures
        is_floor_sqrt(n as int, r as int),
        r as int == floor_sqrt(n as int),
{
    let mut lo: u128 = 0;
    let mut hi: u128 = 0x1_0000_0000_0000_0000;
    assert(n < hi * hi) by (nonlinear_arith)
        requires
            hi == 0x1_0000_0000_0000_0000,
            n <= u128::MAX,
    ;
    while hi - lo > 1
        invariant
            lo < hi <= 0x1_0000_0000_0000_0000,
            lo * lo <= n < hi * hi,
        decreases hi - lo,
    {
        let mid: u128 = lo + (hi - lo) / 2;
        assert(mid * mid <= u128::MAX) by (nonlinear_arith)
            requires
                mid < 0x1_0000_0000_0000_0000,
        ;
        if mid * mid <= n {
            lo = mid;
        } else {
            hi = mid;
        }
    }
    proof {
        lemma_floor_sqrt_unique(n as int, lo as int);
    }
    lo as u64
}

/// The square of the Euclidean distance between two grid points.
pub open spec fn squared_distance(ax: int, ay: int, bx: int, by: int) -> int {
    (ax - bx) * (ax - bx) + (ay - by) * (ay - by)
}

/// The straight-line distance between two grid points, rounded down, so that
/// it never exceeds the true distance.
pub open spec fn straight_line(ax: int, ay: int, bx: int, by: int) -> int {
    floor_sqrt(squared_distance(ax, ay, bx, by))
}

/// The length of the straight piece between two grid points, rounded up, so
/// that it is never shorter than the true distance.
pub open spec fn piece_length(ax: int, ay: int, bx: int, by: int) -> int {
    ceil_sqrt(squared_distance(ax, ay, bx, by))
}

/// The point reached after `t` of the `width` units that lead from `a` to `b`
/// along one axis, rounded towards `a`.
pub open spec fn interpolate(a: int, b: int, t: int, width: int) -> int {
    if a <= b {
        a + ((b - a) * t) / width
    } else {
        a - ((a - b) * t) / width
    }
}

/// A piece is at least as long as its extent along either axis, and has
/// length zero only between coinciding points.
pub proof fn lemma_piece_length_bounds(ax: int, ay: int, bx: int, by: int)
    ensures
        piece_length(ax, ay, bx, by) >= 0,
        piece_length(ax, ay, bx, by) >= ax - bx,
        piece_length(ax, ay, bx, by) >= bx - ax,
        piece_length(ax, ay, bx, by) >= ay - by,
        piece_length(ax, ay, bx, by) >= by - ay,
        piece_length(ax, ay, bx, by) == 0 <==> (ax == bx && ay == by),
{
    let n = squared_distance(ax, ay, bx, by);
    lemma_ceil_sqrt_exists(ax, ay, bx, by);
    let r = piece_length(ax, ay, bx, by);
    assert(is_ceil_sqrt(n, r));
    let dx = if ax >= bx { ax - bx } else { bx - ax };
    let dy = if ay >= by { ay - by } else { by - ay };
    assert(dx * dx == (ax - bx) * (ax - bx)) by (nonlinear_arith)
        requires
            dx == ax - bx || dx == bx - ax,
    ;
    assert(dy * dy == (ay - by) * (ay - by)) by (nonlinear_arith)
        requires
            dy == ay - by || dy == by - ay,
    ;
    assert(dx * dx >= 0 && dy * dy >= 0) by (nonlinear_arith);
    if r < dx {
        lemma_square_monotone(r, dx);
    }
    if r < dy {
        lemma_square_monotone(r, dy);
    }
    if dx > 0 {
        lemma_square_monotone(0, dx);
    }
    if dy > 0 {
        lemma_square_monotone(0, dy);
    }
    assert((r - 1) * (r - 1) >= 0) by (nonlinear_arith);
    if dx == 0 && dy == 0 {
        assert(n == 0);
    }
    if r == 0 {
        assert(n <= 0);
    }
}

/// The straight line between two points within the supported plane is not
/// negative and fits in 64 bits.
pub proof fn lemma_straight_line_bounds(ax: int, ay: int, bx: int, by: int)
    requires
        -COORDINATE_LIMIT <= ax <= COORDINATE_LIMIT,
        -COORDINATE_LIMIT <= ay <= COORDINATE_LIMIT,
        -COORDINATE_LIMIT <= bx <= COORDINATE_LIMIT,
        -COORDINATE_LIMIT <= by <= COORDINATE_LIMIT,
    ensures
        is_floor_sqrt(squared_distance(ax, ay, bx, by), straight_line(ax, ay, bx, by)),
        0 <= straight_line(ax, ay, bx, by) <= 4_000_000_000_000_000_000,
{
    let n = squared_distance(ax, ay, bx, by);
    let dx = ax - bx;
    let dy = ay - by;
    assert(0 <= dx * dx <= 4_000_000_000_000_000_000_000_000_000_000_000_000) by (nonlinear_arith)
        requires
            -2_000_000_000_000_000_000 <= dx <= 2_000_000_000_000_000_000,
    ;
    assert(0 <= dy * dy <= 4_000_000_000_000_000_000_000_000_000_000_000_000) by (nonlinear_arith)
        requires
            -2_000_000_000_000_000_000 <= dy <= 2_000_000_000_000_000_000,
    ;
    lemma_floor_sqrt_total(n);
    let r = straight_line(ax, ay, bx, by);
    if r > 4_000_000_000_000_000_000 {
        lemma_square_monotone(4_000_000_000_000_000_000, r);
    }
}

/// Between two points that differ along one axis only, the piece and the
/// straight line are exactly as long as the points are apart.
pub proof fn lemma_axis_aligned(ax: int, ay: int, bx: int, by: int, d: int)
    requires
        d >= 0,
        (ay == by && (ax - bx == d || bx - ax == d)) || (ax == bx && (ay - by == d || by - ay
            == d)),
    ensures
        piece_length(ax, ay, bx, by) == d,
        straight_line(ax, ay, bx, by) == d,
{
    let n = squared_distance(ax, ay, bx, by);
    assert(n == d * d) by (nonlinear_arith)
        requires
            n == (ax - bx) * (ax - bx) + (ay - by) * (ay - by),
            (ay == by && (ax - bx == d || bx - ax == d)) || (ax == bx && (ay - by == d || by - ay
                == d)),
    ;
    if d > 0 {
        lemma_square_monotone(d - 1, d);
    }
    lemma_square_monotone(d, d + 1);
    lemma_ceil_sqrt_unique(n, d);
    lemma_floor_sqrt_unique(n, d);
}

/// Interpolation begins at `a` and ends at `b`.
pub proof fn lemma_interpolate_ends(a: int, b: int, width: int)
    requires
        width > 0,
    ensures
        interpolate(a, b, 0, width) == a,
        interpolate(a, b, width, width) == b,
{
    let d = if a <= b {
        b - a
    } else {
        a - b
    };
    assert((d * 0) / width == 0 && (d * width) / width == d) by (nonlinear_arith)
        requires
            width > 0,
            d >= 0,
    ;
}

/// The quotient of a product by a positive number, rounded down, lies within
/// one unit below the exact quotient.
pub proof fn lemma_rounded_quotient(d: int, t: int, width: int)
    by (nonlinear_arith)
    requires
        d >= 0,
        t >= 0,
        width > 0,
    ensures
        0 <= ((d * t) / width) * width <= d * t < ((d * t) / width) * width + width,
{
}

/// An interpolated coordinate lies between `a` and `b`, and less than one
/// unit from the exact point of the line from `a` to `b`, on the side of `a`.
pub proof fn lemma_interpolate_on_line(a: int, b: int, t: int, width: int)
    requires
        0 <= t <= width,
        width > 0,
    ensures
        a <= b ==> a <= interpolate(a, b, t, width) <= b,
        b <= a ==> b <= interpolate(a, b, t, width) <= a,
        a <= b ==> 0 <= (b - a) * t - (interpolate(a, b, t, width) - a) * width < width,
        b <= a ==> 0 <= (a - b) * t - (a - interpolate(a, b, t, width)) * width < width,
{
    let d = if a <= b {
        b - a
    } else {
        a - b
    };
    let q = (d * t) / width;
    lemma_rounded_quotient(d, t, width);
    assert(q <= d) by (nonlinear_arith)
        requires
            q * width <= d * t,
            0 <= t <= width,
            width > 0,
            d >= 0,
            q >= 0 || q < 0,
    ;
    assert(q >= 0) by (nonlinear_arith)
        requires
            0 <= q * width,
            width > 0,
    ;
}

/// Where the two ends are no farther apart than the width, one more unit of
/// the way moves an interpolated coordinate by one unit at most.
pub proof fn lemma_interpolate_step(a: int, b: int, t: int, width: int)
    requires
        0 <= t < width,
        a - b <= width,
        b - a <= width,
    ensures
        -1 <= interpolate(a, b, t + 1, width) - interpolate(a, b, t, width) <= 1,
{
    let d = if a <= b {
        b - a
    } else {
        a - b
    };
    let q = (d * t) / width;
    let r = (d * (t + 1)) / width;
    lemma_rounded_quotient(d, t, width);
    lemma_rounded_quotient(d, t + 1, width);
    assert(d * (t + 1) == d * t + d) by (nonlinear_arith);
    assert(q <= r <= q + 1) by (nonlinear_arith)
        requires
            q * width <= d * t < q * width + width,
            r * width <= d * t + d < r * width + width,
            0 <= d <= width,
            width > 0,
    ;
}

/// The square of the dot product of two vectors is at most the product of
/// their squared lengths.
proof fn lemma_dot_product_bound(p: int, q: int, r: int, s: int)
    ensures
        (p * r + q * s) * (p * r + q * s) <= (p * p + q * q) * (r * r + s * s),
{
    let pr = p * r;
    let qs = q * s;
    let ps = p * s;
    let qr = q * r;
    let pp = p * p;
    let qq = q * q;
    let rr = r * r;
    let ss = s * s;
    assert(pp * rr == pr * pr) by (nonlinear_arith)
        requires
            pp == p * p,
            rr == r * r,
            pr == p * r,
    ;
    assert(pp * ss == ps * ps) by (nonlinear_arith)
        requires
            pp == p * p,
            ss == s * s,
            ps == p * s,
    ;
    assert(qq * rr == qr * qr) by (nonlinear_arith)
        requires
            qq == q * q,
            rr == r * r,
            qr == q * r,
    ;
    assert(qq * ss == qs * qs) by (nonlinear_arith)
        requires
            qq == q * q,
            ss == s * s,
            qs == q * s,
    ;
    assert(pr * qs == ps * qr) by (nonlinear_arith)
        requires
            pr == p * r,
            qs == q * s,
            ps == p * s,
            qr == q * r,
    ;
    assert((pp + qq) * (rr + ss) == pp * rr + pp * ss + qq * rr + qq * ss) by (nonlinear_arith);
    assert((pr + qs) * (pr + qs) == pr * pr + 2 * (pr * qs) + qs * qs) by (nonlinear_arith);
    assert((ps - qr) * (ps - qr) == ps * ps - 2 * (ps * qr) + qr * qr) by (nonlinear_arith);
    assert((ps - qr) * (ps - qr) >= 0) by (nonlinear_arith);
}

/// The straight line from `a` to `e` is not longer than the piece from `a`
/// to `b` and the straight line from `b` to `e` together: a detour over `b`
/// does not shorten the way, also after rounding.
pub proof fn lemma_detour(ax: int, ay: int, bx: int, by: int, ex: int, ey: int)
    ensures
        straight_line(ax, ay, ex, ey) <= piece_length(ax, ay, bx, by) + straight_line(
            bx,
            by,
            ex,
            ey,
        ),
{
    let p = ax - bx;
    let q = ay - by;
    let r = bx - ex;
    let s = by - ey;
    let whole = squared_distance(ax, ay, ex, ey);
    let first = squared_distance(ax, ay, bx, by);
    let second = squared_distance(bx, by, ex, ey);
    let dot = p * r + q * s;
    assert(whole == first + second + 2 * dot) by (nonlinear_arith)
        requires
            whole == (p + r) * (p + r) + (q + s) * (q + s),
            first == p * p + q * q,
            second == r * r + s * s,
            dot == p * r + q * s,
    ;
    lemma_dot_product_bound(p, q, r, s);
    assert(whole >= 0 && first >= 0 && second >= 0) by (nonlinear_arith)
        requires
            whole == (p + r) * (p + r) + (q + s) * (q + s),
            first == p * p + q * q,
            second == r * r + s * s,
    ;
    lemma_floor_sqrt_total(whole);
    lemma_ceil_sqrt_total(first);
    lemma_floor_sqrt_total(second);
    let m = floor_sqrt(whole);
    let n = ceil_sqrt(first);
    let k = floor_sqrt(second) + 1;
    if m >= n + k {
        let x = n * k;
        assert(x >= 0) by (nonlinear_arith)
            requires
                x == n * k,
                n >= 0,
                k >= 1,
        ;
        assert(m * m >= n * n + 2 * x + k * k) by (nonlinear_arith)
            requires
                m >= n + k,
                n >= 0,
                k >= 1,
                x == n * k,
        ;
        assert(dot > x);
        assert(dot * dot > x * x) by (nonlinear_arith)
            requires
                dot > x,
                x >= 0,
        ;
        assert(x * x >= first * second) by (nonlinear_arith)
            requires
                x == n * k,
                n * n >= first,
                k * k > second,
                first >= 0,
                second >= 0,
                n >= 0,
                k >= 1,
        {
            assert(x * x == (n * n) * (k * k));
            assert((n * n) * (k * k) >= first * (k * k));
            assert(first * (k * k) >= first * second);
        }
        assert(false);
    }
}

/// The straight line from the first point of a polyline to `e` is not
/// longer than the first `j` pieces of the polyline and the straight line
/// from the polyline's `j`-th point to `e` together.
pub proof fn lemma_polyline_detour(points: Seq<(int, int)>, j: int, ex: int, ey: int)
    requires
        0 <= j < points.len(),
    ensures
        straight_line(points[0].0, points[0].1, ex, ey) <= polyline_length(points, j)
            + straight_line(points[j].0, points[j].1, ex, ey),
    decreases j,
{
    if j > 0 {
        lemma_polyline_detour(points, j - 1, ex, ey);
        lemma_detour(points[j - 1].0, points[j - 1].1, points[j].0, points[j].1, ex, ey);
    }
}

/// Every squared distance has a rounded-up square root.
pub proof fn lemma_ceil_sqrt_exists(ax: int, ay: int, bx: int, by: int)
    ensures
        is_ceil_sqrt(squared_distance(ax, ay, bx, by), piece_length(ax, ay, bx, by)),
{
    let n = squared_distance(ax, ay, bx, by);
    assert(n >= 0) by (nonlinear_arith)
        requires
            n == (ax - bx) * (ax - bx) + (ay - by) * (ay - by),
    ;
    lemma_ceil_sqrt_total(n);
}

/// Every natural number has a rounded-up square root.
pub proof fn lemma_ceil_sqrt_total(n: int)
    requires
        n >= 0,
    ensures
        is_ceil_sqrt(n, ceil_sqrt(n)),
    decreases n,
{
    if n == 0 {
        assert(is_ceil_sqrt(0, 0));
    } else {
        lemma_ceil_sqrt_total(n - 1);
        let r = ceil_sqrt(n - 1);
        assert(is_ceil_sqrt(n - 1, r));
        if n <= r * r {
            assert(is_ceil_sqrt(n, r));
        } else {
            assert((r + 1) * (r + 1) >= n) by (nonlinear_arith)
                requires
                    r >= 0,
                    n - 1 <= r * r,
            ;
            assert((r + 1 - 1) * (r + 1 - 1) == r * r);
            assert(is_ceil_sqrt(n, r + 1));
        }
    }
}

/// Every natural number has a rounded-down square root.
pub proof fn lemma_floor_sqrt_total(n: int)
    requires
        n >= 0,
    ensures
        is_floor_sqrt(n, floor_sqrt(n)),
    decreases n,
{
    if n == 0 {
        assert(is_floor_sqrt(0, 0));
    } else {
        lemma_floor_sqrt_total(n - 1);
        let r = floor_sqrt(n - 1);
        assert(is_floor_sqrt(n - 1, r));
        if n < (r + 1) * (r + 1) {
            assert(is_floor_sqrt(n, r));
        } else {
            assert(n < (r + 2) * (r + 2)) by (nonlinear_arith)
                requires
                    r >= 0,
                    n - 1 < (r + 1) * (r + 1),
            ;
            assert(is_floor_sqrt(n, r + 1));
        }
    }
}

/// The polyline that leads from `start` through `bends` to `end`.
pub open spec fn polyline_through(
    start: (int, int),
    bends: Seq<(int, int)>,
    end: (int, int),
) -> Seq<(int, int)> {
    seq![start] + bends + seq![end]
}

/// The length of the straight piece that leads from the `j`-th point of a
/// polyline to the next.
pub open spec fn polyline_piece(points: Seq<(int, int)>, j: int) -> int {
    piece_length(points[j].0, points[j].1, points[j + 1].0, points[j + 1].1)
}

/// The length of the first `j` pieces of a polyline.
pub open spec fn polyline_length(points: Seq<(int, int)>, j: int) -> int
    decreases j,
{
    if j <= 0 {
        0
    } else {
        polyline_length(points, j - 1) + polyline_piece(points, j - 1)
    }
}

/// A polyline never gets shorter as pieces are added.
pub proof fn lemma_polyline_length_monotone(points: Seq<(int, int)>, j: int, k: int)
    requires
        0 <= j <= k,
    ensures
        0 <= polyline_length(points, j) <= polyline_length(points, k),
    decreases k,
{
    if k > 0 {
        lemma_piece_length_bounds(
            points[k - 1].0,
            points[k - 1].1,
            points[k].0,
            points[k].1,
        );
        if j < k {
            lemma_polyline_length_monotone(points, j, k - 1);
        } else {
            lemma_polyline_length_monotone(points, k - 1, k - 1);
        }
    }
}

/// The distance between two coordinates on one axis.
fn axis_distance(a: i64, b: i64) -> (d: u64)
    requires
        coordinate_in_range(a),
        coordinate_in_range(b),
    ensures
        d as int == if a >= b { a - b } else { b - a },
        d <= 2 * COORDINATE_LIMIT,
{
    if a >= b {
        (a - b) as u64
    } else {
        (b - a) as u64
    }
}

/// The square of the Euclidean distance between two grid points.
fn squared_distance_of(ax: i64, ay: i64, bx: i64, by: i64) -> (n: u128)
    requires
        coordinate_in_range(ax),
        coordinate_in_range(ay),
        coordinate_in_range(bx),
        coordinate_in_range(by),
    ensures
        n as int == squared_distance(ax as int, ay as int, bx as int, by as int),
        n <= 8_000_000_000_000_000_000_000_000_000_000_000_000,
{
    let dx: u128 = axis_distance(ax, bx) as u128;
    let dy: u128 = axis_distance(ay, by) as u128;
    assert(dx * dx <= 4_000_000_000_000_000_000_000_000_000_000_000_000 && dx * dx == (ax - bx) * (
    ax - bx)) by (nonlinear_arith)
        requires
            dx <= 2_000_000_000_000_000_000,
            dx == ax - bx || dx == bx - ax,
    ;
    assert(dy * dy <= 4_000_000_000_000_000_000_000_000_000_000_000_000 && dy * dy == (ay - by) * (
    ay - by)) by (nonlinear_arith)
        requires
            dy <= 2_000_000_000_000_000_000,
            dy == ay - by || dy == by - ay,
    ;
    dx * dx + dy * dy
}

/// The straight-line distance between two grid points, rounded down.
pub fn straight_line_distance(ax: i64, ay: i64, bx: i64, by: i64) -> (d: u64)
    requires
        coordinate_in_range(ax),
        coordinate_in_range(ay),
        coordinate_in_range(bx),
        coordinate_in_range(by),
    ensures
        d as int == straight_line(ax as int, ay as int, bx as int, by as int),
{
    integer_sqrt(squared_distance_of(ax, ay, bx, by))
}

/// The length of the straight piece between two grid points, rounded up.
pub fn piece_length_of(ax: i64, ay: i64, bx: i64, by: i64) -> (d: u64)
    requires
        coordinate_in_range(ax),
        coordinate_in_range(ay),
        coordinate_in_range(bx),
        coordinate_in_range(by),
    ensures
        d as int == piece_length(ax as int, ay as int, bx as int, by as int),
        d <= 4_000_000_000_000_000_000,
{
    let n = squared_distance_of(ax, ay, bx, by);
    let r = integer_sqrt(n);
    proof {
        if r >= 4_000_000_000_000_000_000 {
            lemma_square_monotone(3_999_999_999_999_999_999, r as int);
            assert(false);
        }
    }
    let rr: u128 = r as u128;
    assert(rr * rr == (r as int) * (r as int));
    if rr * rr == n {
        proof {
            if r > 0 {
                lemma_square_monotone(r as int - 1, r as int);
            }
            lemma_ceil_sqrt_unique(n as int, r as int);
        }
        r
    } else {
        proof {
            assert((r + 1 - 1) * (r + 1 - 1) == r * r);
            lemma_ceil_sqrt_unique(n as int, r as int + 1);
        }
        r + 1
    }
}

/// Along one axis, the point reached after `t` of the `width` units that lead
/// from `a` to `b`, rounded towards `a`.
pub fn interpolate_axis(a: i64, b: i64, t: u64, width: u64) -> (v: i64)
    requires
        coordinate_in_range(a),
        coordinate_in_range(b),
        t <= width,
        0 < width,
    ensures
        v as int == interpolate(a as int, b as int, t as int, width as int),
        a <= b ==> a <= v <= b,
        b <= a ==> b <= v <= a,
{
    let d: u128 = axis_distance(a, b) as u128;
    let tt: u128 = t as u128;
    let w: u128 = width as u128;
    assert(d * tt <= d * w && d * w <= 2_000_000_000_000_000_000 * 0x1_0000_0000_0000_0000 && 0
        <= d * tt) by (nonlinear_arith)
        requires
            tt <= w,
            w < 0x1_0000_0000_0000_0000,
            0 <= d <= 2_000_000_000_000_000_000,
    ;
    let shift: u128 = (d * tt) / w;
    assert(shift <= d) by (nonlinear_arith)
        requires
            shift == (d * tt) / (w as int),
            d * tt <= d * w,
            w > 0,
            d >= 0,
    ;
    if a <= b {
        a + (shift as i64)
    } else {
        a - (shift as i64)
    }
}

} // verus!
