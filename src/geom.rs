//! Fixed-point plane geometry: coordinates are `i64` counts of 1/65536 of a unit.
use vstd::prelude::*;

verus! {

/// The fixed-point value of 1.0.
pub const ONE: i64 = 65536;

/// Largest magnitude accepted for a coordinate, a width, a tolerance or a limit.
pub const MAX_COORD: i64 = 1073741824;

/// Division that rounds toward zero, as machine division does.
pub open spec fn tdiv(a: int, b: int) -> int {
    if a >= 0 {
        a / b
    } else {
        -((-a) / b)
    }
}

pub open spec fn in_range(v: int) -> bool {
    -MAX_COORD <= v <= MAX_COORD
}

/// The integer square root: the largest `r >= 0` with `r * r <= n`.
pub open spec fn is_root(n: int, r: int) -> bool {
    0 <= r && r * r <= n && n < (r + 1) * (r + 1)
}

pub open spec fn root(n: int) -> int {
    choose|r: int| is_root(n, r)
}

pub proof fn lemma_root_unique(n: int, r1: int, r2: int)
    requires
        is_root(n, r1),
        is_root(n, r2),
    ensures
        r1 == r2,
{
    if r1 < r2 {
        assert((r1 + 1) * (r1 + 1) <= r2 * r2) by (nonlinear_arith)
            requires
                0 <= r1 < r2,
        ;
    } else if r2 < r1 {
        assert((r2 + 1) * (r2 + 1) <= r1 * r1) by (nonlinear_arith)
            requires
                0 <= r2 < r1,
        ;
    }
}

/// Signed division rounding toward zero by a positive divisor.
pub fn div_trunc(a: i128, b: i128) -> (r: i128)
    requires
        b > 0,
        a > i128::MIN,
    ensures
        r == tdiv(a as int, b as int),
{
    if a >= 0 {
        a / b
    } else {
        let m: i128 = -a;
        -(m / b)
    }
}

pub proof fn lemma_tdiv_bound(a: int, b: int, m: int)
    requires
        b > 0,
        m >= 0,
        -m * b <= a <= m * b,
    ensures
        -m <= tdiv(a, b) <= m,
{
    if a >= 0 {
        assert(a / b <= m) by (nonlinear_arith)
            requires
                b > 0,
                0 <= a <= m * b,
        ;
        assert(a / b >= 0) by (nonlinear_arith)
            requires
                b > 0,
                0 <= a,
        ;
    } else {
        assert(-a <= m * b) by (nonlinear_arith)
            requires
                -m * b <= a,
        ;
        assert((-a) / b <= m) by (nonlinear_arith)
            requires
                b > 0,
                0 <= -a <= m * b,
        ;
        assert((-a) / b >= 0) by (nonlinear_arith)
            requires
                b > 0,
                0 <= -a,
        ;
    }
}

/// Integer square root by bisection.
pub fn isqrt(n: u64) -> (r: u64)
    ensures
        is_root(n as int, r as int),
        r as int == root(n as int),
{
    let mut lo: u128 = 0;
    let mut hi: u128 = 4294967296;
    assert(n < hi * hi) by (nonlinear_arith)
        requires
            n <= u64::MAX,
            hi == 4294967296,
    ;
    while hi - lo > 1
        invariant
            lo < hi <= 4294967296,
            lo * lo <= n,
            n < hi * hi,
        decreases hi - lo,
    {
        let mid: u128 = lo + (hi - lo) / 2;
        assert(mid * mid <= 4294967296 * 4294967296) by (nonlinear_arith)
            requires
                mid <= 4294967296,
        ;
        if mid * mid <= n as u128 {
            lo = mid;
        } else {
            hi = mid;
        }
    }
    assert(hi == lo + 1);
    proof {
        assert(is_root(n as int, lo as int));
        lemma_root_unique(n as int, lo as int, root(n as int));
    }
    lo as u64
}

pub proof fn lemma_root_is_root(n: int)
    requires
        n >= 0,
    ensures
        is_root(n, root(n)),
{
    // Counting down from n + 1, whose square exceeds n, meets a root.
    assert(n < (n + 1) * (n + 1)) by (nonlinear_arith)
        requires
            n >= 0,
    ;
    lemma_root_exists(n, n + 1);
}

proof fn lemma_root_exists(n: int, hi: int)
    requires
        n >= 0,
        hi >= 1,
        n < hi * hi,
    ensures
        is_root(n, root(n)),
    decreases hi,
{
    let r = hi - 1;
    if r * r <= n {
        assert(is_root(n, r));
    } else {
        assert(r >= 1) by (nonlinear_arith)
            requires
                r * r > n,
                n >= 0,
                r >= 0,
        ;
        lemma_root_exists(n, r);
    }
}

pub proof fn lemma_root_ge(n: int, c: int)
    requires
        n >= 0,
        c >= 0,
        c * c <= n,
    ensures
        c <= root(n),
{
    lemma_root_is_root(n);
    let r = root(n);
    if r < c {
        assert((r + 1) * (r + 1) <= c * c) by (nonlinear_arith)
            requires
                0 <= r < c,
        ;
    }
}

/// Length of the vector `(x, y)`, rounded down.
pub open spec fn vec_len(x: int, y: int) -> int {
    root(x * x + y * y)
}

/// One component of the unit vector along `(x, y)`, given the vector's length;
/// a vector shorter than one step is left as it is.
pub open spec fn unit(c: int, len: int) -> int {
    if len > 0 {
        tdiv(c * ONE, len)
    } else {
        c
    }
}

/// The direction and the length of `(x, y)`.
pub fn normalize(x: i64, y: i64) -> (r: (i64, i64, i64))
    requires
        -2 * MAX_COORD <= x <= 2 * MAX_COORD,
        -2 * MAX_COORD <= y <= 2 * MAX_COORD,
    ensures
        r.2 == vec_len(x as int, y as int),
        r.0 == unit(x as int, r.2 as int),
        r.1 == unit(y as int, r.2 as int),
        -ONE <= r.0 <= ONE,
        -ONE <= r.1 <= ONE,
        0 <= r.2 <= 4 * MAX_COORD,
{
    assert(-4 * MAX_COORD * MAX_COORD <= x * x <= 4 * MAX_COORD * MAX_COORD) by (nonlinear_arith)
        requires
            -2 * MAX_COORD <= x <= 2 * MAX_COORD,
    ;
    assert(-4 * MAX_COORD * MAX_COORD <= y * y <= 4 * MAX_COORD * MAX_COORD) by (nonlinear_arith)
        requires
            -2 * MAX_COORD <= y <= 2 * MAX_COORD,
    ;
    let xx: i128 = x as i128 * x as i128;
    let yy: i128 = y as i128 * y as i128;
    assert(xx <= 4 * MAX_COORD * MAX_COORD && yy <= 4 * MAX_COORD * MAX_COORD) by (nonlinear_arith)
        requires
            xx == x * x,
            yy == y * y,
            -2 * MAX_COORD <= x <= 2 * MAX_COORD,
            -2 * MAX_COORD <= y <= 2 * MAX_COORD,
    ;
    assert(xx >= 0 && yy >= 0) by (nonlinear_arith)
        requires
            xx == x * x,
            yy == y * y,
    ;
    let len: u64 = isqrt((xx + yy) as u64);
    proof {
        let n = x * x + y * y;
        let ax: int = if x >= 0 { x as int } else { -x };
        let ay: int = if y >= 0 { y as int } else { -y };
        assert(ax * ax <= n && ay * ay <= n) by (nonlinear_arith)
            requires
                ax == x || ax == -x,
                ay == y || ay == -y,
                n == x * x + y * y,
        ;
        lemma_root_ge(n, ax);
        lemma_root_ge(n, ay);
        assert(len <= 4 * MAX_COORD) by (nonlinear_arith)
            requires
                len * len <= n,
                n <= 8 * MAX_COORD * MAX_COORD,
                len >= 0,
        ;
    }
    let l: i64 = len as i64;
    if l > 0 {
        let nx: i128 = div_trunc(x as i128 * ONE as i128, l as i128);
        let ny: i128 = div_trunc(y as i128 * ONE as i128, l as i128);
        proof {
            assert(-ONE * l <= x * ONE <= ONE * l) by (nonlinear_arith)
                requires
                    -l <= x <= l,
                    ONE > 0,
            ;
            assert(-ONE * l <= y * ONE <= ONE * l) by (nonlinear_arith)
                requires
                    -l <= y <= l,
                    ONE > 0,
            ;
            lemma_tdiv_bound(x * ONE, l as int, ONE as int);
            lemma_tdiv_bound(y * ONE, l as int, ONE as int);
        }
        (nx as i64, ny as i64, l)
    } else {
        (x, y, l)
    }
}

/// Whether two points lie closer than `tol` to each other.
pub open spec fn near(x1: int, y1: int, x2: int, y2: int, tol: int) -> bool {
    (x2 - x1) * (x2 - x1) + (y2 - y1) * (y2 - y1) < tol * tol
}

pub fn point_equals(x1: i64, y1: i64, x2: i64, y2: i64, tol: i64) -> (r: bool)
    requires
        in_range(x1 as int),
        in_range(y1 as int),
        in_range(x2 as int),
        in_range(y2 as int),
        0 <= tol <= MAX_COORD,
    ensures
        r == near(x1 as int, y1 as int, x2 as int, y2 as int, tol as int),
{
    let dx: i128 = x2 as i128 - x1 as i128;
    let dy: i128 = y2 as i128 - y1 as i128;
    assert(dx * dx <= 4 * MAX_COORD * MAX_COORD && dy * dy <= 4 * MAX_COORD * MAX_COORD
        && tol * tol <= MAX_COORD * MAX_COORD) by (nonlinear_arith)
        requires
            -2 * MAX_COORD <= dx <= 2 * MAX_COORD,
            -2 * MAX_COORD <= dy <= 2 * MAX_COORD,
            0 <= tol <= MAX_COORD,
    ;
    assert(dx * dx >= 0 && dy * dy >= 0) by (nonlinear_arith);
    dx * dx + dy * dy < tol as i128 * tol as i128
}

/// Twice the signed area of the triangle `a, b, c`: positive when the three
/// points turn counter-clockwise with the y axis pointing down.
pub open spec fn tri_area(ax: int, ay: int, bx: int, by: int, cx: int, cy: int) -> int {
    (cx - ax) * (by - ay) - (bx - ax) * (cy - ay)
}

/// A bound on `tri_area` for coordinates in range.
pub open spec fn tri_bound() -> int {
    8 * MAX_COORD * MAX_COORD
}

pub fn triangle_area(ax: i64, ay: i64, bx: i64, by: i64, cx: i64, cy: i64) -> (r: i128)
    requires
        in_range(ax as int),
        in_range(ay as int),
        in_range(bx as int),
        in_range(by as int),
        in_range(cx as int),
        in_range(cy as int),
    ensures
        r == tri_area(ax as int, ay as int, bx as int, by as int, cx as int, cy as int),
        -tri_bound() <= r <= tri_bound(),
{
    let abx: i128 = bx as i128 - ax as i128;
    let aby: i128 = by as i128 - ay as i128;
    let acx: i128 = cx as i128 - ax as i128;
    let acy: i128 = cy as i128 - ay as i128;
    assert(-4 * MAX_COORD * MAX_COORD <= acx * aby <= 4 * MAX_COORD * MAX_COORD
        && -4 * MAX_COORD * MAX_COORD <= abx * acy <= 4 * MAX_COORD * MAX_COORD) by (nonlinear_arith)
        requires
            -2 * MAX_COORD <= abx <= 2 * MAX_COORD,
            -2 * MAX_COORD <= aby <= 2 * MAX_COORD,
            -2 * MAX_COORD <= acx <= 2 * MAX_COORD,
            -2 * MAX_COORD <= acy <= 2 * MAX_COORD,
    ;
    acx * aby - abx * acy
}

pub open spec fn pair_in_range(p: (i64, i64)) -> bool {
    in_range(p.0 as int) && in_range(p.1 as int)
}

pub open spec fn pts_in_range(pts: Seq<(i64, i64)>) -> bool {
    forall|i: int| 0 <= i < pts.len() ==> pair_in_range(#[trigger] pts[i])
}

/// Twice the signed area of the fan from the first point over the points
/// before index `k`.
pub open spec fn fan_area(pts: Seq<(i64, i64)>, k: int) -> int
    decreases k,
{
    if k < 3 || k > pts.len() {
        0
    } else {
        fan_area(pts, k - 1) + tri_area(
            pts[0].0 as int,
            pts[0].1 as int,
            pts[k - 2].0 as int,
            pts[k - 2].1 as int,
            pts[k - 1].0 as int,
            pts[k - 1].1 as int,
        )
    }
}

/// Twice the signed area of the polygon: positive for a counter-clockwise one.
pub open spec fn polygon_area_spec(pts: Seq<(i64, i64)>) -> int {
    fan_area(pts, pts.len() as int)
}

pub fn polygon_area(pts: &Vec<(i64, i64)>) -> (r: i128)
    requires
        pts_in_range(pts@),
    ensures
        r == polygon_area_spec(pts@),
{
    let mut area: i128 = 0;
    if pts.len() < 3 {
        return area;
    }
    let a = pts[0];
    let mut i: usize = 2;
    while i < pts.len()
        invariant
            2 <= i <= pts.len(),
            pts.len() >= 3,
            a == pts@[0],
            pts_in_range(pts@),
            area == fan_area(pts@, i as int),
            -((i as int) * tri_bound()) <= area <= (i as int) * tri_bound(),
        decreases pts.len() - i,
    {
        let b = pts[i - 1];
        let c = pts[i];
        let t = triangle_area(a.0, a.1, b.0, b.1, c.0, c.1);
        proof {
            let tb = tri_bound();
            assert(tb == 9223372036854775808);
            assert((i + 1) * tb <= 18446744073709551615 * tb) by (nonlinear_arith)
                requires
                    i + 1 <= 18446744073709551615int,
                    tb > 0,
            ;
            assert((i as int) * tb + tb == (i + 1) * tb) by (nonlinear_arith);
        }
        area = area + t;
        i = i + 1;
    }
    area
}
/// The cross product of two points taken as vectors.
pub open spec fn cross(a: (i64, i64), b: (i64, i64)) -> int {
    a.0 * b.1 - a.1 * b.0
}

/// The shoelace sum along the open chain of the first `k` points.
pub open spec fn chain(pts: Seq<(i64, i64)>, k: int) -> int
    decreases k,
{
    if k < 2 || k > pts.len() {
        0
    } else {
        chain(pts, k - 1) + cross(pts[k - 2], pts[k - 1])
    }
}

proof fn lemma_cross_antisym(a: (i64, i64), b: (i64, i64))
    ensures
        cross(a, b) == -cross(b, a),
{
    assert(a.0 * b.1 - a.1 * b.0 == -(b.0 * a.1 - b.1 * a.0)) by (nonlinear_arith);
}

proof fn lemma_tri_cross(a: (i64, i64), b: (i64, i64), c: (i64, i64))
    ensures
        tri_area(a.0 as int, a.1 as int, b.0 as int, b.1 as int, c.0 as int, c.1 as int) == -(cross(a, b) + cross(b, c)
            + cross(c, a)),
{
    let (ax, ay, bx, by, cx, cy) = (a.0 as int, a.1 as int, b.0 as int, b.1 as int, c.0 as int, c.1 as int);
    assert((cx - ax) * (by - ay) - (bx - ax) * (cy - ay) == -((ax * by - ay * bx) + (bx * cy - by * cx) + (cx * ay - cy
        * ax))) by (nonlinear_arith);
}

/// The fan area is minus the shoelace sum of the closed polygon.
proof fn lemma_fan_chain(pts: Seq<(i64, i64)>, k: int)
    requires
        2 <= k <= pts.len(),
    ensures
        fan_area(pts, k) == -(chain(pts, k) + cross(pts[k - 1], pts[0])),
    decreases k,
{
    if k == 2 {
        assert(chain(pts, 1) == 0);
        lemma_cross_antisym(pts[0], pts[1]);
    } else {
        lemma_fan_chain(pts, k - 1);
        lemma_tri_cross(pts[0], pts[k - 2], pts[k - 1]);
        lemma_cross_antisym(pts[0], pts[k - 2]);
    }
}

/// The chain of the reversed points is minus a tail of the chain of the points.
proof fn lemma_chain_reversed(pts: Seq<(i64, i64)>, rev: Seq<(i64, i64)>, k: int)
    requires
        rev.len() == pts.len(),
        forall|i: int| 0 <= i < pts.len() ==> #[trigger] rev[i] == pts[pts.len() - 1 - i],
        1 <= k <= pts.len(),
    ensures
        chain(rev, k) == -(chain(pts, pts.len() as int) - chain(pts, pts.len() - k + 1)),
    decreases k,
{
    let n = pts.len() as int;
    if k > 1 {
        lemma_chain_reversed(pts, rev, k - 1);
        assert(rev[k - 2] == pts[n - k + 1]);
        assert(rev[k - 1] == pts[n - k]);
        lemma_cross_antisym(pts[n - k], pts[n - k + 1]);
    }
}

/// Reversing a polygon's points negates its signed area.
pub proof fn lemma_area_reversed(pts: Seq<(i64, i64)>, rev: Seq<(i64, i64)>)
    requires
        rev.len() == pts.len(),
        forall|i: int| 0 <= i < pts.len() ==> #[trigger] rev[i] == pts[pts.len() - 1 - i],
    ensures
        polygon_area_spec(rev) == -polygon_area_spec(pts),
{
    let n = pts.len() as int;
    if n >= 2 {
        lemma_fan_chain(pts, n);
        lemma_fan_chain(rev, n);
        lemma_chain_reversed(pts, rev, n);
        assert(chain(pts, 1) == 0);
        assert(rev[n - 1] == pts[0]);
        assert(rev[0] == pts[n - 1]);
        lemma_cross_antisym(pts[0], pts[n - 1]);
    }
}

/// The chain of the points rotated by one is the chain one point further on,
/// less its first edge.
proof fn lemma_chain_rotated(pts: Seq<(i64, i64)>, rot: Seq<(i64, i64)>, k: int)
    requires
        pts.len() >= 2,
        rot == pts.skip(1).push(pts[0]),
        1 <= k <= pts.len() - 1,
    ensures
        chain(rot, k) == chain(pts, k + 1) - cross(pts[0], pts[1]),
    decreases k,
{
    if k > 1 {
        lemma_chain_rotated(pts, rot, k - 1);
        assert(rot[k - 2] == pts[k - 1]);
        assert(rot[k - 1] == pts[k]);
    } else {
        assert(chain(pts, 1) == 0);
    }
}

/// Starting the polygon one vertex later leaves its signed area unchanged.
pub proof fn lemma_area_rotated_once(pts: Seq<(i64, i64)>)
    requires
        pts.len() >= 1,
    ensures
        polygon_area_spec(pts.skip(1).push(pts[0])) == polygon_area_spec(pts),
{
    let n = pts.len() as int;
    let rot = pts.skip(1).push(pts[0]);
    if n >= 3 {
        lemma_chain_rotated(pts, rot, n - 1);
        assert(rot[n - 2] == pts[n - 1]);
        assert(rot[n - 1] == pts[0]);
        assert(rot[0] == pts[1]);
        lemma_fan_chain(pts, n);
        lemma_fan_chain(rot, n);
    }
}

/// The polygon started at vertex `r` instead of vertex 0.
pub open spec fn rotated(pts: Seq<(i64, i64)>, r: int) -> Seq<(i64, i64)> {
    pts.skip(r) + pts.take(r)
}

/// The signed area does not depend on the vertex the cycle starts at.
pub proof fn lemma_area_rotated(pts: Seq<(i64, i64)>, r: int)
    requires
        0 <= r <= pts.len(),
    ensures
        polygon_area_spec(rotated(pts, r)) == polygon_area_spec(pts),
    decreases r,
{
    if r == 0 {
        assert(rotated(pts, 0) =~= pts);
    } else {
        lemma_area_rotated(pts, r - 1);
        let q = rotated(pts, r - 1);
        assert(q.len() == pts.len());
        if pts.len() >= 1 {
            lemma_area_rotated_once(q);
            assert(q.skip(1).push(q[0]) =~= rotated(pts, r));
        }
    }
}

} // verus!
