//! Join classification: the miter offset of every point and whether its
//! join needs a bevel.
use vstd::prelude::*;

use crate::geom::{MAX_COORD, ONE, div_trunc, lemma_tdiv_bound, tdiv};
use crate::canvas::{LineJoin, POINT_BEVEL, POINT_CORNER, POINT_INNER_BEVEL, POINT_LEFT, Path, PathCache, Point};
use crate::flatten::{FlatPath, finished_ok, holds_flattened, lemma_window_frame, point_ok, points_ok, window, windows_ok};

verus! {

/// 1.01, the least limit of an inner join.
pub const LIMIT_FLOOR: i64 = 66191;

/// 600, the largest scale of a miter offset.
pub const MAX_MITER_SCALE: i64 = 39321600;

/// One component of the mean of the two edges' left normals.
pub open spec fn mean_normal(a: int, b: int) -> int {
    tdiv(a + b, 2)
}

/// The squared length of the mean normal.
pub open spec fn normal_r2(mx: int, my: int) -> int {
    tdiv(mx * mx + my * my, ONE as int)
}

pub open spec fn miter_scale(r2: int) -> int {
    let s = tdiv(ONE * ONE, r2);
    if s > MAX_MITER_SCALE {
        MAX_MITER_SCALE as int
    } else {
        s
    }
}

/// The mean normal stretched to reach the miter point, the stretch capped
/// at `MAX_MITER_SCALE`; a mean normal of zero length is kept.
pub open spec fn miter(m: int, r2: int) -> int {
    if r2 > 0 {
        tdiv(m * miter_scale(r2), ONE as int)
    } else {
        m
    }
}

pub open spec fn turns_left(p0: Point, p1: Point) -> bool {
    p1.dx * p0.dy - p0.dx * p1.dy > 0
}

/// The shorter of the two edges measured in half-widths, at least `LIMIT_FLOOR`.
pub open spec fn join_limit(p0: Point, p1: Point, w: int) -> int {
    let shorter: int = if p0.len < p1.len { p0.len as int } else { p1.len as int };
    let l = if w > 0 { tdiv(shorter * ONE, w) } else { 0 };
    if l > LIMIT_FLOOR {
        l
    } else {
        LIMIT_FLOOR as int
    }
}

pub open spec fn flag_bits(corner: bool, left: bool, bevel: bool, inner: bool) -> u32 {
    ((if corner { 1int } else { 0 }) + (if left { 2int } else { 0 }) + (if bevel { 4int } else { 0 }) + (if inner {
        8int
    } else {
        0
    })) as u32
}

pub open spec fn is_corner(f: u32) -> bool {
    (f & POINT_CORNER) != 0
}

pub open spec fn is_left(f: u32) -> bool {
    (f & POINT_LEFT) != 0
}

pub open spec fn is_beveled(f: u32) -> bool {
    (f & (POINT_BEVEL | POINT_INNER_BEVEL)) != 0
}

/// Point `p1` with its join classified, `p0` being the point before it: the
/// miter offset, whether it turns left, whether the inner side needs a bevel,
/// and whether a corner needs an outer bevel.
pub open spec fn joined(p0: Point, p1: Point, w: int, join: LineJoin, miter_limit: int) -> Point {
    let mx = mean_normal(p0.dy as int, p1.dy as int);
    let my = mean_normal(-p0.dx, -p1.dx);
    let r2 = normal_r2(mx, my);
    let limit = join_limit(p0, p1, w);
    let one3 = ONE * ONE * ONE;
    let corner = is_corner(p1.flags);
    let inner = r2 * limit * limit < one3;
    let bevel = corner && (r2 * miter_limit * miter_limit < one3 || join != LineJoin::Miter);
    Point {
        dmx: miter(mx, r2) as i64,
        dmy: miter(my, r2) as i64,
        flags: flag_bits(corner, turns_left(p0, p1), bevel, inner),
        ..p1
    }
}

pub open spec fn prev_index(n: int, i: int) -> int {
    if i == 0 {
        n - 1
    } else {
        i - 1
    }
}

/// The points of a path with every join classified; a path of fewer than
/// two points is left as it is.
pub open spec fn joins_spec(pts: Seq<Point>, w: int, join: LineJoin, miter_limit: int) -> Seq<Point> {
    if pts.len() < 2 {
        pts
    } else {
        Seq::new(pts.len(), |i: int| joined(pts[prev_index(pts.len() as int, i)], pts[i], w, join, miter_limit))
    }
}

pub open spec fn count_beveled(pts: Seq<Point>) -> nat
    decreases pts.len(),
{
    if pts.len() == 0 {
        0
    } else {
        count_beveled(pts.drop_last()) + if is_beveled(pts.last().flags) { 1nat } else { 0 }
    }
}

pub open spec fn count_left(pts: Seq<Point>) -> nat
    decreases pts.len(),
{
    if pts.len() == 0 {
        0
    } else {
        count_left(pts.drop_last()) + if is_left(pts.last().flags) { 1nat } else { 0 }
    }
}

/// A path is convex when it has at least two points and all of them turn left.
pub open spec fn convex_spec(pts: Seq<Point>) -> bool {
    pts.len() >= 2 && count_left(pts) == pts.len()
}

pub open spec fn joined_ok(points: Seq<Point>, path: Path, f: FlatPath, w: int, join: LineJoin, miter_limit: int) -> bool {
    &&& window(points, path) == joins_spec(f.0, w, join, miter_limit)
    &&& path.closed == f.1
    &&& path.winding == f.2
    &&& path.nbevel == if path.count >= 2 {
        count_beveled(window(points, path))
    } else {
        0
    }
    &&& path.convex == convex_spec(window(points, path))
    &&& points_ok(window(points, path))
}

/// The paths as the buffers hold them now.
pub open spec fn current_paths(points: Seq<Point>, paths: Seq<Path>) -> Seq<FlatPath> {
    paths.map_values(|p: Path| (window(points, p), p.closed, p.winding))
}

/// Path `q` is path `p` with only its bevel count and convexity changed.
pub open spec fn same_but_joins(p: Path, q: Path) -> bool {
    q == Path { nbevel: q.nbevel, convex: q.convex, ..p }
}

/// Classifying joins again changes nothing: the miter offsets and flags are
/// computed from the edges and the corner flag, which classifying keeps.
pub proof fn lemma_joins_idempotent(pts: Seq<Point>, w: int, join: LineJoin, miter_limit: int)
    ensures
        joins_spec(joins_spec(pts, w, join, miter_limit), w, join, miter_limit) == joins_spec(
            pts,
            w,
            join,
            miter_limit,
        ),
{
    let js = joins_spec(pts, w, join, miter_limit);
    let n = pts.len() as int;
    if n >= 2 {
        assert forall|i: int| 0 <= i < n implies #[trigger] joins_spec(js, w, join, miter_limit)[i] == js[i] by {
            let p0 = pts[prev_index(n, i)];
            let p1 = pts[i];
            let mx = mean_normal(p0.dy as int, p1.dy as int);
            let my = mean_normal(-p0.dx, -p1.dx);
            let r2 = normal_r2(mx, my);
            let limit = join_limit(p0, p1, w);
            let one3 = ONE * ONE * ONE;
            let corner = is_corner(p1.flags);
            lemma_flag_bits(
                corner,
                turns_left(p0, p1),
                corner && (r2 * miter_limit * miter_limit < one3 || join != LineJoin::Miter),
                r2 * limit * limit < one3,
            );
        }
        assert(joins_spec(js, w, join, miter_limit) =~= js);
    }
}

/// The buffers hold the flattened paths `f` with their joins classified.
pub open spec fn holds_joined(
    points: Seq<Point>,
    paths: Seq<Path>,
    f: Seq<FlatPath>,
    w: int,
    join: LineJoin,
    miter_limit: int,
) -> bool {
    &&& windows_ok(points, paths)
    &&& paths.len() == f.len()
    &&& forall|k: int| 0 <= k < paths.len() ==> joined_ok(points, #[trigger] paths[k], f[k], w, join, miter_limit)
}

/// The paths before `k` have their joins classified, the others are as
/// flattening left them.
pub open spec fn joins_partly(
    points: Seq<Point>,
    paths: Seq<Path>,
    f: Seq<FlatPath>,
    w: int,
    join: LineJoin,
    miter_limit: int,
    k: int,
) -> bool {
    &&& windows_ok(points, paths)
    &&& paths.len() == f.len()
    &&& forall|j: int| 0 <= j < k ==> joined_ok(points, #[trigger] paths[j], f[j], w, join, miter_limit)
    &&& forall|j: int| k <= j < paths.len() ==> finished_ok(points, #[trigger] paths[j], f[j])
}

/// The flattened paths with their joins classified.
pub open spec fn joined_paths(f: Seq<FlatPath>, w: int, join: LineJoin, miter_limit: int) -> Seq<FlatPath> {
    f.map_values(|p: FlatPath| (joins_spec(p.0, w, join, miter_limit), p.1, p.2))
}

pub proof fn lemma_flag_bits(c: bool, l: bool, b: bool, i: bool)
    ensures
        is_corner(flag_bits(c, l, b, i)) == c,
        is_left(flag_bits(c, l, b, i)) == l,
        is_beveled(flag_bits(c, l, b, i)) == (b || i),
        flag_bits(c, l, b, i) < 16,
{
    let f = flag_bits(c, l, b, i);
    assert(f < 16);
    assert(f % 2 == (if c { 1u32 } else { 0u32 }));
    assert(f % 4 >= 2 <==> l);
    assert(f >= 4 <==> (b || i));
    assert(4u32 | 8u32 == 12u32) by (bit_vector);
    lemma_bits(f);
}

pub(crate) proof fn lemma_bits(f: u32)
    requires
        f < 16,
    ensures
        ((f & 1u32) != 0) == (f % 2 == 1),
        ((f & 2u32) != 0) == (f % 4 >= 2),
        ((f & 12u32) != 0) == (f >= 4),
{
    assert(((f & 1u32) != 0) == (f % 2 == 1)) by (bit_vector)
        requires
            f < 16,
    ;
    assert(((f & 2u32) != 0) == (f % 4 >= 2)) by (bit_vector)
        requires
            f < 16,
    ;
    assert(((f & 12u32) != 0) == (f >= 4)) by (bit_vector)
        requires
            f < 16,
    ;
}

/// Classifies the join at `p1`, `p0` being the point before it.
fn join_point(p0: Point, p1: Point, w: i64, join: LineJoin, miter_limit: i64) -> (r: Point)
    requires
        point_ok(p0),
        point_ok(p1),
        0 <= w <= 2 * MAX_COORD,
        0 <= miter_limit <= MAX_COORD,
    ensures
        r == joined(p0, p1, w as int, join, miter_limit as int),
        point_ok(r),
{
    let mx: i128 = div_trunc(p0.dy as i128 + p1.dy as i128, 2);
    let my: i128 = div_trunc(-(p0.dx as i128) - p1.dx as i128, 2);
    proof {
        lemma_tdiv_bound(p0.dy + p1.dy, 2, ONE as int);
        lemma_tdiv_bound(-p0.dx - p1.dx, 2, ONE as int);
        assert(0 <= mx * mx <= ONE * ONE && 0 <= my * my <= ONE * ONE) by (nonlinear_arith)
            requires
                -ONE <= mx <= ONE,
                -ONE <= my <= ONE,
        ;
        lemma_tdiv_bound(mx * mx + my * my, ONE as int, 2 * ONE);
    }
    let r2: i128 = div_trunc(mx * mx + my * my, ONE as i128);
    assert(r2 >= 0) by {
        assert(mx * mx + my * my >= 0);
    }
    let mut dmx: i128 = mx;
    let mut dmy: i128 = my;
    if r2 > 0 {
        let mut scale: i128 = div_trunc(ONE as i128 * ONE as i128, r2);
        if scale > MAX_MITER_SCALE as i128 {
            scale = MAX_MITER_SCALE as i128;
        }
        proof {
            assert(scale >= 0) by {
                assert(ONE * ONE >= 0);
            }
            assert(-MAX_MITER_SCALE * ONE <= mx * scale <= MAX_MITER_SCALE * ONE) by (nonlinear_arith)
                requires
                    -ONE <= mx <= ONE,
                    0 <= scale <= MAX_MITER_SCALE,
            ;
            assert(-MAX_MITER_SCALE * ONE <= my * scale <= MAX_MITER_SCALE * ONE) by (nonlinear_arith)
                requires
                    -ONE <= my <= ONE,
                    0 <= scale <= MAX_MITER_SCALE,
            ;
            lemma_tdiv_bound(mx * scale, ONE as int, MAX_MITER_SCALE as int);
            lemma_tdiv_bound(my * scale, ONE as int, MAX_MITER_SCALE as int);
        }
        dmx = div_trunc(mx * scale, ONE as i128);
        dmy = div_trunc(my * scale, ONE as i128);
    }
    assert(-ONE * ONE <= p1.dx * p0.dy <= ONE * ONE && -ONE * ONE <= p0.dx * p1.dy <= ONE * ONE) by (nonlinear_arith)
        requires
            -ONE <= p0.dx <= ONE,
            -ONE <= p0.dy <= ONE,
            -ONE <= p1.dx <= ONE,
            -ONE <= p1.dy <= ONE,
    ;
    let cross: i128 = p1.dx as i128 * p0.dy as i128 - p0.dx as i128 * p1.dy as i128;
    let shorter: i64 = if p0.len < p1.len { p0.len } else { p1.len };
    let mut limit: i128 = 0;
    if w > 0 {
        proof {
            lemma_tdiv_bound(shorter * ONE, w as int, 4 * MAX_COORD * ONE);
        }
        limit = div_trunc(shorter as i128 * ONE as i128, w as i128);
    }
    if limit <= LIMIT_FLOOR as i128 {
        limit = LIMIT_FLOOR as i128;
    }
    let one3: i128 = ONE as i128 * ONE as i128 * ONE as i128;
    proof {
        assert(0 <= r2 * limit <= 2 * ONE * (4 * MAX_COORD * ONE)) by (nonlinear_arith)
            requires
                0 <= r2 <= 2 * ONE,
                0 <= limit <= 4 * MAX_COORD * ONE,
        ;
        assert(0 <= r2 * miter_limit <= 2 * ONE * MAX_COORD) by (nonlinear_arith)
            requires
                0 <= r2 <= 2 * ONE,
                0 <= miter_limit <= MAX_COORD,
        ;
        assert(0 <= r2 * limit * limit <= 2 * ONE * (4 * MAX_COORD * ONE) * (4 * MAX_COORD * ONE)) by (nonlinear_arith)
            requires
                0 <= r2 <= 2 * ONE,
                0 <= limit <= 4 * MAX_COORD * ONE,
        ;
        assert(0 <= r2 * miter_limit * miter_limit <= 2 * ONE * MAX_COORD * MAX_COORD) by (nonlinear_arith)
            requires
                0 <= r2 <= 2 * ONE,
                0 <= miter_limit <= MAX_COORD,
        ;
    }
    let corner = (p1.flags & POINT_CORNER) != 0;
    let left = cross > 0;
    let inner = r2 * limit * limit < one3;
    let bevel = corner && (r2 * (miter_limit as i128) * (miter_limit as i128) < one3 || join != LineJoin::Miter);
    let mut flags: u32 = 0;
    if corner {
        flags = flags + POINT_CORNER;
    }
    if left {
        flags = flags + POINT_LEFT;
    }
    if bevel {
        flags = flags + POINT_BEVEL;
    }
    if inner {
        flags = flags + POINT_INNER_BEVEL;
    }
    proof {
        lemma_flag_bits(corner, left, bevel, inner);
    }
    Point { dmx: dmx as i64, dmy: dmy as i64, flags, ..p1 }
}

impl PathCache {
    /// Classifies the joins of path `k` and counts its bevels and left turns.
    fn join_path(
        &mut self,
        k: usize,
        w: i64,
        join: LineJoin,
        miter_limit: i64,
        Ghost(f): Ghost<Seq<FlatPath>>,
    )
        requires
            joins_partly(old(self).points@, old(self).paths@, f, w as int, join, miter_limit as int, k as int),
            k < old(self).paths@.len(),
            0 <= w <= 2 * MAX_COORD,
            0 <= miter_limit <= MAX_COORD,
        ensures
            joins_partly(final(self).points@, final(self).paths@, f, w as int, join, miter_limit as int, k + 1),
            final(self).verts@ == old(self).verts@,
            final(self).bounds == old(self).bounds,
            final(self).points@.len() == old(self).points@.len(),
            final(self).paths@.len() == old(self).paths@.len(),
            forall|j: int| 0 <= j < old(self).paths@.len() && j != k ==> final(self).paths@[j] == old(self).paths@[j],
            same_but_joins(old(self).paths@[k as int], final(self).paths@[k as int]),
    {
        let mut path = self.paths[k];
        let first = path.first;
        let n = path.count;
        let ghost old_points = self.points@;
        let ghost orig = window(old_points, path);
        let plen = self.points.len();
        assert(first + n <= plen);
        let mut nbevel: usize = 0;
        let mut nleft: usize = 0;
        if n >= 2 {
            let mut i: usize = 0;
            while i < n
                invariant
                    n >= 2,
                    first + n <= plen,
                    plen == old_points.len(),
                    self.points@.len() == plen,
                    self.paths@ == old(self).paths@,
                    self.verts@ == old(self).verts@,
                    self.bounds == old(self).bounds,
                    k < self.paths@.len(),
                    orig == window(old_points, path),
                    first == path.first,
                    n == path.count,
                    orig.len() == n,
                    points_ok(orig),
                    0 <= w <= 2 * MAX_COORD,
                    0 <= miter_limit <= MAX_COORD,
                    i <= n,
                    nbevel <= i,
                    nleft <= i,
                    forall|q: int| 0 <= q < plen && !(first <= q < first + i) ==> self.points@[q] == old_points[q],
                    forall|q: int|
                        0 <= q < i ==> self.points@[first + q] == joins_spec(orig, w as int, join, miter_limit as int)[q],
                    forall|q: int| 0 <= q < i ==> point_ok(#[trigger] self.points@[first + q]),
                    nbevel == count_beveled(joins_spec(orig, w as int, join, miter_limit as int).take(i as int)),
                    nleft == count_left(joins_spec(orig, w as int, join, miter_limit as int).take(i as int)),
                decreases n - i,
            {
                let pi: usize = if i == 0 { n - 1 } else { i - 1 };
                let p0 = self.points[first + pi];
                let p1 = self.points[first + i];
                proof {
                    assert(self.points@[first + i] == old_points[first + i]);
                    assert(orig[i as int] == old_points[first + i]);
                    assert(p1 == orig[i as int]);
                    assert(point_ok(orig[i as int]));
                    assert(point_ok(orig[pi as int]));
                    if i == 0 {
                        assert(self.points@[first + pi] == old_points[first + pi]);
                        assert(orig[pi as int] == old_points[first + pi]);
                    } else {
                        let jsp = joins_spec(orig, w as int, join, miter_limit as int);
                        assert(p0 == jsp[pi as int]);
                    }
                    assert(p0.dx == orig[pi as int].dx && p0.dy == orig[pi as int].dy && p0.len == orig[pi as int].len);
                }
                let r = join_point(p0, p1, w, join, miter_limit);
                self.points.set(first + i, r);
                let ghost js = joins_spec(orig, w as int, join, miter_limit as int);
                proof {
                    assert(r == js[i as int]);
                    lemma_bits(r.flags);
                    assert(js.take(i + 1).drop_last() =~= js.take(i as int));
                    assert(js.take(i + 1).last() == r);
                    assert(4u32 | 8u32 == 12u32) by (bit_vector);
                }
                if (r.flags & (POINT_BEVEL | POINT_INNER_BEVEL)) != 0 {
                    nbevel = nbevel + 1;
                }
                if (r.flags & POINT_LEFT) != 0 {
                    nleft = nleft + 1;
                }
                i = i + 1;
            }
        }
        let ghost js = joins_spec(orig, w as int, join, miter_limit as int);
        path.nbevel = nbevel;
        path.convex = n >= 2 && nleft == n;
        self.paths.set(k, path);
        proof {
            let np = self.points@;
            if n >= 2 {
                assert(js.take(n as int) =~= js);
                assert(window(np, path) =~= js);
            } else {
                assert(window(np, path) =~= orig);
            }
            assert forall|q: int| 0 <= q < window(np, path).len() implies point_ok(#[trigger] window(np, path)[q]) by {
                assert(window(np, path)[q] == np[first + q]);
                if n < 2 {
                    assert(np[first + q] == old_points[first + q]);
                    assert(point_ok(orig[q]));
                }
            }
            assert forall|j: int| 0 <= j < self.paths@.len() && j != k implies window(np, #[trigger] self.paths@[j])
                == window(old_points, self.paths@[j]) by {
                let pj = self.paths@[j];
                assert forall|q: int| pj.first <= q < pj.first + pj.count implies np[q] == old_points[q] by {
                    if j < k {
                        assert(pj.first + pj.count <= first);
                    } else {
                        assert(first + n <= pj.first);
                    }
                }
                lemma_window_frame(np, old_points, pj);
            }
            assert(joined_ok(np, path, f[k as int], w as int, join, miter_limit as int));
            assert forall|j: int| 0 <= j < k + 1 implies joined_ok(
                np,
                #[trigger] self.paths@[j],
                f[j],
                w as int,
                join,
                miter_limit as int,
            ) by {
                if j < k {
                    assert(window(np, self.paths@[j]) == window(old_points, self.paths@[j]));
                }
            }
            assert forall|j: int| k + 1 <= j < self.paths@.len() implies finished_ok(np, #[trigger] self.paths@[j], f[j]) by {
                assert(window(np, self.paths@[j]) == window(old_points, self.paths@[j]));
            }
        }
    }

    /// Classifies the joins of every path.
    /// Classifies the joins of every path as the buffers hold them; only the
    /// points' offsets and flags and the paths' bevel counts and convexity
    /// change.
    pub(crate) fn calculate_joins(&mut self, w: i64, join: LineJoin, miter_limit: i64)
        requires
            windows_ok(old(self).points@, old(self).paths@),
            forall|k: int|
                0 <= k < old(self).paths@.len() ==> points_ok(window(old(self).points@, #[trigger] old(self).paths@[k])),
            0 <= w <= 2 * MAX_COORD,
            0 <= miter_limit <= MAX_COORD,
        ensures
            holds_joined(
                final(self).points@,
                final(self).paths@,
                current_paths(old(self).points@, old(self).paths@),
                w as int,
                join,
                miter_limit as int,
            ),
            final(self).points@.len() == old(self).points@.len(),
            final(self).paths@.len() == old(self).paths@.len(),
            forall|k: int|
                0 <= k < old(self).paths@.len() ==> same_but_joins(old(self).paths@[k], #[trigger] final(self).paths@[k]),
            final(self).verts@ == old(self).verts@,
            final(self).bounds == old(self).bounds,
    {
        let ghost f = current_paths(self.points@, self.paths@);
        proof {
            assert forall|k: int| 0 <= k < self.paths@.len() implies finished_ok(
                self.points@,
                #[trigger] self.paths@[k],
                f[k],
            ) by {}
        }
        let mut k: usize = 0;
        while k < self.paths.len()
            invariant
                k <= self.paths@.len(),
                0 <= w <= 2 * MAX_COORD,
                0 <= miter_limit <= MAX_COORD,
                joins_partly(self.points@, self.paths@, f, w as int, join, miter_limit as int, k as int),
                self.verts@ == old(self).verts@,
                self.bounds == old(self).bounds,
                self.points@.len() == old(self).points@.len(),
                self.paths@.len() == old(self).paths@.len(),
                forall|j: int| 0 <= j < self.paths@.len() ==> same_but_joins(old(self).paths@[j], #[trigger] self.paths@[j]),
            decreases self.paths@.len() - k,
        {
            let ghost before = self.paths@;
            self.join_path(k, w, join, miter_limit, Ghost(f));
            proof {
                assert forall|j: int| 0 <= j < self.paths@.len() implies same_but_joins(
                    old(self).paths@[j],
                    #[trigger] self.paths@[j],
                ) by {
                    if j != k {
                        assert(self.paths@[j] == before[j]);
                    }
                }
            }
            k = k + 1;
        }
    }
}

} // verus!
