//! Stroke expansion: the vertex strip of each path, with flat caps on open
//! paths and a repeated first pair closing a loop.
use vstd::prelude::*;

use crate::geom::{MAX_COORD, ONE, div_trunc, lemma_tdiv_bound, normalize, tdiv, unit, vec_len};
use crate::canvas::{LineCap, LineJoin, POINT_BEVEL, POINT_INNER_BEVEL, Path, PathCache, PathVertexRef, Point, StrokeError, Vertex};
use crate::flatten::{FlatPath, holds_flattened, point_ok, points_ok, window};
use crate::joins::{current_paths, holds_joined, is_beveled, joined_ok, joined_paths, lemma_bits};

verus! {

/// `p + s * w`, `s` a fixed-point factor.
pub open spec fn offset(p: int, s: int, w: int) -> int {
    p + tdiv(s * w, ONE as int)
}

/// The two vertices of a point: the outer one at `p + dm * w`, the inner one
/// at `p - dm * w`.
pub open spec fn offset_pair(p: Point, w: int, u0: int, u1: int) -> Seq<Vertex> {
    seq![
        Vertex { x: offset(p.x as int, p.dmx as int, w) as i64, y: offset(p.y as int, p.dmy as int, w) as i64, u: u0 as i64, v: ONE },
        Vertex { x: offset(p.x as int, -p.dmx, w) as i64, y: offset(p.y as int, -p.dmy, w) as i64, u: u1 as i64, v: ONE },
    ]
}

/// The vertex pairs of the points `lo..hi`.
pub open spec fn interior(pts: Seq<Point>, lo: int, hi: int, w: int, u0: int, u1: int) -> Seq<Vertex>
    decreases hi - lo,
{
    if hi <= lo {
        seq![]
    } else {
        interior(pts, lo, hi - 1, w, u0, u1) + offset_pair(pts[hi - 1], w, u0, u1)
    }
}

/// A flat start cap at `p` for the direction `(dx, dy)`: the point moved by
/// `-d` along the direction, an antialiasing pair `aa` behind it with `v = 0`,
/// then the pair on the cap's edge with `v = 1`.
pub open spec fn butt_start(p: Point, dx: int, dy: int, w: int, d: int, aa: int, u0: int, u1: int) -> Seq<Vertex> {
    let px = offset(p.x as int, -dx, d);
    let py = offset(p.y as int, -dy, d);
    seq![
        Vertex { x: (offset(px, dy, w) - tdiv(dx * aa, ONE as int)) as i64, y: (offset(py, -dx, w) - tdiv(dy * aa, ONE as int)) as i64, u: u0 as i64, v: 0 },
        Vertex { x: (offset(px, -dy, w) - tdiv(dx * aa, ONE as int)) as i64, y: (offset(py, dx, w) - tdiv(dy * aa, ONE as int)) as i64, u: u1 as i64, v: 0 },
        Vertex { x: offset(px, dy, w) as i64, y: offset(py, -dx, w) as i64, u: u0 as i64, v: ONE },
        Vertex { x: offset(px, -dy, w) as i64, y: offset(py, dx, w) as i64, u: u1 as i64, v: ONE },
    ]
}

/// A flat end cap, the mirror of `butt_start`: the point moved by `d`, the
/// pair on the cap's edge, then the antialiasing pair `aa` beyond it.
pub open spec fn butt_end(p: Point, dx: int, dy: int, w: int, d: int, aa: int, u0: int, u1: int) -> Seq<Vertex> {
    let px = offset(p.x as int, dx, d);
    let py = offset(p.y as int, dy, d);
    seq![
        Vertex { x: offset(px, dy, w) as i64, y: offset(py, -dx, w) as i64, u: u0 as i64, v: ONE },
        Vertex { x: offset(px, -dy, w) as i64, y: offset(py, dx, w) as i64, u: u1 as i64, v: ONE },
        Vertex { x: (offset(px, dy, w) + tdiv(dx * aa, ONE as int)) as i64, y: (offset(py, -dx, w) + tdiv(dy * aa, ONE as int)) as i64, u: u0 as i64, v: 0 },
        Vertex { x: (offset(px, -dy, w) + tdiv(dx * aa, ONE as int)) as i64, y: (offset(py, dx, w) + tdiv(dy * aa, ONE as int)) as i64, u: u1 as i64, v: 0 },
    ]
}

/// The unit direction from `a` to `b`.
pub open spec fn dir_x(a: Point, b: Point) -> int {
    unit(b.x - a.x, vec_len(b.x - a.x, b.y - a.y))
}

pub open spec fn dir_y(a: Point, b: Point) -> int {
    unit(b.y - a.y, vec_len(b.x - a.x, b.y - a.y))
}

/// The stroke of one path of at least two points. A closed path is a strip
/// over all its points with its first pair repeated at the end; an open one
/// is a start cap, the pairs of its inner points, and an end cap.
pub open spec fn path_verts(pts: Seq<Point>, closed: bool, w: int, aa: int, u0: int, u1: int) -> Seq<Vertex> {
    let n = pts.len() as int;
    if closed {
        let body = interior(pts, 0, n, w, u0, u1);
        body + body.take(2)
    } else {
        let d = tdiv(-aa, 2);
        butt_start(pts[0], dir_x(pts[0], pts[1]), dir_y(pts[0], pts[1]), w, d, aa, u0, u1) + interior(
            pts,
            1,
            n - 1,
            w,
            u0,
            u1,
        ) + butt_end(pts[n - 1], dir_x(pts[n - 2], pts[n - 1]), dir_y(pts[n - 2], pts[n - 1]), w, d, aa, u0, u1)
    }
}

/// Whether stroking the path asks for geometry that is not tessellated: a
/// cap other than a flat one on an open path, or a beveled join at a point
/// that the strip passes.
pub open spec fn path_fails(pts: Seq<Point>, closed: bool, cap: LineCap) -> bool {
    let n = pts.len() as int;
    if closed {
        exists|i: int| 0 <= i < n && is_beveled(#[trigger] pts[i].flags)
    } else {
        cap != LineCap::Butt || exists|i: int| 1 <= i < n - 1 && is_beveled(#[trigger] pts[i].flags)
    }
}

pub open spec fn stroke_fails(jp: Seq<FlatPath>, cap: LineCap) -> bool {
    exists|k: int| 0 <= k < jp.len() && (#[trigger] jp[k]).0.len() >= 2 && path_fails(jp[k].0, jp[k].1, cap)
}

/// The strokes of all paths, one after another; a path of fewer than two
/// points adds nothing.
pub open spec fn stroke_verts(jp: Seq<FlatPath>, w: int, aa: int, u0: int, u1: int) -> Seq<Vertex>
    decreases jp.len(),
{
    if jp.len() == 0 {
        seq![]
    } else {
        stroke_verts(jp.drop_last(), w, aa, u0, u1) + if jp.last().0.len() >= 2 {
            path_verts(jp.last().0, jp.last().1, w, aa, u0, u1)
        } else {
            seq![]
        }
    }
}

/// The texture coordinate of the outer and inner side: a gradient from 0 to
/// 1 when there is an antialiasing fringe, a constant 0.5 otherwise.
pub open spec fn u_outer(aa: int) -> int {
    if aa == 0 {
        ONE / 2
    } else {
        0
    }
}

pub open spec fn u_inner(aa: int) -> int {
    if aa == 0 {
        ONE / 2
    } else {
        ONE as int
    }
}

/// The half-width widened by half the fringe.
pub open spec fn stroke_width(w: int, aa: int) -> int {
    w + aa / 2
}

/// The stroke ranges: each path of at least two points has the range of the
/// vertex buffer that holds its stroke, the others have none; no path has a
/// fill range.
pub open spec fn ranges_ok(paths: Seq<Path>, jp: Seq<FlatPath>, w: int, aa: int, k: int) -> bool {
    forall|j: int|
        0 <= j < k ==> (#[trigger] paths[j]).fill is None && paths[j].stroke == if jp[j].0.len() >= 2 {
            Some(
                PathVertexRef {
                    first: stroke_verts(jp.take(j), w, aa, u_outer(aa), u_inner(aa)).len() as usize,
                    count: path_verts(jp[j].0, jp[j].1, w, aa, u_outer(aa), u_inner(aa)).len() as usize,
                },
            )
        } else {
            None::<PathVertexRef>
        }
}

/// `p + s * w` on fixed-point values.
fn offset_by(p: i64, s: i64, w: i64) -> (r: i64)
    requires
        -4 * MAX_COORD <= p <= 4 * MAX_COORD,
        -600 * ONE <= s <= 600 * ONE,
        -2 * MAX_COORD <= w <= 2 * MAX_COORD,
    ensures
        r == offset(p as int, s as int, w as int),
        -4 * MAX_COORD - 1200 * MAX_COORD <= r <= 4 * MAX_COORD + 1200 * MAX_COORD,
        -ONE <= s <= ONE ==> p - 2 * MAX_COORD <= r <= p + 2 * MAX_COORD,
{
    proof {
        if -ONE <= s <= ONE {
            assert(-ONE * (2 * MAX_COORD) <= s * w <= ONE * (2 * MAX_COORD)) by (nonlinear_arith)
                requires
                    -ONE <= s <= ONE,
                    -2 * MAX_COORD <= w <= 2 * MAX_COORD,
            ;
            lemma_tdiv_bound(s * w, ONE as int, 2 * MAX_COORD);
        }
    }
    assert(-600 * ONE * (2 * MAX_COORD) <= s * w <= 600 * ONE * (2 * MAX_COORD)) by (nonlinear_arith)
        requires
            -600 * ONE <= s <= 600 * ONE,
            -2 * MAX_COORD <= w <= 2 * MAX_COORD,
    ;
    proof {
        lemma_tdiv_bound(s * w, ONE as int, 1200 * MAX_COORD);
    }
    let t = div_trunc(s as i128 * w as i128, ONE as i128);
    (p as i128 + t) as i64
}

fn offset_vertices(verts: &mut Vec<Vertex>, p: Point, w: i64, u0: i64, u1: i64)
    requires
        point_ok(p),
        0 <= w <= 2 * MAX_COORD,
    ensures
        final(verts)@ == old(verts)@ + offset_pair(p, w as int, u0 as int, u1 as int),
{
    let ox = offset_by(p.x, p.dmx, w);
    let oy = offset_by(p.y, p.dmy, w);
    let ix = offset_by(p.x, -p.dmx, w);
    let iy = offset_by(p.y, -p.dmy, w);
    verts.push(Vertex { x: ox, y: oy, u: u0, v: ONE });
    verts.push(Vertex { x: ix, y: iy, u: u1, v: ONE });
    assert(final(verts)@ =~= old(verts)@ + offset_pair(p, w as int, u0 as int, u1 as int));
}

fn butt_cap_start(verts: &mut Vec<Vertex>, p: Point, dx: i64, dy: i64, w: i64, d: i64, aa: i64, u0: i64, u1: i64)
    requires
        point_ok(p),
        -ONE <= dx <= ONE,
        -ONE <= dy <= ONE,
        0 <= w <= 2 * MAX_COORD,
        -MAX_COORD <= d <= MAX_COORD,
        0 <= aa <= MAX_COORD,
    ensures
        final(verts)@ == old(verts)@ + butt_start(p, dx as int, dy as int, w as int, d as int, aa as int, u0 as int, u1 as int),
{
    let px = offset_by(p.x, -dx, d);
    let py = offset_by(p.y, -dy, d);
    proof {
        lemma_unit_product(dx as int, aa as int);
        lemma_unit_product(dy as int, aa as int);
    }
    let ax = div_trunc(dx as i128 * aa as i128, ONE as i128) as i64;
    let ay = div_trunc(dy as i128 * aa as i128, ONE as i128) as i64;
    let lx = offset_by(px, dy, w);
    let ly = offset_by(py, -dx, w);
    let rx = offset_by(px, -dy, w);
    let ry = offset_by(py, dx, w);
    verts.push(Vertex { x: lx - ax, y: ly - ay, u: u0, v: 0 });
    verts.push(Vertex { x: rx - ax, y: ry - ay, u: u1, v: 0 });
    verts.push(Vertex { x: lx, y: ly, u: u0, v: ONE });
    verts.push(Vertex { x: rx, y: ry, u: u1, v: ONE });
    assert(final(verts)@ =~= old(verts)@ + butt_start(p, dx as int, dy as int, w as int, d as int, aa as int, u0 as int, u1 as int));
}

fn butt_cap_end(verts: &mut Vec<Vertex>, p: Point, dx: i64, dy: i64, w: i64, d: i64, aa: i64, u0: i64, u1: i64)
    requires
        point_ok(p),
        -ONE <= dx <= ONE,
        -ONE <= dy <= ONE,
        0 <= w <= 2 * MAX_COORD,
        -MAX_COORD <= d <= MAX_COORD,
        0 <= aa <= MAX_COORD,
    ensures
        final(verts)@ == old(verts)@ + butt_end(p, dx as int, dy as int, w as int, d as int, aa as int, u0 as int, u1 as int),
{
    let px = offset_by(p.x, dx, d);
    let py = offset_by(p.y, dy, d);
    proof {
        lemma_unit_product(dx as int, aa as int);
        lemma_unit_product(dy as int, aa as int);
    }
    let ax = div_trunc(dx as i128 * aa as i128, ONE as i128) as i64;
    let ay = div_trunc(dy as i128 * aa as i128, ONE as i128) as i64;
    let lx = offset_by(px, dy, w);
    let ly = offset_by(py, -dx, w);
    let rx = offset_by(px, -dy, w);
    let ry = offset_by(py, dx, w);
    verts.push(Vertex { x: lx, y: ly, u: u0, v: ONE });
    verts.push(Vertex { x: rx, y: ry, u: u1, v: ONE });
    verts.push(Vertex { x: lx + ax, y: ly + ay, u: u0, v: 0 });
    verts.push(Vertex { x: rx + ax, y: ry + ay, u: u1, v: 0 });
    assert(final(verts)@ =~= old(verts)@ + butt_end(p, dx as int, dy as int, w as int, d as int, aa as int, u0 as int, u1 as int));
}

proof fn lemma_unit_product(c: int, a: int)
    requires
        -ONE <= c <= ONE,
        0 <= a <= MAX_COORD,
    ensures
        -MAX_COORD <= tdiv(c * a, ONE as int) <= MAX_COORD,
        -ONE * MAX_COORD <= c * a <= ONE * MAX_COORD,
{
    assert(-ONE * MAX_COORD <= c * a <= ONE * MAX_COORD) by (nonlinear_arith)
        requires
            -ONE <= c <= ONE,
            0 <= a <= MAX_COORD,
    ;
    lemma_tdiv_bound(c * a, ONE as int, MAX_COORD as int);
}

pub(crate) proof fn lemma_interior_len(pts: Seq<Point>, lo: int, hi: int, w: int, u0: int, u1: int)
    requires
        lo <= hi,
    ensures
        interior(pts, lo, hi, w, u0, u1).len() == 2 * (hi - lo),
    decreases hi - lo,
{
    if hi > lo {
        lemma_interior_len(pts, lo, hi - 1, w, u0, u1);
    }
}

/// The vertices that stroking a path with flat caps and miter or bevel joins
/// may take: a pair per point and per seam, five pairs per bevel, and six
/// pairs for the caps of an open path; `None` when that does not fit a `usize`.
fn path_capacity(path: &Path) -> (r: Option<usize>)
    ensures
        r matches Some(c) ==> c == (path.count + 5 * path.nbevel + 1) * 2 + if path.closed { 0int } else { 12 },
{
    let caps: usize = if path.closed { 0 } else { 12 };
    let bevels = path.nbevel.checked_mul(5)?;
    let t = path.count.checked_add(bevels)?;
    let t = t.checked_add(1)?;
    let t = t.checked_mul(2)?;
    t.checked_add(caps)
}

/// Emits the stroke of one path of at least two points.
#[verifier::rlimit(50)]
fn stroke_path(
    points: &Vec<Point>,
    path: Path,
    w: i64,
    aa: i64,
    cap: LineCap,
    u0: i64,
    u1: i64,
    verts: &mut Vec<Vertex>,
) -> (r: Result<(), StrokeError>)
    requires
        path.first + path.count <= points@.len(),
        path.count >= 2,
        points_ok(window(points@, path)),
        0 <= w <= 2 * MAX_COORD,
        0 <= aa <= MAX_COORD,
    ensures
        r is Err <==> path_fails(window(points@, path), path.closed, cap),
        r is Ok ==> final(verts)@ == old(verts)@ + path_verts(
            window(points@, path),
            path.closed,
            w as int,
            aa as int,
            u0 as int,
            u1 as int,
        ),
{
    let ghost pts = window(points@, path);
    let first = path.first;
    let n = path.count;
    let plen = points.len();
    assert(4u32 | 8u32 == 12u32) by (bit_vector);
    if path.closed {
        let base = verts.len();
        let mut i: usize = 0;
        while i < n
            invariant
                pts == window(points@, path),
                pts.len() == n,
                first == path.first,
                n == path.count,
                first + n <= points@.len(),
                plen == points@.len(),
                points_ok(pts),
                0 <= w <= 2 * MAX_COORD,
                base == old(verts)@.len(),
                path.closed,
                i <= n,
                verts@ == old(verts)@ + interior(pts, 0, i as int, w as int, u0 as int, u1 as int),
                forall|q: int| 0 <= q < i ==> !is_beveled(#[trigger] pts[q].flags),
            decreases n - i,
        {
            let p = points[first + i];
            assert(p == pts[i as int]);
            assert(point_ok(pts[i as int]));
            proof {
                lemma_bits(p.flags);
            }
            if (p.flags & (POINT_BEVEL | POINT_INNER_BEVEL)) != 0 {
                assert(is_beveled(pts[i as int].flags));
                return Err(StrokeError::UnimplementedOperation);
            }
            offset_vertices(verts, p, w, u0, u1);
            assert(verts@ =~= old(verts)@ + interior(pts, 0, i + 1, w as int, u0 as int, u1 as int));
            i = i + 1;
        }
        proof {
            lemma_interior_len(pts, 0, n as int, w as int, u0 as int, u1 as int);
        }
        let vlen = verts.len();
        assert(base + 1 < vlen);
        let v0 = verts[base];
        let v1 = verts[base + 1];
        verts.push(v0);
        verts.push(v1);
        proof {
            let body = interior(pts, 0, n as int, w as int, u0 as int, u1 as int);
            assert(body.take(2) =~= seq![v0, v1]);
            assert(verts@ =~= old(verts)@ + path_verts(pts, true, w as int, aa as int, u0 as int, u1 as int));
        }
        Ok(())
    } else {
        match cap {
            LineCap::Butt => {},
            _ => {
                return Err(StrokeError::UnimplementedOperation);
            },
        }
        let d: i64 = -(aa / 2);
        assert(first + 1 < plen);
        let p0 = points[first];
        let p1 = points[first + 1];
        assert(p0 == pts[0] && p1 == pts[1]);
        assert(point_ok(pts[0]) && point_ok(pts[1]));
        let (dx, dy, _) = normalize(p1.x - p0.x, p1.y - p0.y);
        butt_cap_start(verts, p0, dx, dy, w, d, aa, u0, u1);
        let ghost start = verts@;
        let mut i: usize = 1;
        while i < n - 1
            invariant
                pts == window(points@, path),
                pts.len() == n,
                first == path.first,
                n == path.count,
                n >= 2,
                first + n <= points@.len(),
                plen == points@.len(),
                points_ok(pts),
                0 <= w <= 2 * MAX_COORD,
                1 <= i <= n - 1,
                !path.closed,
                cap == LineCap::Butt,
                verts@ == start + interior(pts, 1, i as int, w as int, u0 as int, u1 as int),
                forall|q: int| 1 <= q < i ==> !is_beveled(#[trigger] pts[q].flags),
            decreases n - i,
        {
            let p = points[first + i];
            assert(p == pts[i as int]);
            assert(point_ok(pts[i as int]));
            proof {
                lemma_bits(p.flags);
            }
            if (p.flags & (POINT_BEVEL | POINT_INNER_BEVEL)) != 0 {
                assert(is_beveled(pts[i as int].flags));
                return Err(StrokeError::UnimplementedOperation);
            }
            offset_vertices(verts, p, w, u0, u1);
            assert(verts@ =~= start + interior(pts, 1, i + 1, w as int, u0 as int, u1 as int));
            i = i + 1;
        }
        assert(first + n <= plen);
        let pa = points[first + n - 2];
        let pb = points[first + n - 1];
        assert(pa == pts[n - 2] && pb == pts[n - 1]);
        assert(point_ok(pts[n - 2]) && point_ok(pts[n - 1]));
        let (ex, ey, _) = normalize(pb.x - pa.x, pb.y - pa.y);
        butt_cap_end(verts, pb, ex, ey, w, d, aa, u0, u1);
        proof {
            assert(d == tdiv(-aa, 2));
            assert(verts@ =~= old(verts)@ + path_verts(pts, false, w as int, aa as int, u0 as int, u1 as int));
        }
        Ok(())
    }
}

impl PathCache {
    /// Expands the flattened paths into strips of half-width `w` with a fringe
    /// `aa`: classifies the joins, then emits each path's stroke.
    #[verifier::rlimit(50)]
    pub(crate) fn expand_stroke(
        &mut self,
        w: i64,
        aa: i64,
        line_cap: LineCap,
        line_join: LineJoin,
        miter_limit: i64,
        Ghost(f): Ghost<Seq<FlatPath>>,
    ) -> (r: Result<(), StrokeError>)
        requires
            holds_flattened(old(self).points@, old(self).paths@, f),
            0 <= w <= MAX_COORD,
            0 <= aa <= MAX_COORD,
            0 <= miter_limit <= MAX_COORD,
        ensures
            ({
                let sw = stroke_width(w as int, aa as int);
                let jp = joined_paths(f, sw, line_join, miter_limit as int);
                &&& r is Err <==> stroke_fails(jp, line_cap)
                &&& r is Ok ==> final(self).verts@ == stroke_verts(jp, sw, aa as int, u_outer(aa as int), u_inner(aa as int))
                &&& r is Ok ==> ranges_ok(final(self).paths@, jp, sw, aa as int, jp.len() as int)
                &&& r is Ok ==> holds_joined(final(self).points@, final(self).paths@, f, sw, line_join, miter_limit as int)
            }),
    {
        let (u0, u1): (i64, i64) = if aa == 0 {
            (ONE / 2, ONE / 2)
        } else {
            (0, ONE)
        };
        let sw: i64 = w + aa / 2;
        proof {
            assert(current_paths(self.points@, self.paths@) =~= f);
        }
        self.calculate_joins(sw, line_join, miter_limit);
        let ghost jp = joined_paths(f, sw as int, line_join, miter_limit as int);

        // Room for every point's pair, five pairs per bevel, the seam, and the caps.
        if line_join != LineJoin::Round {
            let mut cverts: Option<usize> = Some(0);
            let mut k: usize = 0;
            while k < self.paths.len()
                invariant
                    k <= self.paths@.len(),
                decreases self.paths@.len() - k,
            {
                let path = self.paths[k];
                cverts = match cverts {
                    Some(c) => match path_capacity(&path) {
                        Some(t) => c.checked_add(t),
                        None => None,
                    },
                    None => None,
                };
                k = k + 1;
            }
            if let Some(c) = cverts {
                self.verts.reserve(c);
            }
        }
        self.verts.clear();
        let mut k: usize = 0;
        while k < self.paths.len()
            invariant
                k <= self.paths@.len(),
                jp == joined_paths(f, sw as int, line_join, miter_limit as int),
                holds_joined(self.points@, self.paths@, f, sw as int, line_join, miter_limit as int),
                0 <= sw <= 2 * MAX_COORD,
                0 <= aa <= MAX_COORD,
                u0 == u_outer(aa as int),
                u1 == u_inner(aa as int),
                sw == stroke_width(w as int, aa as int),
                self.verts@ == stroke_verts(jp.take(k as int), sw as int, aa as int, u0 as int, u1 as int),
                forall|j: int| 0 <= j < k ==> !((#[trigger] jp[j]).0.len() >= 2 && path_fails(jp[j].0, jp[j].1, line_cap)),
                ranges_ok(self.paths@, jp, sw as int, aa as int, k as int),
            decreases self.paths@.len() - k,
        {
            let mut path = self.paths[k];
            proof {
                assert(joined_ok(self.points@, path, f[k as int], sw as int, line_join, miter_limit as int));
                assert(jp[k as int].0 == window(self.points@, path));
                assert(jp.take(k + 1).drop_last() =~= jp.take(k as int));
            }
            if path.count >= 2 {
                let first = self.verts.len();
                let r = stroke_path(&self.points, path, sw, aa, line_cap, u0, u1, &mut self.verts);
                if r.is_err() {
                    return r;
                }
                path.stroke = Some(PathVertexRef { first, count: self.verts.len() - first });
            } else {
                path.stroke = None;
            }
            path.fill = None;
            let ghost old_paths = self.paths@;
            self.paths.set(k, path);
            proof {
                assert forall|j: int| 0 <= j < self.paths@.len() implies joined_ok(
                    self.points@,
                    #[trigger] self.paths@[j],
                    f[j],
                    sw as int,
                    line_join,
                    miter_limit as int,
                ) by {
                    assert(joined_ok(self.points@, old_paths[j], f[j], sw as int, line_join, miter_limit as int));
                    assert(window(self.points@, self.paths@[j]) == window(self.points@, old_paths[j]));
                }
            }
            k = k + 1;
        }
        proof {
            assert(jp.take(k as int) =~= jp);
        }
        Ok(())
    }
}

} // verus!
