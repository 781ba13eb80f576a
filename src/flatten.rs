//! Flattening: commands become paths of points, closed where they meet
//! themselves, wound the way they ask, each point carrying its edge.
use vstd::prelude::*;

use crate::geom::{MAX_COORD, ONE, in_range, near, normalize, pair_in_range, point_equals, polygon_area, polygon_area_spec, pts_in_range, unit, vec_len};
use crate::canvas::{Command, POINT_CORNER, Path, PathCache, Point, StrokeError, Winding};

verus! {

/// A path as the commands describe it: its points, whether it was closed,
/// and the winding asked for.
pub type RawPath = (Seq<(i64, i64)>, bool, Winding);

pub open spec fn cmd_in_range(c: Command) -> bool {
    match c {
        Command::MoveTo(x, y) => in_range(x as int) && in_range(y as int),
        Command::LineTo(x, y) => in_range(x as int) && in_range(y as int),
        _ => true,
    }
}

pub open spec fn cmds_in_range(cmds: Seq<Command>) -> bool {
    forall|i: int| 0 <= i < cmds.len() ==> cmd_in_range(#[trigger] cmds[i])
}

pub open spec fn is_bezier(c: Command) -> bool {
    c is BezierTo
}

pub open spec fn has_bezier(cmds: Seq<Command>) -> bool {
    exists|i: int| 0 <= i < cmds.len() && is_bezier(#[trigger] cmds[i])
}

/// The effect of one command on the paths gathered so far.
pub open spec fn gather_step(g: Seq<RawPath>, c: Command, tol: int) -> Seq<RawPath> {
    match c {
        Command::MoveTo(x, y) => g.push((seq![(x, y)], false, Winding::CCW)),
        Command::LineTo(x, y) => {
            if g.len() == 0 {
                g
            } else {
                let p = g.last();
                if p.0.len() > 0 && near(p.0.last().0 as int, p.0.last().1 as int, x as int, y as int, tol) {
                    g
                } else {
                    g.update(g.len() - 1, (p.0.push((x, y)), p.1, p.2))
                }
            }
        },
        Command::Close => {
            if g.len() == 0 {
                g
            } else {
                g.update(g.len() - 1, (g.last().0, true, g.last().2))
            }
        },
        Command::Winding(w) => {
            if g.len() == 0 {
                g
            } else {
                g.update(g.len() - 1, (g.last().0, g.last().1, w))
            }
        },
        Command::BezierTo(..) => g,
    }
}

/// The paths that a command sequence describes, before they are finished:
/// a move starts a path, a line adds a point unless it lies within `tol` of
/// the path's last point, close and winding set the current path's flags.
pub open spec fn gather(cmds: Seq<Command>, tol: int) -> Seq<RawPath>
    decreases cmds.len(),
{
    if cmds.len() == 0 {
        seq![]
    } else {
        gather_step(gather(cmds.drop_last(), tol), cmds.last(), tol)
    }
}

pub open spec fn xy_in_range(p: Point) -> bool {
    in_range(p.x as int) && in_range(p.y as int)
}

pub open spec fn position(p: Point) -> (i64, i64) {
    (p.x, p.y)
}

pub open spec fn window(points: Seq<Point>, path: Path) -> Seq<Point> {
    points.subrange(path.first as int, path.first + path.count)
}

pub open spec fn positions(pts: Seq<Point>) -> Seq<(i64, i64)> {
    pts.map_values(|p: Point| position(p))
}

/// The paths' windows lie in the point buffer in order and do not overlap.
pub open spec fn windows_ok(points: Seq<Point>, paths: Seq<Path>) -> bool {
    &&& forall|k: int| 0 <= k < paths.len() ==> #[trigger] paths[k].first + paths[k].count <= points.len()
    &&& forall|j: int, k: int|
        0 <= j < k < paths.len() ==> #[trigger] paths[j].first + paths[j].count <= #[trigger] paths[k].first
}

/// The buffers hold the gathered paths `g`, the last one at the buffer's end.
pub open spec fn holds_gathered(points: Seq<Point>, paths: Seq<Path>, g: Seq<RawPath>) -> bool {
    &&& windows_ok(points, paths)
    &&& paths.len() == g.len()
    &&& paths.len() > 0 ==> paths.last().first + paths.last().count == points.len()
    &&& forall|k: int|
        0 <= k < paths.len() ==> {
            &&& positions(window(points, #[trigger] paths[k])) == g[k].0
            &&& paths[k].closed == g[k].1
            &&& paths[k].winding == g[k].2
        }
    &&& forall|i: int| 0 <= i < points.len() ==> xy_in_range(#[trigger] points[i])
}

/// Drops the last point when it lies within `tol` of the first, and then
/// counts the path as closed.
pub open spec fn close_raw(pts: Seq<(i64, i64)>, closed: bool, tol: int) -> (Seq<(i64, i64)>, bool) {
    if pts.len() > 0 && near(pts.last().0 as int, pts.last().1 as int, pts[0].0 as int, pts[0].1 as int, tol) {
        (pts.drop_last(), true)
    } else {
        (pts, closed)
    }
}

/// Whether the signed area of the polygon disagrees with the winding asked for.
pub open spec fn needs_reverse(pts: Seq<(i64, i64)>, winding: Winding) -> bool {
    &&& pts.len() > 2
    &&& match winding {
        Winding::CCW => polygon_area_spec(pts) < 0,
        Winding::CW => polygon_area_spec(pts) > 0,
    }
}

pub open spec fn reversed<A>(s: Seq<A>) -> Seq<A> {
    Seq::new(s.len(), |i: int| s[s.len() - 1 - i])
}

pub open spec fn oriented(pts: Seq<(i64, i64)>, winding: Winding) -> Seq<(i64, i64)> {
    if needs_reverse(pts, winding) {
        reversed(pts)
    } else {
        pts
    }
}

/// Point `i` of a polygon with the direction and length of the edge from it
/// to the next point, the last point's edge going back to the first.
pub open spec fn edge_point(pts: Seq<(i64, i64)>, i: int) -> Point {
    let a = pts[i];
    let b = pts[(i + 1) % (pts.len() as int)];
    let ex = b.0 - a.0;
    let ey = b.1 - a.1;
    let len = vec_len(ex, ey);
    Point {
        x: a.0,
        y: a.1,
        dx: unit(ex, len) as i64,
        dy: unit(ey, len) as i64,
        len: len as i64,
        dmx: 0,
        dmy: 0,
        flags: POINT_CORNER,
    }
}

pub open spec fn with_edges(pts: Seq<(i64, i64)>) -> Seq<Point> {
    Seq::new(pts.len(), |i: int| edge_point(pts, i))
}

/// A flattened path: its points, whether it is closed, and its winding.
pub type FlatPath = (Seq<Point>, bool, Winding);

pub open spec fn finish(raw: RawPath, tol: int) -> FlatPath {
    let c = close_raw(raw.0, raw.1, tol);
    (with_edges(oriented(c.0, raw.2)), c.1, raw.2)
}

/// The paths that flattening the commands gives.
pub open spec fn flatten_spec(cmds: Seq<Command>, tol: int) -> Seq<FlatPath> {
    gather(cmds, tol).map_values(|r: RawPath| finish(r, tol))
}

/// The bounds that the later passes rely on to stay free of overflow.
pub open spec fn point_ok(p: Point) -> bool {
    &&& in_range(p.x as int)
    &&& in_range(p.y as int)
    &&& -ONE <= p.dx <= ONE
    &&& -ONE <= p.dy <= ONE
    &&& 0 <= p.len <= 4 * MAX_COORD
    &&& -600 * ONE <= p.dmx <= 600 * ONE
    &&& -600 * ONE <= p.dmy <= 600 * ONE
    &&& p.flags < 16
}

pub open spec fn points_ok(pts: Seq<Point>) -> bool {
    forall|i: int| 0 <= i < pts.len() ==> point_ok(#[trigger] pts[i])
}

pub open spec fn finished_ok(points: Seq<Point>, path: Path, f: FlatPath) -> bool {
    &&& window(points, path) == f.0
    &&& path.closed == f.1
    &&& path.winding == f.2
    &&& points_ok(window(points, path))
}

pub open spec fn raw_ok(points: Seq<Point>, path: Path, r: RawPath) -> bool {
    &&& positions(window(points, path)) == r.0
    &&& path.closed == r.1
    &&& path.winding == r.2
}

/// The paths before `k` are finished, the others still raw.
pub open spec fn holds_partly(points: Seq<Point>, paths: Seq<Path>, g: Seq<RawPath>, tol: int, k: int) -> bool {
    &&& windows_ok(points, paths)
    &&& paths.len() == g.len()
    &&& forall|i: int| 0 <= i < points.len() ==> xy_in_range(#[trigger] points[i])
    &&& forall|j: int| 0 <= j < k ==> finished_ok(points, #[trigger] paths[j], finish(g[j], tol))
    &&& forall|j: int| k <= j < paths.len() ==> raw_ok(points, #[trigger] paths[j], g[j])
}

/// The buffers hold the flattened paths `f`.
pub open spec fn holds_flattened(points: Seq<Point>, paths: Seq<Path>, f: Seq<FlatPath>) -> bool {
    &&& windows_ok(points, paths)
    &&& paths.len() == f.len()
    &&& forall|k: int| 0 <= k < paths.len() ==> finished_ok(points, #[trigger] paths[k], f[k])
}

/// Point `i` of path `k`.
pub open spec fn path_point(points: Seq<Point>, paths: Seq<Path>, k: int, i: int) -> Point {
    window(points, paths[k])[i]
}

/// Whether `(k, i)` names a point of a path: path `k` exists and has more
/// than `i` points.
pub open spec fn is_point(paths: Seq<Path>, k: int, i: int) -> bool {
    0 <= k < paths.len() && 0 <= i < paths[k].count
}

/// The bounding box `[min x, min y, max x, max y]` of all paths' points:
/// every point lies inside it and each side touches a point. With no points
/// it is empty, its minimum above its maximum.
pub open spec fn bounds_ok(points: Seq<Point>, paths: Seq<Path>, b: Seq<i64>) -> bool {
    &&& b.len() == 4
    &&& forall|k: int, i: int|
        is_point(paths, k, i) ==> {
            let p = #[trigger] path_point(points, paths, k, i);
            b[0] <= p.x <= b[2] && b[1] <= p.y <= b[3]
        }
    &&& (exists|k: int, i: int| is_point(paths, k, i)) ==> {
        &&& exists|k: int, i: int| is_point(paths, k, i) && #[trigger] path_point(points, paths, k, i).x == b[0]
        &&& exists|k: int, i: int| is_point(paths, k, i) && #[trigger] path_point(points, paths, k, i).y == b[1]
        &&& exists|k: int, i: int| is_point(paths, k, i) && #[trigger] path_point(points, paths, k, i).x == b[2]
        &&& exists|k: int, i: int| is_point(paths, k, i) && #[trigger] path_point(points, paths, k, i).y == b[3]
    }
    &&& !(exists|k: int, i: int| is_point(paths, k, i)) ==> b == seq![i64::MAX, i64::MAX, i64::MIN, i64::MIN]
}

pub proof fn lemma_window_frame(p1: Seq<Point>, p2: Seq<Point>, path: Path)
    requires
        path.first + path.count <= p1.len(),
        path.first + path.count <= p2.len(),
        forall|i: int| path.first <= i < path.first + path.count ==> p1[i] == p2[i],
    ensures
        window(p1, path) == window(p2, path),
{
    assert(window(p1, path) =~= window(p2, path));
}

/// The points in reverse order.
fn reverse_points(pts: &Vec<(i64, i64)>) -> (r: Vec<(i64, i64)>)
    ensures
        r@ == reversed(pts@),
{
    let mut r: Vec<(i64, i64)> = Vec::new();
    let mut j: usize = pts.len();
    while j > 0
        invariant
            j <= pts.len(),
            r@ =~= reversed(pts@).take(pts.len() - j),
        decreases j,
    {
        j = j - 1;
        r.push(pts[j]);
        assert(r@ =~= reversed(pts@).take(pts.len() - j));
    }
    assert(r@ =~= reversed(pts@));
    r
}

impl PathCache {
    fn add_path(&mut self, Ghost(g): Ghost<Seq<RawPath>>)
        requires
            holds_gathered(old(self).points@, old(self).paths@, g),
        ensures
            holds_gathered(final(self).points@, final(self).paths@, g.push((seq![], false, Winding::CCW))),
            final(self).points@ == old(self).points@,
            final(self).paths@ == old(self).paths@.push(
                (Path {
                    first: old(self).points@.len() as usize,
                    count: 0,
                    closed: false,
                    winding: Winding::CCW,
                    nbevel: 0,
                    convex: false,
                    stroke: None,
                    fill: None,
                }),
            ),
            final(self).verts@ == old(self).verts@,
            final(self).bounds == old(self).bounds,
    {
        let path = Path {
            first: self.points.len(),
            count: 0,
            closed: false,
            winding: Winding::CCW,
            nbevel: 0,
            convex: false,
            stroke: None,
            fill: None,
        };
        self.paths.push(path);
        proof {
            let ng = g.push((seq![], false, Winding::CCW));
            assert forall|k: int| 0 <= k < self.paths@.len() implies positions(
                window(self.points@, #[trigger] self.paths@[k]),
            ) == ng[k].0 by {
                if k == self.paths@.len() - 1 {
                    assert(positions(window(self.points@, self.paths@[k])) =~= ng[k].0);
                }
            }
        }
    }

    /// Adds a point to the current path, or merges it into the path's last
    /// point when the two lie within `tol`.
    fn add_point(&mut self, x: i64, y: i64, flags: u32, tol: i64, Ghost(g): Ghost<Seq<RawPath>>)
        requires
            holds_gathered(old(self).points@, old(self).paths@, g),
            in_range(x as int),
            in_range(y as int),
            0 <= tol <= MAX_COORD,
        ensures
            holds_gathered(final(self).points@, final(self).paths@, gather_step(g, Command::LineTo(x, y), tol as int)),
            final(self).verts@ == old(self).verts@,
            final(self).bounds == old(self).bounds,
            ({
                let ops = old(self).points@;
                let opa = old(self).paths@;
                let m = ops.len() - 1;
                let n = opa.len() - 1;
                if opa.len() == 0 {
                    &&& final(self).points@ == ops
                    &&& final(self).paths@ == opa
                } else if opa[n].count > 0 && ops.len() > 0 && near(
                    ops[m].x as int,
                    ops[m].y as int,
                    x as int,
                    y as int,
                    tol as int,
                ) {
                    &&& final(self).points@ == ops.update(m, Point { flags: ops[m].flags | flags, ..ops[m] })
                    &&& final(self).paths@ == opa
                } else {
                    &&& final(self).points@ == ops.push(Point { x, y, dx: 0, dy: 0, len: 0, dmx: 0, dmy: 0, flags })
                    &&& final(self).paths@ == opa.update(n, Path { count: (opa[n].count + 1) as usize, ..opa[n] })
                }
            }),
    {
        let n = self.paths.len();
        if n == 0 {
            return;
        }
        let mut path = self.paths[n - 1];
        let ghost old_points = self.points@;
        let ghost old_path = path;
        proof {
            assert(window(old_points, path).len() == path.count);
        }
        if path.count > 0 && self.points.len() > 0 {
            let m = self.points.len();
            let mut last = self.points[m - 1];
            proof {
                assert(positions(window(old_points, path))[path.count - 1] == position(last));
            }
            if point_equals(last.x, last.y, x, y, tol) {
                last.flags = last.flags | flags;
                self.points.set(m - 1, last);
                proof {
                    assert forall|k: int| 0 <= k < n implies positions(window(self.points@, #[trigger] self.paths@[k]))
                        == positions(window(old_points, self.paths@[k])) by {
                        assert(positions(window(self.points@, self.paths@[k])) =~= positions(
                            window(old_points, self.paths@[k]),
                        ));
                    }
                    assert forall|i: int| 0 <= i < self.points@.len() implies xy_in_range(#[trigger] self.points@[i]) by {
                        assert(xy_in_range(old_points[i]));
                    }
                }
                return;
            }
        }
        let point = Point { x, y, dx: 0, dy: 0, len: 0, dmx: 0, dmy: 0, flags };
        self.points.push(point);
        let new_len = self.points.len();
        assert(path.first + path.count < new_len);
        path.count = path.count + 1;
        self.paths.set(n - 1, path);
        proof {
            let ng = gather_step(g, Command::LineTo(x, y), tol as int);
            assert forall|k: int| 0 <= k < n - 1 implies positions(window(self.points@, #[trigger] self.paths@[k]))
                == ng[k].0 by {
                assert(window(self.points@, self.paths@[k]) =~= window(old_points, self.paths@[k]));
            }
            assert(window(self.points@, path) =~= window(old_points, old_path).push(point));
            assert(positions(window(self.points@, path)) =~= positions(window(old_points, old_path)).push((x, y)));
        }
    }

    fn close_path(&mut self, Ghost(g): Ghost<Seq<RawPath>>)
        requires
            holds_gathered(old(self).points@, old(self).paths@, g),
        ensures
            holds_gathered(final(self).points@, final(self).paths@, gather_step(g, Command::Close, 0)),
            final(self).verts@ == old(self).verts@,
            final(self).bounds == old(self).bounds,
    {
        let n = self.paths.len();
        if n > 0 {
            let mut path = self.paths[n - 1];
            path.closed = true;
            self.paths.set(n - 1, path);
            proof {
                let ng = gather_step(g, Command::Close, 0);
                assert forall|k: int| 0 <= k < n implies positions(window(self.points@, #[trigger] self.paths@[k]))
                    == ng[k].0 by {}
            }
        }
    }

    fn path_winding(&mut self, winding: Winding, Ghost(g): Ghost<Seq<RawPath>>)
        requires
            holds_gathered(old(self).points@, old(self).paths@, g),
        ensures
            holds_gathered(final(self).points@, final(self).paths@, gather_step(g, Command::Winding(winding), 0)),
            final(self).verts@ == old(self).verts@,
            final(self).bounds == old(self).bounds,
    {
        let n = self.paths.len();
        if n > 0 {
            let mut path = self.paths[n - 1];
            path.winding = winding;
            self.paths.set(n - 1, path);
            proof {
                let ng = gather_step(g, Command::Winding(winding), 0);
                assert forall|k: int| 0 <= k < n implies positions(window(self.points@, #[trigger] self.paths@[k]))
                    == ng[k].0 by {}
            }
        }
    }

    /// Turns the commands into raw paths: the first of the two passes of
    /// flattening. Fails on a bezier segment.
    fn gather_commands(&mut self, commands: &Vec<Command>, tol: i64) -> (r: Result<(), StrokeError>)
        requires
            old(self).points@.len() == 0,
            old(self).paths@.len() == 0,
            cmds_in_range(commands@),
            0 <= tol <= MAX_COORD,
        ensures
            r is Err <==> has_bezier(commands@),
            r is Ok ==> holds_gathered(final(self).points@, final(self).paths@, gather(commands@, tol as int)),
            final(self).verts@ == old(self).verts@,
    {
        let mut i: usize = 0;
        proof {
            assert(holds_gathered(self.points@, self.paths@, gather(commands@.take(0), tol as int)));
        }
        while i < commands.len()
            invariant
                0 <= i <= commands.len(),
                cmds_in_range(commands@),
                0 <= tol <= MAX_COORD,
                holds_gathered(self.points@, self.paths@, gather(commands@.take(i as int), tol as int)),
                forall|j: int| 0 <= j < i ==> !is_bezier(#[trigger] commands@[j]),
                self.verts@ == old(self).verts@,
            decreases commands.len() - i,
        {
            let ghost g = gather(commands@.take(i as int), tol as int);
            proof {
                assert(commands@.take(i + 1).drop_last() =~= commands@.take(i as int));
                assert(commands@.take(i + 1).last() == commands@[i as int]);
                assert(cmd_in_range(commands@[i as int]));
            }
            match commands[i] {
                Command::MoveTo(x, y) => {
                    self.add_path(Ghost(g));
                    self.add_point(x, y, POINT_CORNER, tol, Ghost(g.push((seq![], false, Winding::CCW))));
                    proof {
                        let g1 = g.push((seq![], false, Winding::CCW));
                        assert(gather_step(g1, Command::LineTo(x, y), tol as int) =~= gather_step(
                            g,
                            Command::MoveTo(x, y),
                            tol as int,
                        )) by {
                            assert(seq![].push((x, y)) =~= seq![(x, y)]);
                        }
                    }
                },
                Command::LineTo(x, y) => {
                    self.add_point(x, y, POINT_CORNER, tol, Ghost(g));
                },
                Command::BezierTo(..) => {
                    return Err(StrokeError::UnimplementedOperation);
                },
                Command::Close => {
                    self.close_path(Ghost(g));
                    assert(gather_step(g, Command::Close, 0) == gather_step(g, Command::Close, tol as int));
                },
                Command::Winding(w) => {
                    self.path_winding(w, Ghost(g));
                    assert(gather_step(g, Command::Winding(w), 0) == gather_step(
                        g,
                        Command::Winding(w),
                        tol as int,
                    ));
                },
            }
            i = i + 1;
        }
        proof {
            assert(commands@.take(i as int) =~= commands@);
        }
        Ok(())
    }

    /// Finishes path `k`: drops a last point that repeats the first, enforces
    /// the winding, and stores on each point the edge that starts at it.
    #[verifier::rlimit(50)]
    fn finish_path(&mut self, k: usize, tol: i64, Ghost(g): Ghost<Seq<RawPath>>)
        requires
            holds_partly(old(self).points@, old(self).paths@, g, tol as int, k as int),
            k < old(self).paths@.len(),
            0 <= tol <= MAX_COORD,
        ensures
            holds_partly(final(self).points@, final(self).paths@, g, tol as int, k + 1),
            final(self).verts@ == old(self).verts@,
    {
        let mut path = self.paths[k];
        let first = path.first;
        let count = path.count;
        let ghost old_points = self.points@;
        let plen = self.points.len();
        let mut pts: Vec<(i64, i64)> = Vec::new();
        let mut j: usize = 0;
        while j < count
            invariant
                self.points@ == old_points,
                self.verts@ == old(self).verts@,
                k < old(self).paths@.len(),
                plen == old_points.len(),
                path == old(self).paths@[k as int],
                first == path.first,
                count == path.count,
                first + count <= old_points.len(),
                j <= count,
                pts@ =~= positions(window(old_points, path)).take(j as int),
            decreases count - j,
        {
            let p = self.points[first + j];
            pts.push((p.x, p.y));
            j = j + 1;
        }
        proof {
            assert(pts@ =~= g[k as int].0);
        }
        let mut closed = path.closed;
        if pts.len() > 0 {
            let a = pts[pts.len() - 1];
            let b = pts[0];
            if point_equals(a.0, a.1, b.0, b.1, tol) {
                pts.pop();
                closed = true;
            }
        }
        let ghost closed_pts = pts@;
        proof {
            assert((closed_pts, closed) == close_raw(g[k as int].0, g[k as int].1, tol as int)) by {
                if g[k as int].0.len() > 0 {
                    assert(g[k as int].0.drop_last() =~= closed_pts || !near(
                        g[k as int].0.last().0 as int,
                        g[k as int].0.last().1 as int,
                        g[k as int].0[0].0 as int,
                        g[k as int].0[0].1 as int,
                        tol as int,
                    ));
                }
            }
            assert(pts_in_range(pts@));
        }
        if pts.len() > 2 {
            let area = polygon_area(&pts);
            let reverse = match path.winding {
                Winding::CCW => area < 0,
                Winding::CW => area > 0,
            };
            if reverse {
                pts = reverse_points(&pts);
            }
        }
        proof {
            assert(pts@ == oriented(closed_pts, path.winding));
            assert(pts_in_range(pts@));
        }
        let n = pts.len();
        let mut i: usize = 0;
        while i < n
            invariant
                n == pts@.len(),
                n <= count,
                first + count <= old_points.len(),
                plen == old_points.len(),
                self.paths@ == old(self).paths@,
                self.verts@ == old(self).verts@,
                k < self.paths@.len(),
                self.points@.len() == old_points.len(),
                pts_in_range(pts@),
                i <= n,
                forall|q: int| 0 <= q < old_points.len() && !(first <= q < first + i) ==> self.points@[q] == old_points[q],
                forall|q: int| 0 <= q < i ==> self.points@[first + q] == edge_point(pts@, q),
                forall|q: int| 0 <= q < i ==> point_ok(#[trigger] self.points@[first + q]),
            decreases n - i,
        {
            let a = pts[i];
            let b = if i + 1 < n { pts[i + 1] } else { pts[0] };
            proof {
                assert(pair_in_range(pts@[i as int]));
                if i + 1 < n {
                    vstd::arithmetic::div_mod::lemma_small_mod((i + 1) as nat, n as nat);
                    assert(pair_in_range(pts@[i + 1]));
                } else {
                    vstd::arithmetic::div_mod::lemma_mod_self_0(n as int);
                    assert(pair_in_range(pts@[0]));
                }
                assert(b == pts@[(i + 1) % (n as int)]);
            }
            let (dx, dy, len) = normalize(b.0 - a.0, b.1 - a.1);
            let point = Point { x: a.0, y: a.1, dx, dy, len, dmx: 0, dmy: 0, flags: POINT_CORNER };
            self.points.set(first + i, point);
            i = i + 1;
        }
        path.count = n;
        path.closed = closed;
        self.paths.set(k, path);
        proof {
            let np = self.points@;
            assert(window(np, path) =~= with_edges(pts@));
            assert forall|q: int| 0 <= q < window(np, path).len() implies point_ok(#[trigger] window(np, path)[q]) by {
                assert(window(np, path)[q] == np[first + q]);
            }
            assert(finished_ok(np, path, finish(g[k as int], tol as int)));
            assert forall|j: int| 0 <= j < self.paths@.len() && j != k implies window(np, #[trigger] self.paths@[j])
                == window(old_points, self.paths@[j]) by {
                let pj = self.paths@[j];
                assert forall|q: int| pj.first <= q < pj.first + pj.count implies np[q] == old_points[q] by {
                    if j < k {
                        assert(pj.first + pj.count <= first);
                    } else {
                        assert(first + count <= pj.first);
                    }
                }
                lemma_window_frame(np, old_points, pj);
            }
            assert forall|q: int| 0 <= q < np.len() implies xy_in_range(#[trigger] np[q]) by {
                if first <= q < first + n {
                    assert(np[q] == edge_point(pts@, q - first));
                    assert(pair_in_range(pts@[q - first]));
                } else {
                    assert(np[q] == old_points[q]);
                    assert(xy_in_range(old_points[q]));
                }
            }
            assert forall|j: int| 0 <= j < k + 1 implies finished_ok(np, #[trigger] self.paths@[j], finish(g[j], tol as int)) by {
                if j < k {
                    assert(window(np, self.paths@[j]) == window(old_points, self.paths@[j]));
                }
            }
            assert forall|j: int| k + 1 <= j < self.paths@.len() implies raw_ok(np, #[trigger] self.paths@[j], g[j]) by {
                assert(window(np, self.paths@[j]) == window(old_points, self.paths@[j]));
            }
        }
    }

    /// The bounding box of all paths' points.
    fn compute_bounds(&self) -> (b: [i64; 4])
        requires
            windows_ok(self.points@, self.paths@),
        ensures
            bounds_ok(self.points@, self.paths@, b@),
    {
        let ghost points = self.points@;
        let ghost paths = self.paths@;
        let mut minx: i64 = i64::MAX;
        let mut miny: i64 = i64::MAX;
        let mut maxx: i64 = i64::MIN;
        let mut maxy: i64 = i64::MIN;
        let mut seen: bool = false;
        let ghost mut w: Seq<(int, int)> = seq![(0, 0), (0, 0), (0, 0), (0, 0)];
        let plen = self.points.len();
        let mut k: usize = 0;
        while k < self.paths.len()
            invariant
                points == self.points@,
                paths == self.paths@,
                plen == points.len(),
                k <= paths.len(),
                windows_ok(points, paths),
                w.len() == 4,
                forall|kk: int, j: int|
                    is_point(paths, kk, j) && kk < k ==> {
                        let p = #[trigger] path_point(points, paths, kk, j);
                        minx <= p.x <= maxx && miny <= p.y <= maxy
                    },
                seen ==> forall|q: int| 0 <= q < 4 ==> is_point(paths, #[trigger] w[q].0, w[q].1),
                seen ==> path_point(points, paths, w[0].0, w[0].1).x == minx,
                seen ==> path_point(points, paths, w[1].0, w[1].1).y == miny,
                seen ==> path_point(points, paths, w[2].0, w[2].1).x == maxx,
                seen ==> path_point(points, paths, w[3].0, w[3].1).y == maxy,
                !seen ==> minx == i64::MAX && miny == i64::MAX && maxx == i64::MIN && maxy == i64::MIN,
                !seen ==> forall|kk: int, j: int| is_point(paths, kk, j) ==> kk >= k,
            decreases paths.len() - k,
        {
            let path = self.paths[k];
            assert(path.first + path.count <= plen);
            let mut i: usize = 0;
            while i < path.count
                invariant
                    points == self.points@,
                    paths == self.paths@,
                    plen == points.len(),
                    path.first + path.count <= plen,
                    k < paths.len(),
                    path == paths[k as int],
                    i <= path.count,
                    windows_ok(points, paths),
                    w.len() == 4,
                    forall|kk: int, j: int|
                        is_point(paths, kk, j) && (kk < k || (kk == k && j < i)) ==> {
                            let p = #[trigger] path_point(points, paths, kk, j);
                            minx <= p.x <= maxx && miny <= p.y <= maxy
                        },
                    seen ==> forall|q: int| 0 <= q < 4 ==> is_point(paths, #[trigger] w[q].0, w[q].1),
                    seen ==> path_point(points, paths, w[0].0, w[0].1).x == minx,
                    seen ==> path_point(points, paths, w[1].0, w[1].1).y == miny,
                    seen ==> path_point(points, paths, w[2].0, w[2].1).x == maxx,
                    seen ==> path_point(points, paths, w[3].0, w[3].1).y == maxy,
                    !seen ==> minx == i64::MAX && miny == i64::MAX && maxx == i64::MIN && maxy == i64::MIN,
                    !seen ==> forall|kk: int, j: int| is_point(paths, kk, j) ==> (kk > k || (kk == k && j >= i)),
                decreases path.count - i,
            {
                let p = self.points[path.first + i];
                let ghost here = (k as int, i as int);
                assert(p == path_point(points, paths, k as int, i as int));
                assert(is_point(paths, k as int, i as int));
                if !seen {
                    seen = true;
                    proof {
                        w = seq![here, here, here, here];
                    }
                    minx = p.x;
                    miny = p.y;
                    maxx = p.x;
                    maxy = p.y;
                } else {
                    if p.x < minx {
                        minx = p.x;
                        proof {
                            w = w.update(0, here);
                        }
                    }
                    if p.y < miny {
                        miny = p.y;
                        proof {
                            w = w.update(1, here);
                        }
                    }
                    if p.x > maxx {
                        maxx = p.x;
                        proof {
                            w = w.update(2, here);
                        }
                    }
                    if p.y > maxy {
                        maxy = p.y;
                        proof {
                            w = w.update(3, here);
                        }
                    }
                }
                proof {
                    assert forall|q: int| 0 <= q < 4 implies is_point(paths, #[trigger] w[q].0, w[q].1) by {}
                }
                i = i + 1;
            }
            k = k + 1;
        }
        let b = [minx, miny, maxx, maxy];
        proof {
            assert(b@ =~= seq![minx, miny, maxx, maxy]);
            if seen {
                assert(is_point(paths, w[0].0, w[0].1));
                assert(is_point(paths, w[1].0, w[1].1));
                assert(is_point(paths, w[2].0, w[2].1));
                assert(is_point(paths, w[3].0, w[3].1));
            } else {
                assert(!(exists|kk: int, j: int| is_point(paths, kk, j)));
            }
        }
        b
    }

    /// Flattens the commands into paths: clears the buffers, gathers the
    /// paths, finishes each one and computes their bounding box. Fails,
    /// with nothing else promised, when a command is a bezier segment.
    pub fn flatten_paths(&mut self, commands: &Vec<Command>, tol: i64) -> (r: Result<(), StrokeError>)
        requires
            cmds_in_range(commands@),
            0 <= tol <= MAX_COORD,
        ensures
            r is Err <==> has_bezier(commands@),
            r is Ok ==> holds_flattened(final(self).points@, final(self).paths@, flatten_spec(commands@, tol as int)),
            r is Ok ==> bounds_ok(final(self).points@, final(self).paths@, final(self).bounds@),
            final(self).verts@ == old(self).verts@,
    {
        self.clear();
        let res = self.gather_commands(commands, tol);
        if res.is_err() {
            return res;
        }
        let ghost g = gather(commands@, tol as int);
        let mut k: usize = 0;
        while k < self.paths.len()
            invariant
                k <= self.paths@.len(),
                0 <= tol <= MAX_COORD,
                holds_partly(self.points@, self.paths@, g, tol as int, k as int),
                self.verts@ == old(self).verts@,
            decreases self.paths@.len() - k,
        {
            self.finish_path(k, tol, Ghost(g));
            k = k + 1;
        }
        self.bounds = self.compute_bounds();
        proof {
            let f = flatten_spec(commands@, tol as int);
            assert forall|j: int| 0 <= j < self.paths@.len() implies finished_ok(self.points@, #[trigger] self.paths@[j], f[j]) by {
                assert(finished_ok(self.points@, self.paths@[j], finish(g[j], tol as int)));
            }
        }
        Ok(())
    }
}

} // verus!
