//! The path stroker: flattens drawing commands into polylines, classifies
//! their joins and expands them into a triangle strip of the stroke outline.
use vstd::prelude::*;

use crate::geom::{MAX_COORD, ONE, in_range, lemma_area_reversed, near, polygon_area_spec};
use crate::flatten::{FlatPath, RawPath, close_raw, cmd_in_range, cmds_in_range, flatten_spec, gather, gather_step, has_bezier, is_bezier, needs_reverse, oriented, positions, with_edges};
use crate::joins::{holds_joined, joined_paths, prev_index};
use crate::stroke::{lemma_interior_len, path_verts, ranges_ok, stroke_fails, stroke_verts, stroke_width, u_inner, u_outer};

verus! {

#[derive(Clone, Copy, PartialEq, Eq, Structural, Debug)]
pub enum Winding {
    CCW,
    CW,
}

#[derive(Clone, Copy, PartialEq, Eq, Structural, Debug)]
pub enum LineCap {
    Butt,
    Round,
    Square,
}

#[derive(Clone, Copy, PartialEq, Eq, Structural, Debug)]
pub enum LineJoin {
    Round,
    Bevel,
    Miter,
}

/// One drawing command; coordinates are fixed-point values (see `geom::ONE`).
#[derive(Clone, Copy, PartialEq, Eq, Structural, Debug)]
pub enum Command {
    MoveTo(i64, i64),
    LineTo(i64, i64),
    BezierTo(i64, i64, i64, i64, i64, i64),
    Close,
    Winding(Winding),
}

/// Why a stroke could not be produced.
#[derive(Clone, Copy, PartialEq, Eq, Structural, Debug)]
pub enum StrokeError {
    /// A bezier segment, a round or square cap, or a beveled join was asked
    /// for; none of them is tessellated.
    UnimplementedOperation,
}

pub const POINT_CORNER: u32 = 1;
pub const POINT_LEFT: u32 = 2;
pub const POINT_BEVEL: u32 = 4;
pub const POINT_INNER_BEVEL: u32 = 8;

/// A point of a flattened path with the direction and length of the edge
/// that starts at it, and the offset direction of its join.
#[derive(Clone, Copy, PartialEq, Eq, Structural, Debug)]
pub struct Point {
    pub x: i64,
    pub y: i64,
    pub dx: i64,
    pub dy: i64,
    pub len: i64,
    pub dmx: i64,
    pub dmy: i64,
    pub flags: u32,
}

/// A range of the vertex buffer.
#[derive(Clone, Copy, PartialEq, Eq, Structural, Debug)]
pub struct PathVertexRef {
    pub first: usize,
    pub count: usize,
}

/// A flattened path: the window `first..first + count` of the point buffer.
#[derive(Clone, Copy, PartialEq, Eq, Structural, Debug)]
pub struct Path {
    pub first: usize,
    pub count: usize,
    pub closed: bool,
    pub winding: Winding,
    pub nbevel: usize,
    pub convex: bool,
    pub stroke: Option<PathVertexRef>,
    pub fill: Option<PathVertexRef>,
}

/// A vertex of the stroke outline with its antialiasing coordinates.
#[derive(Clone, Copy, PartialEq, Eq, Structural, Debug)]
pub struct Vertex {
    pub x: i64,
    pub y: i64,
    pub u: i64,
    pub v: i64,
}

/// The buffers that one flatten and stroke pass fills; reused between passes.
pub struct PathCache {
    pub points: Vec<Point>,
    pub paths: Vec<Path>,
    pub verts: Vec<Vertex>,
    pub bounds: [i64; 4],
}

/// How a path is stroked: half the line width, the antialiasing fringe, the
/// cap and join styles, the miter limit and the tessellation tolerance, all
/// fixed-point values.
#[derive(Clone, Copy, PartialEq, Eq, Structural, Debug)]
pub struct StrokeStyle {
    pub half_width: i64,
    pub fringe_width: i64,
    pub line_cap: LineCap,
    pub line_join: LineJoin,
    pub miter_limit: i64,
    pub tess_tol: i64,
}

pub open spec fn style_ok(s: StrokeStyle) -> bool {
    &&& 0 <= s.half_width <= MAX_COORD
    &&& 0 <= s.fringe_width <= MAX_COORD
    &&& 0 <= s.miter_limit <= MAX_COORD
    &&& 0 <= s.tess_tol <= MAX_COORD
}

/// The paths of the commands, flattened and with their joins classified for
/// the style.
pub open spec fn classified_paths(cmds: Seq<Command>, s: StrokeStyle) -> Seq<FlatPath> {
    joined_paths(
        flatten_spec(cmds, s.tess_tol as int),
        stroke_width(s.half_width as int, s.fringe_width as int),
        s.line_join,
        s.miter_limit as int,
    )
}

/// What stroking the commands gives: the vertex strips of all paths, or
/// `UnimplementedOperation` when a bezier segment, a cap other than a flat
/// one, or a beveled join is met.
pub open spec fn stroke_spec(cmds: Seq<Command>, s: StrokeStyle) -> Result<Seq<Vertex>, StrokeError> {
    let aa = s.fringe_width as int;
    let sw = stroke_width(s.half_width as int, aa);
    let jp = classified_paths(cmds, s);
    if has_bezier(cmds) || stroke_fails(jp, s.line_cap) {
        Err(StrokeError::UnimplementedOperation)
    } else {
        Ok(stroke_verts(jp, sw, aa, u_outer(aa), u_inner(aa)))
    }
}

/// The edges of a closed polygon as pairs of its points, each point paired
/// with the one before it: the last point and the first, then the first and
/// the second, and so on.
pub fn edges_iter_mut<T: Copy>(points: &Vec<T>) -> (r: Vec<(T, T)>)
    ensures
        r@.len() == points@.len(),
        forall|i: int|
            0 <= i < points@.len() ==> #[trigger] r@[i] == (points@[prev_index(points@.len() as int, i)], points@[i]),
{
    let mut r: Vec<(T, T)> = Vec::new();
    let n = points.len();
    let mut i: usize = 0;
    while i < n
        invariant
            n == points@.len(),
            i <= n,
            r@.len() == i,
            forall|j: int| 0 <= j < i ==> #[trigger] r@[j] == (points@[prev_index(n as int, j)], points@[j]),
        decreases n - i,
    {
        let from = if i == 0 { n - 1 } else { i - 1 };
        r.push((points[from], points[i]));
        i = i + 1;
    }
    r
}

/// A path whose last gathered point lies within `tol` of its first is
/// flattened closed, without that last point.
pub proof fn lemma_closure(cmds: Seq<Command>, tol: int, k: int)
    requires
        0 <= k < gather(cmds, tol).len(),
        gather(cmds, tol)[k].0.len() > 0,
        ({
            let pts = gather(cmds, tol)[k].0;
            near(pts.last().0 as int, pts.last().1 as int, pts[0].0 as int, pts[0].1 as int, tol)
        }),
    ensures
        flatten_spec(cmds, tol)[k].1,
        flatten_spec(cmds, tol)[k].0.len() == gather(cmds, tol)[k].0.len() - 1,
{
}

/// After flattening, a path of more than two points whose signed area is
/// not zero winds the way it asked for: its area is positive when it asked
/// for `CCW` and negative when it asked for `CW`.
pub proof fn lemma_winding(cmds: Seq<Command>, tol: int, k: int)
    requires
        0 <= k < flatten_spec(cmds, tol).len(),
        flatten_spec(cmds, tol)[k].0.len() > 2,
        polygon_area_spec(positions(flatten_spec(cmds, tol)[k].0)) != 0,
    ensures
        ({
            let f = flatten_spec(cmds, tol)[k];
            let area = polygon_area_spec(positions(f.0));
            &&& f.2 == Winding::CCW ==> area > 0
            &&& f.2 == Winding::CW ==> area < 0
        }),
{
    let r = gather(cmds, tol)[k];
    let c = close_raw(r.0, r.1, tol).0;
    let o = oriented(c, r.2);
    assert(positions(with_edges(o)) =~= o);
    if needs_reverse(c, r.2) {
        lemma_area_reversed(c, o);
    }
}

/// The strip of a closed path of `n` points holds `2 * n + 2` vertices: a
/// pair per point and the first pair again to close the seam.
pub proof fn lemma_closed_vertex_count(pts: Seq<Point>, w: int, aa: int, u0: int, u1: int)
    requires
        pts.len() >= 2,
    ensures
        path_verts(pts, true, w, aa, u0, u1).len() == 2 * pts.len() + 2,
{
    lemma_interior_len(pts, 0, pts.len() as int, w, u0, u1);
}

/// Stroking is repeatable: two strokes of the same commands with the same
/// style, each on a cache in any state, end alike, with the same vertices.
pub proof fn lemma_stroke_repeatable(
    cmds: Seq<Command>,
    style: StrokeStyle,
    r1: Result<(), StrokeError>,
    v1: Seq<Vertex>,
    r2: Result<(), StrokeError>,
    v2: Seq<Vertex>,
)
    requires
        r1 is Err <==> stroke_spec(cmds, style) is Err,
        r1 is Ok ==> stroke_spec(cmds, style) == Ok::<Seq<Vertex>, StrokeError>(v1),
        r2 is Err <==> stroke_spec(cmds, style) is Err,
        r2 is Ok ==> stroke_spec(cmds, style) == Ok::<Seq<Vertex>, StrokeError>(v2),
    ensures
        r1 is Ok <==> r2 is Ok,
        r1 is Ok ==> v1 == v2,
{
}

/// A single move produces no vertices and no error.
pub proof fn lemma_single_move(x: i64, y: i64, style: StrokeStyle)
    ensures
        stroke_spec(seq![Command::MoveTo(x, y)], style) == Ok::<Seq<Vertex>, StrokeError>(seq![]),
{
    let cmds = seq![Command::MoveTo(x, y)];
    let tol = style.tess_tol as int;
    assert(cmds.drop_last() =~= Seq::<Command>::empty());
    assert(gather(Seq::<Command>::empty(), tol) == Seq::<RawPath>::empty());
    assert(cmds.last() == Command::MoveTo(x, y));
    assert(gather(cmds, tol) == gather_step(Seq::<RawPath>::empty(), Command::MoveTo(x, y), tol));
    assert(gather(cmds, tol) =~= seq![(seq![(x, y)], false, Winding::CCW)]);
    let jp = classified_paths(cmds, style);
    assert(jp.len() == 1);
    assert(jp[0].0.len() < 2);
    assert(!has_bezier(cmds));
    assert(!stroke_fails(jp, style.line_cap));
    assert(jp.drop_last() =~= Seq::<FlatPath>::empty());
    let aa = style.fringe_width as int;
    let sw = stroke_width(style.half_width as int, aa);
    assert(stroke_verts(Seq::<FlatPath>::empty(), sw, aa, u_outer(aa), u_inner(aa)) == Seq::<Vertex>::empty());
    assert(stroke_verts(jp, sw, aa, u_outer(aa), u_inner(aa)) =~= seq![]);
}

/// A bezier segment anywhere in the commands makes the stroke fail.
pub proof fn lemma_bezier_fails(cmds: Seq<Command>, style: StrokeStyle, i: int)
    requires
        0 <= i < cmds.len(),
        cmds[i] is BezierTo,
    ensures
        stroke_spec(cmds, style) == Err::<Seq<Vertex>, StrokeError>(StrokeError::UnimplementedOperation),
{
    assert(is_bezier(cmds[i]));
}

/// The pen state that strokes use.
struct State {
    line_width: i64,
    line_cap: LineCap,
    line_join: LineJoin,
    miter_limit: i64,
}

/// A drawing surface that records path commands and strokes them.
pub struct Canvas {
    commands: Vec<Command>,
    state: State,
    cache: PathCache,
    tess_tol: i64,
}

impl Canvas {
    /// The recorded commands.
    pub closed spec fn commands_view(&self) -> Seq<Command> {
        self.commands@
    }

    /// The style that `stroke` uses: half the line width and no fringe.
    pub closed spec fn style_view(&self) -> StrokeStyle {
        StrokeStyle {
            half_width: (self.state.line_width / 2) as i64,
            fringe_width: 0,
            line_cap: self.state.line_cap,
            line_join: self.state.line_join,
            miter_limit: self.state.miter_limit,
            tess_tol: self.tess_tol,
        }
    }

    /// The vertices of the last stroke.
    pub closed spec fn vertices_view(&self) -> Seq<Vertex> {
        self.cache.verts@
    }

    /// The paths of the last stroke.
    pub closed spec fn paths_view(&self) -> Seq<Path> {
        self.cache.paths@
    }

    /// The points of the last stroke's paths.
    pub closed spec fn points_view(&self) -> Seq<Point> {
        self.cache.points@
    }

    pub closed spec fn wf(&self) -> bool {
        &&& cmds_in_range(self.commands@)
        &&& 0 <= self.state.line_width <= 2 * MAX_COORD
        &&& 0 <= self.state.miter_limit <= MAX_COORD
        &&& 0 <= self.tess_tol <= MAX_COORD
    }

    /// A canvas with no commands, a line one unit wide, flat caps, miter
    /// joins with a limit of ten, and no tolerance.
    pub fn new() -> (r: Canvas)
        ensures
            r.wf(),
            r.commands_view().len() == 0,
            r.vertices_view().len() == 0,
            r.style_view() == (StrokeStyle {
                half_width: 32768,
                fringe_width: 0,
                line_cap: LineCap::Butt,
                line_join: LineJoin::Miter,
                miter_limit: 655360,
                tess_tol: 0,
            }),
    {
        Canvas {
            commands: Vec::new(),
            state: State { line_width: ONE, line_cap: LineCap::Butt, line_join: LineJoin::Miter, miter_limit: 10 * ONE },
            cache: PathCache::new(),
            tess_tol: 0,
        }
    }

    pub fn set_line_width(&mut self, line_width: i64)
        requires
            old(self).wf(),
            0 <= line_width <= 2 * MAX_COORD,
        ensures
            final(self).wf(),
            final(self).commands_view() == old(self).commands_view(),
            final(self).style_view() == (StrokeStyle { half_width: (line_width / 2) as i64, ..old(self).style_view() }),
    {
        self.state.line_width = line_width;
    }

    pub fn set_line_cap(&mut self, line_cap: LineCap)
        requires
            old(self).wf(),
        ensures
            final(self).wf(),
            final(self).commands_view() == old(self).commands_view(),
            final(self).style_view() == (StrokeStyle { line_cap, ..old(self).style_view() }),
    {
        self.state.line_cap = line_cap;
    }

    pub fn set_line_join(&mut self, line_join: LineJoin)
        requires
            old(self).wf(),
        ensures
            final(self).wf(),
            final(self).commands_view() == old(self).commands_view(),
            final(self).style_view() == (StrokeStyle { line_join, ..old(self).style_view() }),
    {
        self.state.line_join = line_join;
    }

    pub fn set_miter_limit(&mut self, miter_limit: i64)
        requires
            old(self).wf(),
            0 <= miter_limit <= MAX_COORD,
        ensures
            final(self).wf(),
            final(self).commands_view() == old(self).commands_view(),
            final(self).style_view() == (StrokeStyle { miter_limit, ..old(self).style_view() }),
    {
        self.state.miter_limit = miter_limit;
    }

    /// Sets the distance within which two points count as one.
    pub fn set_tess_tol(&mut self, tess_tol: i64)
        requires
            old(self).wf(),
            0 <= tess_tol <= MAX_COORD,
        ensures
            final(self).wf(),
            final(self).commands_view() == old(self).commands_view(),
            final(self).style_view() == (StrokeStyle { tess_tol, ..old(self).style_view() }),
    {
        self.tess_tol = tess_tol;
    }

    /// Forgets the recorded commands and the flattened paths.
    pub fn begin_path(&mut self)
        requires
            old(self).wf(),
        ensures
            final(self).wf(),
            final(self).commands_view().len() == 0,
            final(self).paths_view().len() == 0,
            final(self).points_view().len() == 0,
            final(self).style_view() == old(self).style_view(),
    {
        self.commands.clear();
        self.cache.clear();
    }

    fn push_command(&mut self, c: Command)
        requires
            old(self).wf(),
            cmd_in_range(c),
        ensures
            final(self).wf(),
            final(self).commands_view() == old(self).commands_view().push(c),
            final(self).style_view() == old(self).style_view(),
    {
        self.commands.push(c);
        proof {
            assert forall|i: int| 0 <= i < self.commands@.len() implies cmd_in_range(#[trigger] self.commands@[i]) by {
                if i < old(self).commands@.len() {
                    assert(self.commands@[i] == old(self).commands@[i]);
                }
            }
        }
    }

    pub fn move_to(&mut self, x: i64, y: i64)
        requires
            old(self).wf(),
            in_range(x as int),
            in_range(y as int),
        ensures
            final(self).wf(),
            final(self).commands_view() == old(self).commands_view().push(Command::MoveTo(x, y)),
            final(self).style_view() == old(self).style_view(),
    {
        self.push_command(Command::MoveTo(x, y));
    }

    pub fn line_to(&mut self, x: i64, y: i64)
        requires
            old(self).wf(),
            in_range(x as int),
            in_range(y as int),
        ensures
            final(self).wf(),
            final(self).commands_view() == old(self).commands_view().push(Command::LineTo(x, y)),
            final(self).style_view() == old(self).style_view(),
    {
        self.push_command(Command::LineTo(x, y));
    }

    pub fn bezier_to(&mut self, cp1x: i64, cp1y: i64, cp2x: i64, cp2y: i64, x: i64, y: i64)
        requires
            old(self).wf(),
        ensures
            final(self).wf(),
            final(self).commands_view() == old(self).commands_view().push(
                Command::BezierTo(cp1x, cp1y, cp2x, cp2y, x, y),
            ),
            final(self).style_view() == old(self).style_view(),
    {
        self.push_command(Command::BezierTo(cp1x, cp1y, cp2x, cp2y, x, y));
    }

    pub fn close_path(&mut self)
        requires
            old(self).wf(),
        ensures
            final(self).wf(),
            final(self).commands_view() == old(self).commands_view().push(Command::Close),
            final(self).style_view() == old(self).style_view(),
    {
        self.push_command(Command::Close);
    }

    /// Asks for the current path to wind the given way.
    pub fn path_winding(&mut self, winding: Winding)
        requires
            old(self).wf(),
        ensures
            final(self).wf(),
            final(self).commands_view() == old(self).commands_view().push(Command::Winding(winding)),
            final(self).style_view() == old(self).style_view(),
    {
        self.push_command(Command::Winding(winding));
    }

    /// Strokes the recorded commands with the current style.
    pub fn stroke(&mut self) -> (r: Result<(), StrokeError>)
        requires
            old(self).wf(),
        ensures
            final(self).wf(),
            final(self).commands_view() == old(self).commands_view(),
            final(self).style_view() == old(self).style_view(),
            r is Err <==> stroke_spec(old(self).commands_view(), old(self).style_view()) is Err,
            r is Ok ==> stroke_spec(old(self).commands_view(), old(self).style_view()) == Ok::<
                Seq<Vertex>,
                StrokeError,
            >(final(self).vertices_view()),
            r is Ok ==> ({
                let s = old(self).style_view();
                let sw = stroke_width(s.half_width as int, s.fringe_width as int);
                let cmds = old(self).commands_view();
                &&& holds_joined(
                    final(self).points_view(),
                    final(self).paths_view(),
                    flatten_spec(cmds, s.tess_tol as int),
                    sw,
                    s.line_join,
                    s.miter_limit as int,
                )
                &&& ranges_ok(
                    final(self).paths_view(),
                    classified_paths(cmds, s),
                    sw,
                    s.fringe_width as int,
                    classified_paths(cmds, s).len() as int,
                )
            }),
    {
        let style = StrokeStyle {
            half_width: self.state.line_width / 2,
            fringe_width: 0,
            line_cap: self.state.line_cap,
            line_join: self.state.line_join,
            miter_limit: self.state.miter_limit,
            tess_tol: self.tess_tol,
        };
        self.cache.stroke(&self.commands, &style)
    }

    /// The vertices of the last stroke.
    pub fn vertices(&self) -> (r: &Vec<Vertex>)
        ensures
            r@ == self.vertices_view(),
    {
        &self.cache.verts
    }

    /// The paths of the last stroke.
    pub fn paths(&self) -> (r: &Vec<Path>)
        ensures
            r@ == self.paths_view(),
    {
        &self.cache.paths
    }

    /// The points of the last stroke's paths.
    pub fn points(&self) -> (r: &Vec<Point>)
        ensures
            r@ == self.points_view(),
    {
        &self.cache.points
    }
}

impl PathCache {
    pub fn new() -> (r: PathCache)
        ensures
            r.points@.len() == 0,
            r.paths@.len() == 0,
            r.verts@.len() == 0,
    {
        PathCache { points: Vec::new(), paths: Vec::new(), verts: Vec::new(), bounds: [0, 0, 0, 0] }
    }

    /// Empties the point and path buffers, keeping their storage.
    pub fn clear(&mut self)
        ensures
            final(self).points@.len() == 0,
            final(self).paths@.len() == 0,
            final(self).verts@ == old(self).verts@,
            final(self).bounds == old(self).bounds,
    {
        self.points.clear();
        self.paths.clear();
    }

    /// Flattens the commands and strokes the paths with the style. On success
    /// the vertex buffer holds the strips, and each path its classified
    /// points and the range of its strip.
    pub fn stroke(&mut self, commands: &Vec<Command>, style: &StrokeStyle) -> (r: Result<(), StrokeError>)
        requires
            cmds_in_range(commands@),
            style_ok(*style),
        ensures
            r is Err <==> stroke_spec(commands@, *style) is Err,
            r is Ok ==> stroke_spec(commands@, *style) == Ok::<Seq<Vertex>, StrokeError>(final(self).verts@),
            r is Ok ==> holds_joined(
                final(self).points@,
                final(self).paths@,
                flatten_spec(commands@, style.tess_tol as int),
                stroke_width(style.half_width as int, style.fringe_width as int),
                style.line_join,
                style.miter_limit as int,
            ),
            r is Ok ==> ranges_ok(
                final(self).paths@,
                classified_paths(commands@, *style),
                stroke_width(style.half_width as int, style.fringe_width as int),
                style.fringe_width as int,
                classified_paths(commands@, *style).len() as int,
            ),
    {
        let res = self.flatten_paths(commands, style.tess_tol);
        if res.is_err() {
            return res;
        }
        let ghost f = flatten_spec(commands@, style.tess_tol as int);
        self.expand_stroke(
            style.half_width,
            style.fringe_width,
            style.line_cap,
            style.line_join,
            style.miter_limit,
            Ghost(f),
        )
    }
}

} // verus!
