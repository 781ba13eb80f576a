use rdraw::canvas::{Canvas, LineCap, LineJoin, PathCache, StrokeError, StrokeStyle, Vertex, Winding, Command};
use rdraw::geom::{polygon_area, ONE};

fn fx(v: f64) -> i64 {
    (v * ONE as f64).round() as i64
}

fn style(half_width: f64, cap: LineCap, join: LineJoin) -> StrokeStyle {
    StrokeStyle {
        half_width: fx(half_width),
        fringe_width: 0,
        line_cap: cap,
        line_join: join,
        miter_limit: fx(10.0),
        tess_tol: fx(0.01),
    }
}

fn triangle_canvas() -> Canvas {
    let mut c = Canvas::new();
    c.set_line_width(fx(2.0));
    c.set_tess_tol(fx(0.01));
    c.begin_path();
    c.move_to(0, 0);
    c.line_to(fx(10.0), 0);
    c.line_to(fx(10.0), fx(10.0));
    c.close_path();
    c
}

fn path_positions(c: &Canvas, k: usize) -> Vec<(i64, i64)> {
    let p = c.paths()[k];
    c.points()[p.first..p.first + p.count].iter().map(|q| (q.x, q.y)).collect()
}

#[test]
fn closed_triangle_scenario() {
    let mut c = triangle_canvas();
    assert_eq!(c.stroke(), Ok(()));
    let paths = c.paths();
    assert_eq!(paths.len(), 1);
    assert_eq!(paths[0].count, 3);
    assert!(paths[0].closed);
    assert_eq!(paths[0].nbevel, 0);
    let verts = c.vertices();
    assert_eq!(verts.len(), 8);
    for v in verts.iter() {
        assert_eq!(v.u, ONE / 2);
        assert_eq!(v.v, ONE);
    }
    assert_eq!(verts[6], verts[0]);
    assert_eq!(verts[7], verts[1]);
    let stroke = paths[0].stroke.unwrap();
    assert_eq!((stroke.first, stroke.count), (0, 8));
}

#[test]
fn stroke_is_repeatable() {
    let mut a = triangle_canvas();
    let mut b = triangle_canvas();
    assert_eq!(a.stroke(), Ok(()));
    assert_eq!(b.stroke(), Ok(()));
    let first: Vec<Vertex> = a.vertices().clone();
    assert_eq!(&first, b.vertices());
    assert_eq!(a.stroke(), Ok(()));
    assert_eq!(&first, a.vertices());
}

#[test]
fn single_move_gives_nothing() {
    let mut c = Canvas::new();
    c.move_to(fx(3.0), fx(4.0));
    assert_eq!(c.stroke(), Ok(()));
    assert_eq!(c.vertices().len(), 0);
    assert!(c.paths()[0].stroke.is_none());
}

#[test]
fn bezier_fails() {
    let mut c = Canvas::new();
    c.move_to(0, 0);
    c.bezier_to(1, 1, 2, 2, 3, 3);
    assert_eq!(c.stroke(), Err(StrokeError::UnimplementedOperation));
}

#[test]
fn round_cap_on_open_path_fails() {
    let mut c = Canvas::new();
    c.set_line_cap(LineCap::Round);
    c.move_to(0, 0);
    c.line_to(fx(10.0), 0);
    assert_eq!(c.stroke(), Err(StrokeError::UnimplementedOperation));
    c.set_line_cap(LineCap::Square);
    assert_eq!(c.stroke(), Err(StrokeError::UnimplementedOperation));
}

#[test]
fn bevel_join_fails() {
    let mut c = triangle_canvas();
    c.set_line_join(LineJoin::Bevel);
    assert_eq!(c.stroke(), Err(StrokeError::UnimplementedOperation));
    c.set_line_join(LineJoin::Round);
    assert_eq!(c.stroke(), Err(StrokeError::UnimplementedOperation));
}

#[test]
fn sharp_turn_needs_a_bevel() {
    // A spike of 2 degrees: its miter would be longer than ten half-widths.
    let mut c = Canvas::new();
    c.set_tess_tol(fx(0.01));
    c.move_to(0, 0);
    c.line_to(fx(100.0), 0);
    c.line_to(0, fx(3.0));
    c.close_path();
    assert_eq!(c.stroke(), Err(StrokeError::UnimplementedOperation));
    assert!(c.paths()[0].nbevel > 0);
}

#[test]
fn repeated_last_point_closes_path() {
    let mut c = Canvas::new();
    c.set_tess_tol(fx(0.01));
    c.move_to(0, 0);
    c.line_to(fx(10.0), 0);
    c.line_to(fx(10.0), fx(10.0));
    c.line_to(0, 0);
    assert_eq!(c.stroke(), Ok(()));
    assert!(c.paths()[0].closed);
    assert_eq!(c.paths()[0].count, 3);
    assert_eq!(c.vertices().len(), 8);
}

#[test]
fn near_points_merge() {
    let mut c = Canvas::new();
    c.set_tess_tol(fx(0.5));
    c.move_to(0, 0);
    c.line_to(fx(10.0), 0);
    c.line_to(fx(10.2), 0);
    c.line_to(fx(10.0), fx(10.0));
    c.close_path();
    assert_eq!(c.stroke(), Ok(()));
    assert_eq!(c.paths()[0].count, 3);
}

#[test]
fn winding_is_enforced() {
    for winding in [Winding::CCW, Winding::CW] {
        for flip in [false, true] {
            let mut c = Canvas::new();
            c.move_to(0, 0);
            if flip {
                c.line_to(fx(10.0), 0);
                c.line_to(fx(10.0), fx(10.0));
            } else {
                c.line_to(fx(10.0), fx(10.0));
                c.line_to(fx(10.0), 0);
            }
            c.close_path();
            c.path_winding(winding);
            assert_eq!(c.stroke(), Ok(()));
            let area = polygon_area(&path_positions(&c, 0));
            match winding {
                Winding::CCW => assert!(area > 0),
                Winding::CW => assert!(area < 0),
            }
        }
    }
}

#[test]
fn closed_square_has_ten_vertices() {
    let mut c = Canvas::new();
    c.move_to(0, 0);
    c.line_to(fx(10.0), 0);
    c.line_to(fx(10.0), fx(10.0));
    c.line_to(0, fx(10.0));
    c.close_path();
    assert_eq!(c.stroke(), Ok(()));
    assert_eq!(c.vertices().len(), 2 * 4 + 2);
    // Outer and inner vertices lie symmetrically about each point.
    let pts = path_positions(&c, 0);
    let verts = c.vertices();
    for (i, p) in pts.iter().enumerate() {
        assert_eq!(verts[2 * i].x + verts[2 * i + 1].x, 2 * p.0);
        assert_eq!(verts[2 * i].y + verts[2 * i + 1].y, 2 * p.1);
        // A right-angle miter reaches one half-width along each axis.
        assert_eq!((verts[2 * i].x - p.0).abs(), ONE / 2);
        assert_eq!((verts[2 * i].y - p.1).abs(), ONE / 2);
    }
}

#[test]
fn open_segment_has_flat_caps() {
    let mut c = Canvas::new();
    c.set_line_width(fx(2.0));
    c.move_to(0, 0);
    c.line_to(fx(10.0), 0);
    assert_eq!(c.stroke(), Ok(()));
    let h = ONE / 2;
    let ten = fx(10.0);
    let expected = vec![
        Vertex { x: 0, y: -ONE, u: h, v: 0 },
        Vertex { x: 0, y: ONE, u: h, v: 0 },
        Vertex { x: 0, y: -ONE, u: h, v: ONE },
        Vertex { x: 0, y: ONE, u: h, v: ONE },
        Vertex { x: ten, y: -ONE, u: h, v: ONE },
        Vertex { x: ten, y: ONE, u: h, v: ONE },
        Vertex { x: ten, y: -ONE, u: h, v: 0 },
        Vertex { x: ten, y: ONE, u: h, v: 0 },
    ];
    assert_eq!(c.vertices(), &expected);
}

#[test]
fn fringe_gives_gradient() {
    let mut cache = PathCache::new();
    let cmds = vec![Command::MoveTo(0, 0), Command::LineTo(fx(10.0), 0)];
    let mut s = style(1.0, LineCap::Butt, LineJoin::Miter);
    s.fringe_width = fx(1.0);
    assert_eq!(cache.stroke(&cmds, &s), Ok(()));
    let verts = &cache.verts;
    assert_eq!(verts.len(), 8);
    // The half-width grows by half the fringe; each cap sits half a fringe
    // inside the segment's end, its antialiasing pair half a fringe outside.
    assert_eq!(verts[0], Vertex { x: -ONE / 2, y: -fx(1.5), u: 0, v: 0 });
    assert_eq!(verts[1], Vertex { x: -ONE / 2, y: fx(1.5), u: ONE, v: 0 });
    assert_eq!(verts[2], Vertex { x: ONE / 2, y: -fx(1.5), u: 0, v: ONE });
    assert_eq!(verts[3], Vertex { x: ONE / 2, y: fx(1.5), u: ONE, v: ONE });
    assert_eq!(verts[4], Vertex { x: fx(9.5), y: -fx(1.5), u: 0, v: ONE });
    assert_eq!(verts[7], Vertex { x: fx(10.5), y: fx(1.5), u: ONE, v: 0 });
}

#[test]
fn two_paths_get_their_own_ranges() {
    let mut cache = PathCache::new();
    let cmds = vec![
        Command::MoveTo(0, 0),
        Command::LineTo(fx(10.0), 0),
        Command::MoveTo(0, fx(5.0)),
        Command::LineTo(fx(10.0), fx(5.0)),
        Command::LineTo(fx(10.0), fx(15.0)),
        Command::Close,
    ];
    let s = style(1.0, LineCap::Butt, LineJoin::Miter);
    assert_eq!(cache.stroke(&cmds, &s), Ok(()));
    let r0 = cache.paths[0].stroke.unwrap();
    let r1 = cache.paths[1].stroke.unwrap();
    assert_eq!((r0.first, r0.count), (0, 8));
    assert_eq!((r1.first, r1.count), (8, 8));
    assert_eq!(cache.verts.len(), 16);
    assert_eq!(cache.verts[14], cache.verts[8]);
    assert_eq!(cache.verts[15], cache.verts[9]);
    assert_eq!(cache.bounds, [0, 0, fx(10.0), fx(15.0)]);
}

#[test]
fn flatten_reports_bezier() {
    let mut cache = PathCache::new();
    let cmds = vec![Command::MoveTo(0, 0), Command::BezierTo(0, 0, 1, 1, 2, 2)];
    assert_eq!(cache.flatten_paths(&cmds, 0), Err(StrokeError::UnimplementedOperation));
    let ok = vec![Command::MoveTo(0, 0), Command::LineTo(fx(3.0), fx(4.0))];
    assert_eq!(cache.flatten_paths(&ok, 0), Ok(()));
    assert_eq!(cache.points[0].len, fx(5.0));
    assert_eq!(cache.points[0].dx, 39321);
    assert_eq!(cache.points[0].dy, 52428);
    assert_eq!(cache.points[1].dx, -39321);
}

#[test]
fn no_points_leave_an_empty_box() {
    let mut cache = PathCache::new();
    let cmds: Vec<Command> = vec![Command::Close, Command::LineTo(1, 1)];
    assert_eq!(cache.flatten_paths(&cmds, 0), Ok(()));
    assert!(cache.paths.is_empty());
    assert_eq!(cache.bounds, [i64::MAX, i64::MAX, i64::MIN, i64::MIN]);
    let one = vec![Command::MoveTo(-fx(2.0), fx(7.0))];
    assert_eq!(cache.flatten_paths(&one, 0), Ok(()));
    assert_eq!(cache.bounds, [-fx(2.0), fx(7.0), -fx(2.0), fx(7.0)]);
}
