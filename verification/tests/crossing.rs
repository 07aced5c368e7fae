//! Fusing, intersecting and cutting faces, on measured geometry.

#![allow(dead_code)]

use std::collections::HashMap;
use std::f64::consts::{PI, TAU};
use std::ops::{Add, Mul, Neg, Sub};

use cadcore::arena::SLOT_LIMIT;
use cadcore::assembly::{
    arc_midpoint, fit_circle, ring_points, Assembler, CellStep, CircleUse, FitMeasure, MidPlace, PathUse,
    Window, SAME_POINT,
};
use cadcore::boundary::{region_polygon, walk_samples};
use cadcore::bounds::StepPoint;
use cadcore::brep::BRep;
use cadcore::entities::{
    CoEdgeSense, EdgeGeom, Face, FaceBoundary, FaceExtent, FaceGeom, FaceNormal,
};
use cadcore::geometry::{
    Circle3, CylSurf, Ellipse3, Frame3, Plane3, Point3, TorusSurf, UnitVec3,
};
use cadcore::halfspace::{
    self, knit_tolerance, straddle, CapCell, CellLoops, CutCell, CutOutcome, CutSheet,
    SectionProbe, Side, RECT_TAG,
};
use cadcore::ids::{CoEdgeId, EdgeId, FaceId, LoopId, ShellId, VertexId};
use cadcore::intersect::{
    self, boundary_point, distinct_loops, ArcMark, Band, BendProbe, ConicKind, ConicProbe, ConicSample,
    CrossOver, CylindersProbe, EdgeCrossing, EdgeSide, Likeness, LinePair, LoopKind, LoopTrace,
    LoopsProbe, PairProbe, PlanesProbe, RulingProbe, SeedMark, Stretch,
};
use cadcore::outline::{
    cuts_of, presplit_sections, section_crossings, section_loops, seg_cross, PairTable, Section,
    SegMeet, SegPair, SplitSheet,
};
use cadcore::scaffold::{
    self, Aabb, BendSheet, Corner, Crossing, ElbowSeg, Filament, FilamentSheet, LegSeg, LegSheet,
    Member, Nearness, Pair, RimSheet, Run, TubePart,
};
use cadcore::scalar::Real;
use cadcore::section::{
    arc_ends, arranged_chains, boundary_chain, boundary_chains_with_joints, distinct_spots,
    insert_joints, seam_crossings,
    seam_rotation, seam_samples, section_joints, ChainSpan, FaceChain, Foot, PieceProbe, RingWalk, SeamStep,
    Uv, UvCurve, SECTION_TAG,
};
use cadcore::ssi::{
    clip_loop, clip_loop_to_arcs, pair_surfaces, SsiCurve, SsiOptions, SurfacePair,
};
use cadcore::step::GridKey;

/// Machine epsilon for comparisons.
const EPS: f64 = 1e-10;

/// Shorter vectors have no direction.
const NO_DIRECTION: f64 = 1e-12;

/// The library's number for a float.
fn num(v: f64) -> Real {
    Real::from_bits(v.to_bits())
}

/// The float of a library number.
fn val(r: Real) -> f64 {
    f64::from_bits(r.bits)
}

// Floating point: the sum of two floats is not a value the library can state.
/// Whether two floats are within [`EPS`] of each other.
fn approx_eq(a: f64, b: f64) -> bool {
    (a - b).abs() < EPS
}

// Floating point: the product of two floats is not a value the library can state.
/// The float a share `t` of the way from `a` to `b`.
fn lerp(a: f64, b: f64, t: f64) -> f64 {
    a + t * (b - a)
}

/// A vector, or a point.
#[derive(Clone, Copy, Debug, PartialEq)]
struct Vec3 {
    /// First coordinate.
    x: f64,
    /// Second coordinate.
    y: f64,
    /// Third coordinate.
    z: f64,
}

/// A vector by its coordinates.
fn v3(x: f64, y: f64, z: f64) -> Vec3 {
    Vec3 { x, y, z }
}

impl Add for Vec3 {
    type Output = Vec3;
    fn add(self, o: Vec3) -> Vec3 {
        v3(self.x + o.x, self.y + o.y, self.z + o.z)
    }
}

impl Sub for Vec3 {
    type Output = Vec3;
    fn sub(self, o: Vec3) -> Vec3 {
        v3(self.x - o.x, self.y - o.y, self.z - o.z)
    }
}

impl Neg for Vec3 {
    type Output = Vec3;
    fn neg(self) -> Vec3 {
        v3(-self.x, -self.y, -self.z)
    }
}

impl Mul<f64> for Vec3 {
    type Output = Vec3;
    fn mul(self, s: f64) -> Vec3 {
        v3(self.x * s, self.y * s, self.z * s)
    }
}

impl Vec3 {
    /// The inner product.
    fn dot(self, o: Vec3) -> f64 {
        self.x * o.x + self.y * o.y + self.z * o.z
    }

    /// The vector product.
    fn cross(self, o: Vec3) -> Vec3 {
        v3(
            self.y * o.z - self.z * o.y,
            self.z * o.x - self.x * o.z,
            self.x * o.y - self.y * o.x,
        )
    }

    /// The length.
    fn length(self) -> f64 {
        self.dot(self).sqrt()
    }

    /// The direction, if there is one.
    fn unit(self) -> Option<Vec3> {
        let n = self.length();
        if n < NO_DIRECTION {
            None
        } else {
            Some(self * (1.0 / n))
        }
    }

    /// Some direction square to this one.
    fn across(self) -> Vec3 {
        let (ax, ay, az) = (self.x.abs(), self.y.abs(), self.z.abs());
        let helper = if ax <= ay && ax <= az {
            v3(1.0, 0.0, 0.0)
        } else if ay <= az {
            v3(0.0, 1.0, 0.0)
        } else {
            v3(0.0, 0.0, 1.0)
        };
        (helper - self * helper.dot(self)).unit().unwrap_or(helper)
    }

    /// As a point of the library.
    fn point(self) -> Point3 {
        Point3 { x: num(self.x), y: num(self.y), z: num(self.z) }
    }

    /// As a direction of the library.
    fn direction(self) -> UnitVec3 {
        UnitVec3 { x: num(self.x), y: num(self.y), z: num(self.z) }
    }
}

/// A point of the library.
fn of_point(p: Point3) -> Vec3 {
    v3(val(p.x), val(p.y), val(p.z))
}

/// A direction of the library.
fn of_direction(u: UnitVec3) -> Vec3 {
    v3(val(u.x), val(u.y), val(u.z))
}

/// A frame from three axes.
fn frame(origin: Vec3, x: Vec3, y: Vec3, z: Vec3) -> Frame3 {
    Frame3 { origin: origin.point(), x: x.direction(), y: y.direction(), z: z.direction() }
}

/// A frame about an axis.
fn frame_about(origin: Vec3, z: Vec3) -> Frame3 {
    let x = z.across();
    frame(origin, x, z.cross(x), z)
}

/// A circle square to a direction.
fn circle(centre: Vec3, normal: Vec3, radius: f64) -> Circle3 {
    Circle3 { frame: frame_about(centre, normal), radius: num(radius) }
}

/// An ellipse with its long axis along `x`.
fn ellipse(centre: Vec3, normal: Vec3, x: Vec3, major: f64, minor: f64) -> Ellipse3 {
    Ellipse3 {
        frame: frame(centre, x, normal.cross(x), normal),
        semi_major: num(major),
        semi_minor: num(minor),
    }
}

/// A plane square to a direction.
fn plane(origin: Vec3, normal: Vec3) -> Plane3 {
    Plane3 { frame: frame_about(origin, normal) }
}

/// A cylinder about an axis.
fn cylinder(origin: Vec3, axis: Vec3, radius: f64) -> CylSurf {
    CylSurf { frame: frame_about(origin, axis), radius: num(radius) }
}

/// A torus about an axis.
fn torus(centre: Vec3, axis: Vec3, major: f64, minor: f64) -> TorusSurf {
    TorusSurf {
        frame: frame_about(centre, axis),
        major_radius: num(major),
        minor_radius: num(minor),
    }
}

/// Whether every arena of a model can take so many more entities.
fn has_slots(brep: &BRep, more: usize) -> bool {
    let limit = SLOT_LIMIT as usize;
    [
        brep.vertices.len(),
        brep.edges.len(),
        brep.coedges.len(),
        brep.loops.len(),
        brep.faces.len(),
        brep.shells.len(),
        brep.solids.len(),
    ]
    .iter()
    .all(|&held| more <= limit.saturating_sub(held))
}

/// How many chords stand for a curved edge.
const CHORDS: usize = 64;

/// A cell of a face that chains cut up.
#[derive(Debug)]
struct KernelCell {
    /// A point inside it.
    inside: Vec3,
    /// The tags of the chains along its outer loop.
    tags: Vec<u32>,
    /// Its loops.
    loops: CellLoops,
}

/// Tracing intersections and arranging chains, in floating point.
trait Kernel {
    /// The loops in which two parts of tubes meet.
    fn closed_loops_between(&self, a: &TubePart, b: &TubePart) -> Vec<Vec<Vec3>>;

    /// A point on both surfaces near a given one.
    fn intersection_point_near(&self, a: &FaceGeom, b: &FaceGeom, p: Vec3) -> Option<Vec3>;

    /// The loop of the intersection of two surfaces through a point.
    fn trace_closed_loop(&self, a: &FaceGeom, b: &FaceGeom, seed: Vec3) -> Option<Vec<Vec3>>;

    /// Rough loops of the intersection of a torus and a cylinder.
    fn rough_loops(&self, torus: &FaceGeom, cylinder: &FaceGeom) -> Vec<Vec<Vec3>>;

    /// The parameters of a point on a face, if its surface can be cut up.
    fn uv(&self, brep: &BRep, face: FaceId, p: Vec3) -> Option<Uv>;

    /// The chains that the extent of a face implies.
    fn template_chains(&self, brep: &BRep, face: FaceId) -> Vec<Vec<Uv>>;

    /// The cells of a face that chains cut up, with the seam of a cylinder at
    /// the given angle.
    fn arrange_face(
        &self,
        brep: &BRep,
        face: FaceId,
        chains: &[FaceChain],
        seam: Option<f64>,
    ) -> Vec<KernelCell>;

    /// Sections whose ends meet where they are within a distance of each other.
    fn snap_ends(&self, sections: Vec<Section>, within: f64) -> Vec<Section>;

    /// The cells of a plane that chains cut up.
    fn arrange_plane(&self, plane: &Plane3, chains: &[FaceChain]) -> Vec<KernelCell>;

    /// Whether a point is on a face, and not in one of its holes.
    fn on_face(&self, brep: &BRep, face: FaceId, p: Vec3) -> bool;

    /// Whether a point is inside the solid that faces bound.
    fn in_solid(&self, brep: &BRep, faces: &[FaceId], p: Vec3) -> bool;

    /// The least and greatest corner of a box about a face.
    fn face_box(&self, brep: &BRep, face: FaceId) -> (Vec3, Vec3);
}

/// Samples of an edge from its start to its end.
fn sample_edge(brep: &BRep, edge: EdgeId) -> Vec<Vec3> {
    let Some(e) = brep.edges.get(edge) else { return Vec::new() };
    let at = |t: f64, f: &cadcore::geometry::Frame3, a: f64, b: f64| {
        of_point(f.origin)
            + of_direction(f.x) * (a * t.cos())
            + of_direction(f.y) * (b * t.sin())
    };
    let (t0, t1) = (val(e.t_start), val(e.t_end));
    let spread = |k: usize| t0 + (t1 - t0) * k as f64 / CHORDS as f64;
    match &e.geom {
        EdgeGeom::Polyline(points) => points.iter().map(|&p| of_point(p)).collect(),
        EdgeGeom::Circle(c) => {
            let closed = (t1 - t0).abs() >= TAU;
            let last = if closed { CHORDS - 1 } else { CHORDS };
            let r = val(c.radius);
            (0..=last).map(|k| at(spread(k), &c.frame, r, r)).collect()
        }
        EdgeGeom::Ellipse(c) => (0..=CHORDS)
            .map(|k| at(spread(k), &c.frame, val(c.semi_major), val(c.semi_minor)))
            .collect(),
        EdgeGeom::Line(_) => [e.v_start, e.v_end]
            .iter()
            .filter_map(|&v| brep.vertices.get(v).map(|v| of_point(v.point)))
            .collect(),
    }
}

// Floating point: rounding to the grid is computed, not decided.
/// A vector on the weld grid.
fn weld_key(v: Vec3, tol: f64) -> GridKey {
    let q = 1.0 / tol;
    GridKey {
        x: (v.x * q).round() as i64,
        y: (v.y * q).round() as i64,
        z: (v.z * q).round() as i64,
    }
}

/// A point with its place on the weld grid.
fn weld_point(p: Vec3, tol: f64) -> StepPoint {
    StepPoint { at: p.point(), key: weld_key(p, tol) }
}

// Floating point: the middle by length is interpolated, not decided.
/// The middle of a path by its length.
fn middle(path: &[Vec3]) -> Vec3 {
    let mut ends = Vec::new();
    let mut total = 0.0;
    for w in path.windows(2) {
        total += (w[1] - w[0]).length();
        ends.push(num(total));
    }
    match arc_midpoint(num(total), num(0.5 * total), &ends) {
        MidPlace::First => path[0],
        MidPlace::Middle => path[path.len() / 2],
        MidPlace::Segment(i) => {
            let (a, b) = (path[i], path[i + 1]);
            let length = (b - a).length();
            let before = val(ends[i]) - length;
            a + (b - a) * ((0.5 * total - before) / length.max(1e-30))
        }
    }
}

/// A path that a loop runs along.
fn path_use(path: &[Vec3], tol: f64, group: u32) -> PathUse {
    PathUse {
        points: path.iter().map(|p| p.point()).collect(),
        start: weld_point(path[0], tol),
        end: weld_point(path[path.len() - 1], tol),
        mid: weld_key(middle(path), tol),
        group,
    }
}

/// A full circle that a loop runs along.
fn circle_use(c: Circle3, tol: f64, group: u32) -> CircleUse {
    let centre = of_point(c.frame.origin);
    let start = centre + of_direction(c.frame.x) * val(c.radius);
    CircleUse {
        circle: c,
        start: weld_point(start, tol),
        centre: weld_key(centre, tol),
        axis: weld_key(of_direction(c.frame.z), tol),
        radius: (val(c.radius) / tol).round() as i64,
        group,
    }
}

/// A path against the circle through its points.
fn measure_fit(path: &[Vec3]) -> (FitMeasure, Vec3, Vec3, f64) {
    let closing = (path[0] - path[path.len() - 1]).length();
    let ring = &path[..ring_points(path.len(), num(closing))];
    let n = ring.len();
    let mut sum = v3(0.0, 0.0, 0.0);
    for &p in ring {
        sum = sum + p;
    }
    let centre = sum * (1.0 / n as f64);
    let radii: Vec<f64> = ring.iter().map(|&p| (p - centre).length()).collect();
    let radius = radii.iter().sum::<f64>() / n as f64;
    let mut area = v3(0.0, 0.0, 0.0);
    for i in 0..n {
        area = area + (ring[i] - centre).cross(ring[(i + 1) % n] - centre);
    }
    let axis = area.unit();
    let normal = axis.unwrap_or(v3(0.0, 0.0, 1.0));
    let fit = FitMeasure {
        count: path.len(),
        closing: num(closing),
        radius: num(radius),
        off_radius: radii.iter().map(|r| num((r - radius).abs())).collect(),
        slack: num(1e-3 * radius),
        axis: axis.map(Vec3::direction),
        off_plane: ring.iter().map(|&p| num(normal.dot(p - centre).abs())).collect(),
    };
    (fit, centre, normal, radius)
}

/// A step of a cell's loop.
fn cell_step(path: &[Vec3], tol: f64) -> CellStep {
    let (fit, centre, normal, radius) = measure_fit(path);
    CellStep {
        path: path_use(path, tol, 0),
        fit,
        circle: circle_use(circle(centre, normal, radius), tol, 0),
        turned: circle_use(circle(centre, -normal, radius), tol, 0),
    }
}

/// The weld grid of a scaffold.
const WELD: f64 = 1e-7;

/// How crossings are looked for.
#[derive(Clone, Copy, Debug)]
struct Settings {
    /// A window has at most so many points.
    window_points: usize,
    /// How far apart windows are kept, by how far they reach.
    spacing: f64,
    /// Whether to look past the legs of different filaments: at legs of one
    /// filament, and at bends.
    beyond_legs: bool,
}

impl Default for Settings {
    fn default() -> Settings {
        Settings { window_points: 40, spacing: 1.15, beyond_legs: true }
    }
}

/// How far past a bend a crossing may reach (radians).
const ARC_MARGIN: f64 = 0.15;

/// A filament along a polyline with rounded corners.
fn serpentine(verts: &[Point3], r: f64, fillet: f64) -> Filament {
    assert!(verts.len() >= 2, "a filament needs at least two path vertices");
    let at: Vec<Vec3> = verts.iter().map(|&p| of_point(p)).collect();
    let mut corners = Vec::new();
    for w in at.windows(3) {
        let din = (w[1] - w[0]).unit().expect("path vertices coincide");
        let dout = (w[2] - w[1]).unit().expect("path vertices coincide");
        let turn = din.dot(dout).clamp(-1.0, 1.0).acos();
        let t = fillet * (turn / 2.0).tan();
        let (entry, exit) = (w[1] - din * t, w[1] + dout * t);
        let axis = din.cross(dout).unit().expect("the path runs straight on");
        let inward = axis.cross(din).unit().expect("the path runs straight on");
        let surf = torus(entry + inward * fillet, axis, fillet, r);
        let lo = angle_on(&surf, entry);
        let mut d = angle_on(&surf, exit) - lo;
        while d > PI {
            d -= TAU;
        }
        while d < -PI {
            d += TAU;
        }
        corners.push(Corner {
            entry: entry.point(),
            exit: exit.point(),
            elbow: ElbowSeg { surf, theta_lo: num(lo), theta_hi: num(lo + d) },
        });
    }
    let runs: Vec<Run> = scaffold::leg_spans(verts, &corners)
        .into_iter()
        .map(|span| {
            let (s, e) = (of_point(span.start), of_point(span.end));
            let d = (e - s).unit().expect("path vertices coincide");
            Run { span, leg: LegSeg { surf: cylinder(s, d, r), length: num((e - s).length()) } }
        })
        .collect();
    Filament::serpentine(verts, &corners, &runs)
}

/// The angle of a point about a torus.
fn angle_on(t: &cadcore::geometry::TorusSurf, p: Vec3) -> f64 {
    let w = p - of_point(t.frame.origin);
    of_direction(t.frame.y).dot(w).atan2(of_direction(t.frame.x).dot(w))
}

/// The start, direction and length of a leg.
fn leg_line(leg: &LegSeg) -> (Vec3, Vec3, f64) {
    (of_point(leg.surf.frame.origin), of_direction(leg.surf.frame.z), val(leg.length))
}

/// A leg with its ends.
fn leg_sheet(leg: &LegSeg) -> LegSheet {
    let (s, d, length) = leg_line(leg);
    let e = s + d * length;
    let r = val(leg.surf.radius);
    LegSheet {
        leg: *leg,
        rim_in: circle_use(circle(s, d, r), WELD, 0),
        rim_out: circle_use(circle(e, d, r), WELD, 0),
        cap_in: plane(s, -d),
        cap_out: plane(e, d),
    }
}

/// A filament with the ends of its legs.
fn filament_sheet(f: &Filament) -> FilamentSheet {
    FilamentSheet { legs: f.legs.iter().map(leg_sheet).collect(), elbows: f.elbows.clone() }
}

/// A box about points, padded.
fn boxed(points: &[Vec3], pad: f64) -> Aabb {
    let mut lo = v3(f64::MAX, f64::MAX, f64::MAX);
    let mut hi = v3(f64::MIN, f64::MIN, f64::MIN);
    for p in points {
        lo = v3(lo.x.min(p.x), lo.y.min(p.y), lo.z.min(p.z));
        hi = v3(hi.x.max(p.x), hi.y.max(p.y), hi.z.max(p.z));
    }
    let by = v3(pad, pad, pad);
    Aabb { min: (lo - by).point(), max: (hi + by).point() }
}

/// The box of a leg.
fn leg_box(leg: &LegSeg) -> Aabb {
    let (s, d, length) = leg_line(leg);
    boxed(&[s, s + d * length], val(leg.surf.radius))
}

/// The box of a bend.
fn elbow_box(e: &ElbowSeg) -> Aabb {
    let f = &e.surf.frame;
    let (lo, hi) = (val(e.theta_lo), val(e.theta_hi));
    let spine: Vec<Vec3> = (0..=8)
        .map(|k| {
            let t = lo + (hi - lo) * k as f64 / 8.0;
            of_point(f.origin)
                + (of_direction(f.x) * t.cos() + of_direction(f.y) * t.sin())
                    * val(e.surf.major_radius)
        })
        .collect();
    boxed(&spine, val(e.surf.minor_radius))
}

// Floating point: a mean is computed, not decided.
/// The centre of a loop.
fn centre_of(points: &[Vec3]) -> Vec3 {
    let mut sum = v3(0.0, 0.0, 0.0);
    for &p in points {
        sum = sum + p;
    }
    sum * (1.0 / points.len().max(1) as f64)
}

// Floating point: a distance is computed, not decided.
/// How far a loop reaches from a point.
fn reach_of(points: &[Vec3], from: Vec3) -> f64 {
    points.iter().map(|&p| (p - from).length()).fold(0.0, f64::max)
}

/// A loop against the ends of a leg.
fn rim_sheet(leg: &LegSeg, centre: Vec3, radius: f64) -> RimSheet {
    let (s, d, length) = leg_line(leg);
    RimSheet {
        along: num(d.dot(centre - s)),
        radius: num(radius),
        last: num(length - radius),
    }
}

/// Whether a loop stays on a bend.
fn stays_on(e: &ElbowSeg, points: &[Vec3]) -> bool {
    let (lo, hi) = (val(e.theta_lo), val(e.theta_hi));
    let sweep = hi - lo;
    scaffold::points_within_arc(&BendSheet {
        sweep: num(sweep.abs()),
        limit: num(sweep.abs() + ARC_MARGIN),
        angles: points
            .iter()
            .map(|&p| {
                let on = (angle_on(&e.surf, p) - lo) * sweep.signum();
                num((on + ARC_MARGIN).rem_euclid(TAU) - ARC_MARGIN)
            })
            .collect(),
    })
}

/// The points of a window, few enough.
fn thin_loop(points: &[Vec3], most: usize) -> Vec<Vec3> {
    let all: Vec<Point3> = points.iter().map(|p| p.point()).collect();
    let step = (points.len().max(1) - 1) / most.max(1) + 1;
    let last_kept = (points.len().max(1) - 1) / step * step;
    let gap = match (points.last(), points.get(last_kept)) {
        (Some(&a), Some(&b)) => (a - b).length(),
        _ => 0.0,
    };
    scaffold::decimate_loop(&all, most, num(gap)).into_iter().map(of_point).collect()
}

/// A window along a loop.
fn window(points: &[Vec3]) -> Window {
    let closing = num((points[points.len() - 1] - points[0]).length());
    let open = points.len() > 1 && closing.lt(Real::from_bits(SAME_POINT));
    let ring = if open { &points[..points.len() - 1] } else { points };
    let m = ring.len();
    let mid = |k: usize| {
        let piece: Vec<Vec3> = (m * k / 4..=m * (k + 1) / 4).map(|i| ring[i % m]).collect();
        weld_key(middle(&piece), WELD)
    };
    Window {
        id: 0,
        points: points.iter().map(|&p| weld_point(p, WELD)).collect(),
        closing,
        mids: (mid(0), mid(1), mid(2), mid(3)),
    }
}

/// How a loop faces on a tube whose spine is nearest at a point.
fn facing(points: &[Vec3], outward: Vec3) -> f64 {
    let m = points.len();
    let mut area = v3(0.0, 0.0, 0.0);
    for i in 0..m {
        area = area + points[i].cross(points[(i + 1) % m]);
    }
    area.dot(outward)
}

/// The way out of a leg's tube at a point.
fn out_of_leg(surf: &CylSurf, p: Vec3) -> Vec3 {
    let w = p - of_point(surf.frame.origin);
    let d = of_direction(surf.frame.z);
    w - d * d.dot(w)
}

/// The way out of a bend's tube at a point.
fn out_of_elbow(e: &ElbowSeg, p: Vec3) -> Vec3 {
    let f = &e.surf.frame;
    let w = p - of_point(f.origin);
    let z = of_direction(f.z);
    let flat = w - z * z.dot(w);
    let spine = flat.unit().unwrap_or(of_direction(f.x)) * val(e.surf.major_radius);
    w - spine
}

/// A crossing of two members.
fn crossing(filaments: &[Filament], pair: Pair, points: &[Vec3], most: usize) -> Crossing {
    let thin = thin_loop(points, most);
    let (c, mid) = (centre_of(points), centre_of(&thin));
    let reach = reach_of(points, c);
    let second = &filaments[pair.fj].legs[pair.j];
    let (first_rim, first_out, cos, in_arc) = match pair.first() {
        Member::Leg { f, i } => {
            let leg = &filaments[f].legs[i];
            let cos = of_direction(leg.surf.frame.z).dot(of_direction(second.surf.frame.z));
            (rim_sheet(leg, c, reach), out_of_leg(&leg.surf, mid), cos, true)
        }
        Member::Elbow { f, i } => {
            let e = &filaments[f].elbows[i];
            (rim_sheet(second, c, reach), out_of_elbow(e, mid), 0.0, stays_on(e, points))
        }
    };
    Crossing {
        pair,
        cos: num(cos),
        count: points.len(),
        first_rim,
        second_rim: rim_sheet(second, c, reach),
        in_arc,
        first_facing: num(facing(&thin, first_out)),
        second_facing: num(facing(&thin, out_of_leg(&second.surf, mid))),
        window: window(&thin),
    }
}

/// The parts of two members.
fn parts(filaments: &[Filament], pair: &Pair) -> (TubePart, TubePart) {
    let one = match pair.first() {
        Member::Leg { f, i } => TubePart::Leg(filaments[f].legs[i]),
        Member::Elbow { f, i } => TubePart::Elbow(filaments[f].elbows[i]),
    };
    (one, TubePart::Leg(filaments[pair.fj].legs[pair.j]))
}

/// All crossings of several filaments, and how near each is to each.
fn trace_crossings<K: Kernel>(
    filaments: &[Filament],
    kernel: &K,
    settings: &Settings,
) -> (Vec<Crossing>, Vec<Vec<Nearness>>) {
    let legs: Vec<Vec<Aabb>> =
        filaments.iter().map(|f| f.legs.iter().map(leg_box).collect()).collect();
    let elbows: Vec<Vec<Aabb>> =
        filaments.iter().map(|f| f.elbows.iter().map(elbow_box).collect()).collect();
    let mut loops = Vec::new();
    for pair in scaffold::crossing_pairs(&legs, &elbows, settings.beyond_legs) {
        let (a, b) = parts(filaments, &pair);
        for points in kernel.closed_loops_between(&a, &b) {
            if !points.is_empty() {
                loops.push((pair, points));
            }
        }
    }
    let spheres: Vec<_> = loops
        .iter()
        .map(|(_, points)| {
            let thin = thin_loop(points, settings.window_points);
            let (c, t) = (centre_of(points), centre_of(&thin));
            (c, reach_of(points, c), t, reach_of(&thin, t))
        })
        .collect();
    let near = spheres
        .iter()
        .map(|&(c, reach, _, _)| {
            spheres
                .iter()
                .map(|&(_, _, t, held)| Nearness {
                    distance: num((t - c).length()),
                    reach: num((held + reach) * settings.spacing),
                })
                .collect()
        })
        .collect();
    let all = loops
        .iter()
        .map(|(pair, points)| crossing(filaments, *pair, points, settings.window_points))
        .collect();
    (all, near)
}

/// Whether a model has room for a scaffold, and its parts can be counted.
fn fits(brep: &BRep, filaments: &[Filament], all: &[Crossing]) -> bool {
    let legs: usize = filaments.iter().map(|f| f.legs.len()).sum();
    let joined =
        filaments.iter().all(|f| f.elbows.is_empty() || f.elbows.len() < f.legs.len());
    let faces = 4 * legs + 2;
    joined
        && 2 * legs <= u32::MAX as usize
        && all.len() <= u32::MAX as usize
        && has_slots(brep, 10 * faces + 40 * all.len())
}

/// Fuse filaments that cross into one shell.
fn fuse_scaffold_by<K: Kernel>(
    brep: &mut BRep,
    filaments: &[Filament],
    kernel: &K,
    settings: &Settings,
) -> ShellId {
    let (all, near) = trace_crossings(filaments, kernel, settings);
    assert!(fits(brep, filaments, &all), "the model is full");
    let sheets = filaments.iter().map(filament_sheet).collect();
    scaffold::fuse_scaffold(brep, &sheets, all, &near)
}

/// Fuse filaments that cross into one shell, keeping windows off the rims.
fn fuse_scaffold_rimsafe_by<K: Kernel>(
    brep: &mut BRep,
    filaments: &[Filament],
    kernel: &K,
    settings: &Settings,
) -> ShellId {
    let (all, near) = trace_crossings(filaments, kernel, settings);
    assert!(fits(brep, filaments, &all), "the model is full");
    let sheets = filaments.iter().map(filament_sheet).collect();
    scaffold::fuse_scaffold_rimsafe(brep, &sheets, all, &near)
}

/// How far off a place still counts as on it.
const SLACK: f64 = 1e-9;

/// How many samples a conic has.
const CONIC_SAMPLES: usize = 96;

/// How many pieces a ruling line is sampled in.
const RULING_PIECES: usize = 32;

/// How many samples the rim of a disk has.
const DISK_SAMPLES: usize = 48;

/// A plane's parameters of a point.
fn flat(pl: &Plane3, p: Vec3) -> (f64, f64) {
    let w = p - of_point(pl.frame.origin);
    (of_direction(pl.frame.x).dot(w), of_direction(pl.frame.y).dot(w))
}

/// Whether a point is inside a polygon.
fn in_polygon(poly: &[(f64, f64)], p: (f64, f64)) -> bool {
    let n = poly.len();
    let edges: Vec<EdgeSide> = (0..n)
        .map(|i| {
            let ((x0, y0), (x1, y1)) = (poly[i], poly[(i + 1) % n]);
            EdgeSide {
                from: num(y0),
                to: num(y1),
                meets: num(x0 + (p.1 - y0) / (y1 - y0) * (x1 - x0)),
            }
        })
        .collect();
    intersect::point_in_polygon_2d(&edges, num(p.0), num(p.1))
}

/// The stretches of a line inside a polygon of a plane it lies in.
fn stretches(origin: Vec3, dir: Vec3, pl: &Plane3, poly3: &[Vec3]) -> Vec<Stretch> {
    let poly: Vec<(f64, f64)> = poly3.iter().map(|&q| flat(pl, q)).collect();
    let o = flat(pl, origin);
    let d = (of_direction(pl.frame.x).dot(dir), of_direction(pl.frame.y).dot(dir));
    let n = poly.len();
    let crossings: Vec<EdgeCrossing> = (0..n)
        .map(|i| {
            let (a, b) = (poly[i], poly[(i + 1) % n]);
            let e = (b.0 - a.0, b.1 - a.1);
            let det = d.0 * (-e.1) - (-e.0) * d.1;
            let r = (a.0 - o.0, a.1 - o.1);
            EdgeCrossing {
                det: num(det),
                along: num((r.0 * (-e.1) - (-e.0) * r.1) / det),
                across: num((d.0 * r.1 - d.1 * r.0) / det),
            }
        })
        .collect();
    let at: Vec<f64> = crossings.iter().map(|c| val(c.along)).collect();
    let apart: Vec<Vec<Real>> =
        at.iter().map(|a| at.iter().map(|b| num((a - b).abs())).collect()).collect();
    let inside: Vec<Vec<bool>> = at
        .iter()
        .map(|a| {
            at.iter()
                .map(|b| {
                    let m = 0.5 * (a + b);
                    in_polygon(&poly, (o.0 + d.0 * m, o.1 + d.1 * m))
                })
                .collect()
        })
        .collect();
    intersect::line_in_polygon(&crossings, &apart, &inside)
        .into_iter()
        .map(|(i, j)| Stretch {
            lo: num(at[i]),
            hi: num(at[j]),
            from: (origin + dir * at[i]).point(),
            to: (origin + dir * at[j]).point(),
        })
        .collect()
}

/// How long the common part of two stretches is.
fn common_length(a: &Stretch, b: &Stretch) -> f64 {
    val(a.hi).min(val(b.hi)) - val(a.lo).max(val(b.lo))
}

// Floating point: the point that three planes share is computed, not decided.
/// Two planar faces.
fn planes_probe(pa: &Plane3, poly_a: &[Vec3], pb: &Plane3, poly_b: &[Vec3]) -> PlanesProbe {
    let (na, nb) = (of_direction(pa.frame.z), of_direction(pb.frame.z));
    let cross = na.cross(nb);
    let spread = cross.length();
    let dir = cross.unit().unwrap_or(na);
    let det = na.dot(nb.cross(dir));
    let (da, db) = (na.dot(of_point(pa.frame.origin)), nb.dot(of_point(pb.frame.origin)));
    let origin = (nb.cross(dir) * da + dir.cross(na) * db) * (1.0 / det);
    let meets = intersect::planes_meet(num(spread), num(det));
    let first = if meets { stretches(origin, dir, pa, poly_a) } else { Vec::new() };
    let second = if meets { stretches(origin, dir, pb, poly_b) } else { Vec::new() };
    let gaps = first
        .iter()
        .map(|a| second.iter().map(|b| num(common_length(a, b))).collect())
        .collect();
    PlanesProbe { spread: num(spread), det: num(det), first, second, gaps }
}

/// A line along a cylinder, against a polygon.
fn ruling(start: Vec3, axis: Vec3, length: f64, pl: &Plane3, poly: &[(f64, f64)]) -> RulingProbe {
    let at: Vec<f64> =
        (0..=RULING_PIECES).map(|k| length * k as f64 / RULING_PIECES as f64).collect();
    let points: Vec<Vec3> = at.iter().map(|&t| start + axis * t).collect();
    RulingProbe {
        inside: points.iter().map(|&p| in_polygon(poly, flat(pl, p))).collect(),
        points: points.iter().map(|p| p.point()).collect(),
        spans: at.iter().map(|a| at.iter().map(|b| num(b - a)).collect()).collect(),
    }
}

/// A planar face and a cylindrical one.
fn conic_probe(pl: &Plane3, poly3: &[Vec3], cyl: &CylSurf, length: f64) -> ConicProbe {
    let poly: Vec<(f64, f64)> = poly3.iter().map(|&q| flat(pl, q)).collect();
    let (n, axis) = (of_direction(pl.frame.z), of_direction(cyl.frame.z));
    let origin = of_point(cyl.frame.origin);
    let radius = val(cyl.radius);
    let height = n.dot(origin - of_point(pl.frame.origin));
    let cos = n.dot(axis);
    let half2 = radius * radius - height * height;
    let (foot, side) = (origin - n * height, n.cross(axis) * half2.max(0.0).sqrt());
    let lines = |starts: &[Vec3]| {
        ConicProbe::Rulings(starts.iter().map(|&s| ruling(s, axis, length, pl, &poly)).collect())
    };
    match intersect::conic_kind(num(cos), num(half2)) {
        ConicKind::Apart => return ConicProbe::Missed,
        ConicKind::Touching => return lines(&[foot - side]),
        ConicKind::Through => return lines(&[foot - side, foot + side]),
        ConicKind::Across => {}
    }
    let (x, y) = (of_direction(cyl.frame.x), of_direction(cyl.frame.y));
    let samples = (0..CONIC_SAMPLES)
        .map(|i| {
            let t = TAU * i as f64 / CONIC_SAMPLES as f64;
            let ring = origin + x * (radius * t.cos()) + y * (radius * t.sin());
            let p = ring - axis * (n.dot(ring - of_point(pl.frame.origin)) / cos);
            ConicSample {
                point: p.point(),
                along: num(axis.dot(p - origin)),
                over: in_polygon(&poly, flat(pl, p)),
            }
        })
        .collect();
    ConicProbe::Round { samples, top: num(length + SLACK) }
}

// Floating point: where two circles meet is computed, not decided.
/// The lines in which two parallel cylinders meet.
fn parallel_lines(a: &CylSurf, la: f64, b: &CylSurf, lb: f64) -> Vec<LinePair> {
    let axis = of_direction(a.frame.z);
    let (oa, ob) = (of_point(a.frame.origin), of_point(b.frame.origin));
    let (ra, rb) = (val(a.radius), val(b.radius));
    let w = ob - oa;
    let across = w - axis * axis.dot(w);
    let d = across.length();
    let Some(u) = across.unit() else { return Vec::new() };
    let t = (d * d + ra * ra - rb * rb) / (2.0 * d);
    let h2 = ra * ra - t * t;
    if !intersect::parallel_cylinders_meet(num(h2)) {
        return Vec::new();
    }
    let v = axis.cross(u) * h2.sqrt();
    [oa + u * t + v, oa + u * t - v]
        .into_iter()
        .map(|o| {
            let part = |lo: f64, hi: f64| Stretch {
                lo: num(lo),
                hi: num(hi),
                from: (o + axis * lo).point(),
                to: (o + axis * hi).point(),
            };
            let (a0, b0) = (axis.dot(o - oa), axis.dot(o - ob));
            let (first, second) = (part(-a0, la - a0), part(-b0, lb - b0));
            LinePair { gap: num(common_length(&first, &second)), first, second }
        })
        .collect()
}

/// The centre of a loop, and how far its points are from it on average.
fn signature(points: &[Vec3]) -> (Vec3, f64) {
    let n = points.len().max(1) as f64;
    let mut sum = v3(0.0, 0.0, 0.0);
    for &p in points {
        sum = sum + p;
    }
    let c = sum * (1.0 / n);
    (c, points.iter().map(|&p| (p - c).length()).sum::<f64>() / n)
}

/// Several traced loops.
fn loops_probe(traces: Vec<LoopTrace>, minor: f64) -> LoopsProbe {
    let signs: Vec<(Vec3, f64)> = traces
        .iter()
        .map(|t| signature(&t.points.iter().map(|&p| of_point(p)).collect::<Vec<_>>()))
        .collect();
    let alike = signs
        .iter()
        .map(|a| {
            signs
                .iter()
                .map(|b| Likeness {
                    centres: num((a.0 - b.0).length()),
                    radii: num((a.1 - b.1).abs()),
                })
                .collect()
        })
        .collect();
    LoopsProbe { traces, alike, limit: num(0.5 * minor) }
}

/// A torus with the arc of it that a face covers.
#[derive(Clone, Copy, Debug)]
struct Bend {
    /// The torus.
    surf: TorusSurf,
    /// Where the arc starts.
    lo: f64,
    /// Where it ends.
    hi: f64,
}

impl Bend {
    /// The angle of a point about the axis.
    fn angle(&self, p: Vec3) -> f64 {
        let w = p - of_point(self.surf.frame.origin);
        of_direction(self.surf.frame.y).dot(w).atan2(of_direction(self.surf.frame.x).dot(w))
    }

    /// Where a point is along the arc.
    fn mark(&self, p: Vec3) -> ArcMark {
        let sweep = self.hi - self.lo;
        ArcMark {
            sweep: num(sweep),
            along: num(((self.angle(p) - self.lo) * sweep.signum()).rem_euclid(TAU)),
            reach: num(sweep.abs() + SLACK),
        }
    }

    /// A point of the torus.
    fn point(&self, theta: f64, phi: f64) -> Vec3 {
        let f = &self.surf.frame;
        let spoke = of_direction(f.x) * theta.cos() + of_direction(f.y) * theta.sin();
        of_point(f.origin)
            + spoke * (val(self.surf.major_radius) + val(self.surf.minor_radius) * phi.cos())
            + of_direction(f.z) * (val(self.surf.minor_radius) * phi.sin())
    }

    /// How far a point is from the torus.
    fn distance(&self, p: Vec3) -> f64 {
        let f = &self.surf.frame;
        let w = p - of_point(f.origin);
        let z = of_direction(f.z).dot(w);
        let flat = (w - of_direction(f.z) * z).length();
        ((flat - val(self.surf.major_radius)).hypot(z) - val(self.surf.minor_radius)).abs()
    }

    /// Samples over the arc.
    fn samples(&self, along: usize, round: usize) -> Vec<Vec3> {
        let mut out = Vec::new();
        for i in 0..=along {
            let theta = self.lo + (self.hi - self.lo) * i as f64 / along as f64;
            for j in 0..round {
                out.push(self.point(theta, TAU * j as f64 / round as f64));
            }
        }
        out
    }
}

/// A loop cut to a bend and a polygon: the crossing points are found by halving.
fn cut_trace<K: Kernel>(
    points: Vec<Vec3>,
    keep: &dyn Fn(Vec3) -> bool,
    inside: Vec<bool>,
    a: &FaceGeom,
    b: &FaceGeom,
    kernel: &K,
) -> LoopTrace {
    let n = points.len();
    let ends = (0..n)
        .map(|i| {
            let before = (i + n - 1) % n;
            if inside[i] == inside[before] {
                return None;
            }
            let (mut p, mut q) = if inside[i] {
                (points[i], points[before])
            } else {
                (points[before], points[i])
            };
            let width = (p - q).length();
            for _ in 0..40 {
                let m = p + (q - p) * 0.5;
                if keep(m) {
                    p = m;
                } else {
                    q = m;
                }
            }
            let middle = p + (q - p) * 0.5;
            let refined = kernel.intersection_point_near(a, b, middle);
            intersect::boundary_point(CrossOver {
                middle: middle.point(),
                refined: refined.map(Vec3::point),
                drift: num(refined.map_or(0.0, |r| (r - middle).length())),
                width: num(width),
            })
        })
        .collect();
    LoopTrace { points: points.iter().map(|p| p.point()).collect(), inside, ends }
}

/// A whole loop.
fn whole_trace(points: &[Vec3], inside: Vec<bool>) -> LoopTrace {
    LoopTrace {
        points: points.iter().map(|p| p.point()).collect(),
        ends: vec![None; points.len()],
        inside,
    }
}

/// A planar face and a bend.
fn plane_torus<K: Kernel>(pl: &Plane3, poly3: &[Vec3], bend: &Bend, kernel: &K) -> LoopsProbe {
    let poly: Vec<(f64, f64)> = poly3.iter().map(|&q| flat(pl, q)).collect();
    let (a, b) = (FaceGeom::Plane(*pl), FaceGeom::Torus(bend.surf));
    let n = of_direction(pl.frame.z);
    let minor = val(bend.surf.minor_radius);
    let over = |p: Vec3| in_polygon(&poly, flat(pl, p));
    let keep =
        |p: Vec3| intersect::inside_arc_and_region(&[bend.mark(p)], &[over(p)])[0];
    let mut traces = Vec::new();
    for p in bend.samples(64, 48) {
        let mark = SeedMark::Over {
            distance: num(n.dot(p - of_point(pl.frame.origin)).abs()),
            limit: num(0.3 * minor),
            over: over(p),
        };
        if !intersect::traces_from(mark) {
            continue;
        }
        let Some(seed) = kernel.intersection_point_near(&a, &b, p) else { continue };
        let Some(points) = kernel.trace_closed_loop(&a, &b, seed) else { continue };
        let marks: Vec<ArcMark> = points.iter().map(|&q| bend.mark(q)).collect();
        let covered: Vec<bool> = points.iter().map(|&q| over(q)).collect();
        let inside = intersect::inside_arc_and_region(&marks, &covered);
        traces.push(cut_trace(points, &keep, inside, &a, &b, kernel));
    }
    loops_probe(traces, minor)
}

/// Two bends.
fn torus_torus<K: Kernel>(one: &Bend, other: &Bend, kernel: &K) -> LoopsProbe {
    let (a, b) = (FaceGeom::Torus(one.surf), FaceGeom::Torus(other.surf));
    let minor = val(one.surf.minor_radius);
    let mut traces = Vec::new();
    for p in one.samples(48, 32) {
        let mark = SeedMark::Near { distance: num(other.distance(p)), limit: num(0.5 * minor) };
        if !intersect::traces_from(mark) {
            continue;
        }
        let Some(seed) = kernel.intersection_point_near(&a, &b, p) else { continue };
        let Some(points) = kernel.trace_closed_loop(&a, &b, seed) else { continue };
        let first: Vec<ArcMark> = points.iter().map(|&q| one.mark(q)).collect();
        let second: Vec<ArcMark> = points.iter().map(|&q| other.mark(q)).collect();
        traces.push(whole_trace(&points, intersect::inside_both_arcs(&first, &second)));
    }
    loops_probe(traces, minor)
}

/// A bend and a cylinder.
fn torus_cyl<K: Kernel>(bend: &Bend, cyl: &CylSurf, kernel: &K) -> LoopsProbe {
    let (a, b) = (FaceGeom::Torus(bend.surf), FaceGeom::Cylinder(*cyl));
    let mut traces = Vec::new();
    for rough in kernel.rough_loops(&a, &b) {
        if !intersect::traces_from(SeedMark::Rough { samples: rough.len() }) {
            continue;
        }
        let Some(seed) =
            rough.iter().find_map(|&p| kernel.intersection_point_near(&a, &b, p))
        else {
            continue;
        };
        let Some(points) = kernel.trace_closed_loop(&a, &b, seed) else { continue };
        traces.push(whole_trace(&points, vec![true; points.len()]));
    }
    loops_probe(traces, val(bend.surf.minor_radius))
}

/// Whether the loops of a face that can be walked lead back to their starts.
fn loops_lead_back(brep: &BRep, face: FaceId) -> bool {
    let Some(f) = brep.faces.get(face) else { return false };
    std::iter::once(&f.outer_loop).chain(&f.inner_loops).all(|&id| {
        if !brep.loop_is_live(id) {
            return true;
        }
        let last = brep.loop_coedges(id).and_then(|ring| ring.last().copied());
        match (last.and_then(|c| brep.coedges.get(c)), brep.loops.get(id)) {
            (Some(ce), Some(lp)) => ce.next == lp.start,
            _ => false,
        }
    })
}

/// The samples along a face's loops.
fn loop_samples(brep: &BRep, face: FaceId, outer_only: bool) -> Vec<Vec3> {
    assert!(loops_lead_back(brep, face), "a loop does not close");
    let mut rings = brep.face_rings(face);
    if outer_only {
        rings.truncate(usize::from(brep.has_real_loops(face)));
    }
    let mut out = Vec::new();
    for ring in rings {
        let samples: Vec<Vec<Point3>> = ring
            .iter()
            .map(|&c| {
                let edge = brep.coedges.get(c).map(|ce| ce.edge).unwrap_or_default();
                sample_edge(brep, edge).iter().map(|p| p.point()).collect()
            })
            .collect();
        out.extend(walk_samples(brep, &ring, &samples).into_iter().map(of_point));
    }
    out
}

/// The polygon that bounds a planar face, if it has one.
fn face_polygon(brep: &BRep, face: FaceId) -> Option<Vec<Vec3>> {
    let f = brep.faces.get(face)?;
    let disk: Vec<Point3> = match (&f.geom, &f.extent) {
        (FaceGeom::Plane(pl), FaceExtent::Disk { radius }) => (0..DISK_SAMPLES)
            .map(|k| {
                let t = TAU * k as f64 / DISK_SAMPLES as f64;
                let spoke = of_direction(pl.frame.x) * t.cos() + of_direction(pl.frame.y) * t.sin();
                (of_point(pl.frame.origin) + spoke * val(*radius)).point()
            })
            .collect(),
        _ => Vec::new(),
    };
    let walk = match &f.extent {
        FaceExtent::Polygon { .. } => Vec::new(),
        _ => loop_samples(brep, face, true),
    };
    let apart: Vec<Vec<Real>> = walk
        .iter()
        .map(|&a| walk.iter().map(|&b| num((a - b).length())).collect())
        .collect();
    let points: Vec<Point3> = walk.iter().map(|p| p.point()).collect();
    region_polygon(brep, face, &disk, &points, &apart)
        .map(|poly| poly.into_iter().map(of_point).collect())
}

/// The cylinder of a face from the start of its band, and the band's length.
fn face_band(brep: &BRep, face: FaceId) -> Option<(CylSurf, f64)> {
    let f = brep.faces.get(face)?;
    let FaceGeom::Cylinder(surf) = f.geom else { return None };
    let (o, d) = (of_point(surf.frame.origin), of_direction(surf.frame.z));
    let along: Vec<Real> = match &f.extent {
        FaceExtent::Cylinder { .. } => Vec::new(),
        _ => loop_samples(brep, face, false).iter().map(|&p| num(d.dot(p - o))).collect(),
    };
    Some(match intersect::cyl_band(brep, face, &along)? {
        Band::Whole { surf, length } => (surf, val(length)),
        Band::Between { surf, lo, hi } => (
            cylinder(o + d * val(lo), d, val(surf.radius)),
            val(hi) - val(lo),
        ),
    })
}

/// The bend of a face.
fn face_bend(brep: &BRep, face: FaceId) -> Option<Bend> {
    let f = brep.faces.get(face)?;
    let FaceGeom::Torus(surf) = f.geom else { return None };
    let plain = Bend { surf, lo: 0.0, hi: 0.0 };
    let near = |from: f64, t: f64| t + TAU * ((from - t) / TAU).round();
    let probe = match &f.extent {
        FaceExtent::TorusFillet { start_circle, end_circle } => {
            let (s, e) = (of_point(start_circle.frame.origin), of_point(end_circle.frame.origin));
            let lo = plain.angle(s);
            BendProbe {
                gap: num((s - e).length()),
                start: num(lo),
                end: num(near(lo, plain.angle(e))),
                angles: Vec::new(),
            }
        }
        _ => {
            let walk = loop_samples(brep, face, false);
            let base = walk.first().map_or(0.0, |&p| plain.angle(p));
            BendProbe {
                gap: num(1.0),
                start: num(0.0),
                end: num(0.0),
                angles: walk.iter().map(|&p| num(near(base, plain.angle(p)))).collect(),
            }
        }
    };
    intersect::torus_arc(brep, face, &probe).map(|(surf, lo, hi)| Bend {
        surf,
        lo: val(lo),
        hi: val(hi),
    })
}

/// What is measured between two faces.
fn measure_pair<K: Kernel>(
    a: &BRep,
    fa: FaceId,
    b: &BRep,
    fb: FaceId,
    how: SurfacePair,
    kernel: &K,
) -> Option<PairProbe> {
    let (one, other) = (a.faces.get(fa)?, b.faces.get(fb)?);
    Some(match (how, &one.geom, &other.geom) {
        (SurfacePair::Planes, FaceGeom::Plane(p), FaceGeom::Plane(q)) => PairProbe::Planes(
            planes_probe(p, &face_polygon(a, fa)?, q, &face_polygon(b, fb)?),
        ),
        (SurfacePair::PlaneCylinder, FaceGeom::Plane(p), _) => {
            let (cyl, length) = face_band(b, fb)?;
            PairProbe::Conic(conic_probe(p, &face_polygon(a, fa)?, &cyl, length))
        }
        (SurfacePair::CylinderPlane, _, FaceGeom::Plane(p)) => {
            let (cyl, length) = face_band(a, fa)?;
            PairProbe::Conic(conic_probe(p, &face_polygon(b, fb)?, &cyl, length))
        }
        (SurfacePair::Cylinders, _, _) => {
            let ((ca, la), (cb, lb)) = (face_band(a, fa)?, face_band(b, fb)?);
            let leg = |surf, length| {
                cadcore::scaffold::TubePart::Leg(cadcore::scaffold::LegSeg {
                    surf,
                    length: num(length),
                })
            };
            let loops = kernel.closed_loops_between(&leg(ca, la), &leg(cb, lb));
            PairProbe::Cylinders(CylindersProbe {
                alignment: num(of_direction(ca.frame.z).dot(of_direction(cb.frame.z)).abs()),
                lines: parallel_lines(&ca, la, &cb, lb),
                loops: loops
                    .iter()
                    .map(|l| l.iter().map(|p| p.point()).collect())
                    .collect(),
            })
        }
        (SurfacePair::TorusCylinder, _, _) => {
            PairProbe::Loops(torus_cyl(&face_bend(a, fa)?, &face_band(b, fb)?.0, kernel))
        }
        (SurfacePair::CylinderTorus, _, _) => {
            PairProbe::Loops(torus_cyl(&face_bend(b, fb)?, &face_band(a, fa)?.0, kernel))
        }
        (SurfacePair::Tori, _, _) => {
            PairProbe::Loops(torus_torus(&face_bend(a, fa)?, &face_bend(b, fb)?, kernel))
        }
        (SurfacePair::PlaneTorus, FaceGeom::Plane(p), _) => {
            let bend = face_bend(b, fb)?;
            PairProbe::Loops(plane_torus(p, &face_polygon(a, fa)?, &bend, kernel))
        }
        (SurfacePair::TorusPlane, _, FaceGeom::Plane(p)) => {
            let bend = face_bend(a, fa)?;
            PairProbe::Loops(plane_torus(p, &face_polygon(b, fb)?, &bend, kernel))
        }
        _ => return None,
    })
}

/// What is measured between two faces, for the chosen pairs of surfaces.
fn pair_probe<K: Kernel>(
    a: &BRep,
    fa: FaceId,
    b: &BRep,
    fb: FaceId,
    opts: SsiOptions,
    kernel: &K,
) -> PairProbe {
    let how = match (a.faces.get(fa), b.faces.get(fb)) {
        (Some(one), Some(other)) => pair_surfaces(&one.geom, &other.geom, opts),
        _ => panic!("no such face"),
    };
    measure_pair(a, fa, b, fb, how, kernel).unwrap_or(PairProbe::Nothing)
}

/// The curves in which two faces meet, for the chosen pairs of surfaces.
fn intersect_faces_with<K: Kernel>(
    a: &BRep,
    fa: FaceId,
    b: &BRep,
    fb: FaceId,
    opts: SsiOptions,
    kernel: &K,
) -> Vec<SsiCurve> {
    let probe = pair_probe(a, fa, b, fb, opts, kernel);
    intersect::intersect_faces_with(a, fa, b, fb, opts, &probe)
}

/// The curves in which two faces meet, for every pair of surfaces but plane and
/// torus.
fn intersect_faces<K: Kernel>(
    a: &BRep,
    fa: FaceId,
    b: &BRep,
    fb: FaceId,
    kernel: &K,
) -> Vec<SsiCurve> {
    intersect_faces_with(a, fa, b, fb, SsiOptions::default(), kernel)
}

/// How far behind a cap material is looked for.
const CAP_PROBE: f64 = 1.0e-4;

/// The distances between any two points.
fn distances(points: &[Vec3]) -> Vec<Vec<Real>> {
    points
        .iter()
        .map(|&a| points.iter().map(|&b| num((a - b).length())).collect())
        .collect()
}

/// The squared distances between any two points.
fn squares(points: &[Vec3]) -> Vec<Vec<Real>> {
    points
        .iter()
        .map(|&a| points.iter().map(|&b| num((a - b).dot(a - b))).collect())
        .collect()
}

/// The distances between which a box is from a plane.
fn box_range(lo: Vec3, hi: Vec3, keep: &Plane3) -> (f64, f64) {
    let n = of_direction(keep.frame.z);
    let d = n.dot((lo + hi) * 0.5 - of_point(keep.frame.origin));
    let half = (hi - lo) * 0.5;
    let reach = n.x.abs() * half.x + n.y.abs() * half.y + n.z.abs() * half.z;
    (d - reach, d + reach)
}

/// A finite face on the plane, as wide as the part.
fn cutting_face(brep: &mut BRep, pl: &Plane3, half: f64) -> FaceId {
    let (o, x, y) =
        (of_point(pl.frame.origin), of_direction(pl.frame.x), of_direction(pl.frame.y));
    let corner = |u: f64, v: f64| (o + x * u + y * v).point();
    brep.add_face(Face {
        geom: FaceGeom::Plane(*pl),
        normal: FaceNormal::Same,
        outer_loop: LoopId::default(),
        inner_loops: Vec::new(),
        shell: ShellId::default(),
        extent: FaceExtent::Polygon {
            points: vec![
                corner(-half, -half),
                corner(half, -half),
                corner(half, half),
                corner(-half, half),
            ],
        },
    })
}

/// The points of a curve.
fn curve_points(c: &SsiCurve) -> Vec<Vec3> {
    c.points.iter().map(|&p| of_point(p)).collect()
}

/// The segments of two curves against each other.
fn measure_pairs(
    one: &[(f64, f64)],
    other: &[(f64, f64)],
    lift: &dyn Fn(f64, f64) -> Vec3,
) -> PairTable {
    let measure = |a: &[(f64, f64)], b: &[(f64, f64)]| {
        let da = (a[1].0 - a[0].0, a[1].1 - a[0].1);
        let db = (b[1].0 - b[0].0, b[1].1 - b[0].1);
        let den = da.0 * db.1 - da.1 * db.0;
        let w = (b[0].0 - a[0].0, b[0].1 - a[0].1);
        let first = (w.0 * db.1 - w.1 * db.0) / den;
        let t = first.clamp(0.0, 1.0);
        SegPair {
            meet: SegMeet {
                den: num(den),
                first: num(first),
                second: num((w.0 * da.1 - w.1 * da.0) / den),
            },
            point: lift(a[0].0 + da.0 * t, a[0].1 + da.1 * t).point(),
        }
    };
    one.windows(2).map(|a| other.windows(2).map(|b| measure(a, b)).collect()).collect()
}

/// The sections split where they cross.
fn split(sections: Vec<Section>, pl: &Plane3, tol: f64) -> Vec<Section> {
    let (o, x, y) =
        (of_point(pl.frame.origin), of_direction(pl.frame.x), of_direction(pl.frame.y));
    let lift = |u: f64, v: f64| o + x * u + y * v;
    let uv = |p: Vec3| (x.dot(p - o), y.dot(p - o));
    let open: Vec<Vec<(f64, f64)>> = sections
        .iter()
        .map(|s| curve_points(&s.curve).into_iter().map(uv).collect())
        .collect();
    let flat: Vec<Vec<(f64, f64)>> = sections
        .iter()
        .zip(&open)
        .map(|(s, pts)| {
            let mut pts = if pts.len() < 2 { Vec::new() } else { pts.clone() };
            if s.curve.closed && !pts.is_empty() {
                pts.push(pts[0]);
            }
            pts
        })
        .collect();
    let n = flat.len();
    let later = |i: usize, j: usize| -> &[(f64, f64)] { if j > i { &flat[i] } else { &[] } };
    let pairs: Vec<Vec<PairTable>> = (0..n)
        .map(|i| (0..n).map(|j| measure_pairs(later(i, j), &flat[j], &lift)).collect())
        .collect();
    let crossings = section_crossings(&pairs);
    let sheets: Vec<SplitSheet> = (0..sections.len())
        .map(|k| {
            let cuts: Vec<Vec3> =
                cuts_of(&crossings, k).iter().map(|c| of_point(c.point)).collect();
            let points: Vec<Vec3> = open[k].iter().map(|&(u, v)| lift(u, v)).collect();
            let mut nodes = points.clone();
            if sections[k].curve.closed {
                nodes.extend(points.first());
            }
            nodes.extend(&cuts);
            SplitSheet {
                flat: points.iter().map(|p| p.point()).collect(),
                apart: distances(&cuts),
                squares: squares(&nodes),
            }
        })
        .collect();
    presplit_sections(sections, &sheets, &pairs, num(tol), num(tol * tol))
}

/// A polyline against several joints.
fn measure_pieces(poly: &[Vec3], joints: &[Vec3]) -> Vec<PieceProbe> {
    poly.windows(2)
        .map(|w| {
            let seg = w[1] - w[0];
            let len2 = seg.dot(seg);
            PieceProbe {
                length2: num(len2),
                tol: num((0.3 * len2.sqrt()).min(0.01)),
                feet: joints
                    .iter()
                    .map(|&j| {
                        let t = seg.dot(j - w[0]) / len2;
                        Foot {
                            along: num(t),
                            off: num((j - (w[0] + seg * t)).length()),
                            from_start: num((j - w[0]).length()),
                        }
                    })
                    .collect(),
            }
        })
        .collect()
}

/// The samples of a co-edge in its direction of travel, with the joints on it.
fn jointed_samples(brep: &BRep, coedge: CoEdgeId, joints: &[Vec3]) -> Vec<Vec3> {
    let Some(ce) = brep.coedges.get(coedge) else { return Vec::new() };
    let mut along = sample_edge(brep, ce.edge);
    if ce.sense == CoEdgeSense::Opposite {
        along.reverse();
    }
    let spots: Vec<Point3> = joints.iter().map(|p| p.point()).collect();
    let mut poly: Vec<Point3> = along.iter().map(|p| p.point()).collect();
    insert_joints(&mut poly, &spots, &measure_pieces(&along, joints), &distances(joints));
    poly.into_iter().map(of_point).collect()
}

/// The boundaries of a face with the joints on them, as chains.
fn face_chains<K: Kernel>(
    src: &BRep,
    face: FaceId,
    joints: &[Vec3],
    kernel: &K,
) -> Vec<Vec<Uv>> {
    let mut rings = Vec::new();
    if src.has_real_loops(face) {
        assert!(loops_lead_back(src, face), "a loop does not close");
        for ring in src.face_rings(face) {
            let walk: Vec<Vec3> =
                ring.iter().flat_map(|&c| jointed_samples(src, c, joints)).collect();
            let uv: Option<Vec<Uv>> = walk.iter().map(|&p| kernel.uv(src, face, p)).collect();
            if let Some(uv) = uv {
                rings.push(RingWalk { walk: uv, apart: distances(&walk) });
            }
        }
    }
    boundary_chains_with_joints(src, face, &rings, kernel.template_chains(src, face))
}

/// Every chain that cuts up a face.
fn all_chains<K: Kernel>(
    src: &BRep,
    face: FaceId,
    sections: &[Section],
    joints: &[Vec3],
    kernel: &K,
) -> Vec<FaceChain> {
    let curves: Vec<UvCurve> = sections
        .iter()
        .filter(|s| s.owner == face)
        .map(|s| UvCurve {
            pts: curve_points(&s.curve).iter().filter_map(|&p| kernel.uv(src, face, p)).collect(),
            closed: s.curve.closed,
        })
        .collect();
    arranged_chains(&face_chains(src, face, joints, kernel), &curves)
}

/// Where the seam of a cylinder is turned to: the middle of the widest gap
/// between the angles of its chains.
fn park_seam(chains: &[FaceChain]) -> Option<f64> {
    let spans: Vec<ChainSpan> = chains
        .iter()
        .map(|c| {
            let us: Vec<f64> = c.pts.iter().map(|p| val(p.u)).collect();
            let lo = us.iter().copied().fold(f64::MAX, f64::min);
            let hi = us.iter().copied().fold(f64::MIN, f64::max);
            ChainSpan {
                width: num(hi - lo),
                turns: us.iter().map(|u| num(u.rem_euclid(TAU))).collect(),
            }
        })
        .collect();
    let us: Vec<f64> = seam_samples(&spans).into_iter().map(val).collect();
    let mut gaps = Vec::new();
    let mut middles = Vec::new();
    for (i, &a) in us.iter().enumerate() {
        let b = if i + 1 < us.len() { us[i + 1] } else { us[0] + TAU };
        gaps.push(num(b - a));
        middles.push(num(0.5 * (a + b)));
    }
    seam_rotation(&gaps, &middles).map(val)
}

// Floating point: turning a frame about its axis is computed, not decided.
/// The points where chains cross a seam at the given angle of a cylinder.
fn seam_points(src: &BRep, face: FaceId, chains: &[FaceChain], seam: f64) -> Vec<Vec3> {
    let Some(FaceGeom::Cylinder(c)) = src.faces.get(face).map(|f| f.geom) else {
        return Vec::new();
    };
    let (o, x, y, z) = (
        of_point(c.frame.origin),
        of_direction(c.frame.x),
        of_direction(c.frame.y),
        of_direction(c.frame.z),
    );
    let spoke = (x * seam.cos() + y * seam.sin()) * val(c.radius);
    let turn = |u: f64| {
        let t = u - seam;
        t - TAU * ((t + PI) / TAU).floor()
    };
    let steps: Vec<SeamStep> = chains
        .iter()
        .flat_map(|ch| ch.pts.windows(2))
        .map(|w| {
            let (a, b) = (turn(val(w[0].u)), turn(val(w[1].u)));
            let t = a / (a - b);
            let v = val(w[0].v) + (val(w[1].v) - val(w[0].v)) * t;
            SeamStep {
                from: num(a),
                to: num(b),
                jump: num((a - b).abs()),
                along: num(t),
                point: (o + spoke + z * v).point(),
            }
        })
        .collect();
    seam_crossings(&steps).into_iter().map(of_point).collect()
}

/// The points on spots of their own.
fn spread(points: &[Vec3]) -> Vec<Vec3> {
    let spots: Vec<Point3> = points.iter().map(|p| p.point()).collect();
    distinct_spots(&spots, &distances(points)).into_iter().map(of_point).collect()
}

/// A face's own loops, split at the joints.
fn copy_loops(src: &BRep, face: FaceId, joints: &[Vec3], tol: f64) -> CellLoops {
    let mut loops: Vec<_> = Vec::new();
    if loops_lead_back(src, face) {
        for ring in src.face_rings(face) {
            loops.push(
                ring.iter()
                    .map(|&c| jointed_samples(src, c, joints))
                    .filter(|path| !path.is_empty())
                    .map(|path| cell_step(&path, tol))
                    .collect::<Vec<_>>(),
            );
        }
    }
    let holes = if loops.is_empty() { Vec::new() } else { loops.split_off(1) };
    CellLoops { outer: loops.pop().unwrap_or_default(), holes }
}

/// How many steps and loops a cell has.
fn steps(loops: &CellLoops) -> usize {
    1 + loops.outer.len() + loops.holes.iter().map(|h| 1 + h.len()).sum::<usize>()
}

/// The cells of the plane inside the section.
fn cap_cells<K: Kernel>(
    src: &BRep,
    faces: &[FaceId],
    cap: &Plane3,
    keep_normal: Vec3,
    half: f64,
    loops: &[Vec<Point3>],
    kernel: &K,
) -> Vec<CapCell> {
    let (o, x, y) =
        (of_point(cap.frame.origin), of_direction(cap.frame.x), of_direction(cap.frame.y));
    let uv = |p: Vec3| Uv { u: num(x.dot(p - o)), v: num(y.dot(p - o)) };
    let at = |u: f64, v: f64| Uv { u: num(u), v: num(v) };
    let mut chains = vec![FaceChain {
        pts: vec![
            at(-half, -half),
            at(half, -half),
            at(half, half),
            at(-half, half),
            at(-half, -half),
        ],
        tag: RECT_TAG,
    }];
    for (k, lp) in loops.iter().enumerate() {
        let mut pts: Vec<Uv> = lp.iter().map(|&p| uv(of_point(p))).collect();
        pts.extend(pts.first().copied());
        chains.push(FaceChain { pts, tag: SECTION_TAG + k as u32 });
    }
    kernel
        .arrange_plane(cap, &chains)
        .into_iter()
        .map(|KernelCell { inside, tags, loops }| CapCell {
            filled: kernel.in_solid(src, faces, inside + keep_normal * CAP_PROBE),
            tags,
            loops,
        })
        .collect()
}

/// Cut the solid that faces bound, keeping what the plane's normal points to.
fn half_space_cut<K: Kernel>(
    src: &BRep,
    faces: &[FaceId],
    keep: &Plane3,
    knit: f64,
    kernel: &K,
) -> Option<CutOutcome> {
    let mut lo = v3(f64::MAX, f64::MAX, f64::MAX);
    let mut hi = v3(f64::MIN, f64::MIN, f64::MIN);
    for &f in faces {
        let (a, b) = kernel.face_box(src, f);
        lo = v3(lo.x.min(a.x), lo.y.min(a.y), lo.z.min(a.z));
        hi = v3(hi.x.max(b.x), hi.y.max(b.y), hi.z.max(b.z));
    }
    let n = of_direction(keep.frame.z);
    let half = ((hi - lo).length() * 1.5).max(1.0);
    let centre = (lo + hi) * 0.5;
    let on_plane = centre - n * n.dot(centre - of_point(keep.frame.origin));
    let cut_plane = Plane3 { frame: Frame3 { origin: on_plane.point(), ..keep.frame } };
    let mut cutter = BRep::new();
    let cutting = cutting_face(&mut cutter, &cut_plane, half);
    let weld = knit.clamp(5e-4, 1e-2);

    let tol = halfspace::knit_tolerance(num(knit));
    let probes: Vec<SectionProbe> = faces
        .iter()
        .map(|&f| {
            let (a, b) = kernel.face_box(src, f);
            let (low, high) = box_range(a, b, keep);
            let pair = match halfspace::straddle(num(low), num(high), tol) {
                Side::Straddles => pair_probe(src, f, &cutter, cutting, SsiOptions::all(), kernel),
                _ => PairProbe::Nothing,
            };
            SectionProbe { face: f, low: num(low), high: num(high), pair }
        })
        .collect();
    let sections = halfspace::section_curves(src, &cutter, cutting, &probes, num(knit));
    let sections = kernel.snap_ends(sections, (knit * 30.0).clamp(1e-3, 0.05));
    let sections = split(sections, &cut_plane, weld);

    let curves: Vec<SsiCurve> = sections.iter().map(|s| s.curve.clone()).collect();
    let ends: Vec<Vec3> = arc_ends(&curves).into_iter().map(of_point).collect();
    let mut joints: Vec<Vec3> =
        section_joints(&curves, &distances(&ends)).into_iter().map(of_point).collect();
    let mut seams: Vec<(FaceId, f64)> = Vec::new();
    for &f in faces {
        let band = matches!(src.faces.get(f).map(|face| face.geom), Some(FaceGeom::Cylinder(_)));
        if !band || !sections.iter().any(|s| s.owner == f) {
            continue;
        }
        let chains = all_chains(src, f, &sections, &joints, kernel);
        let seam = park_seam(&chains).unwrap_or(0.0);
        seams.push((f, seam));
        joints.extend(seam_points(src, f, &chains, seam));
        joints = spread(&joints);
    }

    let sheets: Vec<CutSheet> = faces
        .iter()
        .map(|&face| {
            let (a, b) = kernel.face_box(src, face);
            let (low, high) = box_range(a, b, keep);
            let chains = all_chains(src, face, &sections, &joints, kernel);
            let seam = seams.iter().find(|s| s.0 == face).map(|s| s.1);
            let cells = kernel
                .arrange_face(src, face, &chains, seam)
                .into_iter()
                .map(|cell| CutCell {
                    distance: num(n.dot(cell.inside - of_point(keep.frame.origin))),
                    on_face: kernel.on_face(src, face, cell.inside),
                    loops: cell.loops,
                })
                .collect();
            CutSheet {
                face,
                low: num(low),
                high: num(high),
                has_domain: kernel.uv(src, face, a).is_some(),
                copy: copy_loops(src, face, &joints, weld),
                cells,
            }
        })
        .collect();

    let tails: Vec<Vec3> = curves
        .iter()
        .flat_map(|c| {
            let pts = curve_points(c);
            let first = pts.first().copied().unwrap_or(on_plane);
            [first, pts.last().copied().unwrap_or(first)]
        })
        .collect();
    let loops = section_loops(&curves, &distances(&tails), num(weld));
    let cap = plane(on_plane, -n);
    let caps = cap_cells(src, faces, &cap, n, half, &loops, kernel);
    let lateral: usize = sheets
        .iter()
        .map(|s| steps(&s.copy) + s.cells.iter().map(|c| steps(&c.loops)).sum::<usize>())
        .sum();
    let closing: usize = caps.iter().map(|c| steps(&c.loops)).sum();
    assert!(lateral + closing <= SLOT_LIMIT / 2, "the model is full");
    halfspace::half_space_cut(src, sheets, &sections, cap, &loops, caps, num(knit))
}

// ── A kernel for simple shapes ──────────────────────────────────────────────

/// Exact answers for square tubes, planes across the x-axis, and a cylinder
/// about the z-axis.
struct Exact;

/// The loop in which two tubes that run square to each other meet.
fn square_loop(a: &LegSeg, b: &LegSeg) -> Option<Vec<Vec3>> {
    let (oa, u, la) = leg_line(a);
    let (ob, v, lb) = leg_line(b);
    if u.dot(v).abs() > 1e-9 {
        return None;
    }
    let w = u.cross(v);
    let (ra, rb) = (val(a.surf.radius), val(b.surf.radius));
    let gap = w.dot(ob - oa);
    let (flip, gap) = if gap < 0.0 { (-1.0, -gap) } else { (1.0, gap) };
    let (lo, hi) = (gap - rb, ra);
    if lo >= hi {
        return None;
    }
    let (s0, t0) = (u.dot(ob - oa), v.dot(oa - ob));
    let n = 16;
    let mut points = Vec::new();
    for (ss, ts, up) in
        [(1.0, 1.0, true), (1.0, -1.0, false), (-1.0, -1.0, true), (-1.0, 1.0, false)]
    {
        for k in 0..n {
            let x = 0.5 - 0.5 * (std::f64::consts::PI * k as f64 / n as f64).cos();
            let h = if up { lo + (hi - lo) * x } else { hi - (hi - lo) * x };
            let t = ts * (ra * ra - h * h).max(0.0).sqrt();
            let s = ss * (rb * rb - (h - gap) * (h - gap)).max(0.0).sqrt();
            points.push(oa + u * (s0 + s) + v * t + w * (flip * h));
            if s0 + s < 0.0 || s0 + s > la || t0 + t < 0.0 || t0 + t > lb {
                return None;
            }
        }
    }
    Some(points)
}

/// The loop in which a bend meets a leg that runs straight away from its axis.
fn radial_loop(e: &ElbowSeg, leg: &LegSeg) -> Option<Vec<Vec3>> {
    let f = &e.surf.frame;
    let (centre, z) = (of_point(f.origin), of_direction(f.z));
    let (o, d, length) = leg_line(leg);
    let w = o - centre;
    let out = (w - z * z.dot(w)).unit()?;
    if out.dot(d) < 1.0 - 1e-9 {
        return None;
    }
    let (major, minor, r) =
        (val(e.surf.major_radius), val(e.surf.minor_radius), val(leg.surf.radius));
    let side = d.cross(z);
    let at = |phi: f64, s: f64| o + d * s + (side * phi.cos() + z * phi.sin()) * r;
    // How far a point of the leg is outside the bend's tube.
    let off = |phi: f64, s: f64| {
        let w = at(phi, s) - centre;
        let h = z.dot(w);
        ((w - z * h).length() - major).hypot(h) - minor
    };
    // Where a line along the leg is deepest in the tube.
    let deepest = |phi: f64| {
        let (mut a, mut b) = (0.0, length);
        for _ in 0..100 {
            let (m, n) = (a + (b - a) / 3.0, b - (b - a) / 3.0);
            if off(phi, m) < off(phi, n) {
                b = n;
            } else {
                a = m;
            }
        }
        0.5 * (a + b)
    };
    let halve = |f: &dyn Fn(f64) -> f64, mut inside: f64, mut outside: f64| {
        for _ in 0..100 {
            let m = 0.5 * (inside + outside);
            if f(m) < 0.0 {
                inside = m;
            } else {
                outside = m;
            }
        }
        inside
    };
    let low = -std::f64::consts::FRAC_PI_2;
    let depth = |phi: f64| off(phi, deepest(phi));
    if depth(low) >= 0.0 || depth(low + PI) < 0.0 {
        return None;
    }
    let (first, last) = (halve(&depth, low, low - PI), halve(&depth, low, low + PI));
    let n = 32;
    let phi = |k: usize| {
        first + (last - first) * 0.5 * (1.0 - (std::f64::consts::PI * k as f64 / n as f64).cos())
    };
    let entry = |phi: f64| at(phi, halve(&|s| off(phi, s), deepest(phi), 0.0));
    let exit = |phi: f64| at(phi, halve(&|s| off(phi, s), deepest(phi), length));
    let mut points: Vec<Vec3> = (0..n).map(|k| entry(phi(k))).collect();
    points.extend((0..n).map(|k| exit(phi(n - k))));
    Some(points)
}

fn on_plane(pl: &Plane3, p: Vec3) -> Vec3 {
    let n = of_direction(pl.frame.z);
    p - n * n.dot(p - of_point(pl.frame.origin))
}

fn on_torus(t: &TorusSurf, p: Vec3) -> Vec3 {
    let f = &t.frame;
    let w = p - of_point(f.origin);
    let z = of_direction(f.z);
    let spine = (w - z * z.dot(w)).unit().unwrap() * val(t.major_radius);
    of_point(f.origin) + spine + (w - spine).unit().unwrap() * val(t.minor_radius)
}

/// A circle about the z-axis of a cylinder.
fn level(c: &CylSurf, v: f64) -> Vec<Vec3> {
    (0..64)
        .map(|k| {
            let t = TAU * k as f64 / 64.0;
            of_point(c.frame.origin)
                + (of_direction(c.frame.x) * t.cos() + of_direction(c.frame.y) * t.sin())
                    * val(c.radius)
                + of_direction(c.frame.z) * v
        })
        .collect()
}

fn disk_rim(pl: &Plane3, radius: f64) -> Vec<Vec3> {
    (0..64)
        .map(|k| {
            let t = TAU * k as f64 / 64.0;
            of_point(pl.frame.origin)
                + (of_direction(pl.frame.x) * t.cos() + of_direction(pl.frame.y) * t.sin())
                    * radius
        })
        .collect()
}

fn tube_length(f: &Face) -> f64 {
    match f.extent {
        FaceExtent::Cylinder { length, .. } => val(length),
        _ => 0.0,
    }
}

const KNIT: f64 = 5e-4;

impl Kernel for Exact {
    fn snap_ends(&self, sections: Vec<Section>, _within: f64) -> Vec<Section> {
        sections
    }

    fn closed_loops_between(&self, a: &TubePart, b: &TubePart) -> Vec<Vec<Vec3>> {
        match (a, b) {
            (TubePart::Leg(a), TubePart::Leg(b)) => square_loop(a, b).into_iter().collect(),
            (TubePart::Elbow(e), TubePart::Leg(b)) => radial_loop(e, b).into_iter().collect(),
            _ => Vec::new(),
        }
    }

    fn intersection_point_near(&self, a: &FaceGeom, b: &FaceGeom, p: Vec3) -> Option<Vec3> {
        match (a, b) {
            (FaceGeom::Plane(pl), FaceGeom::Torus(t)) => {
                let mut q = p;
                for _ in 0..200 {
                    q = on_torus(t, on_plane(pl, q));
                }
                let off = (q - on_plane(pl, q)).length();
                if off < 1e-9 {
                    Some(q)
                } else {
                    None
                }
            }
            _ => None,
        }
    }

    fn trace_closed_loop(&self, a: &FaceGeom, b: &FaceGeom, seed: Vec3) -> Option<Vec<Vec3>> {
        match (a, b) {
            (FaceGeom::Plane(pl), FaceGeom::Torus(t)) => {
                let c = val(pl.frame.origin.x);
                let (major, minor) = (val(t.major_radius), val(t.minor_radius));
                let far = ((major + minor).powi(2) - c * c).sqrt();
                let inner = (major - minor).powi(2) - c * c;
                let near = if inner > 0.0 { inner.sqrt() } else { -far };
                let side = if inner > 0.0 { seed.y.signum() } else { 1.0 };
                Some(
                    (0..400)
                        .map(|k| {
                            let s = TAU * k as f64 / 400.0;
                            let y = side * (0.5 * (far + near) + 0.5 * (far - near) * s.cos());
                            let off = (c * c + y * y).sqrt() - major;
                            let z = (minor * minor - off * off).max(0.0).sqrt();
                            v3(c, y, if s.sin() >= 0.0 { z } else { -z })
                        })
                        .collect(),
                )
            }
            _ => None,
        }
    }

    fn rough_loops(&self, _torus: &FaceGeom, _cylinder: &FaceGeom) -> Vec<Vec<Vec3>> {
        Vec::new()
    }

    fn uv(&self, brep: &BRep, face: FaceId, p: Vec3) -> Option<Uv> {
        match brep.faces.get(face)?.geom {
            FaceGeom::Cylinder(c) => {
                let w = p - of_point(c.frame.origin);
                let u = of_direction(c.frame.y).dot(w).atan2(of_direction(c.frame.x).dot(w));
                Some(Uv { u: num(u), v: num(of_direction(c.frame.z).dot(w)) })
            }
            FaceGeom::Plane(pl) => {
                let (u, v) = flat(&pl, p);
                Some(Uv { u: num(u), v: num(v) })
            }
            _ => None,
        }
    }

    fn template_chains(&self, brep: &BRep, face: FaceId) -> Vec<Vec<Uv>> {
        let f = brep.faces.get(face).unwrap();
        let rims: Vec<Vec<Vec3>> = match (&f.geom, &f.extent) {
            (FaceGeom::Cylinder(c), _) => vec![level(c, 0.0), level(c, tube_length(f))],
            (FaceGeom::Plane(pl), FaceExtent::Disk { radius }) => vec![disk_rim(pl, val(*radius))],
            _ => Vec::new(),
        };
        rims.iter()
            .map(|rim| rim.iter().filter_map(|&p| self.uv(brep, face, p)).collect())
            .collect()
    }

    fn arrange_face(
        &self,
        brep: &BRep,
        face: FaceId,
        chains: &[FaceChain],
        _seam: Option<f64>,
    ) -> Vec<KernelCell> {
        let f = brep.faces.get(face).unwrap();
        match (&f.geom, &f.extent) {
            (FaceGeom::Cylinder(c), _) => {
                let mut levels: Vec<f64> = chains.iter().map(|ch| val(ch.pts[0].v)).collect();
                levels.sort_by(|a, b| a.partial_cmp(b).unwrap());
                levels
                    .windows(2)
                    .map(|w| {
                        let middle = level(c, 0.5 * (w[0] + w[1]))[0];
                        KernelCell {
                            inside: middle,
                            tags: Vec::new(),
                            loops: CellLoops {
                                outer: vec![cell_step(&level(c, w[0]), KNIT)],
                                holes: vec![vec![cell_step(&level(c, w[1]), KNIT)]],
                            },
                        }
                    })
                    .collect()
            }
            (FaceGeom::Plane(pl), FaceExtent::Disk { radius }) => vec![KernelCell {
                inside: of_point(pl.frame.origin),
                tags: Vec::new(),
                loops: CellLoops {
                    outer: vec![cell_step(&disk_rim(pl, val(*radius)), KNIT)],
                    holes: Vec::new(),
                },
            }],
            _ => Vec::new(),
        }
    }

    fn arrange_plane(&self, pl: &Plane3, chains: &[FaceChain]) -> Vec<KernelCell> {
        let lift = |p: &Uv| {
            of_point(pl.frame.origin)
                + of_direction(pl.frame.x) * val(p.u)
                + of_direction(pl.frame.y) * val(p.v)
        };
        chains
            .iter()
            .map(|ch| {
                let path: Vec<Vec3> = ch.pts.iter().map(lift).collect();
                KernelCell {
                    inside: centre_of(&path[1..]),
                    tags: vec![ch.tag],
                    loops: CellLoops { outer: vec![cell_step(&path, KNIT)], holes: Vec::new() },
                }
            })
            .collect()
    }

    fn on_face(&self, brep: &BRep, face: FaceId, p: Vec3) -> bool {
        let f = brep.faces.get(face).unwrap();
        match &f.geom {
            FaceGeom::Cylinder(c) => {
                let v = of_direction(c.frame.z).dot(p - of_point(c.frame.origin));
                v >= 0.0 && v <= tube_length(f)
            }
            _ => true,
        }
    }

    fn in_solid(&self, brep: &BRep, faces: &[FaceId], p: Vec3) -> bool {
        faces.iter().any(|&f| match &brep.faces.get(f).unwrap().geom {
            FaceGeom::Cylinder(c) => {
                let w = p - of_point(c.frame.origin);
                let z = of_direction(c.frame.z);
                let v = z.dot(w);
                (w - z * v).length() < val(c.radius)
                    && v > 0.0
                    && v < tube_length(brep.faces.get(f).unwrap())
            }
            _ => false,
        })
    }

    fn face_box(&self, brep: &BRep, face: FaceId) -> (Vec3, Vec3) {
        let f = brep.faces.get(face).unwrap();
        let points: Vec<Vec3> = match (&f.geom, &f.extent) {
            (FaceGeom::Cylinder(c), FaceExtent::Cylinder { .. }) => {
                level(c, 0.0).into_iter().chain(level(c, tube_length(f))).collect()
            }
            (FaceGeom::Plane(pl), FaceExtent::Disk { radius }) => disk_rim(pl, val(*radius)),
            _ => loop_samples(brep, face, false),
        };
        let b = boxed(&points, 0.0);
        (of_point(b.min), of_point(b.max))
    }
}

fn p3(x: f64, y: f64, z: f64) -> Point3 {
    v3(x, y, z).point()
}

const X: Vec3 = Vec3 { x: 1.0, y: 0.0, z: 0.0 };
const Y: Vec3 = Vec3 { x: 0.0, y: 1.0, z: 0.0 };
const Z: Vec3 = Vec3 { x: 0.0, y: 0.0, z: 1.0 };

fn bare_face(geom: FaceGeom, extent: FaceExtent) -> Face {
    Face {
        geom,
        normal: FaceNormal::Same,
        outer_loop: LoopId::default(),
        inner_loops: Vec::new(),
        shell: ShellId::default(),
        extent,
    }
}

/// How often each edge of a shell is used.
fn edge_uses(brep: &BRep, shell: ShellId) -> HashMap<EdgeId, Vec<usize>> {
    let mut uses: HashMap<EdgeId, Vec<usize>> = HashMap::new();
    for (i, &fid) in brep.shells.get(shell).unwrap().faces.iter().enumerate() {
        for ring in brep.face_rings(fid) {
            for c in ring {
                uses.entry(brep.coedges.get(c).unwrap().edge).or_default().push(i);
            }
        }
    }
    uses
}

fn open_edges(brep: &BRep, shell: ShellId) -> usize {
    edge_uses(brep, shell).values().filter(|u| u.len() != 2).count()
}

/// How many pieces the faces of a shell hang together in.
fn components(brep: &BRep, shell: ShellId) -> usize {
    let n = brep.shells.get(shell).unwrap().faces.len();
    let mut parent: Vec<usize> = (0..n).collect();
    fn find(p: &[usize], mut x: usize) -> usize {
        while p[x] != x {
            x = p[x];
        }
        x
    }
    for faces in edge_uses(brep, shell).values() {
        for w in faces.windows(2) {
            let (a, b) = (find(&parent, w[0]), find(&parent, w[1]));
            parent[a] = b;
        }
    }
    (0..n).filter(|&i| find(&parent, i) == i).count()
}

fn face_count(brep: &BRep, shell: ShellId) -> usize {
    brep.shells.get(shell).unwrap().faces.len()
}

// ── Scaffolds ───────────────────────────────────────────────────────────────

fn crossing_serpentines() -> Vec<Filament> {
    let r = 0.275;
    let a = serpentine(
        &[p3(-2.0, 0.0, 0.0), p3(0.0, 0.0, 0.0), p3(0.0, 2.0, 0.0), p3(-2.0, 2.0, 0.0)],
        r,
        0.5,
    );
    let b = serpentine(
        &[
            p3(-1.5, -1.0, 0.35),
            p3(-1.5, 3.0, 0.35),
            p3(-0.8, 3.0, 0.35),
            p3(-0.8, -1.0, 0.35),
        ],
        r,
        0.3,
    );
    vec![a, b]
}

fn fused_scaffold() -> (BRep, ShellId) {
    let mut brep = BRep::new();
    let shell = fuse_scaffold_by(&mut brep, &crossing_serpentines(), &Exact, &Settings::default());
    (brep, shell)
}

#[test]
fn two_crossing_serpentines_watertight() {
    let (brep, shell) = fused_scaffold();
    assert_eq!(open_edges(&brep, shell), 0, "scaffold watertight");
    assert_eq!(components(&brep, shell), 1, "filaments fused into one solid");
    // Four legs cross four times: each window is four edges.
    let windows = edge_uses(&brep, shell)
        .keys()
        .filter(|&&e| matches!(brep.edges.get(e).unwrap().geom, EdgeGeom::Polyline(_)))
        .count();
    assert_eq!(windows, 16);
    let solid = brep.shells.get(shell).unwrap().solid;
    assert_eq!(brep.solids.get(solid).unwrap().name.as_deref(), Some("scaffold"));
    assert_eq!(brep.stats().faces, 14);
}

#[test]
fn windows_are_used_in_opposite_senses() {
    let (brep, shell) = fused_scaffold();
    for fid in &brep.shells.get(shell).unwrap().faces {
        assert_eq!(brep.faces.get(*fid).unwrap().shell, shell);
    }
    let mut senses: HashMap<EdgeId, Vec<CoEdgeSense>> = HashMap::new();
    for &fid in &brep.shells.get(shell).unwrap().faces {
        for ring in brep.face_rings(fid) {
            for c in ring {
                let ce = brep.coedges.get(c).unwrap();
                senses.entry(ce.edge).or_default().push(ce.sense);
            }
        }
    }
    for (edge, s) in senses {
        if matches!(brep.edges.get(edge).unwrap().geom, EdgeGeom::Polyline(_)) {
            assert_ne!(s[0], s[1], "a window edge must be used both ways");
        }
    }
}

#[test]
fn windows_too_near_a_rim_are_not_cut() {
    let r = 0.275;
    let long = serpentine(&[p3(-2.0, 0.0, 0.0), p3(2.0, 0.0, 0.0)], r, 0.5);
    let near_end = serpentine(&[p3(1.735, -2.0, 0.35), p3(1.735, 2.0, 0.35)], r, 0.5);
    let middle = serpentine(&[p3(0.0, -2.0, 0.35), p3(0.0, 2.0, 0.35)], r, 0.5);
    let filaments = vec![long, near_end, middle];
    let mut plain = BRep::new();
    let shell = fuse_scaffold_by(&mut plain, &filaments, &Exact, &Settings::default());
    assert_eq!(components(&plain, shell), 1);
    let mut safe = BRep::new();
    let shell = fuse_scaffold_rimsafe_by(&mut safe, &filaments, &Exact, &Settings::default());
    assert_eq!(components(&safe, shell), 2, "the crossing at the end is left alone");
    assert_eq!(open_edges(&safe, shell), 0);
}

#[test]
fn filaments_list_their_legs_before_their_bends() {
    let f = &crossing_serpentines()[0];
    let parts = f.tube();
    assert_eq!(parts.len(), 5);
    assert!(matches!(parts[2], TubePart::Leg(_)));
    assert!(matches!(parts[3], TubePart::Elbow(_)));
    let (start, dir, length) = leg_line(&f.legs[1]);
    assert!((start - v3(0.0, 0.5, 0.0)).length() < 1e-12);
    assert!((dir - Y).length() < 1e-12);
    assert!((length - 1.0).abs() < 1e-12);
    let sweep = val(f.elbows[0].theta_hi) - val(f.elbows[0].theta_lo);
    assert!((sweep.abs() - std::f64::consts::FRAC_PI_2).abs() < 1e-12);
}

#[test]
fn thinned_loops_keep_both_ends() {
    let points: Vec<Point3> = (0..100).map(|k| p3(k as f64, 0.0, 0.0)).collect();
    let few = cadcore::scaffold::decimate_loop(&points, 40, num(0.0));
    assert_eq!(few.len(), 34);
    assert_eq!(few[0], points[0]);
    assert_eq!(few[33], points[99]);
    let same = cadcore::scaffold::decimate_loop(&points[..30], 40, num(0.0));
    assert_eq!(same, points[..30].to_vec());
    let odd: Vec<Point3> = (0..120).map(|k| p3(k as f64, 0.0, 0.0)).collect();
    let full = cadcore::scaffold::decimate_loop(&odd, 40, num(2.0));
    assert_eq!(full.len(), 40);
    assert_eq!(full[39], odd[119]);
}

#[test]
fn boxes_that_touch_overlap() {
    let a = boxed(&[v3(0.0, 0.0, 0.0), v3(1.0, 1.0, 1.0)], 0.0);
    let b = boxed(&[v3(1.0, 0.5, 0.5), v3(2.0, 2.0, 2.0)], 0.0);
    let c = boxed(&[v3(1.1, 0.5, 0.5), v3(2.0, 2.0, 2.0)], 0.0);
    assert!(a.overlaps(&b) && b.overlaps(&a));
    assert!(!a.overlaps(&c) && !c.overlaps(&a));
}

// ── Shared edges ────────────────────────────────────────────────────────────

#[test]
fn shared_edge_opposite_senses() {
    let mut brep = BRep::new();
    let mut builder = Assembler::new();
    let poly = vec![v3(0.0, 0.0, 0.0), v3(1.0, 0.0, 0.0)];
    let (e1, s1) = builder.shared_edge(&mut brep, &path_use(&poly, 1e-7, 0));
    let rev: Vec<Vec3> = poly.iter().rev().copied().collect();
    let (e2, s2) = builder.shared_edge(&mut brep, &path_use(&rev, 1e-7, 0));
    assert_eq!(e1, e2, "same geometry is one edge");
    assert_eq!(s1, CoEdgeSense::Same);
    assert_eq!(s2, CoEdgeSense::Opposite, "second user flips");
    let (e3, _) = builder.shared_edge(&mut brep, &path_use(&poly, 1e-7, 1));
    assert_ne!(e1, e3, "another group is another edge");
}

#[test]
fn shared_circles_ignore_the_direction_of_the_axis() {
    let mut brep = BRep::new();
    let mut builder = Assembler::new();
    let up = circle_use(circle(v3(0.0, 0.0, 1.0), Z, 0.5), 1e-7, 0);
    let down = circle_use(circle(v3(0.0, 0.0, 1.0), -Z, 0.5), 1e-7, 0);
    let (e1, _) = builder.shared_circle(&mut brep, &up);
    let (e2, _) = builder.shared_circle(&mut brep, &down);
    assert_eq!(e1, e2);
    let wide = circle_use(circle(v3(0.0, 0.0, 1.0), Z, 0.6), 1e-7, 0);
    assert_ne!(builder.shared_circle(&mut brep, &wide).0, e1);
}

#[test]
fn circles_are_recognised_among_paths() {
    let round: Vec<Vec3> = (0..12)
        .map(|k| {
            let t = TAU * k as f64 / 12.0;
            v3(t.cos(), t.sin(), 2.0)
        })
        .collect();
    assert!(fit_circle(&cell_step(&round, 1e-7).fit).is_some());
    let mut bent = round.clone();
    bent[3].z = 2.1;
    assert!(fit_circle(&cell_step(&bent, 1e-7).fit).is_none());
    assert!(fit_circle(&cell_step(&round[..5], 1e-7).fit).is_none());
    let square = [v3(0.0, 0.0, 0.0), v3(2.0, 0.0, 0.0), v3(2.0, 1.0, 0.0)];
    assert!((middle(&square) - v3(1.5, 0.0, 0.0)).length() < 1e-12);
}

// ── Cutting with a plane ────────────────────────────────────────────────────

/// A tube with its two end caps.
fn capped_cylinder(brep: &mut BRep, base: Vec3, axis: Vec3, radius: f64, height: f64) -> Vec<FaceId> {
    let top = base + axis * height;
    let c = cylinder(base, axis, radius);
    vec![
        brep.add_face(bare_face(
            FaceGeom::Cylinder(c),
            FaceExtent::Cylinder {
                length: num(height),
                start: FaceBoundary::Circle(circle(base, axis, radius)),
                end: FaceBoundary::Circle(circle(top, axis, radius)),
            },
        )),
        brep.add_face(bare_face(
            FaceGeom::Plane(plane(base, -axis)),
            FaceExtent::Disk { radius: num(radius) },
        )),
        brep.add_face(bare_face(
            FaceGeom::Plane(plane(top, axis)),
            FaceExtent::Disk { radius: num(radius) },
        )),
    ]
}

/// Every point of every edge of a shell, sampled.
fn shell_points(brep: &BRep, shell: ShellId) -> Vec<Vec3> {
    brep.shells
        .get(shell)
        .unwrap()
        .faces
        .iter()
        .flat_map(|&f| loop_samples(brep, f, false))
        .collect()
}

fn signed_distance(pl: &Plane3, p: Vec3) -> f64 {
    of_direction(pl.frame.z).dot(p - of_point(pl.frame.origin))
}

fn deepest_past_plane(brep: &BRep, shell: ShellId, keep: &Plane3) -> f64 {
    shell_points(brep, shell)
        .into_iter()
        .map(|p| signed_distance(keep, p))
        .fold(f64::MAX, f64::min)
}

#[test]
fn cut_cylinder_across_axis_is_watertight() {
    let mut a = BRep::new();
    let fa = capped_cylinder(&mut a, v3(0.0, 0.0, 0.0), Z, 0.5, 4.0);
    let keep = plane(v3(0.0, 0.0, 2.5), -Z);
    let cut = half_space_cut(&a, &fa, &keep, 1e-6, &Exact).expect("cut runs");
    assert!(cut.caps >= 1, "the section must be capped");
    assert_eq!(
        cut.dropped, 1,
        "the far end cap is entirely past the plane and must be dropped"
    );
    assert_eq!(open_edges(&cut.brep, cut.shell), 0, "cut solid must stay watertight");
    assert!(
        deepest_past_plane(&cut.brep, cut.shell, &keep) > -1e-6,
        "material survived past the cut plane: {:.3e}",
        deepest_past_plane(&cut.brep, cut.shell, &keep)
    );
    let rim: Vec<Vec3> = shell_points(&cut.brep, cut.shell)
        .into_iter()
        .filter(|&p| signed_distance(&keep, p).abs() < 1e-6)
        .collect();
    assert!(!rim.is_empty(), "no section geometry at the plane");
    for p in &rim {
        let r = (p.x * p.x + p.y * p.y).sqrt();
        assert!((r - 0.5).abs() < 1e-3, "section rim off the tube radius: r={r:.6}");
    }
    assert_eq!(face_count(&cut.brep, cut.shell), 3);
    let solid = cut.brep.shells.get(cut.shell).unwrap().solid;
    assert_eq!(cut.brep.solids.get(solid).unwrap().name.as_deref(), Some("cut"));
}

#[test]
fn cut_missing_the_part_keeps_it_whole() {
    let mut a = BRep::new();
    let fa = capped_cylinder(&mut a, v3(0.0, 0.0, 0.0), Z, 0.5, 4.0);
    let keep = plane(v3(0.0, 0.0, -5.0), Z);
    let cut = half_space_cut(&a, &fa, &keep, 1e-6, &Exact).expect("cut runs");
    assert_eq!(cut.caps, 0, "nothing to cap");
    assert_eq!(cut.dropped, 0, "nothing to drop");
    assert_eq!(open_edges(&cut.brep, cut.shell), 0);
    assert_eq!(face_count(&cut.brep, cut.shell), fa.len(), "part unchanged");
    assert!(half_space_cut(&a, &[], &keep, 1e-6, &Exact).is_none(), "no faces, no cut");
}

#[test]
fn re_emitting_a_fused_scaffold_is_lossless() {
    let (fused, shell) = fused_scaffold();
    let faces = fused.shells.get(shell).unwrap().faces.clone();
    assert_eq!(open_edges(&fused, shell), 0, "fixture starts watertight");
    let keep = plane(v3(-50.0, 0.0, 0.0), X);
    let cut = half_space_cut(&fused, &faces, &keep, 1e-6, &Exact).expect("cut runs");
    assert_eq!(cut.caps, 0, "nothing to cap");
    assert_eq!(cut.dropped, 0, "nothing to drop");
    assert_eq!(
        face_count(&cut.brep, cut.shell),
        faces.len(),
        "face count must be preserved exactly"
    );
    assert_eq!(
        open_edges(&cut.brep, cut.shell),
        0,
        "re-emitting a fused shell must not lose a shared edge"
    );
    let gone = half_space_cut(&fused, &faces, &plane(v3(-50.0, 0.0, 0.0), -X), 1e-6, &Exact)
        .expect("cut runs");
    assert_eq!(gone.dropped, faces.len());
    assert_eq!(face_count(&gone.brep, gone.shell), 0);
}

#[test]
fn legacy_template_cut_cannot_touch_a_fused_shell() {
    let (fused, shell) = fused_scaffold();
    let templated = fused.shells.get(shell).unwrap().faces.iter().any(|&f| {
        let f = fused.faces.get(f).unwrap();
        matches!(
            (&f.geom, &f.extent),
            (FaceGeom::Cylinder(_), FaceExtent::Cylinder { .. })
        )
    });
    assert!(!templated, "a fused shell carries no template cylinder faces");
}

#[test]
fn sides_are_told_with_tolerance() {
    let side = |lo: f64, hi: f64, tol: f64| straddle(num(lo), num(hi), num(tol));
    assert_eq!(side(-1e-6, 5.0, 1e-6), Side::Kept);
    assert_eq!(side(-5.0, 1e-6, 1e-6), Side::Cut);
    assert_eq!(side(-1.0, 1.0, 1e-6), Side::Straddles);
    assert_eq!(side(-1e-7, 1e-7, 1e-6), Side::Kept, "on the plane is kept");
    assert_eq!(knit_tolerance(num(1e-12)), num(1e-9));
    assert_eq!(knit_tolerance(num(1e-3)), num(1e-3));
}

// ── Curves of two faces ─────────────────────────────────────────────────────

/// The six faces of a box.
fn axis_box(brep: &mut BRep, lo: Vec3, hi: Vec3) -> Vec<FaceId> {
    let at = |i: usize, j: usize, k: usize| {
        v3([lo.x, hi.x][i], [lo.y, hi.y][j], [lo.z, hi.z][k])
    };
    let sides = [
        ([at(0, 0, 0), at(0, 0, 1), at(0, 1, 1), at(0, 1, 0)], -X),
        ([at(1, 0, 0), at(1, 1, 0), at(1, 1, 1), at(1, 0, 1)], X),
        ([at(0, 0, 0), at(1, 0, 0), at(1, 0, 1), at(0, 0, 1)], -Y),
        ([at(0, 1, 0), at(0, 1, 1), at(1, 1, 1), at(1, 1, 0)], Y),
        ([at(0, 0, 0), at(0, 1, 0), at(1, 1, 0), at(1, 0, 0)], -Z),
        ([at(0, 0, 1), at(1, 0, 1), at(1, 1, 1), at(0, 1, 1)], Z),
    ];
    sides
        .iter()
        .map(|(corners, normal)| {
            brep.add_face(bare_face(
                FaceGeom::Plane(plane(corners[0], *normal)),
                FaceExtent::Polygon { points: corners.iter().map(|p| p.point()).collect() },
            ))
        })
        .collect()
}

#[test]
fn box_box_plane_plane_segment() {
    let mut a = BRep::new();
    let fa = axis_box(&mut a, v3(0.0, 0.0, 0.0), v3(2.0, 2.0, 2.0));
    let mut b = BRep::new();
    let fb = axis_box(&mut b, v3(1.0, 1.0, 1.0), v3(3.0, 3.0, 3.0));
    let mut total = 0usize;
    let mut seg_len_sum = 0.0;
    for &pa in &fa {
        for &pb in &fb {
            for c in intersect_faces(&a, pa, &b, pb, &Exact) {
                total += 1;
                let pts = curve_points(&c);
                seg_len_sum += (pts[1] - pts[0]).length();
                for &p in &pts {
                    if let (FaceGeom::Plane(pla), FaceGeom::Plane(plb)) =
                        (&a.faces.get(pa).unwrap().geom, &b.faces.get(pb).unwrap().geom)
                    {
                        assert!(signed_distance(pla, p).abs() < 1e-9);
                        assert!(signed_distance(plb, p).abs() < 1e-9);
                    }
                }
            }
        }
    }
    assert!(total > 0, "overlapping boxes produce SSI segments");
    assert!(seg_len_sum > 0.0);
    // The two boxes meet in a hexagon of unit edges.
    assert_eq!(total, 6);
    assert!((seg_len_sum - 6.0).abs() < 1e-9);
}

#[test]
fn disjoint_boxes_no_ssi() {
    let mut a = BRep::new();
    let fa = axis_box(&mut a, v3(0.0, 0.0, 0.0), v3(1.0, 1.0, 1.0));
    let mut b = BRep::new();
    let fb = axis_box(&mut b, v3(5.0, 5.0, 5.0), v3(6.0, 6.0, 6.0));
    for &pa in &fa {
        for &pb in &fb {
            assert!(intersect_faces(&a, pa, &b, pb, &Exact).is_empty());
        }
    }
}

fn plane_face(brep: &mut BRep, pl: Plane3, half: f64) -> FaceId {
    cutting_face(brep, &pl, half)
}

fn fillet_face(brep: &mut BRep, tor: TorusSurf, lo: f64, hi: f64) -> FaceId {
    let circ = |th: f64| {
        let (x, y) = (of_direction(tor.frame.x), of_direction(tor.frame.y));
        circle(
            of_point(tor.frame.origin) + (x * th.cos() + y * th.sin()) * val(tor.major_radius),
            y * th.cos() - x * th.sin(),
            val(tor.minor_radius),
        )
    };
    brep.add_face(bare_face(
        FaceGeom::Torus(tor),
        FaceExtent::TorusFillet { start_circle: circ(lo), end_circle: circ(hi) },
    ))
}

fn quarter_fillet() -> TorusSurf {
    TorusSurf {
        frame: frame(v3(0.0, 0.0, 0.0), X, Y, Z),
        major_radius: num(1.0),
        minor_radius: num(0.275),
    }
}

fn assert_on_both(curves: &[SsiCurve], pl: &Plane3, tor: &TorusSurf) {
    for c in curves {
        for p in curve_points(c) {
            assert!(signed_distance(pl, p).abs() < 1e-6, "point off the plane");
            assert!((p - on_torus(tor, p)).length() < 1e-6, "point off the torus");
        }
    }
}

#[test]
fn plane_cutting_a_fillet_yields_curves_on_both_surfaces() {
    let tor = quarter_fillet();
    let pl = plane(v3(0.7, 0.0, 0.0), X);
    let mut a = BRep::new();
    let fa = plane_face(&mut a, pl, 4.0);
    let mut b = BRep::new();
    let fb = fillet_face(&mut b, tor, 0.0, std::f64::consts::FRAC_PI_2);
    let curves = intersect_faces_with(&a, fa, &b, fb, SsiOptions::all(), &Exact);
    assert!(
        !curves.is_empty(),
        "a plane through the fillet must produce a section curve"
    );
    assert_on_both(&curves, &pl, &tor);
    assert!(!intersect_faces_with(&b, fb, &a, fa, SsiOptions::all(), &Exact).is_empty());
    assert!(
        intersect_faces(&a, fa, &b, fb, &Exact).is_empty(),
        "the pair has to be asked for"
    );
}

#[test]
fn plane_cutting_a_reversed_fillet_still_yields_curves() {
    let tor = quarter_fillet();
    let pl = plane(v3(0.7, 0.0, 0.0), X);
    let mut a = BRep::new();
    let fa = plane_face(&mut a, pl, 4.0);
    let mut b = BRep::new();
    let fb = fillet_face(&mut b, tor, std::f64::consts::FRAC_PI_2, 0.0);
    let curves = intersect_faces_with(&a, fa, &b, fb, SsiOptions::all(), &Exact);
    assert!(
        !curves.is_empty(),
        "a negative-sweep fillet must intersect exactly like the positive one"
    );
    assert_on_both(&curves, &pl, &tor);
}

#[test]
fn plane_missing_the_fillet_yields_nothing() {
    let tor = quarter_fillet();
    let mut b = BRep::new();
    let fb = fillet_face(&mut b, tor, 0.0, std::f64::consts::FRAC_PI_2);
    let mut a = BRep::new();
    let fa = plane_face(&mut a, plane(v3(5.0, 0.0, 0.0), X), 4.0);
    assert!(intersect_faces_with(&a, fa, &b, fb, SsiOptions::all(), &Exact).is_empty());
    let mut a2 = BRep::new();
    let fa2 = plane_face(&mut a2, plane(v3(-0.7, 0.0, 0.0), X), 4.0);
    assert!(
        intersect_faces_with(&a2, fa2, &b, fb, SsiOptions::all(), &Exact).is_empty(),
        "curves outside the fillet's arc must be clipped away"
    );
}

#[test]
fn fillet_curves_end_where_the_arc_ends() {
    // A plane that cuts both lobes of the ring, of which the face covers half
    // of one: the section is an open arc that ends on the rim.
    let tor = quarter_fillet();
    let pl = plane(v3(0.9, 0.0, 0.0), X);
    let mut a = BRep::new();
    let fa = plane_face(&mut a, pl, 4.0);
    let mut b = BRep::new();
    let fb = fillet_face(&mut b, tor, 0.0, std::f64::consts::FRAC_PI_2);
    let curves = intersect_faces_with(&a, fa, &b, fb, SsiOptions::all(), &Exact);
    assert_eq!(curves.len(), 1);
    assert!(!curves[0].closed);
    assert_on_both(&curves, &pl, &tor);
    let pts = curve_points(&curves[0]);
    assert!(pts[0].y.abs() < 1e-6 && pts[pts.len() - 1].y.abs() < 1e-6);
    assert!(pts.iter().all(|p| p.y > -1e-6));
}

fn tube_face(brep: &mut BRep, cyl: CylSurf, r: f64, len: f64) -> FaceId {
    let base = of_point(cyl.frame.origin);
    brep.add_face(bare_face(
        FaceGeom::Cylinder(cyl),
        FaceExtent::Cylinder {
            length: num(len),
            start: FaceBoundary::Circle(circle(base, Y, r)),
            end: FaceBoundary::Circle(circle(base + Y * len, Y, r)),
        },
    ))
}

#[test]
fn plane_parallel_to_axis_yields_two_ruling_lines() {
    let r = 0.275_f64;
    let len = 4.0;
    let cyl = cylinder(v3(0.0, 0.0, 0.0), Y, r);
    let pl = plane(v3(0.1, 0.0, 0.0), X);
    let mut a = BRep::new();
    let fa = plane_face(&mut a, pl, 8.0);
    let mut b = BRep::new();
    let fb = tube_face(&mut b, cyl, r, len);
    let curves = intersect_faces(&a, fa, &b, fb, &Exact);
    assert_eq!(curves.len(), 2, "two ruling lines");
    let half = (r * r - 0.1 * 0.1).sqrt();
    for c in &curves {
        assert_eq!(c.points.len(), 2, "a ruling line is a segment");
        assert!(!c.closed);
        let pts = curve_points(c);
        for p in &pts {
            assert!((p.x - 0.1).abs() < 1e-9, "point off the plane");
            assert!(
                (p.z.abs() - half).abs() < 1e-9,
                "ruling line off the tube: z={:.6} want ±{half:.6}",
                p.z
            );
        }
        let (y0, y1) = (pts[0].y, pts[1].y);
        assert!(y0.min(y1) > -1e-9 && y0.max(y1) < len + 1e-9);
        assert!((y1 - y0).abs() > len - 1e-6, "the whole band is covered");
    }
}

#[test]
fn plane_parallel_and_clear_of_the_tube_yields_nothing() {
    let cyl = cylinder(v3(0.0, 0.0, 0.0), Y, 0.275);
    let mut a = BRep::new();
    let fa = plane_face(&mut a, plane(v3(1.0, 0.0, 0.0), X), 8.0);
    let mut b = BRep::new();
    let fb = tube_face(&mut b, cyl, 0.275, 4.0);
    assert!(intersect_faces(&a, fa, &b, fb, &Exact).is_empty());
}

#[test]
fn plane_across_a_tube_yields_a_loop_or_an_arc() {
    let cyl = cylinder(v3(0.0, 0.0, 0.0), Y, 0.275);
    let mut b = BRep::new();
    let fb = tube_face(&mut b, cyl, 0.275, 4.0);
    let mut a = BRep::new();
    let fa = plane_face(&mut a, plane(v3(0.0, 1.0, 0.0), Y), 2.0);
    let whole = intersect_faces(&a, fa, &b, fb, &Exact);
    assert_eq!(whole.len(), 1);
    assert!(whole[0].closed);
    assert_eq!(whole[0].points.len(), 96);
    let mut a2 = BRep::new();
    let half = plane_face(&mut a2, plane(v3(0.2, 1.0, 0.0), Y), 0.2);
    let part = intersect_faces(&b, fb, &a2, half, &Exact);
    assert!(!part.is_empty());
    assert!(part.iter().all(|c| !c.closed && c.points.len() >= 2));
    let mut a3 = BRep::new();
    let past = plane_face(&mut a3, plane(v3(0.0, 4.5, 0.0), Y), 2.0);
    assert!(intersect_faces(&a3, past, &b, fb, &Exact).is_empty());
}

#[test]
fn tubes_meet_in_loops_or_in_lines() {
    let r = 0.275;
    let mut a = BRep::new();
    let along_y = tube_face(&mut a, cylinder(v3(0.0, -2.0, 0.0), Y, r), r, 4.0);
    let mut b = BRep::new();
    let across = b.add_face(bare_face(
        FaceGeom::Cylinder(cylinder(v3(-2.0, 0.0, 0.35), X, r)),
        FaceExtent::Cylinder {
            length: num(4.0),
            start: FaceBoundary::Circle(circle(v3(-2.0, 0.0, 0.35), X, r)),
            end: FaceBoundary::Circle(circle(v3(2.0, 0.0, 0.35), X, r)),
        },
    ));
    let loops = intersect_faces(&a, along_y, &b, across, &Exact);
    assert_eq!(loops.len(), 1);
    assert!(loops[0].closed);
    let mut c = BRep::new();
    let beside = tube_face(&mut c, cylinder(v3(0.3, -1.0, 0.0), Y, r), r, 4.0);
    let lines = intersect_faces(&a, along_y, &c, beside, &Exact);
    assert_eq!(lines.len(), 2);
    for l in &lines {
        let pts = curve_points(l);
        assert!(((pts[1] - pts[0]).length() - 3.0).abs() < 1e-9, "common part of both");
        assert!((pts[0].x - 0.15).abs() < 1e-9);
    }
}

#[test]
fn trimmed_faces_are_measured_by_their_loops() {
    let (fused, shell) = fused_scaffold();
    let faces = &fused.shells.get(shell).unwrap().faces;
    let tube = faces
        .iter()
        .copied()
        .find(|&f| matches!(fused.faces.get(f).unwrap().geom, FaceGeom::Cylinder(_)))
        .unwrap();
    let (surf, length) = face_band(&fused, tube).unwrap();
    assert!((length - 1.5).abs() < 1e-6);
    assert!((of_point(surf.frame.origin) - v3(-2.0, 0.0, 0.0)).length() < 1e-6);
    let bend = faces
        .iter()
        .copied()
        .find(|&f| matches!(fused.faces.get(f).unwrap().geom, FaceGeom::Torus(_)))
        .unwrap();
    let arc = face_bend(&fused, bend).unwrap();
    assert!(((arc.hi - arc.lo).abs() - std::f64::consts::FRAC_PI_2).abs() < 1e-9);
    let cap = faces
        .iter()
        .copied()
        .find(|&f| matches!(fused.faces.get(f).unwrap().geom, FaceGeom::Plane(_)))
        .unwrap();
    assert_eq!(face_polygon(&fused, cap).unwrap().len(), 48);
    assert!(face_band(&fused, cap).is_none());
}

// ── Pieces, chains and joints ───────────────────────────────────────────────

fn curve(points: &[(f64, f64)], closed: bool) -> SsiCurve {
    SsiCurve { points: points.iter().map(|&(x, y)| p3(x, y, 0.0)).collect(), closed }
}

fn ends_of(curves: &[SsiCurve]) -> Vec<Vec3> {
    curves
        .iter()
        .flat_map(|c| {
            let pts = curve_points(c);
            [pts[0], pts[pts.len() - 1]]
        })
        .collect()
}

#[test]
fn arcs_are_chained_end_to_end() {
    let curves = [
        curve(&[(0.0, 0.0), (1.0, 0.0)], false),
        curve(&[(0.0, 1.0), (1.0, 1.0), (1.0, 0.0)], false),
        curve(&[(0.0, 1.0), (0.0, 0.0)], false),
        curve(&[(5.0, 5.0), (6.0, 5.0)], false),
        curve(&[(8.0, 0.0), (9.0, 0.0), (9.0, 1.0)], true),
        curve(&[(3.0, 0.0), (4.0, 0.0), (4.0, 1.0), (3.0, 0.0)], false),
    ];
    let loops = section_loops(&curves, &distances(&ends_of(&curves)), num(1e-6));
    assert_eq!(loops.len(), 3, "the arc that meets nothing is left out");
    assert_eq!(loops[0].len(), 3, "a loop of its own");
    assert_eq!(loops[1].len(), 3, "the repeated point is dropped");
    let chained: Vec<Vec3> = loops[2].iter().map(|&p| of_point(p)).collect();
    assert_eq!(
        chained,
        vec![
            v3(0.0, 0.0, 0.0),
            v3(1.0, 0.0, 0.0),
            v3(1.0, 1.0, 0.0),
            v3(0.0, 1.0, 0.0),
            v3(0.0, 0.0, 0.0),
        ]
    );
}

#[test]
fn crossing_sections_are_split_at_the_same_point() {
    let section = |c: SsiCurve| Section { owner: FaceId::default(), curve: c };
    let sections = vec![
        section(curve(&[(-1.0, 0.0), (1.0, 0.0)], false)),
        section(curve(&[(0.0, -1.0), (0.0, 1.0)], false)),
    ];
    let out = split(sections, &plane(v3(0.0, 0.0, 0.0), Z), 1e-6);
    assert_eq!(out.len(), 4);
    let middle = curve_points(&out[0].curve)[1];
    for k in [1, 2, 3] {
        let pts = curve_points(&out[k].curve);
        assert!(pts[0] == middle || pts[1] == middle);
        assert!(!out[k].curve.closed);
    }
    assert!(middle.length() < 1e-12);
    // A loop crossed twice is two arcs.
    let square = curve(&[(-1.0, -1.0), (1.0, -1.0), (1.0, 1.0), (-1.0, 1.0)], true);
    let out = split(
        vec![section(square), section(curve(&[(-2.0, 0.0), (2.0, 0.0)], false))],
        &plane(v3(0.0, 0.0, 0.0), Z),
        1e-6,
    );
    assert_eq!(out.len(), 5);
    assert_eq!(out[0].curve.points.len() + out[1].curve.points.len(), 8);
    let alone = vec![section(curve(&[(0.0, 0.0), (1.0, 0.0)], false))];
    let same = split(alone, &plane(v3(0.0, 0.0, 0.0), Z), 1e-6);
    assert_eq!(same.len(), 1);
    assert_eq!(same[0].curve.points, vec![p3(0.0, 0.0, 0.0), p3(1.0, 0.0, 0.0)]);
}

#[test]
fn parallel_segments_do_not_cross() {
    let meet = |den: f64, a: f64, b: f64| {
        seg_cross(SegMeet { den: num(den), first: num(a), second: num(b) })
    };
    assert_eq!(meet(1.0, 0.5, 0.25), Some((num(0.5), num(0.25))));
    assert_eq!(meet(1e-15, 0.5, 0.5), None);
    assert_eq!(meet(1.0, 1.1, 0.5), None);
    assert_eq!(meet(1.0, -1e-10, 1.0 + 1e-10), Some((num(0.0), num(1.0))));
}

#[test]
fn joints_are_put_into_the_polyline_they_lie_on() {
    let along = [v3(0.0, 0.0, 0.0), v3(1.0, 0.0, 0.0), v3(1.0, 1.0, 0.0)];
    let joints = [
        v3(0.75, 1e-4, 0.0),
        v3(0.25, 0.0, 0.0),
        v3(0.5, 0.5, 0.0),
        v3(1.0, 0.0, 0.0),
        v3(1.0, 0.5, 0.0),
        v3(0.25, 0.0, 0.0),
    ];
    let spots: Vec<Point3> = joints.iter().map(|p| p.point()).collect();
    let mut poly: Vec<Point3> = along.iter().map(|p| p.point()).collect();
    insert_joints(&mut poly, &spots, &measure_pieces(&along, &joints), &distances(&joints));
    assert_eq!(
        poly,
        vec![
            p3(0.0, 0.0, 0.0),
            p3(0.25, 0.0, 0.0),
            p3(0.75, 1e-4, 0.0),
            p3(1.0, 0.0, 0.0),
            p3(1.0, 0.5, 0.0),
            p3(1.0, 1.0, 0.0),
        ]
    );
    assert_eq!(spread(&joints).len(), 5);
    let curves = [
        curve(&[(0.0, 0.0), (1.0, 0.0)], false),
        curve(&[(1.0, 0.0), (2.0, 0.0)], false),
        curve(&[(5.0, 0.0), (6.0, 0.0), (6.0, 1.0)], true),
    ];
    let ends: Vec<Vec3> = arc_ends(&curves).into_iter().map(of_point).collect();
    assert_eq!(ends.len(), 4);
    assert_eq!(section_joints(&curves, &distances(&ends)).len(), 3);
}

#[test]
fn the_seam_is_parked_in_the_widest_gap() {
    let chain = |us: &[f64], tag: u32| FaceChain {
        pts: us.iter().map(|&u| Uv { u: num(u), v: num(0.0) }).collect(),
        tag,
    };
    let rim: Vec<f64> = (0..=64).map(|k| -PI + TAU * k as f64 / 64.0).collect();
    let seam = park_seam(&[chain(&rim, 1), chain(&[0.0, 1.0, 2.0], 2)]).unwrap();
    assert!((seam - (2.0 + TAU) * 0.5).abs() < 1e-12, "rims do not count");
    assert!(park_seam(&[chain(&rim, 1)]).is_none());
    let mut b = BRep::new();
    let tube = tube_face(&mut b, cylinder(v3(0.0, 0.0, 0.0), Y, 0.5), 0.5, 1.0);
    let across = chain(&[-0.5, 0.5], 1);
    let points = seam_points(&b, tube, &[across, chain(&[1.0, 2.0], 2)], 0.0);
    assert_eq!(points.len(), 1);
}

#[test]
fn chains_are_tagged_in_turn() {
    let at = |u: f64, v: f64| Uv { u: num(u), v: num(v) };
    let boundary = vec![at(0.0, 0.0), at(1.0, 0.0), at(1.0, 1.0), at(0.0, 0.0)];
    let curves = [
        UvCurve { pts: vec![at(0.1, 0.1), at(0.2, 0.1), at(0.2, 0.2)], closed: true },
        UvCurve { pts: vec![at(0.5, 0.5)], closed: false },
        UvCurve { pts: vec![at(0.5, 0.1), at(0.6, 0.1)], closed: false },
    ];
    let chains = arranged_chains(&[boundary.clone(), boundary], &curves);
    let tags: Vec<u32> = chains.iter().map(|c| c.tag).collect();
    assert_eq!(tags, vec![1, 2, 1000, 1001]);
    assert_eq!(chains[2].pts.len(), 4);
    assert_eq!(chains[2].pts[3], chains[2].pts[0]);
    let walk = [v3(0.0, 0.0, 0.0), v3(1.0, 0.0, 0.0), v3(1.0, 0.0, 0.0), v3(1.0, 1.0, 0.0)];
    let uv: Vec<Uv> = walk.iter().map(|p| at(p.x, p.y)).collect();
    let chain = boundary_chain(&uv, &distances(&walk)).unwrap();
    assert_eq!(chain.len(), 4, "three points and the first again");
    assert!(boundary_chain(&uv[..3], &distances(&walk[..3])).is_none());
}

#[test]
fn loops_are_clipped_into_runs() {
    let points: Vec<Point3> = (0..8).map(|k| p3(k as f64, 0.0, 0.0)).collect();
    let t = true;
    let f = false;
    let runs = clip_loop_to_arcs(&points, &[t, t, f, f, t, f, t, t]);
    assert_eq!(runs.len(), 1, "a run of one sample is no curve");
    assert_eq!(
        runs[0].points,
        vec![points[6], points[7], points[0], points[1]],
        "a run goes on past the end"
    );
    let mut ends = vec![None; 8];
    ends[4] = Some(p3(3.5, 0.0, 0.0));
    ends[5] = Some(p3(4.5, 0.0, 0.0));
    let runs = clip_loop(&points, &[t, t, f, f, t, f, t, t], &ends);
    assert_eq!(runs.len(), 2);
    assert_eq!(runs[0].points, vec![p3(3.5, 0.0, 0.0), points[4], p3(4.5, 0.0, 0.0)]);
    let whole = clip_loop_to_arcs(&points, &[true; 8]);
    assert!(whole.len() == 1 && whole[0].closed && whole[0].points == points);
    assert!(clip_loop_to_arcs(&points, &[false; 8]).is_empty());
}

#[test]
fn loops_that_look_alike_count_once() {
    let ring = |r: f64, z: f64| {
        let points: Vec<Vec3> = (0..12)
            .map(|k| {
                let t = TAU * k as f64 / 12.0;
                v3(r * t.cos(), r * t.sin(), z)
            })
            .collect();
        whole_trace(&points, vec![true; 12])
    };
    let traces = vec![ring(1.0, 0.0), ring(1.001, 0.0), ring(2.0, 0.0), ring(1.0, 3.0)];
    let probe = loops_probe(traces, 0.5);
    assert_eq!(distinct_loops(&probe, LoopKind::Tori), vec![0, 2, 3]);
    assert_eq!(
        distinct_loops(&probe, LoopKind::TorusCylinder),
        vec![0, 3],
        "radii do not tell loops apart there"
    );
}

#[test]
fn crossing_points_that_ran_away_are_refused() {
    let c = CrossOver {
        middle: p3(0.0, 0.0, 0.0),
        refined: Some(p3(1.0, 0.0, 0.0)),
        drift: num(1.0),
        width: num(2.0),
    };
    assert_eq!(boundary_point(c), Some(p3(1.0, 0.0, 0.0)));
    assert_eq!(boundary_point(CrossOver { width: num(0.5), ..c }), None);
    assert_eq!(
        boundary_point(CrossOver { refined: None, drift: num(0.0), ..c }),
        Some(p3(0.0, 0.0, 0.0))
    );
}

#[test]
fn polygons_know_their_inside() {
    let ell = [(0.0, 0.0), (2.0, 0.0), (2.0, 1.0), (1.0, 1.0), (1.0, 2.0), (0.0, 2.0)];
    assert!(in_polygon(&ell, (0.5, 1.5)));
    assert!(in_polygon(&ell, (1.5, 0.5)));
    assert!(!in_polygon(&ell, (1.5, 1.5)));
    assert!(!in_polygon(&ell, (-0.5, 0.5)));
    // A line across both arms is inside twice.
    let arms = [(0.0, 0.0), (5.0, 0.0), (5.0, 2.0), (4.0, 2.0), (4.0, 1.0), (1.0, 1.0), (1.0, 2.0), (0.0, 2.0)];
    let poly: Vec<Vec3> = arms.iter().map(|&(x, y)| v3(x, y, 0.0)).collect();
    let pl = Plane3 { frame: frame(v3(0.0, 0.0, 0.0), X, Y, Z) };
    let parts = stretches(v3(-1.0, 1.5, 0.0), X, &pl, &poly);
    assert_eq!(parts.len(), 2);
    assert!((val(parts[0].lo) - 1.0).abs() < 1e-12 && (val(parts[0].hi) - 2.0).abs() < 1e-12);
    assert!((val(parts[1].lo) - 5.0).abs() < 1e-12);
}

#[test]
fn crossing_band_assembles_shared_edges() {
    let leg = LegSeg { surf: cylinder(v3(-2.0, 0.0, 0.0), X, 0.275), length: num(4.0) };
    let other = LegSeg { surf: cylinder(v3(0.0, -2.0, 0.35), Y, 0.275), length: num(4.0) };
    let mut window = square_loop(&leg, &other).unwrap();
    window.push(window[0]);
    let back: Vec<Vec3> = window.iter().rev().copied().collect();
    let steps = |path: &[Vec3]| vec![cell_step(path, 1e-7)];
    let cells = vec![
        CellLoops {
            outer: steps(&level(&leg.surf, 0.0)),
            holes: vec![steps(&level(&leg.surf, 4.0)), steps(&back)],
        },
        CellLoops { outer: steps(&window), holes: Vec::new() },
    ];
    let count = cells.len();
    let mut brep = BRep::new();
    let mut builder = Assembler::new();
    for c in cells {
        builder.emit_cell(
            &mut brep,
            FaceGeom::Cylinder(leg.surf),
            FaceNormal::Same,
            c.outer,
            c.holes,
        );
    }
    let faces = builder.faces().clone();
    assert_eq!(faces.len(), count);
    let mut uses: HashMap<EdgeId, usize> = HashMap::new();
    for &fid in &faces {
        for ring in brep.face_rings(fid) {
            for c in ring {
                *uses.entry(brep.coedges.get(c).unwrap().edge).or_insert(0) += 1;
            }
        }
    }
    let twice = uses.values().filter(|&&n| n == 2).count();
    assert!(twice > 0, "window boundary edges must be shared: {uses:?}");
    assert!(uses.values().all(|&n| n <= 2), "no edge over-shared (manifold): {uses:?}");
    let along = |v: VertexId| {
        let p = of_point(brep.vertices.get(v).unwrap().point);
        X.dot(p - v3(-2.0, 0.0, 0.0))
    };
    for (&eid, &n) in &uses {
        if n != 1 {
            continue;
        }
        let e = brep.edges.get(eid).unwrap();
        let (v0, v1) = (along(e.v_start), along(e.v_end));
        let on_rim = |v: f64| v.abs() < 1e-6 || (v - 4.0).abs() < 1e-6;
        assert!(
            on_rim(v0) && on_rim(v1),
            "single-use edge off the open rim: v=({v0:.3},{v1:.3})"
        );
    }
}

#[test]
fn bends_are_tangent_whatever_the_turn() {
    for end in [p3(3.0, 1.0, 0.0), p3(0.5, 2.0, 0.0), p3(1.0, -2.0, 0.0)] {
        let f = serpentine(&[p3(0.0, 0.0, 0.0), p3(2.0, 0.0, 0.0), end], 0.1, 0.3);
        let e = &f.elbows[0];
        let centre = of_point(e.surf.frame.origin);
        let (s, d, length) = leg_line(&f.legs[0]);
        let entry = s + d * length;
        let (exit, dout, _) = leg_line(&f.legs[1]);
        assert!(((entry - centre).length() - 0.3).abs() < 1e-12);
        assert!(((exit - centre).length() - 0.3).abs() < 1e-12);
        assert!(d.dot(entry - centre).abs() < 1e-12);
        assert!(dout.dot(exit - centre).abs() < 1e-12);
        assert_eq!(f.legs[1].surf.frame.origin, exit.point());
    }
}

#[test]
fn legs_start_where_their_stretches_do() {
    let verts = [p3(0.0, 0.0, 0.0), p3(2.0, 0.0, 0.0), p3(2.0, 3.0, 0.0)];
    let made = serpentine(&verts, 0.1, 0.5);
    let corner = Corner {
        entry: p3(1.5, 0.0, 0.0),
        exit: p3(2.0, 0.5, 0.0),
        elbow: made.elbows[0],
    };
    let runs: Vec<Run> = scaffold::leg_spans(&verts, &[corner])
        .into_iter()
        .zip(&made.legs)
        .map(|(span, leg)| {
            let mut leg = *leg;
            leg.surf.frame.origin = p3(9.0, 9.0, 9.0);
            Run { span, leg }
        })
        .collect();
    let f = Filament::serpentine(&verts, &[corner], &runs);
    assert_eq!(f.legs[0].surf.frame.origin, verts[0]);
    assert_eq!(f.legs[1].surf.frame.origin, corner.exit);
    assert_eq!(f.legs[1].length, made.legs[1].length);
}

#[test]
fn points_past_half_a_turn_are_still_on_a_bend() {
    let surf = torus(v3(0.0, 0.0, 0.0), Z, 1.0, 0.1);
    let (x, y) = (of_direction(surf.frame.x), of_direction(surf.frame.y));
    let at = |t: f64| x * t.cos() + y * t.sin();
    let bend = ElbowSeg { surf, theta_lo: num(3.0), theta_hi: num(4.0) };
    assert!(stays_on(&bend, &[at(2.9), at(3.5), at(4.1)]));
    assert!(!stays_on(&bend, &[at(2.8)]));
    assert!(!stays_on(&bend, &[at(4.2)]));
    let back = ElbowSeg { surf, theta_lo: num(-3.0), theta_hi: num(-4.0) };
    assert!(stays_on(&back, &[at(-2.9), at(-3.5), at(-4.1)]));
    assert!(!stays_on(&back, &[at(-4.2)]));
}

#[test]
fn loops_of_few_points_are_kept_whatever_may_be_kept() {
    let points: Vec<Point3> = (0..5).map(|k| p3(k as f64, 0.0, 0.0)).collect();
    let same = cadcore::scaffold::decimate_loop(&points, usize::MAX, num(0.0));
    assert_eq!(same, points);
    assert_eq!(cadcore::scaffold::decimate_loop(&points, 1, num(0.0)), points);
}

#[test]
fn a_scaffold_has_a_face_for_every_leg_and_bend_and_two_caps() {
    let (mut brep, shell) = fused_scaffold();
    let kinds = |brep: &BRep, shell: ShellId| {
        let mut n = (0, 0, 0);
        for &f in &brep.shells.get(shell).unwrap().faces {
            match brep.faces.get(f).unwrap().geom {
                FaceGeom::Cylinder(_) => n.0 += 1,
                FaceGeom::Torus(_) => n.1 += 1,
                FaceGeom::Plane(_) => n.2 += 1,
                FaceGeom::Sphere(_) => unreachable!(),
            }
        }
        n
    };
    assert_eq!(kinds(&brep, shell), (6, 4, 4));
    let before = brep.shells.get(shell).unwrap().faces.clone();
    let again =
        fuse_scaffold_by(&mut brep, &crossing_serpentines(), &Exact, &Settings::default());
    assert_ne!(again, shell);
    assert_eq!(kinds(&brep, again), (6, 4, 4));
    assert_eq!(brep.shells.get(shell).unwrap().faces, before);
    let solid = brep.shells.get(again).unwrap().solid;
    assert_eq!(brep.solids.get(solid).unwrap().shells, vec![again]);
    assert!(brep.shells.get(again).unwrap().is_outer);
    assert_eq!(brep.stats().solids, 2);
}

#[test]
fn how_a_plane_lies_to_a_cylinder_goes_by_thresholds() {
    assert_eq!(intersect::conic_kind(num(1e-9), num(1.0)), ConicKind::Across);
    assert_eq!(intersect::conic_kind(num(-0.5), num(-1.0)), ConicKind::Across);
    assert_eq!(intersect::conic_kind(num(-0.9e-9), num(-1.0)), ConicKind::Apart);
    assert_eq!(intersect::conic_kind(num(0.0), num(0.0)), ConicKind::Touching);
    assert_eq!(intersect::conic_kind(num(0.0), num(1e-30)), ConicKind::Through);
    assert!(intersect::planes_meet(num(1e-12), num(-1e-12)));
    assert!(!intersect::planes_meet(num(0.9e-12), num(1.0)));
    assert!(!intersect::planes_meet(num(1.0), num(0.9e-12)));
    assert!(intersect::parallel_cylinders_meet(num(1e-30)));
    assert!(!intersect::parallel_cylinders_meet(num(0.0)));
    assert!(!intersect::parallel_cylinders_meet(num(-1.0)));
    assert_eq!(ring_points(5, num(0.0)), 4);
    assert_eq!(ring_points(5, num(1e-9)), 5);
    assert_eq!(ring_points(1, num(0.0)), 1);
}

#[test]
fn marks_on_a_bend_go_by_the_way_it_runs() {
    let surf = torus(v3(0.0, 0.0, 0.0), Z, 1.0, 0.1);
    let (x, y) = (of_direction(surf.frame.x), of_direction(surf.frame.y));
    let at = |t: f64| x * t.cos() + y * t.sin();
    let forth = Bend { surf, lo: 0.5, hi: 2.0 };
    let back = Bend { surf, lo: 2.0, hi: 0.5 };
    for (t, on) in [(0.6, true), (1.9, true), (0.4, false), (2.1, false), (-1.0, false)] {
        let both = |b: &Bend| intersect::inside_both_arcs(&[b.mark(at(t))], &[b.mark(at(t))]);
        assert_eq!(both(&forth), vec![on], "{t}");
        assert_eq!(both(&back), vec![on], "{t}");
    }
}

#[test]
fn self_crossing_weave_watertight() {
    let r = 0.275;
    // One filament: legs along x at y = 0 and y = 1, then, further up, legs
    // along y at x = 0 and x = 1 that cross the earlier ones.
    let f = serpentine(
        &[
            p3(-1.0, 0.0, 0.0),
            p3(2.0, 0.0, 0.0),
            p3(2.0, 1.0, 0.0),
            p3(-1.0, 1.0, 0.0),
            p3(-1.0, 1.0, 0.35),
            p3(0.0, 1.0, 0.35),
            p3(0.0, -1.0, 0.35),
            p3(1.0, -1.0, 0.35),
            p3(1.0, 2.0, 0.35),
        ],
        r,
        0.3,
    );
    let mut brep = BRep::new();
    let shell = fuse_scaffold_by(&mut brep, &[f], &Exact, &Settings::default());
    assert_eq!(open_edges(&brep, shell), 0, "self-crossing weave watertight");
    assert_eq!(components(&brep, shell), 1, "one solid");
    let windows = edge_uses(&brep, shell)
        .keys()
        .filter(|&&e| matches!(brep.edges.get(e).unwrap().geom, EdgeGeom::Polyline(_)))
        .count();
    assert_eq!(windows, 12, "three crossings of the filament with itself");
}

#[test]
fn four_layer_weave_fuses_fast_and_watertight() {
    let r = 0.275;
    let hl = 0.35;
    let mut fils = Vec::new();
    for layer in 0..4 {
        let z = layer as f64 * hl;
        // The layers run along x and along y in turn.
        let verts: Vec<Point3> = if layer % 2 == 0 {
            vec![
                p3(0.0, 0.0, z),
                p3(3.0, 0.0, z),
                p3(3.0, 1.2, z),
                p3(0.0, 1.2, z),
                p3(0.0, 2.4, z),
                p3(3.0, 2.4, z),
            ]
        } else {
            vec![
                p3(0.0, 0.0, z),
                p3(0.0, 3.0, z),
                p3(1.2, 3.0, z),
                p3(1.2, 0.0, z),
                p3(2.4, 0.0, z),
                p3(2.4, 3.0, z),
            ]
        };
        fils.push(serpentine(&verts, r, 0.5));
    }
    let mut brep = BRep::new();
    let t = std::time::Instant::now();
    let shell = fuse_scaffold_by(&mut brep, &fils, &Exact, &Settings::default());
    let ms = t.elapsed().as_millis();
    assert_eq!(open_edges(&brep, shell), 0, "four-layer weave watertight");
    assert_eq!(components(&brep, shell), 1, "fused into one solid");
    assert!(ms < 60_000, "fuse took {ms} ms — the broad phase regressed");
}

#[test]
fn sections_are_compared_segment_by_segment() {
    let square = |x: f64| Section {
        owner: FaceId::default(),
        curve: SsiCurve {
            points: vec![p3(x, 0.0, 0.0), p3(x + 2.0, 0.0, 0.0), p3(x + 2.0, 2.0, 0.0), p3(x, 2.0, 0.0)],
            closed: true,
        },
    };
    // Two squares that overlap cross twice; a third one is too far away.
    let up = |x: f64| {
        let mut s = square(x);
        for p in &mut s.curve.points {
            *p = (of_point(*p) + Y * 1.0).point();
        }
        s
    };
    let out = split(vec![square(0.0), up(1.0), square(9.0)], &plane(v3(0.0, 0.0, 0.0), Z), 1e-6);
    assert_eq!(out.len(), 5);
    assert_eq!(out.iter().filter(|s| s.curve.closed).count(), 1);
    let miss = SegPair {
        meet: SegMeet { den: num(1.0), first: num(1.5), second: num(0.5) },
        point: p3(0.0, 0.0, 0.0),
    };
    let hit = SegPair {
        meet: SegMeet { den: num(1.0), first: num(0.25), second: num(0.5) },
        point: p3(7.0, 0.0, 0.0),
    };
    // Only what stands after a curve is held against it.
    let found = section_crossings(&[
        vec![vec![vec![hit]], vec![vec![miss, hit], vec![miss, miss]]],
        vec![vec![vec![hit]], vec![vec![hit]]],
    ]);
    assert_eq!(found.len(), 1);
    assert_eq!((found[0].one, found[0].other), (0, 1));
    assert_eq!((found[0].on_one.piece, found[0].on_other.piece), (0, 1));
    assert_eq!((found[0].on_one.along, found[0].on_other.along), (num(0.25), num(0.5)));
    assert_eq!(found[0].point, p3(7.0, 0.0, 0.0));
}

#[test]
fn a_leg_across_a_bend_is_watertight() {
    let r = 0.275;
    let a = serpentine(&[p3(-3.0, 0.0, 0.0), p3(0.0, 0.0, 0.0), p3(0.0, 3.0, 0.0)], r, 1.5);
    let out = (X - Y).unit().unwrap();
    let from = v3(-1.5, 1.5, 0.35);
    let b = serpentine(&[(from + out * 0.6).point(), (from + out * 2.4).point()], r, 0.5);
    let mut brep = BRep::new();
    let shell = fuse_scaffold_by(&mut brep, &[a, b], &Exact, &Settings::default());
    assert_eq!(open_edges(&brep, shell), 0, "leg across a bend watertight");
    assert_eq!(components(&brep, shell), 1, "fused into one solid");
    let bend = brep
        .shells
        .get(shell)
        .unwrap()
        .faces
        .iter()
        .find(|&&f| matches!(brep.faces.get(f).unwrap().geom, FaceGeom::Torus(_)))
        .copied()
        .unwrap();
    // The far rim, and the window.
    assert_eq!(brep.faces.get(bend).unwrap().inner_loops.len(), 2);
    let windows = edge_uses(&brep, shell)
        .keys()
        .filter(|&&e| matches!(brep.edges.get(e).unwrap().geom, EdgeGeom::Polyline(_)))
        .count();
    assert_eq!(windows, 4);
}
