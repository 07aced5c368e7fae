//! Sweeping, cutting and writing, on measured geometry.

#![allow(dead_code)]

use std::f64::consts::{PI, TAU};
use std::ops::{Add, Mul, Neg, Sub};

use cadcore::arena::SLOT_LIMIT;
use cadcore::bounds::{
    ArcFaceSheet, ArcSheet, BandSheet, BoundarySheet, CapSheet, CircleSheet, EllipseSheet,
    FaceSheet, RingSheet, SideSheet, StepPoint, NO_SIDE,
};
use cadcore::brep::BRep;
use cadcore::cut::{
    self, solid_faces, AxialShape, CylinderProbe, FaceProbe, LateralCaps, LateralShape,
    SolidOutcome, WaveMeasure,
};
use cadcore::entities::{Face, FaceBoundary, FaceExtent, FaceGeom, FaceNormal};
use cadcore::fusion::union_solids;
use cadcore::geometry::{
    Circle3, CylSurf, Ellipse3, Frame3, Plane3, Point3, SphereSurf, TorusSurf, UnitVec3,
};
use cadcore::ids::SolidId;
use cadcore::path::{
    self, ArcProbe, ArcStep, CircleMeasure, CornerMeasure, PathApproxOptions, PathStep,
    SegmentMeasure, SharpPath, SharpTurn, SweepPathSegment, TangentMeasure,
};
use cadcore::scalar::Real;
use cadcore::script::Glyph;
use cadcore::solid::{build_solid, FacePlan};
use cadcore::step::{GridKey, StepError};
use cadcore::sweep::{self, Fillet, Joint, Leg, LegKind, PlaneCut, SweepError, SweepOptions};
use cadcore::writer;

/// Machine epsilon for comparisons.
const EPS: f64 = 1e-10;

/// Shorter vectors have no direction.
const NO_DIRECTION: f64 = 1e-12;

/// The library's number for a float.
fn num(v: f64) -> Real {
    Real::from_bits(v.to_bits())
}

/// The float of a library number.
fn val(r: Real) -> f64 {
    f64::from_bits(r.bits)
}

// Floating point: the sum of two floats is not a value the library can state.
/// Whether two floats are within [`EPS`] of each other.
fn approx_eq(a: f64, b: f64) -> bool {
    (a - b).abs() < EPS
}

// Floating point: the product of two floats is not a value the library can state.
/// The float a share `t` of the way from `a` to `b`.
fn lerp(a: f64, b: f64, t: f64) -> f64 {
    a + t * (b - a)
}

/// A vector, or a point.
#[derive(Clone, Copy, Debug, PartialEq)]
struct Vec3 {
    /// First coordinate.
    x: f64,
    /// Second coordinate.
    y: f64,
    /// Third coordinate.
    z: f64,
}

/// A vector by its coordinates.
fn v3(x: f64, y: f64, z: f64) -> Vec3 {
    Vec3 { x, y, z }
}

impl Add for Vec3 {
    type Output = Vec3;
    fn add(self, o: Vec3) -> Vec3 {
        v3(self.x + o.x, self.y + o.y, self.z + o.z)
    }
}

impl Sub for Vec3 {
    type Output = Vec3;
    fn sub(self, o: Vec3) -> Vec3 {
        v3(self.x - o.x, self.y - o.y, self.z - o.z)
    }
}

impl Neg for Vec3 {
    type Output = Vec3;
    fn neg(self) -> Vec3 {
        v3(-self.x, -self.y, -self.z)
    }
}

impl Mul<f64> for Vec3 {
    type Output = Vec3;
    fn mul(self, s: f64) -> Vec3 {
        v3(self.x * s, self.y * s, self.z * s)
    }
}

impl Vec3 {
    /// The inner product.
    fn dot(self, o: Vec3) -> f64 {
        self.x * o.x + self.y * o.y + self.z * o.z
    }

    /// The vector product.
    fn cross(self, o: Vec3) -> Vec3 {
        v3(
            self.y * o.z - self.z * o.y,
            self.z * o.x - self.x * o.z,
            self.x * o.y - self.y * o.x,
        )
    }

    /// The length.
    fn length(self) -> f64 {
        self.dot(self).sqrt()
    }

    /// The direction, if there is one.
    fn unit(self) -> Option<Vec3> {
        let n = self.length();
        if n < NO_DIRECTION {
            None
        } else {
            Some(self * (1.0 / n))
        }
    }

    /// Some direction square to this one.
    fn across(self) -> Vec3 {
        let (ax, ay, az) = (self.x.abs(), self.y.abs(), self.z.abs());
        let helper = if ax <= ay && ax <= az {
            v3(1.0, 0.0, 0.0)
        } else if ay <= az {
            v3(0.0, 1.0, 0.0)
        } else {
            v3(0.0, 0.0, 1.0)
        };
        (helper - self * helper.dot(self)).unit().unwrap_or(helper)
    }

    /// As a point of the library.
    fn point(self) -> Point3 {
        Point3 { x: num(self.x), y: num(self.y), z: num(self.z) }
    }

    /// As a direction of the library.
    fn direction(self) -> UnitVec3 {
        UnitVec3 { x: num(self.x), y: num(self.y), z: num(self.z) }
    }
}

/// A point of the library.
fn of_point(p: Point3) -> Vec3 {
    v3(val(p.x), val(p.y), val(p.z))
}

/// A direction of the library.
fn of_direction(u: UnitVec3) -> Vec3 {
    v3(val(u.x), val(u.y), val(u.z))
}

/// A frame from three axes.
fn frame(origin: Vec3, x: Vec3, y: Vec3, z: Vec3) -> Frame3 {
    Frame3 { origin: origin.point(), x: x.direction(), y: y.direction(), z: z.direction() }
}

/// A frame about an axis.
fn frame_about(origin: Vec3, z: Vec3) -> Frame3 {
    let x = z.across();
    frame(origin, x, z.cross(x), z)
}

/// A circle square to a direction.
fn circle(centre: Vec3, normal: Vec3, radius: f64) -> Circle3 {
    Circle3 { frame: frame_about(centre, normal), radius: num(radius) }
}

/// An ellipse with its long axis along `x`.
fn ellipse(centre: Vec3, normal: Vec3, x: Vec3, major: f64, minor: f64) -> Ellipse3 {
    Ellipse3 {
        frame: frame(centre, x, normal.cross(x), normal),
        semi_major: num(major),
        semi_minor: num(minor),
    }
}

/// A plane square to a direction.
fn plane(origin: Vec3, normal: Vec3) -> Plane3 {
    Plane3 { frame: frame_about(origin, normal) }
}

/// A cylinder about an axis.
fn cylinder(origin: Vec3, axis: Vec3, radius: f64) -> CylSurf {
    CylSurf { frame: frame_about(origin, axis), radius: num(radius) }
}

/// A torus about an axis.
fn torus(centre: Vec3, axis: Vec3, major: f64, minor: f64) -> TorusSurf {
    TorusSurf {
        frame: frame_about(centre, axis),
        major_radius: num(major),
        minor_radius: num(minor),
    }
}

/// Whether every arena of a model can take so many more entities.
fn has_slots(brep: &BRep, more: usize) -> bool {
    let limit = SLOT_LIMIT as usize;
    [
        brep.vertices.len(),
        brep.edges.len(),
        brep.coedges.len(),
        brep.loops.len(),
        brep.faces.len(),
        brep.shells.len(),
        brep.solids.len(),
    ]
    .iter()
    .all(|&held| more <= limit.saturating_sub(held))
}

/// How much wider than the profile the spine of a corner torus is.
const CORNER_RATIO: f64 = 2.0;

/// The corner of a path at which a plane cuts a leg.
fn plane_cut(centre: Vec3, leg: Vec3, normal: Vec3, radius: f64) -> PlaneCut {
    let cos = normal.dot(leg).abs();
    let long = leg - normal * normal.dot(leg);
    PlaneCut {
        cos: num(cos),
        ellipse: long.unit().map(|x| ellipse(centre, normal, x, radius / cos, radius)),
    }
}

// Floating point: where the corner torus lies is computed, not decided.
/// The torus that rounds a corner.
fn corner_torus(vertex: Vec3, dir: Vec3, next: Vec3, radius: f64) -> Option<Fillet> {
    let axis = dir.cross(next).unit()?;
    let major = CORNER_RATIO * radius;
    let angle = dir.dot(next).clamp(-1.0, 1.0).acos();
    let trim = major * (angle * 0.5).tan();
    let out = dir.cross(axis).unit()?;
    let centre = vertex - dir * trim - out * major;
    let circles = next.cross(axis).unit().map(|end| {
        (
            circle(centre + out * major, dir, radius),
            circle(centre + end * major, next, radius),
        )
    });
    Some(Fillet { torus: torus(centre, axis, major, radius), circles })
}

/// What one leg's end and the next one's start come to.
fn measure_joint(end: Vec3, arriving: Vec3, start: Vec3, leaving: Vec3, radius: f64) -> Joint {
    let miter = (arriving + leaving).unit();
    let cos = arriving.dot(leaving);
    Joint {
        gap: num((start - end).length()),
        cos: num(cos),
        bend: num(1.0 - cos.abs()),
        arriving: miter.map(|n| plane_cut(end, arriving, n, radius)),
        leaving: miter.map(|n| plane_cut(start, leaving, n, radius)),
        fillet: corner_torus(end, arriving, leaving, radius),
    }
}

/// A straight leg.
fn straight_leg(start: Vec3, end: Vec3, radius: f64) -> Option<Leg> {
    let d = (end - start).unit()?;
    Some(Leg {
        kind: LegKind::Line {
            surface: cylinder(start, d, radius),
            length: num((end - start).length()),
        },
        back: plane(start, -d),
        front: plane(end, d),
        start_circle: circle(start, d, radius),
        end_circle: circle(end, d, radius),
    })
}

/// The direction in which a leg starts, and in which it ends.
fn tangents(segment: SweepPathSegment) -> Option<(Vec3, Vec3)> {
    match segment {
        SweepPathSegment::Line { start, end } => {
            let d = (of_point(end) - of_point(start)).unit()?;
            Some((d, d))
        }
        SweepPathSegment::Arc { start, end, center, normal } => {
            let n = of_direction(normal);
            let c = of_point(center);
            Some((
                n.cross(of_point(start) - c).unit()?,
                n.cross(of_point(end) - c).unit()?,
            ))
        }
    }
}

/// A segment against a profile radius.
fn measure_segment(segment: SweepPathSegment, radius: f64) -> SegmentMeasure {
    match segment {
        SweepPathSegment::Line { start, end } => {
            SegmentMeasure::Line { leg: straight_leg(of_point(start), of_point(end), radius) }
        }
        SweepPathSegment::Arc { start, end, center, normal } => {
            let (s, e, c, n) =
                (of_point(start), of_point(end), of_point(center), of_direction(normal));
            let (r0, r1) = ((s - c).length(), (e - c).length());
            let mean = 0.5 * (r0 + r1);
            let arc_leg = tangents(segment).map(|(t0, t1)| Leg {
                kind: LegKind::Arc {
                    torus: torus(c, n, mean, radius),
                    arc_radius: num(mean),
                },
                back: plane(s, -t0),
                front: plane(e, t1),
                start_circle: circle(s, t0, radius),
                end_circle: circle(e, t1, radius),
            });
            SegmentMeasure::Arc {
                start_radius: num(r0),
                end_radius: num(r1),
                chord: num((s - e).length()),
                spread: num((r0 - r1).abs()),
                tolerance: num((mean * 0.01).max(1.0e-3)),
                start_off: num(n.dot(s - c).abs()),
                end_off: num(n.dot(e - c).abs()),
                arc_leg,
            }
        }
    }
}

/// The segments of a path, measured, and its joints where every leg is there.
fn measure_path(segments: &[SweepPathSegment], radius: f64) -> (Vec<PathStep>, Vec<Joint>) {
    let steps: Vec<PathStep> = segments
        .iter()
        .map(|&segment| PathStep { segment, measure: measure_segment(segment, radius) })
        .collect();
    let mut joints = Vec::new();
    if path::legs_of_steps(&steps).iter().all(Option::is_some) {
        for pair in segments.windows(2) {
            if let (Some((_, arriving)), Some((leaving, _))) =
                (tangents(pair[0]), tangents(pair[1]))
            {
                joints.push(measure_joint(
                    of_point(pair[0].end()),
                    arriving,
                    of_point(pair[1].start()),
                    leaving,
                    radius,
                ));
            }
        }
    }
    (steps, joints)
}

/// Sweep a circle along a polyline.
fn sweep_circle_along_polyline(
    brep: &mut BRep,
    waypoints: &[Point3],
    radius: f64,
    opts: &SweepOptions,
) -> Result<SolidId, SweepError> {
    let at: Vec<Vec3> = waypoints.iter().map(|&p| of_point(p)).collect();
    let legs: Vec<Option<Leg>> =
        at.windows(2).map(|w| straight_leg(w[0], w[1], radius)).collect();
    let mut joints = Vec::new();
    if legs.iter().all(Option::is_some) {
        for w in at.windows(3) {
            if let (Some(a), Some(b)) = ((w[1] - w[0]).unit(), (w[2] - w[1]).unit()) {
                joints.push(measure_joint(w[1], a, w[1], b, radius));
            }
        }
    }
    assert!(has_slots(brep, 2 * waypoints.len() + 2), "the model is full");
    sweep::sweep_circle_along_polyline(brep, waypoints, &legs, &joints, num(radius), opts)
}

/// Sweep a circle along a path.
fn sweep_circle_along_path(
    brep: &mut BRep,
    segments: &[SweepPathSegment],
    radius: f64,
    opts: &SweepOptions,
) -> Result<SolidId, SweepError> {
    let (steps, joints) = measure_path(segments, radius);
    assert!(has_slots(brep, 2 * segments.len() + 2), "the model is full");
    sweep::sweep_circle_along_path(brep, &steps, &joints, num(radius), opts)
}

/// What the rounding of a polyline goes by: the lengths of its legs, its inner
/// waypoints, and what is left after the last arc.
fn measure_corners(waypoints: &[Point3], radius: f64) -> (Vec<f64>, Vec<CornerMeasure>, f64) {
    let at: Vec<Vec3> = waypoints.iter().map(|&p| of_point(p)).collect();
    let gaps: Vec<f64> = at.windows(2).map(|w| (w[1] - w[0]).length()).collect();
    let mut corners = Vec::new();
    let mut current = at.first().copied().unwrap_or(v3(0.0, 0.0, 0.0));
    for w in at.windows(3) {
        let (arriving, leaving) = ((w[1] - w[0]).unit(), (w[2] - w[1]).unit());
        let a = arriving.unwrap_or(w[1] - w[0]);
        let b = leaving.unwrap_or(w[2] - w[1]);
        let cos = a.dot(b).clamp(-1.0, 1.0);
        let trim = radius * (cos.acos() * 0.5).tan();
        let normal = a.cross(b).unit();
        let entry = w[1] - a * trim;
        let exit = w[1] + b * trim;
        let out = a.cross(normal.unwrap_or(a));
        let corner = CornerMeasure {
            arrives: arriving.is_some(),
            leaves: leaving.is_some(),
            arriving_length: num((w[1] - w[0]).length()),
            leaving_length: num((w[2] - w[1]).length()),
            cos: num(cos),
            trim: num(trim),
            normal: normal.map(Vec3::direction),
            entry: entry.point(),
            exit: exit.point(),
            center: (entry - out * radius).point(),
            gap: num((entry - current).length()),
        };
        if !path::is_straight(&corner) {
            current = exit;
        }
        corners.push(corner);
    }
    let tail = at.last().map_or(0.0, |&p| (p - current).length());
    (gaps, corners, tail)
}

/// Round the corners of a polyline.
fn rounded_path_from_polyline(
    waypoints: &[Point3],
    corner_radius: f64,
) -> Result<Vec<SweepPathSegment>, SweepError> {
    let (gaps, corners, tail) = measure_corners(waypoints, corner_radius);
    let gaps: Vec<_> = gaps.into_iter().map(num).collect();
    path::rounded_path_from_polyline(
        waypoints,
        num(corner_radius),
        &gaps,
        &corners,
        num(tail),
    )
}

/// Round the corners of a polyline, and sweep a circle along it.
fn sweep_circle_along_rounded_polyline(
    brep: &mut BRep,
    waypoints: &[Point3],
    profile_radius: f64,
    corner_radius: f64,
    opts: &SweepOptions,
) -> Result<SolidId, SweepError> {
    let segments = rounded_path_from_polyline(waypoints, corner_radius)?;
    let (gaps, corners, tail) = measure_corners(waypoints, corner_radius);
    let gaps: Vec<_> = gaps.into_iter().map(num).collect();
    let (steps, joints) = measure_path(&segments, profile_radius);
    assert!(has_slots(brep, 2 * segments.len() + 2), "the model is full");
    path::sweep_circle_along_rounded_polyline(
        brep,
        waypoints,
        num(profile_radius),
        num(corner_radius),
        &gaps,
        &corners,
        num(tail),
        &steps,
        &joints,
        opts,
    )
}

// Floating point: the circle through three points is computed, not decided.
fn measure_circle(a: Vec3, b: Vec3, c: Vec3) -> CircleMeasure {
    let (u, v) = (b - a, c - a);
    let w = u.cross(v);
    let area = w.dot(w);
    let offset = (v.cross(w) * u.dot(u) + w.cross(u) * v.dot(v)) * (1.0 / (2.0 * area));
    CircleMeasure {
        area_sq: num(area),
        radius: num(offset.length()),
        center: (a + offset).point(),
        normal: w.unit().map(Vec3::direction),
    }
}

/// The samples from one on against the circle through the first three of them.
fn measure_arc(at: &[Vec3], start: usize, options: PathApproxOptions) -> ArcProbe {
    let last = at.len() - 1;
    let (second, third) = ((start + 1).min(last), (start + 2).min(last));
    let measured = measure_circle(at[start], at[second], at[third]);
    let (c, r) = (of_point(measured.center), val(measured.radius));
    let n = measured.normal.map_or(v3(0.0, 0.0, 0.0), of_direction);
    let first = at[start] - c;
    let steps = (start + 2..at.len())
        .map(|k| {
            let (before, here) = (at[k - 1] - c, at[k] - c);
            ArcStep {
                off: num((here.length() - r).abs()),
                turn: num(n.dot(before.cross(here))),
                angle: num(n.dot(first.cross(here)).atan2(first.dot(here)).abs()),
            }
        })
        .collect();
    let tol = (r * val(options.radius_rel_tol)).max(val(options.radius_abs_tol));
    ArcProbe { circle: measured, radius_tol: num(tol), steps }
}

/// Recognise the arcs of a sampled polyline.
fn analytic_path_from_polyline_samples(
    points: &[Point3],
    options: PathApproxOptions,
) -> Vec<SweepPathSegment> {
    let at: Vec<Vec3> = points.iter().map(|&p| of_point(p)).collect();
    let gaps: Vec<_> = at.windows(2).map(|w| num((w[1] - w[0]).length())).collect();
    let probes: Vec<_> = (0..gaps.len()).map(|i| measure_arc(&at, i, options)).collect();
    path::analytic_path_from_polyline_samples(points, &gaps, &probes, options)
}

/// Where the end tangents of an arc meet, if they do.
fn corner_of(segment: SweepPathSegment) -> Option<Point3> {
    let SweepPathSegment::Arc { start, end, normal, .. } = segment else { return None };
    path::segment_info(measure_segment(segment, 0.0))?;
    let (d0, d1) = tangents(segment)?;
    let n = of_direction(normal);
    let denominator = n.dot(d0.cross(d1));
    let t = n.dot((of_point(end) - of_point(start)).cross(d1)) / denominator;
    path::tangent_intersection(TangentMeasure {
        denominator: num(denominator),
        point: (of_point(start) + d0 * t).point(),
    })
}

/// Turn the arcs of a sampled polyline back into sharp corners.
fn sharp_path_from_polyline_samples(
    points: &[Point3],
    options: PathApproxOptions,
) -> Vec<SweepPathSegment> {
    let analytic = analytic_path_from_polyline_samples(points, options);
    let Some(first) = analytic.first() else { return Vec::new() };
    let mut so_far = SharpPath::from_point(first.start());
    let mut turns = Vec::new();
    for &segment in &analytic {
        let current = of_point(so_far.current);
        let corner = corner_of(segment);
        let goal = of_point(corner.unwrap_or(segment.end()));
        let join = so_far
            .path
            .last()
            .map_or(0.0, |last| (of_point(last.end()) - of_point(segment.start())).length());
        let turn = SharpTurn {
            corner,
            join: num(join),
            reach: num((goal - current).length()),
        };
        so_far.follow(segment, turn);
        turns.push(turn);
    }
    path::sharp_path_from_polyline_samples(&analytic, &turns)
}

/// How near to the plane is on it.
const ON_PLANE: f64 = 1.0e-6;

/// A plane that keeps what its normal points to.
#[derive(Clone, Copy, Debug)]
struct ClipPlane {
    /// A point on it.
    origin: Vec3,
    /// Its normal.
    normal: Vec3,
}

impl ClipPlane {
    fn distance(&self, p: Vec3) -> f64 {
        self.normal.dot(p - self.origin)
    }
}

// Floating point: what a wave comes to at its ends is computed, not decided.
fn wave(a: f64, b: f64, from: f64, to: f64) -> (f64, f64) {
    let (lo, hi) = if from <= to { (from, to) } else { (to, from) };
    let phase = b.atan2(a);
    let value = |t: f64| a * t.cos() + b * t.sin();
    let first = |t: f64| t + TAU * ((lo - t) / TAU).ceil();
    let (least, most) = cut::harmonic_range(WaveMeasure {
        amplitude: num(a.hypot(b)),
        span: num(hi - lo),
        at_low: num(value(lo)),
        at_high: num(value(hi)),
        high: num(hi),
        crest: num(first(phase)),
        trough: num(first(phase + PI)),
    });
    (val(least), val(most))
}

/// The distances of a flat circular region.
fn circle_range(f: &Frame3, radius: f64, from: f64, to: f64, clip: &ClipPlane) -> (f64, f64) {
    let centre = clip.distance(of_point(f.origin));
    let (lo, hi) = wave(
        radius * clip.normal.dot(of_direction(f.x)),
        radius * clip.normal.dot(of_direction(f.y)),
        from,
        to,
    );
    (centre + lo, centre + hi)
}

// Floating point: the distances of a cylinder are computed, not decided.
/// The distances of a cylinder between two angles, or all round.
fn band_range(
    cyl: &CylSurf,
    length: f64,
    arc: Option<(Vec3, f64, f64)>,
    clip: &ClipPlane,
) -> (f64, f64) {
    let axis = of_direction(cyl.frame.z);
    let radius = val(cyl.radius);
    let start = clip.distance(of_point(cyl.frame.origin));
    let climb = clip.normal.dot(axis) * length;
    let (down, up) = if climb >= 0.0 { (0.0, climb) } else { (climb, 0.0) };
    let (lo, hi) = match arc {
        Some((zero, from, to)) => wave(
            radius * clip.normal.dot(zero),
            radius * clip.normal.dot(axis.cross(zero)),
            from,
            to,
        ),
        None => {
            let along = clip.normal.dot(axis);
            let r = radius * (1.0 - along * along).max(0.0).sqrt();
            (-r, r)
        }
    };
    (start + down + lo, start + up + hi)
}

/// The distances between which the region of a face lies.
fn region_range(face: &Face, clip: &ClipPlane) -> (f64, f64) {
    match (&face.geom, &face.extent) {
        (FaceGeom::Cylinder(c), FaceExtent::Cylinder { length, .. }) => {
            band_range(c, val(*length), None, clip)
        }
        (
            FaceGeom::Cylinder(c),
            FaceExtent::PartialCylinder { length, arc_start_angle, arc_end_angle, arc_ref_dir }
            | FaceExtent::CylinderArcFace { length, arc_start_angle, arc_end_angle, arc_ref_dir },
        ) => band_range(
            c,
            val(*length),
            Some((of_direction(*arc_ref_dir), val(*arc_start_angle), val(*arc_end_angle))),
            clip,
        ),
        (FaceGeom::Plane(p), FaceExtent::Disk { radius }) => {
            circle_range(&p.frame, val(*radius), 0.0, TAU, clip)
        }
        (FaceGeom::Plane(p), FaceExtent::PartialDisk { radius, start_angle, end_angle }) => {
            circle_range(&p.frame, val(*radius), val(*start_angle), val(*end_angle), clip)
        }
        (FaceGeom::Plane(_), FaceExtent::PlanarBoundary { boundary: FaceBoundary::Circle(c) }) => {
            circle_range(&c.frame, val(c.radius), 0.0, TAU, clip)
        }
        (FaceGeom::Torus(t), FaceExtent::TorusFillet { start_circle, end_circle }) => {
            let centre = of_point(t.frame.origin);
            let (x, y) = (of_direction(t.frame.x), of_direction(t.frame.y));
            let angle = |p: Vec3| y.dot(p - centre).atan2(x.dot(p - centre));
            let (s, e) = (of_point(start_circle.frame.origin), of_point(end_circle.frame.origin));
            let (from, to) = if cut::runs_round(num((s - e).length())) {
                (0.0, TAU)
            } else {
                let from = angle(s);
                let to = angle(e);
                (from, to + TAU * ((from - to) / TAU).round())
            };
            let (major, minor) = (val(t.major_radius), val(t.minor_radius));
            let (low, high) = wave(clip.normal.dot(x), clip.normal.dot(y), from, to);
            let rise = clip.normal.dot(of_direction(t.frame.z));
            // How far a ring of the tube reaches, by how far its spoke does.
            let reach = |a: f64| minor * a.hypot(rise);
            let up = |a: f64| major * a + reach(a);
            let down = |a: f64| major * a - reach(a);
            let c = clip.distance(centre);
            (c + down(low).min(down(high)), c + up(low).max(up(high)))
        }
        (FaceGeom::Sphere(s), _) => {
            let c = clip.distance(of_point(s.frame.origin));
            (c - val(s.radius), c + val(s.radius))
        }
        _ => (0.0, 0.0),
    }
}

// Floating point: where a cut leaves its corners is computed, not decided.
/// The faces that close a cut along the axis.
fn lateral_caps(start: Vec3, end: Vec3, radius: f64, half: f64, up: Vec3) -> Option<LateralCaps> {
    let axis = (end - start).unit()?;
    let right = axis.cross(up).unit()?;
    let rise = up * (radius * half.cos());
    let side = right * (radius * half.sin());
    let corner = start + rise - side;
    Some(LateralCaps {
        chord: plane(corner, -up),
        corners: (
            corner.point(),
            (end + rise - side).point(),
            (end + rise + side).point(),
            (start + rise + side).point(),
        ),
        start: Plane3 { frame: frame(start, up, right, -axis) },
        end: Plane3 { frame: frame(end, up, right, axis) },
    })
}

/// A cylinder between two points, if they differ.
fn band(start: Vec3, end: Vec3, radius: f64) -> Option<(CylSurf, cadcore::scalar::Real)> {
    let axis = (end - start).unit()?;
    Some((cylinder(start, axis, radius), num((end - start).length())))
}

/// A full cylinder against the plane.
fn probe_cylinder(cyl: &CylSurf, length: f64, clip: &ClipPlane) -> CylinderProbe {
    let axis = of_direction(cyl.frame.z);
    let start = of_point(cyl.frame.origin);
    let end = start + axis * length;
    let radius = val(cyl.radius);
    let (d0, d1) = (clip.distance(start), clip.distance(end));
    let cut_at = start + (end - start) * (-d0 / (d1 - d0));
    let half = (-d0 / radius).clamp(-1.0, 1.0).acos();
    CylinderProbe {
        axis_cos: num(clip.normal.dot(axis)),
        start_distance: num(d0),
        end_distance: num(d1),
        climb: num(d1 - d0),
        kept_from: num(radius - ON_PLANE),
        dropped_to: num(ON_PLANE - radius),
        lateral: LateralShape {
            band: band(start, end, radius),
            half_angle: num(half),
            up: clip.normal.direction(),
            caps: lateral_caps(start, end, radius, half, clip.normal),
        },
        without_end: AxialShape {
            band: band(start, cut_at, radius),
            circle: circle(cut_at, axis, radius),
            cap: plane(cut_at, axis),
        },
        without_start: AxialShape {
            band: band(cut_at, end, radius),
            circle: circle(cut_at, axis, radius),
            cap: plane(cut_at, -axis),
        },
    }
}

/// A face against the plane.
fn probe_face(face: &Face, clip: &ClipPlane) -> FaceProbe {
    let (low, high) = region_range(face, clip);
    let corners = match &face.extent {
        FaceExtent::Polygon { points } => {
            points.iter().map(|&p| num(clip.distance(of_point(p)))).collect()
        }
        _ => Vec::new(),
    };
    let carrier = match &face.geom {
        FaceGeom::Plane(p) => p.frame.origin,
        FaceGeom::Cylinder(c) => c.frame.origin,
        FaceGeom::Sphere(s) => s.frame.origin,
        FaceGeom::Torus(t) => t.frame.origin,
    };
    let cylinder = match (&face.geom, &face.extent) {
        (FaceGeom::Cylinder(c), FaceExtent::Cylinder { length, .. }) => {
            Some(probe_cylinder(c, val(*length), clip))
        }
        _ => None,
    };
    FaceProbe {
        low: num(low),
        high: num(high),
        corners,
        carrier: num(clip.distance(of_point(carrier))),
        cylinder,
    }
}

/// Cut every solid of a model, and return how many there are then; `warn` is told
/// of each rebuilt solid with faces that are kept though they reach across the
/// plane: how many, and the solid's name.
fn half_space_cut_with(
    brep: &mut BRep,
    clip: &ClipPlane,
    warn: &mut dyn FnMut(usize, Option<&str>),
) -> usize {
    let mut faces = 0;
    let mut probes: Vec<Vec<FaceProbe>> = Vec::new();
    for id in brep.solids.keys() {
        let ids = cut::solid_faces(brep, id);
        faces += 5 * ids.len();
        let measured: Vec<FaceProbe> = ids
            .into_iter()
            .filter_map(|f| brep.faces.get(f).map(|face| probe_face(face, clip)))
            .collect();
        if let SolidOutcome::Replace(parts) = cut::process_solid(brep, id, &measured) {
            if parts.straddling > 0 {
                warn(parts.straddling, parts.name.as_deref());
            }
        }
        probes.push(measured);
    }
    assert!(has_slots(brep, faces + probes.len()), "the model is full");
    cut::half_space_cut_brep(brep, &probes)
}

/// Grid steps per millimetre.
const GRID: f64 = 1_000_000.0;

/// How many straight sides stand for an arc.
const SIDES: usize = 24;

// Floating point: rounding to the grid is computed, not decided.
/// A vector on a grid.
fn grid(v: Vec3, scale: f64) -> GridKey {
    GridKey {
        x: (v.x * scale).round() as i64,
        y: (v.y * scale).round() as i64,
        z: (v.z * scale).round() as i64,
    }
}

/// A length in millionths.
fn micro(length: f64) -> i64 {
    (length * GRID).round() as i64
}

/// A point with its place on the grid.
fn step_point(p: Vec3) -> StepPoint {
    StepPoint { at: p.point(), key: grid(p, GRID) }
}

/// A straight side.
fn side(from: Vec3, to: Vec3) -> SideSheet {
    SideSheet { length: num((to - from).length()), dir: (to - from).unit().map(Vec3::direction) }
}

/// The sides of a ring.
fn ring_sides(points: &[Vec3]) -> Vec<SideSheet> {
    let n = points.len();
    (0..n).map(|i| side(points[i], points[(i + 1) % n])).collect()
}

/// A ring.
fn ring(points: &[Vec3]) -> RingSheet {
    RingSheet {
        points: points.iter().map(|&p| step_point(p)).collect(),
        sides: ring_sides(points),
    }
}

/// A full circle.
fn circle_sheet(centre: Vec3, normal: Vec3, radius: f64) -> CircleSheet {
    let helper = if normal.x.abs() > 0.9 { v3(0.0, 1.0, 0.0) } else { v3(1.0, 0.0, 0.0) };
    let x = normal.cross(helper).unit().unwrap_or(normal);
    CircleSheet {
        center: grid(centre, GRID),
        tenths: grid(normal, 10.0),
        radius_micro: micro(radius),
        x_dir: x.direction(),
        seam: step_point(centre + x * radius),
    }
}

/// A circle of the model.
fn of_circle(c: &Circle3) -> CircleSheet {
    circle_sheet(of_point(c.frame.origin), of_direction(c.frame.z), val(c.radius))
}

/// An ellipse of the model.
fn of_ellipse(e: &Ellipse3) -> EllipseSheet {
    let centre = of_point(e.frame.origin);
    EllipseSheet {
        center: grid(centre, GRID),
        tenths: grid(of_direction(e.frame.z), 10.0),
        semi_major_micro: micro(val(e.semi_major)),
        semi_minor_micro: micro(val(e.semi_minor)),
        seam: step_point(centre + of_direction(e.frame.x) * val(e.semi_major)),
    }
}

/// A closed boundary.
fn boundary(b: &FaceBoundary) -> BoundarySheet {
    match b {
        FaceBoundary::Circle(c) => BoundarySheet::Circle(of_circle(c)),
        FaceBoundary::Ellipse(e) => BoundarySheet::Ellipse(of_ellipse(e)),
    }
}

/// The points of an arc, in straight sides.
fn arc_points(centre: Vec3, x: Vec3, y: Vec3, radius: f64, from: f64, to: f64) -> Vec<Vec3> {
    (0..=SIDES)
        .map(|i| {
            let t = from + (i as f64 / SIDES as f64) * (to - from);
            centre + x * (radius * t.cos()) + y * (radius * t.sin())
        })
        .collect()
}

/// A cylinder cut along its axis.
fn band_sheet(cyl: &CylSurf, length: f64, from: f64, to: f64, zero: Vec3) -> BandSheet {
    let axis = of_direction(cyl.frame.z);
    let right = axis.cross(zero).unit().unwrap_or(of_direction(cyl.frame.x));
    let origin = of_point(cyl.frame.origin);
    let radius = val(cyl.radius);
    let near = arc_points(origin, zero, right, radius, from, to);
    let far = arc_points(origin + axis * length, zero, right, radius, from, to);
    let closing = num((far[0] - near[0]).length());
    let mut walk: Vec<Vec3> = near.clone();
    walk.extend(far.iter().rev());
    if closing.lt(Real::from_bits(NO_SIDE)) {
        walk.pop();
    }
    BandSheet {
        near: near.into_iter().map(step_point).collect(),
        far: far.into_iter().map(step_point).collect(),
        closing,
        sides: ring_sides(&walk),
    }
}

// Floating point: an angle is computed, not decided.
fn turn(centre: Vec3, axis: Vec3, xref: Vec3, from: Vec3, to: Vec3) -> f64 {
    let yref = axis.cross(xref);
    let angle = |p: Vec3| (p - centre).dot(yref).atan2((p - centre).dot(xref));
    let mut t = angle(to) - angle(from);
    while t <= -PI {
        t += 2.0 * PI;
    }
    while t > PI {
        t -= 2.0 * PI;
    }
    t
}

/// An arc between two points.
fn arc(centre: Vec3, axis: Vec3, xref: Vec3, radius: f64, from: Vec3, to: Vec3) -> ArcSheet {
    ArcSheet {
        centre: step_point(centre),
        axis: axis.direction(),
        xref: xref.direction(),
        radius: num(radius),
        radius_micro: micro(radius),
        axis_key: grid(axis, GRID),
        xref_key: grid(xref, GRID),
        turn: num(turn(centre, axis, xref, from, to)),
    }
}

/// A cylinder patch with exact arcs, if it has directions.
fn arc_face(cyl: &CylSurf, length: f64, from: f64, to: f64, zero: Vec3) -> Option<ArcFaceSheet> {
    let axis = of_direction(cyl.frame.z);
    let right = axis.cross(zero).unit()?;
    let low = of_point(cyl.frame.origin);
    let high = low + axis * length;
    let radius = val(cyl.radius);
    let at = |c: Vec3, t: f64| c + zero * (radius * t.cos()) + right * (radius * t.sin());
    let (s0, s1, e0, e1) = (at(low, from), at(high, from), at(low, to), at(high, to));
    Some(ArcFaceSheet {
        start_low: step_point(s0),
        start_high: step_point(s1),
        end_low: step_point(e0),
        end_high: step_point(e1),
        up: side(s0, s1),
        down: side(e1, e0),
        top: arc(high, axis, zero, radius, s1, e1),
        bottom: arc(low, axis, zero, radius, e0, s0),
    })
}

/// A rounded rectangle in a plane of constant y.
fn cap(x: (f64, f64), z: (f64, f64), r: f64, y: f64, plus_y: bool) -> CapSheet {
    let p = |x: f64, z: f64| v3(x, y, z);
    let points = [
        p(x.0 + r, z.0),
        p(x.1 - r, z.0),
        p(x.1, z.0 + r),
        p(x.1, z.1 - r),
        p(x.1 - r, z.1),
        p(x.0 + r, z.1),
        p(x.0, z.1 - r),
        p(x.0, z.0 + r),
    ];
    let centres = [
        p(x.1 - r, z.0 + r),
        p(x.1 - r, z.1 - r),
        p(x.0 + r, z.1 - r),
        p(x.0 + r, z.0 + r),
    ];
    let xrefs =
        [v3(0.0, 0.0, -1.0), v3(1.0, 0.0, 0.0), v3(0.0, 0.0, 1.0), v3(-1.0, 0.0, 0.0)];
    let travel = |i: usize| {
        let (a, b) = (points[i], points[(i + 1) % 8]);
        if plus_y {
            (b, a)
        } else {
            (a, b)
        }
    };
    CapSheet {
        points: points.iter().map(|&q| step_point(q)).collect(),
        sides: (0..4)
            .map(|i| {
                let (a, b) = travel(2 * i);
                side(a, b)
            })
            .collect(),
        corners: (0..4)
            .map(|i| {
                let (a, b) = travel(2 * i + 1);
                arc(centres[i], v3(0.0, 1.0, 0.0), xrefs[i], r, a, b)
            })
            .collect(),
    }
}

/// A disk segment, if its plane has directions.
fn segment(pl: &Plane3, radius: f64, from: f64, to: f64) -> Option<RingSheet> {
    let (x, z) = (of_direction(pl.frame.x), of_direction(pl.frame.z));
    let y = z.cross(x).unit()?;
    Some(ring(&arc_points(of_point(pl.frame.origin), x, y, radius, from, to)))
}

/// The boundary of a face.
fn measure_face(face: &Face) -> FaceSheet {
    match &face.extent {
        FaceExtent::Cylinder { start, end, .. } => {
            FaceSheet::Two { start: boundary(start), end: boundary(end) }
        }
        FaceExtent::PartialCylinder { length, arc_start_angle, arc_end_angle, arc_ref_dir } => {
            let (from, to) = (val(*arc_start_angle), val(*arc_end_angle));
            match &face.geom {
                FaceGeom::Cylinder(c) => FaceSheet::Band(band_sheet(
                    c,
                    val(*length),
                    from,
                    to,
                    of_direction(*arc_ref_dir),
                )),
                _ => FaceSheet::Band(BandSheet {
                    near: vec![step_point(v3(0.0, 0.0, 0.0))],
                    far: Vec::new(),
                    closing: num(1.0),
                    sides: ring_sides(&[v3(0.0, 0.0, 0.0)]),
                }),
            }
        }
        FaceExtent::CylinderArcFace { length, arc_start_angle, arc_end_angle, arc_ref_dir } => {
            FaceSheet::ArcFace(match &face.geom {
                FaceGeom::Cylinder(c) => arc_face(
                    c,
                    val(*length),
                    val(*arc_start_angle),
                    val(*arc_end_angle),
                    of_direction(*arc_ref_dir),
                ),
                _ => None,
            })
        }
        FaceExtent::Disk { radius } => {
            let (o, n) = match &face.geom {
                FaceGeom::Plane(p) => (of_point(p.frame.origin), of_direction(p.frame.z)),
                _ => (v3(0.0, 0.0, 0.0), v3(0.0, 0.0, 1.0)),
            };
            FaceSheet::One(BoundarySheet::Circle(circle_sheet(o, n, val(*radius))))
        }
        FaceExtent::PartialDisk { radius, start_angle, end_angle } => {
            FaceSheet::Ring(match &face.geom {
                FaceGeom::Plane(p) => segment(p, val(*radius), val(*start_angle), val(*end_angle)),
                _ => None,
            })
        }
        FaceExtent::TorusFillet { start_circle, end_circle } => FaceSheet::Two {
            start: BoundarySheet::Circle(of_circle(start_circle)),
            end: BoundarySheet::Circle(of_circle(end_circle)),
        },
        FaceExtent::PlanarBoundary { boundary: b } => FaceSheet::One(boundary(b)),
        FaceExtent::Polygon { points } => {
            let at: Vec<Vec3> = points.iter().map(|&p| of_point(p)).collect();
            FaceSheet::Ring(Some(ring(&at)))
        }
        FaceExtent::RoundedRectCap { xmin, xmax, zmin, zmax, radius, y, plus_y } => {
            FaceSheet::Cap(cap(
                (val(*xmin), val(*xmax)),
                (val(*zmin), val(*zmax)),
                val(*radius),
                val(*y),
                *plus_y,
            ))
        }
        FaceExtent::Unknown | FaceExtent::Trimmed => FaceSheet::Nothing,
    }
}

/// The faces of several solids.
fn measure_solids(brep: &BRep, ids: &[SolidId]) -> Vec<Vec<FaceSheet>> {
    ids.iter()
        .map(|&id| {
            solid_faces(brep, id)
                .into_iter()
                .filter_map(|f| brep.faces.get(f).map(measure_face))
                .collect()
        })
        .collect()
}

/// A text with its numbers written out.
fn render(glyphs: &[Glyph]) -> String {
    let mut out = String::new();
    for g in glyphs {
        match g {
            Glyph::Char(c) => out.push(char::from_u32(*c).unwrap_or(char::REPLACEMENT_CHARACTER)),
            Glyph::Number(n) => out.push_str(&format!("{:.10}", val(*n))),
        }
    }
    out
}

/// Write the solids with the given ids, or all of them if none is given.
fn to_step(brep: &BRep, solid_ids: &[SolidId]) -> Result<String, StepError> {
    let ids = if solid_ids.is_empty() { brep.solids.keys() } else { solid_ids.to_vec() };
    let sheets = measure_solids(brep, &ids);
    writer::StepWriter::new(brep).to_step(solid_ids, &sheets).map(|g| render(&g))
}

/// Write all solids of a model.
fn brep_to_step(brep: &BRep) -> Result<String, StepError> {
    let sheets = measure_solids(brep, &brep.solids.keys());
    writer::brep_to_step(brep, &sheets).map(|g| render(&g))
}

/// Write all solids of a model as the components of one assembly.
fn brep_to_step_assembly(brep: &BRep) -> Result<String, StepError> {
    let sheets = measure_solids(brep, &brep.solids.keys());
    writer::brep_to_step_assembly(brep, &sheets).map(|g| render(&g))
}

// ── Sweeping ────────────────────────────────────────────────────────────────

fn p3(x: f64, y: f64, z: f64) -> Point3 {
    v3(x, y, z).point()
}

fn line(x0: f64, x1: f64) -> Vec<Point3> {
    vec![p3(x0, 0.0, 0.0), p3(x1, 0.0, 0.0)]
}

fn no_fillets() -> SweepOptions {
    SweepOptions { fillet_corners: false, name: None }
}

fn z_up() -> UnitVec3 {
    v3(0.0, 0.0, 1.0).direction()
}

fn gap(a: Point3, b: Point3) -> f64 {
    (of_point(a) - of_point(b)).length()
}

#[test]
fn single_segment_creates_solid() {
    let mut brep = BRep::new();
    let id =
        sweep_circle_along_polyline(&mut brep, &line(0.0, 10.0), 1.0, &SweepOptions::default())
            .unwrap();
    assert!(brep.solids.get(id).is_some());
    let stats = brep.stats();
    assert_eq!(stats.faces, 3, "expected 3 faces, got {}", stats.faces);
}

#[test]
fn two_segments_can_add_legacy_connector() {
    let waypoints = vec![p3(0.0, 0.0, 0.0), p3(5.0, 0.0, 0.0), p3(5.0, 5.0, 0.0)];
    let mut brep = BRep::new();
    let _id = sweep_circle_along_polyline(
        &mut brep,
        &waypoints,
        0.5,
        &SweepOptions { fillet_corners: true, name: None },
    )
    .unwrap();
    let stats = brep.stats();
    assert_eq!(stats.faces, 5, "expected 5 faces, got {}", stats.faces);
}

#[test]
fn error_on_too_few_points() {
    let mut brep = BRep::new();
    let err = sweep_circle_along_polyline(
        &mut brep,
        &[p3(0.0, 0.0, 0.0)],
        1.0,
        &SweepOptions::default(),
    )
    .unwrap_err();
    assert_eq!(err, SweepError::TooFewWaypoints);
}

#[test]
fn error_on_zero_radius() {
    let mut brep = BRep::new();
    let err =
        sweep_circle_along_polyline(&mut brep, &line(0.0, 5.0), 0.0, &SweepOptions::default())
            .unwrap_err();
    assert!(matches!(err, SweepError::InvalidRadius(_)));
}

#[test]
fn analytic_arc_creates_single_torus_face() {
    let mut brep = BRep::new();
    sweep_circle_along_path(
        &mut brep,
        &[
            SweepPathSegment::Line { start: p3(-5.0, 0.0, 0.0), end: p3(1.0, 0.0, 0.0) },
            SweepPathSegment::Arc {
                start: p3(1.0, 0.0, 0.0),
                end: p3(0.0, 1.0, 0.0),
                center: p3(0.0, 0.0, 0.0),
                normal: z_up(),
            },
            SweepPathSegment::Line { start: p3(0.0, 1.0, 0.0), end: p3(0.0, 5.0, 0.0) },
        ],
        0.2,
        &no_fillets(),
    )
    .unwrap();
    let stats = brep.stats();
    assert_eq!(stats.faces, 5, "2 cylinders + 1 torus arc + 2 caps");
}

#[test]
fn rounded_polyline_builds_tangent_arc() {
    let path = rounded_path_from_polyline(
        &[p3(-5.0, 0.0, 0.0), p3(0.0, 0.0, 0.0), p3(0.0, 5.0, 0.0)],
        1.0,
    )
    .unwrap();
    assert_eq!(path.len(), 3);
    match path[1] {
        SweepPathSegment::Arc { start, end, center, normal } => {
            assert!(gap(start, p3(-1.0, 0.0, 0.0)) < 1.0e-10);
            assert!(gap(end, p3(0.0, 1.0, 0.0)) < 1.0e-10);
            assert!(gap(center, p3(-1.0, 1.0, 0.0)) < 1.0e-10);
            assert!(of_direction(normal).dot(v3(0.0, 0.0, 1.0)) > 0.999_999);
        }
        _ => panic!("expected circular arc"),
    }
}

#[test]
fn rounded_polyline_sweep_uses_centerline_radius_for_torus() {
    let mut brep = BRep::new();
    sweep_circle_along_rounded_polyline(
        &mut brep,
        &[p3(-5.0, 0.0, 0.0), p3(0.0, 0.0, 0.0), p3(0.0, 5.0, 0.0)],
        0.2,
        1.5,
        &no_fillets(),
    )
    .unwrap();
    let torus = brep
        .faces
        .keys()
        .into_iter()
        .find_map(|id| match brep.faces.get(id).unwrap().geom {
            FaceGeom::Torus(t) => Some(t),
            _ => None,
        })
        .expect("missing torus");
    assert!((val(torus.major_radius) - 1.5).abs() < 1.0e-10);
    assert!((val(torus.minor_radius) - 0.2).abs() < 1.0e-10);
}

#[test]
fn arc_radius_must_exceed_profile_radius() {
    let mut brep = BRep::new();
    let err = sweep_circle_along_path(
        &mut brep,
        &[SweepPathSegment::Arc {
            start: p3(0.15, 0.0, 0.0),
            end: p3(0.0, 0.15, 0.0),
            center: p3(0.0, 0.0, 0.0),
            normal: z_up(),
        }],
        0.2,
        &no_fillets(),
    )
    .unwrap_err();
    assert!(matches!(err, SweepError::SelfIntersectingSweep(0)));
}

#[test]
fn sampled_polyline_arc_is_recovered_as_one_segment() {
    let mut points = vec![p3(1.0, -2.0, 0.0), p3(1.0, 0.0, 0.0)];
    for k in 1..=24 {
        let a = std::f64::consts::FRAC_PI_2 * k as f64 / 24.0;
        points.push(p3(a.cos(), a.sin(), 0.0));
    }
    points.push(p3(-2.0, 1.0, 0.0));
    let path = analytic_path_from_polyline_samples(&points, PathApproxOptions::default());
    assert_eq!(path.len(), 3);
    assert!(matches!(path[1], SweepPathSegment::Arc { .. }));
}

#[test]
fn sampled_arc_can_be_restored_to_sharp_corner() {
    let mut points = vec![p3(0.15, -1.0, 0.0), p3(0.15, 0.0, 0.0)];
    for k in 1..=24 {
        let a = std::f64::consts::FRAC_PI_2 * k as f64 / 24.0;
        points.push(p3(0.15 * a.cos(), 0.15 * a.sin(), 0.0));
    }
    points.push(p3(-1.0, 0.15, 0.0));
    let path = sharp_path_from_polyline_samples(&points, PathApproxOptions::default());
    assert_eq!(path.len(), 2);
    match path[0] {
        SweepPathSegment::Line { end, .. } => {
            assert!(gap(end, p3(0.15, 0.15, 0.0)) < 1.0e-9);
        }
        _ => panic!("expected line"),
    }
}

#[test]
fn refused_sweeps_name_the_offender() {
    let mut brep = BRep::new();
    let twice = [p3(0.0, 0.0, 0.0), p3(1.0, 0.0, 0.0), p3(1.0, 0.0, 0.0)];
    let opts = no_fillets();
    assert_eq!(
        sweep_circle_along_polyline(&mut brep, &twice, 0.1, &opts).unwrap_err(),
        SweepError::CoincidentWaypoints(1)
    );
    assert_eq!(
        sweep_circle_along_polyline(&mut brep, &line(0.0, 1.0), -2.0, &opts).unwrap_err(),
        SweepError::InvalidRadius(num(-2.0))
    );
    let apart = [
        SweepPathSegment::Line { start: p3(0.0, 0.0, 0.0), end: p3(1.0, 0.0, 0.0) },
        SweepPathSegment::Line { start: p3(1.0, 1.0, 0.0), end: p3(2.0, 1.0, 0.0) },
    ];
    assert_eq!(
        sweep_circle_along_path(&mut brep, &apart, 0.1, &opts).unwrap_err(),
        SweepError::DisconnectedSegments(1)
    );
    let off_plane = [SweepPathSegment::Arc {
        start: p3(1.0, 0.0, 0.0),
        end: p3(0.0, 1.0, 0.5),
        center: p3(0.0, 0.0, 0.0),
        normal: z_up(),
    }];
    assert_eq!(
        sweep_circle_along_path(&mut brep, &off_plane, 0.1, &opts).unwrap_err(),
        SweepError::InvalidArc(0)
    );
    assert_eq!(
        sweep_circle_along_path(&mut brep, &[], 0.1, &opts).unwrap_err(),
        SweepError::TooFewWaypoints
    );
    let bend = [p3(-5.0, 0.0, 0.0), p3(0.0, 0.0, 0.0), p3(0.0, 5.0, 0.0)];
    assert_eq!(
        rounded_path_from_polyline(&bend, -1.0).unwrap_err(),
        SweepError::InvalidCornerRadius(num(-1.0))
    );
    assert_eq!(
        rounded_path_from_polyline(&bend, 6.0).unwrap_err(),
        SweepError::CornerRadiusTooLarge(1)
    );
    assert_eq!(brep.stats().faces, 0, "a refused sweep adds nothing");
}

#[test]
fn rounding_runs_through_straight_waypoints() {
    let path = rounded_path_from_polyline(
        &[p3(0.0, 0.0, 0.0), p3(1.0, 0.0, 0.0), p3(3.0, 0.0, 0.0)],
        0.5,
    )
    .unwrap();
    assert_eq!(path.len(), 1);
    assert_eq!(path[0].start(), p3(0.0, 0.0, 0.0));
    assert_eq!(path[0].end(), p3(3.0, 0.0, 0.0));
    let sharp = rounded_path_from_polyline(
        &[p3(0.0, 0.0, 0.0), p3(1.0, 0.0, 0.0), p3(1.0, 1.0, 0.0)],
        0.0,
    )
    .unwrap();
    assert_eq!(sharp.len(), 2);
}

#[test]
fn miters_are_ellipses_with_the_right_axes() {
    let mut brep = BRep::new();
    let bend = [p3(0.0, 0.0, 0.0), p3(5.0, 0.0, 0.0), p3(5.0, 5.0, 0.0)];
    sweep_circle_along_polyline(&mut brep, &bend, 1.0, &no_fillets()).unwrap();
    let ids = brep.faces.keys();
    assert_eq!(ids.len(), 4);
    match &brep.faces.get(ids[1]).unwrap().extent {
        FaceExtent::Cylinder { length, start, end } => {
            assert_eq!(val(*length), 5.0);
            assert!(matches!(start, FaceBoundary::Circle(_)));
            match end {
                FaceBoundary::Ellipse(e) => {
                    assert!((val(e.semi_major) - 2.0_f64.sqrt()).abs() < 1e-12);
                    assert_eq!(val(e.semi_minor), 1.0);
                }
                _ => panic!("expected a miter"),
            }
        }
        _ => panic!("expected a cylinder"),
    }
}

// ── Cutting ─────────────────────────────────────────────────────────────────

/// The faces that belong to a solid.
fn live_faces(brep: &BRep) -> Vec<&Face> {
    let mut out = Vec::new();
    for id in brep.solids.keys() {
        for &sh in &brep.solids.get(id).unwrap().shells {
            if let Some(shell) = brep.shells.get(sh) {
                for &fid in &shell.faces {
                    if let Some(f) = brep.faces.get(fid) {
                        out.push(f);
                    }
                }
            }
        }
    }
    out
}

fn count_live<F: Fn(&Face) -> bool>(brep: &BRep, pred: F) -> usize {
    live_faces(brep).into_iter().filter(|f| pred(f)).count()
}

fn any_face<F: Fn(&Face) -> bool>(brep: &BRep, pred: F) -> bool {
    brep.faces.keys().into_iter().any(|id| pred(brep.faces.get(id).unwrap()))
}

fn keep_above(y: f64) -> ClipPlane {
    ClipPlane { origin: v3(0.0, y, 0.0), normal: v3(0.0, 1.0, 0.0) }
}

fn keep_below(y: f64) -> ClipPlane {
    ClipPlane { origin: v3(0.0, y, 0.0), normal: v3(0.0, -1.0, 0.0) }
}

#[test]
fn x_cylinder_tangent_to_plane_survives_as_halfcyl() {
    let mut brep = BRep::new();
    sweep_circle_along_polyline(
        &mut brep,
        &[p3(0.0, 0.20, 0.0), p3(20.0, 0.20, 0.0)],
        0.20,
        &SweepOptions::default(),
    )
    .unwrap();
    let n = half_space_cut_brep(&mut brep, &keep_above(0.20));
    assert_eq!(n, 1, "cylinder must survive as a partial cylinder");
    let total_faces = brep.faces.len();
    assert!(
        total_faces >= 3,
        "partial-cyl solid needs >= 3 faces (cyl + chord + 2 caps), got {total_faces}"
    );
    assert!(
        any_face(&brep, |f| matches!(f.extent, FaceExtent::PartialCylinder { .. })),
        "no PartialCylinder face produced"
    );
    assert!(
        any_face(&brep, |f| matches!(f.extent, FaceExtent::Polygon { .. })),
        "no chord polygon face produced"
    );
}

#[test]
fn y_cylinder_perpendicular_to_plane_truncates() {
    let mut brep = BRep::new();
    sweep_circle_along_polyline(
        &mut brep,
        &[p3(5.0, 0.0, 0.0), p3(5.0, 20.0, 0.0)],
        0.20,
        &SweepOptions::default(),
    )
    .unwrap();
    let n = half_space_cut_brep(&mut brep, &keep_above(0.40));
    assert_eq!(n, 1, "cylinder must survive as truncated");
    assert!(
        any_face(&brep, |f| matches!(f.extent, FaceExtent::Disk { .. })),
        "no flat disk cap produced after axial cut"
    );
    let length = live_faces(&brep)
        .into_iter()
        .find_map(|f| match f.extent {
            FaceExtent::Cylinder { length, .. } => Some(val(length)),
            _ => None,
        })
        .unwrap();
    assert!((length - 19.6).abs() < 1e-12);
}

#[test]
fn cylinder_below_plane_dropped() {
    let mut brep = BRep::new();
    sweep_circle_along_polyline(
        &mut brep,
        &[p3(0.0, -5.0, 0.0), p3(20.0, -5.0, 0.0)],
        0.20,
        &SweepOptions::default(),
    )
    .unwrap();
    let n = half_space_cut_brep(&mut brep, &keep_above(0.0));
    assert_eq!(n, 0, "cylinder fully below plane must be dropped");
}

#[test]
fn sequential_cuts_keep_earlier_chord_faces() {
    let mut brep = BRep::new();
    sweep_circle_along_polyline(
        &mut brep,
        &[
            p3(0.0, 1.0, 0.0),
            p3(20.0, 1.0, 0.0),
            p3(20.0, 19.0, 0.0),
            p3(0.0, 19.0, 0.0),
        ],
        0.2,
        &SweepOptions::default(),
    )
    .unwrap();
    let is_partial_cyl = |f: &Face| matches!(f.extent, FaceExtent::PartialCylinder { .. });
    let is_polygon = |f: &Face| matches!(f.extent, FaceExtent::Polygon { .. });
    let is_partial_disk = |f: &Face| matches!(f.extent, FaceExtent::PartialDisk { .. });
    half_space_cut_brep(&mut brep, &keep_above(1.0));
    assert_eq!(count_live(&brep, is_partial_cyl), 1, "plane 1 chord face");
    half_space_cut_brep(&mut brep, &keep_below(19.0));
    assert_eq!(count_live(&brep, is_polygon), 2, "one chord polygon per plane");
    assert_eq!(count_live(&brep, is_partial_disk), 4, "two partial-disk caps per plane");
    assert_eq!(
        count_live(&brep, is_partial_cyl),
        2,
        "plane 2 dropped the chord cylinder made by plane 1"
    );
}

fn hairpin(brep: &mut BRep) {
    sweep_circle_along_rounded_polyline(
        brep,
        &[p3(0.0, 0.0, 0.0), p3(0.0, 20.0, 0.0), p3(2.0, 20.0, 0.0), p3(2.0, 0.0, 0.0)],
        0.2,
        1.0,
        &SweepOptions::default(),
    )
    .unwrap();
}

#[test]
fn torus_fillet_past_the_plane_is_dropped() {
    let mut brep = BRep::new();
    hairpin(&mut brep);
    let torus_count = |b: &BRep| count_live(b, |f| matches!(f.geom, FaceGeom::Torus(_)));
    assert!(torus_count(&brep) >= 2, "rounded corners must be tori");
    half_space_cut_brep(&mut brep, &keep_below(15.0));
    assert_eq!(
        torus_count(&brep),
        0,
        "fillets entirely on the discarded side must be dropped"
    );
}

#[test]
fn torus_fillet_before_the_plane_is_kept() {
    let mut brep = BRep::new();
    hairpin(&mut brep);
    let torus_count = |b: &BRep| count_live(b, |f| matches!(f.geom, FaceGeom::Torus(_)));
    let before = torus_count(&brep);
    half_space_cut_brep(&mut brep, &keep_above(5.0));
    assert_eq!(torus_count(&brep), before, "kept-side fillets must survive");
}

#[test]
fn cylinder_above_plane_kept() {
    let mut brep = BRep::new();
    sweep_circle_along_polyline(
        &mut brep,
        &[p3(0.0, 5.0, 0.0), p3(20.0, 5.0, 0.0)],
        0.20,
        &SweepOptions::default(),
    )
    .unwrap();
    let face_count_before = brep.faces.len();
    let n = half_space_cut_brep(&mut brep, &keep_above(0.0));
    assert_eq!(n, 1);
    assert_eq!(
        brep.faces.len(),
        face_count_before,
        "fully-above cylinder must not gain or lose faces"
    );
}

#[test]
fn solids_that_are_partly_dropped_are_rebuilt() {
    let mut brep = BRep::new();
    // One leg lies wholly behind the plane, one wholly in front of it.
    sweep_circle_along_polyline(
        &mut brep,
        &[p3(0.0, -5.0, 0.0), p3(20.0, -5.0, 0.0), p3(20.0, -5.0, 9.0)],
        0.2,
        &no_fillets(),
    )
    .unwrap();
    let clip = ClipPlane { origin: v3(19.0, 0.0, 0.0), normal: v3(1.0, 0.0, 0.0) };
    assert_eq!(half_space_cut_brep(&mut brep, &clip), 1);
    let clip = ClipPlane { origin: v3(0.0, 0.0, 0.2), normal: v3(0.0, 0.0, 1.0) };
    assert_eq!(half_space_cut_brep(&mut brep, &clip), 1);
    let cylinders = count_live(&brep, |f| matches!(f.extent, FaceExtent::Cylinder { .. }));
    assert_eq!(cylinders, 1, "the leg behind the plane is gone");
}

// ── STEP ────────────────────────────────────────────────────────────────────

fn count(step: &str, keyword: &str) -> usize {
    step.matches(keyword).count()
}

/// The uses of each edge curve: the numbers of the uses, with their senses.
fn oriented_edge_uses(step: &str) -> std::collections::HashMap<usize, Vec<(usize, &str)>> {
    let mut map: std::collections::HashMap<usize, Vec<(usize, &str)>> =
        std::collections::HashMap::new();
    for line in step.lines() {
        if !line.contains("ORIENTED_EDGE") {
            continue;
        }
        let parts: Vec<&str> = line.split(',').collect();
        if parts.len() < 4 {
            continue;
        }
        let ec_part = parts[parts.len() - 2].trim();
        let sense_part = parts[parts.len() - 1].trim().trim_end_matches(';');
        let ec_id: usize = ec_part.trim_start_matches('#').parse().ok().unwrap_or(0);
        let oe_id_str =
            line.trim().split('=').next().unwrap_or("").trim().trim_start_matches('#');
        let oe_id: usize = oe_id_str.parse().ok().unwrap_or(0);
        if ec_id > 0 && oe_id > 0 {
            map.entry(ec_id).or_default().push((oe_id, sense_part));
        }
    }
    map
}

/// Every edge curve is used exactly twice, in opposite senses.
fn check_ap214_manifold(step: &str) -> Result<(), String> {
    let uses = oriented_edge_uses(step);
    let mut violations = Vec::new();
    for (ec_id, refs) in &uses {
        let ec_line = format!("#{ec_id} = EDGE_CURVE");
        if !step.contains(&ec_line) {
            continue;
        }
        if refs.len() != 2 {
            violations.push(format!("EC#{ec_id} used {} times (want 2): {:?}", refs.len(), refs));
            continue;
        }
        let t_count = refs.iter().filter(|(_, s)| s.contains(".T.")).count();
        let f_count = refs.iter().filter(|(_, s)| s.contains(".F.")).count();
        if t_count != 1 || f_count != 1 {
            violations.push(format!("EC#{ec_id} has wrong senses: {} and {}", refs[0].1, refs[1].1));
        }
    }
    if violations.is_empty() {
        Ok(())
    } else {
        Err(violations.join("\n"))
    }
}

#[test]
fn straight_cylinder_caps_share_edge_curve() {
    let mut brep = BRep::new();
    sweep_circle_along_polyline(
        &mut brep,
        &[p3(0.0, 0.0, 0.0), p3(0.0, 5.0, 0.0)],
        0.3,
        &SweepOptions::default(),
    )
    .unwrap();
    let step = brep_to_step(&brep).unwrap();
    assert_eq!(count(&step, "CYLINDRICAL_SURFACE"), 1);
    assert_eq!(count(&step, "ADVANCED_FACE"), 3);
    if let Err(e) = check_ap214_manifold(&step) {
        panic!("AP214 manifold violation:\n{e}");
    }
}

/// A prism along y over a rectangle with rounded corners: two caps, four flat
/// sides, four quarter-cylinders.
fn build_solid_rounded_box_xz(
    brep: &mut BRep,
    x: (f64, f64),
    y: (f64, f64),
    z: (f64, f64),
    r: f64,
    name: Option<String>,
) {
    let profile = [
        (x.0 + r, z.0),
        (x.1 - r, z.0),
        (x.1, z.0 + r),
        (x.1, z.1 - r),
        (x.1 - r, z.1),
        (x.0 + r, z.1),
        (x.0, z.1 - r),
        (x.0, z.0 + r),
    ];
    let centres =
        [(x.1 - r, z.0 + r), (x.1 - r, z.1 - r), (x.0 + r, z.1 - r), (x.0 + r, z.0 + r)];
    let refs = [v3(0.0, 0.0, -1.0), v3(1.0, 0.0, 0.0), v3(0.0, 0.0, 1.0), v3(-1.0, 0.0, 0.0)];
    let up = v3(0.0, 1.0, 0.0);
    let mut plans = Vec::new();
    for plus_y in [false, true] {
        let at = if plus_y { y.1 } else { y.0 };
        let normal = if plus_y { up } else { -up };
        plans.push(FacePlan {
            geom: FaceGeom::Plane(plane(v3(x.0, at, z.0), normal)),
            normal: FaceNormal::Same,
            extent: FaceExtent::RoundedRectCap {
                xmin: num(x.0),
                xmax: num(x.1),
                zmin: num(z.0),
                zmax: num(z.1),
                radius: num(r),
                y: num(at),
                plus_y,
            },
        });
    }
    for k in 0..4 {
        let (a, b) = (profile[2 * k], profile[2 * k + 1]);
        let low = |q: (f64, f64)| v3(q.0, y.0, q.1);
        let high = |q: (f64, f64)| v3(q.0, y.1, q.1);
        let along = (low(b) - low(a)).unit().unwrap();
        plans.push(FacePlan {
            geom: FaceGeom::Plane(plane(low(a), up.cross(along))),
            normal: FaceNormal::Same,
            extent: FaceExtent::Polygon {
                points: vec![low(a).point(), high(a).point(), high(b).point(), low(b).point()],
            },
        });
        let c = centres[k];
        plans.push(FacePlan {
            geom: FaceGeom::Cylinder(cylinder(v3(c.0, y.0, c.1), up, r)),
            normal: FaceNormal::Same,
            extent: FaceExtent::CylinderArcFace {
                length: num(y.1 - y.0),
                arc_start_angle: num(0.0),
                arc_end_angle: num(-std::f64::consts::FRAC_PI_2),
                arc_ref_dir: refs[k].direction(),
            },
        });
    }
    build_solid(brep, plans, name);
}

#[test]
fn rounded_box_xz_is_manifold() {
    let mut brep = BRep::new();
    build_solid_rounded_box_xz(
        &mut brep,
        (0.0, 10.0),
        (0.0, 1.0),
        (0.0, 8.0),
        1.0,
        Some("electrode".into()),
    );
    let step = brep_to_step(&brep).unwrap();
    assert_eq!(count(&step, "ADVANCED_FACE"), 10, "rounded box must produce exactly 10 faces");
    assert_eq!(count(&step, "CYLINDRICAL_SURFACE"), 4, "four quarter-cylinder corners");
    if let Err(e) = check_ap214_manifold(&step) {
        panic!("Electrode AP214 manifold violation:\n{e}");
    }
}

#[test]
fn half_space_cut_serpentine_stays_manifold() {
    let raw = [
        p3(1.0, 0.0, 0.0),
        p3(1.0, 20.0, 0.0),
        p3(2.0, 20.0, 0.0),
        p3(2.0, 0.0, 0.0),
        p3(3.0, 0.0, 0.0),
        p3(3.0, 20.0, 0.0),
    ];
    let segs: Vec<SweepPathSegment> =
        raw.windows(2).map(|w| SweepPathSegment::Line { start: w[0], end: w[1] }).collect();
    for &(oy, ny) in &[(1.0_f64, 1.0_f64), (19.0, -1.0)] {
        let mut brep = BRep::new();
        sweep_circle_along_path(
            &mut brep,
            &segs,
            0.2,
            &SweepOptions { fillet_corners: false, name: Some("serp".into()) },
        )
        .unwrap();
        let clip = if ny > 0.0 { keep_above(oy) } else { keep_below(oy) };
        half_space_cut_brep(&mut brep, &clip);
        let step = brep_to_step(&brep).unwrap();
        if let Err(e) = check_ap214_manifold(&step) {
            panic!("half-space cut opened the shell (oy={oy}):\n{e}");
        }
    }
}

#[test]
fn rounded_box_xz_arc_edges_not_duplicated() {
    let mut brep = BRep::new();
    build_solid_rounded_box_xz(&mut brep, (0.0, 10.0), (0.0, 2.0), (0.0, 8.0), 1.5, None);
    let step = brep_to_step(&brep).unwrap();
    let uses = oriented_edge_uses(&step);
    let mut dup_arcs = 0usize;
    for (ec_id, refs) in &uses {
        let ec_line = format!("#{ec_id} = EDGE_CURVE");
        if !step.contains(&ec_line) {
            continue;
        }
        if refs.len() > 2 {
            dup_arcs += 1;
        }
    }
    assert_eq!(dup_arcs, 0, "some arc EDGE_CURVEs are referenced more than twice");
}

#[test]
fn step_file_has_header_entities_and_end() {
    let mut brep = BRep::new();
    sweep_circle_along_polyline(&mut brep, &line(0.0, 10.0), 1.0, &no_fillets()).unwrap();
    let step = brep_to_step(&brep).unwrap();
    assert!(step.starts_with("ISO-10303-21;\n"));
    assert!(step.trim_end().ends_with("END-ISO-10303-21;"));
    assert!(step.contains("CARTESIAN_POINT('plane',(0.0000000000,0.0000000000,0.0000000000))"));
    assert!(step.contains(",10.0000000000") || step.contains("(10.0000000000,"));
    // Every entity is numbered once.
    let mut labels: Vec<usize> = step
        .lines()
        .filter(|l| l.starts_with('#'))
        .map(|l| l[1..].split(' ').next().unwrap().parse().unwrap())
        .collect();
    let total = labels.len();
    labels.sort();
    labels.dedup();
    assert_eq!(labels.len(), total);
    let one = to_step(&brep, &brep.solids.keys()).unwrap();
    assert_eq!(one, step, "naming all solids is the same as naming none");
}

#[test]
fn assemblies_have_one_component_per_solid() {
    let mut brep = BRep::new();
    sweep_circle_along_polyline(&mut brep, &line(0.0, 10.0), 1.0, &no_fillets()).unwrap();
    sweep_circle_along_polyline(&mut brep, &line(20.0, 30.0), 1.0, &no_fillets()).unwrap();
    let step = brep_to_step_assembly(&brep).unwrap();
    assert_eq!(count(&step, "NEXT_ASSEMBLY_USAGE_OCCURRENCE("), 2);
    assert_eq!(count(&step, "MANIFOLD_SOLID_BREP("), 2);
    assert_eq!(count(&step, "ADVANCED_FACE"), 6);
    if let Err(e) = check_ap214_manifold(&step) {
        panic!("AP214 manifold violation:\n{e}");
    }
}

#[test]
fn fused_solids_are_written_as_one_solid() {
    let mut brep = BRep::new();
    sweep_circle_along_polyline(&mut brep, &line(0.0, 10.0), 1.0, &no_fillets()).unwrap();
    sweep_circle_along_polyline(&mut brep, &line(20.0, 30.0), 1.0, &no_fillets()).unwrap();
    assert_eq!(brep.stats().solids, 2);
    assert_eq!(union_solids(&mut brep), 1);
    let id = brep.solids.keys()[0];
    let solid = brep.solids.get(id).unwrap();
    assert_eq!(solid.name.as_deref(), Some("fused_solid"));
    assert_eq!(solid.shells.len(), 2);
    for &sh in &solid.shells {
        assert_eq!(brep.shells.get(sh).unwrap().solid, id);
    }
    let mut empty = BRep::new();
    assert_eq!(union_solids(&mut empty), 0);
}

#[test]
fn recognised_paths_have_no_gaps() {
    let mut points = vec![p3(1.0, -2.0, 0.0), p3(1.0, 0.0, 0.0)];
    for k in 1..=24 {
        let a = std::f64::consts::FRAC_PI_2 * k as f64 / 24.0;
        points.push(p3(a.cos(), a.sin(), 0.0));
    }
    points.push(p3(-2.0, 1.0, 0.0));
    let path = analytic_path_from_polyline_samples(&points, PathApproxOptions::default());
    assert_eq!(path[0].start(), points[0]);
    for w in path.windows(2) {
        assert_eq!(w[0].end(), w[1].start());
    }
    assert_eq!(path[path.len() - 1].end(), points[points.len() - 1]);
    assert!(analytic_path_from_polyline_samples(&points[..1], PathApproxOptions::default())
        .is_empty());
}

#[test]
fn components_of_one_name_are_told_apart() {
    let mut brep = BRep::new();
    let named = SweepOptions { fillet_corners: false, name: Some("leg".into()) };
    for k in 0..12 {
        let at = 20.0 * k as f64;
        sweep_circle_along_polyline(&mut brep, &line(at, at + 10.0), 1.0, &named).unwrap();
    }
    let step = brep_to_step_assembly(&brep).unwrap();
    let mut ids: Vec<&str> = step
        .lines()
        .filter_map(|l| l.split(" = PRODUCT('").nth(1))
        .map(|rest| rest.split('\'').next().unwrap())
        .collect();
    assert_eq!(ids.len(), 13, "twelve components and the assembly");
    ids.sort();
    ids.dedup();
    assert_eq!(ids.len(), 13);
}

const HEADER: &str = "ISO-10303-21;\nHEADER;\n  FILE_DESCRIPTION(('cadcore B-Rep export'),'2;1');\n  FILE_NAME('','',(''),(''),'cadcore 0.1','','');\n  FILE_SCHEMA(('CONFIG_CONTROL_DESIGN'));\nENDSEC;\nDATA;\n#1 = APPLICATION_CONTEXT('configuration controlled 3d designs of mechanical parts and assemblies');\n#2 = APPLICATION_PROTOCOL_DEFINITION('international standard','config_control_design',1994,#1);\n#3 = PRODUCT_CONTEXT('',#1,'mechanical');\n";

const FOOTER: &str = "ENDSEC;\nEND-ISO-10303-21;\n";

const PRODUCT: &str = "#4 = PRODUCT('cadcore_part','cadcore part','',(#3));\n#5 = PRODUCT_DEFINITION_FORMATION('','',#4);\n#6 = PRODUCT_DEFINITION('design','',#5,#3);\n#7 = PRODUCT_DEFINITION_SHAPE('','',#6);\n";

/// The context and the units of a file whose last entity before them has the
/// number `n`.
fn context(n: usize) -> String {
    format!(
        "#{} = (GEOMETRIC_REPRESENTATION_CONTEXT(3) GLOBAL_UNCERTAINTY_ASSIGNED_CONTEXT((#{})) GLOBAL_UNIT_ASSIGNED_CONTEXT((#{},#{},#{})) REPRESENTATION_CONTEXT('','3D'));\n\n#{} = UNCERTAINTY_MEASURE_WITH_UNIT(LENGTH_MEASURE(1.0E-007),#{},('',''));\n#{} = (LENGTH_UNIT() NAMED_UNIT(*) SI_UNIT(.MILLI.,.METRE.));\n#{} = (NAMED_UNIT(*) PLANE_ANGLE_UNIT() SI_UNIT($,.RADIAN.));\n#{} = (NAMED_UNIT(*) SI_UNIT($,.STERADIAN.) SOLID_ANGLE_UNIT());\n",
        n + 1, n + 2, n + 3, n + 4, n + 5, n + 2, n + 3, n + 3, n + 4, n + 5,
    )
}

#[test]
fn an_empty_model_is_written_exactly() {
    let step = brep_to_step(&BRep::new()).unwrap();
    assert_eq!(step, format!("{HEADER}{}{FOOTER}", context(3)));
}

#[test]
fn a_disk_is_written_exactly() {
    let mut brep = BRep::new();
    let plan = FacePlan {
        geom: FaceGeom::Plane(plane(v3(0.0, 0.0, 0.0), v3(0.0, 0.0, 1.0))),
        normal: FaceNormal::Reversed,
        extent: FaceExtent::Disk { radius: num(1.5) },
    };
    let bare = FacePlan {
        geom: FaceGeom::Sphere(SphereSurf {
            frame: frame_about(v3(1.0, 2.0, 3.0), v3(0.0, 0.0, 1.0)),
            radius: num(0.25),
        }),
        normal: FaceNormal::Same,
        extent: FaceExtent::Unknown,
    };
    build_solid(&mut brep, vec![plan, bare], None);
    let data = "#8 = CARTESIAN_POINT('plane',(0.0000000000,0.0000000000,0.0000000000));\n#9 = DIRECTION('plane_Z',(0.0000000000,0.0000000000,1.0000000000));\n#10 = DIRECTION('plane_X',(1.0000000000,0.0000000000,0.0000000000));\n#11 = AXIS2_PLACEMENT_3D('plane',#8,#9,#10);\n#12 = PLANE('',#11);\n#13 = CARTESIAN_POINT('c',(0.0000000000,0.0000000000,0.0000000000));\n#14 = DIRECTION('cn',(0.0000000000,0.0000000000,1.0000000000));\n#15 = DIRECTION('cx',(0.0000000000,1.0000000000,0.0000000000));\n#16 = AXIS2_PLACEMENT_3D('',#13,#14,#15);\n#17 = CIRCLE('',#16,1.5000000000);\n#18 = CARTESIAN_POINT('v',(0.0000000000,1.5000000000,0.0000000000));\n#19 = VERTEX_POINT('',#18);\n#20 = EDGE_CURVE('',#19,#19,#17,.T.);\n#21 = ORIENTED_EDGE('',*,*,#20,.T.);\n#22 = EDGE_LOOP('',(#21));\n#23 = FACE_OUTER_BOUND('',#22,.T.);\n#24 = ADVANCED_FACE('',(#23),(#12),.F.);\n#25 = CARTESIAN_POINT('sph_axis',(1.0000000000,2.0000000000,3.0000000000));\n#26 = DIRECTION('sph_axis_Z',(0.0000000000,0.0000000000,1.0000000000));\n#27 = DIRECTION('sph_axis_X',(1.0000000000,0.0000000000,0.0000000000));\n#28 = AXIS2_PLACEMENT_3D('sph_axis',#25,#26,#27);\n#29 = SPHERICAL_SURFACE('',#28,0.2500000000);\n#30 = ADVANCED_FACE('',(),(#29),.T.);\n#31 = CLOSED_SHELL('',(#24,#30));\n#32 = MANIFOLD_SOLID_BREP('solid_0',#31);\n";
    let shape = "#38 = SHAPE_REPRESENTATION('',(#32),#33);\n#39 = SHAPE_DEFINITION_REPRESENTATION(#7,#38);\n";
    let step = brep_to_step(&brep).unwrap();
    assert_eq!(step, format!("{HEADER}{PRODUCT}{data}{}{shape}{FOOTER}", context(32)));
}

#[test]
fn an_assembly_is_written_exactly() {
    let mut brep = BRep::new();
    let ball = FacePlan {
        geom: FaceGeom::Sphere(SphereSurf {
            frame: frame_about(v3(1.0, 2.0, 3.0), v3(0.0, 0.0, 1.0)),
            radius: num(0.25),
        }),
        normal: FaceNormal::Same,
        extent: FaceExtent::Unknown,
    };
    build_solid(&mut brep, vec![ball], Some("ball".into()));
    build_solid(&mut brep, Vec::new(), Some("nothing".into()));
    let head = "ISO-10303-21;\nHEADER;\n  FILE_DESCRIPTION(('cadcore B-Rep assembly export'),'2;1');\n  FILE_NAME('','',(''),(''),'cadcore 0.1','','');\n  FILE_SCHEMA(('AUTOMOTIVE_DESIGN { 1 0 10303 214 1 1 1 1 }'));\nENDSEC;\nDATA;\n#1 = APPLICATION_CONTEXT('core data for automotive mechanical design processes');\n#2 = APPLICATION_PROTOCOL_DEFINITION('draft international standard','automotive_design',1998,#1);\n#3 = PRODUCT_CONTEXT('',#1,'mechanical');\n#4 = (GEOMETRIC_REPRESENTATION_CONTEXT(3) GLOBAL_UNCERTAINTY_ASSIGNED_CONTEXT((#5)) GLOBAL_UNIT_ASSIGNED_CONTEXT((#6,#7,#8)) REPRESENTATION_CONTEXT('','3D'));\n#5 = UNCERTAINTY_MEASURE_WITH_UNIT(LENGTH_MEASURE(1.0E-007),#6,('',''));\n#6 = (LENGTH_UNIT() NAMED_UNIT(*) SI_UNIT(.MILLI.,.METRE.));\n#7 = (NAMED_UNIT(*) PLANE_ANGLE_UNIT() SI_UNIT($,.RADIAN.));\n#8 = (NAMED_UNIT(*) SI_UNIT($,.STERADIAN.) SOLID_ANGLE_UNIT());\n#9 = CARTESIAN_POINT('',(0.0,0.0,0.0));\n#10 = DIRECTION('',(0.0,0.0,1.0));\n#11 = DIRECTION('',(1.0,0.0,0.0));\n#12 = AXIS2_PLACEMENT_3D('',#9,#10,#11);\n#13 = PRODUCT('scaffold_assembly','scaffold_assembly','',(#3));\n#14 = PRODUCT_DEFINITION_FORMATION('','',#13);\n#15 = PRODUCT_DEFINITION('design','',#14,#3);\n#16 = PRODUCT_DEFINITION_SHAPE('','',#15);\n#17 = SHAPE_REPRESENTATION('scaffold_assembly',(#12),#4);\n#18 = SHAPE_DEFINITION_REPRESENTATION(#16,#17);\n";
    let part = "#19 = CARTESIAN_POINT('sph_axis',(1.0000000000,2.0000000000,3.0000000000));\n#20 = DIRECTION('sph_axis_Z',(0.0000000000,0.0000000000,1.0000000000));\n#21 = DIRECTION('sph_axis_X',(1.0000000000,0.0000000000,0.0000000000));\n#22 = AXIS2_PLACEMENT_3D('sph_axis',#19,#20,#21);\n#23 = SPHERICAL_SURFACE('',#22,0.2500000000);\n#24 = ADVANCED_FACE('',(),(#23),.T.);\n#25 = CLOSED_SHELL('',(#24));\n#26 = MANIFOLD_SOLID_BREP('ball_0',#25);\n#27 = PRODUCT('ball_0','ball_0','',(#3));\n#28 = PRODUCT_DEFINITION_FORMATION('','',#27);\n#29 = PRODUCT_DEFINITION('design','',#28,#3);\n#30 = PRODUCT_DEFINITION_SHAPE('','',#29);\n#31 = SHAPE_REPRESENTATION('ball_0',(#26),#4);\n#32 = SHAPE_DEFINITION_REPRESENTATION(#30,#31);\n#33 = NEXT_ASSEMBLY_USAGE_OCCURRENCE('0','ball_0','',#15,#29,$);\n#34 = AXIS2_PLACEMENT_3D('',#9,#10,#11);\n#35 = AXIS2_PLACEMENT_3D('',#9,#10,#11);\n#36 = ITEM_DEFINED_TRANSFORMATION('','',#34,#35);\n#37 = (REPRESENTATION_RELATIONSHIP('','',#31,#17) REPRESENTATION_RELATIONSHIP_WITH_TRANSFORMATION(#36) SHAPE_REPRESENTATION_RELATIONSHIP());\n#38 = CONTEXT_DEPENDENT_SHAPE_REPRESENTATION(#37,#33);\nENDSEC;\nEND-ISO-10303-21;\n";
    assert_eq!(brep_to_step_assembly(&brep).unwrap(), format!("{head}{part}"));
}

#[test]
fn each_solid_is_a_product_of_its_own() {
    let mut brep = BRep::new();
    let plain = SweepOptions { fillet_corners: false, name: None };
    let named = SweepOptions { fillet_corners: false, name: Some("leg".into()) };
    sweep_circle_along_polyline(&mut brep, &line(0.0, 10.0), 1.0, &plain).unwrap();
    sweep_circle_along_polyline(&mut brep, &line(20.0, 30.0), 1.0, &named).unwrap();
    let step = brep_to_step(&brep).unwrap();
    assert_eq!(step.matches(" = PRODUCT('").count(), 2);
    assert_eq!(step.matches(" = SHAPE_DEFINITION_REPRESENTATION(").count(), 2);
    assert_eq!(step.matches(" = SHAPE_REPRESENTATION(").count(), 2);
    assert_eq!(step.matches(" = PRODUCT_DEFINITION_SHAPE(").count(), 2);
    assert!(step.contains("\n#4 = PRODUCT('cadcore_part','cadcore part','',(#3));\n"));
    assert!(step.contains("\n#8 = PRODUCT('cadcore_part_1','cadcore part 1','',(#3));\n"));
    assert!(step.contains("MANIFOLD_SOLID_BREP('solid_0',"));
    assert!(step.contains("MANIFOLD_SOLID_BREP('leg_1',"));
    assert!(step.contains("FILE_SCHEMA(('CONFIG_CONTROL_DESIGN'))"));
    let solids: Vec<&str> = step
        .lines()
        .filter(|l| l.contains(" = MANIFOLD_SOLID_BREP("))
        .map(|l| l.split(' ').next().unwrap())
        .collect();
    let lines: Vec<&str> = step.lines().collect();
    let id_of = |l: &str| l.split(' ').next().unwrap().to_string();
    let context = lines.iter().find(|l| l.contains("GEOMETRIC_REPRESENTATION_CONTEXT")).unwrap();
    for (solid, shape) in solids.iter().zip(["#7", "#11"]) {
        let says = format!(" = SHAPE_REPRESENTATION('',({solid}),{})", id_of(context));
        let shown = lines.iter().position(|l| l.contains(&says)).unwrap();
        assert!(lines[shown + 1]
            .contains(&format!("SHAPE_DEFINITION_REPRESENTATION({shape},{})", id_of(lines[shown]))));
    }
}

#[test]
fn ids_count_up_and_references_stay_among_them() {
    let mut brep = BRep::new();
    for k in 0..3 {
        let at = 20.0 * k as f64;
        sweep_circle_along_polyline(&mut brep, &line(at, at + 10.0), 1.0, &SweepOptions::default())
            .unwrap();
    }
    let step = brep_to_step(&brep).unwrap();
    assert!(step.starts_with("ISO-10303-21;\n"));
    assert!(step.ends_with("END-ISO-10303-21;\n"));
    let mut defined = 0;
    for l in step.lines().filter(|l| l.starts_with('#')) {
        defined += 1;
        assert!(l.starts_with(&format!("#{defined} = ")), "{l}");
    }
    for mention in step.split('#').skip(1) {
        let digits: String = mention.chars().take_while(|c| c.is_ascii_digit()).collect();
        let id: usize = digits.parse().unwrap();
        assert!(1 <= id && id <= defined);
    }
}

#[test]
fn every_edge_curve_of_a_swept_tube_is_used_each_way_once() {
    let mut brep = BRep::new();
    sweep_circle_along_polyline(&mut brep, &line(0.0, 10.0), 1.0, &SweepOptions::default())
        .unwrap();
    let step = brep_to_step(&brep).unwrap();
    let curves: Vec<&str> = step
        .lines()
        .filter(|l| l.contains(" = EDGE_CURVE("))
        .map(|l| l.split(' ').next().unwrap())
        .collect();
    assert!(!curves.is_empty());
    for id in curves {
        assert_eq!(step.matches(&format!("ORIENTED_EDGE('',*,*,{id},.T.)")).count(), 1);
        assert_eq!(step.matches(&format!("ORIENTED_EDGE('',*,*,{id},.F.)")).count(), 1);
    }
}

#[test]
fn solids_that_a_cut_rebuilds_have_ids_that_none_had_before() {
    let mut brep = BRep::new();
    for x in [0.0, 5.0, 10.0] {
        sweep_circle_along_polyline(
            &mut brep,
            &[p3(x, 0.0, 0.0), p3(x, 20.0, 0.0)],
            0.2,
            &SweepOptions::default(),
        )
        .unwrap();
    }
    for _ in 0..2 {
        let before = brep.solids.keys();
        assert_eq!(before.len(), 3);
        half_space_cut_brep(&mut brep, &keep_below(15.0));
        let after = brep.solids.keys();
        assert_eq!(after.len(), 3);
        for id in &after {
            assert!(!before.contains(id) || after == before);
        }
    }
    let before = brep.solids.keys();
    union_solids(&mut brep);
    assert!(!before.contains(&brep.solids.keys()[0]));
}

#[test]
fn a_fillet_lies_between_the_distances_of_its_own_arc() {
    let mut brep = BRep::new();
    let (major, minor) = (2.0, 0.5);
    let t = torus(v3(0.0, 0.0, 0.0), v3(0.0, 0.0, 1.0), major, minor);
    let (x, y) = (of_direction(t.frame.x), of_direction(t.frame.y));
    let spoke = |a: f64| x * a.cos() + y * a.sin();
    let along = |a: f64| y * a.cos() - x * a.sin();
    let ring = |a: f64| circle(spoke(a) * major, along(a), minor);
    let plan = FacePlan {
        geom: FaceGeom::Torus(t),
        normal: FaceNormal::Same,
        extent: FaceExtent::TorusFillet { start_circle: ring(0.3), end_circle: ring(1.2) },
    };
    build_solid(&mut brep, vec![plan], None);
    let face = brep.faces.get(brep.faces.keys()[0]).unwrap();
    let normal = (x * 0.6 + y * 0.2 + v3(0.0, 0.0, 0.5)).unit().unwrap();
    let clip = ClipPlane { origin: v3(0.1, 0.2, 0.3), normal };
    let (lo, hi) = region_range(face, &clip);
    let (mut least, mut most) = (f64::MAX, f64::MIN);
    for i in 0..=900 {
        let a = 0.3 + 0.9 * i as f64 / 900.0;
        for j in 0..720 {
            let b = TAU * j as f64 / 720.0;
            let p = spoke(a) * (major + minor * b.cos()) + v3(0.0, 0.0, minor * b.sin());
            least = least.min(clip.distance(p));
            most = most.max(clip.distance(p));
        }
    }
    assert!(!cut::runs_round(num(1e-9)) && cut::runs_round(num(0.9e-9)));
    assert!((lo - least).abs() < 1e-4, "{lo} {least}");
    assert!((hi - most).abs() < 1e-4, "{hi} {most}");
}

fn half_space_cut_brep(brep: &mut BRep, clip: &ClipPlane) -> usize {
    half_space_cut_with(brep, clip, &mut |_, _| {})
}

#[test]
fn faces_that_reach_across_the_plane_are_reported() {
    let mut brep = BRep::new();
    hairpin(&mut brep);
    let mut told = Vec::new();
    let half = ClipPlane { origin: v3(0.5, 0.0, 0.0), normal: v3(-1.0, 0.0, 0.0) };
    half_space_cut_with(&mut brep, &half, &mut |n, name| {
        told.push((n, name.map(str::to_string)));
    });
    assert_eq!(told, vec![(1, None)]);
    let mut quiet = BRep::new();
    hairpin(&mut quiet);
    half_space_cut_with(&mut quiet, &keep_below(15.0), &mut |_, _| panic!("nothing straddles"));
}

/// How often each `EDGE_CURVE` is named by an `ORIENTED_EDGE`.
fn edge_reference_counts(step: &str) -> Vec<usize> {
    step.lines()
        .filter(|l| l.contains("= EDGE_CURVE("))
        .map(|l| {
            let id = l.split(' ').next().unwrap();
            step.matches(&format!("ORIENTED_EDGE('',*,*,{id},")).count()
        })
        .collect()
}

#[test]
fn perpendicular_cylinder_union_exports_watertight_step() {
    let mut brep = BRep::new();
    let r = 0.5;
    let opts = SweepOptions::default();
    sweep_circle_along_polyline(&mut brep, &[p3(-2.0, 0.0, 0.0), p3(2.0, 0.0, 0.0)], r, &opts)
        .unwrap();
    sweep_circle_along_polyline(&mut brep, &[p3(0.0, 0.0, -2.0), p3(0.0, 0.0, 2.0)], r, &opts)
        .unwrap();
    assert_eq!(union_solids(&mut brep), 1);
    let step = brep_to_step(&brep).expect("STEP export");
    assert_eq!(
        step.matches("MANIFOLD_SOLID_BREP").count(),
        1,
        "expected a single MANIFOLD_SOLID_BREP"
    );
    assert_eq!(step.matches("CLOSED_SHELL").count(), 1, "expected a single CLOSED_SHELL");
    assert!(step.contains("ADVANCED_FACE"), "expected ADVANCED_FACE entities");
    let counts = edge_reference_counts(&step);
    assert!(!counts.is_empty(), "no EDGE_CURVE entities emitted");
    let naked = counts.iter().filter(|&&n| n < 2).count();
    let non_manifold = counts.iter().filter(|&&n| n > 2).count();
    assert_eq!(naked, 0, "exported STEP has {naked} naked (free) edges — not watertight");
    assert_eq!(non_manifold, 0, "exported STEP has {non_manifold} non-manifold edges");
}

#[test]
fn arcs_have_as_many_samples_as_the_options_ask_for() {
    let mut points = vec![p3(1.0, -2.0, 0.0), p3(1.0, 0.0, 0.0)];
    for k in 1..=24 {
        let a = std::f64::consts::FRAC_PI_2 * k as f64 / 24.0;
        points.push(p3(a.cos(), a.sin(), 0.0));
    }
    let arcs = |min_arc_points: usize| {
        let options = PathApproxOptions { min_arc_points, ..PathApproxOptions::default() };
        analytic_path_from_polyline_samples(&points, options)
            .iter()
            .filter(|s| matches!(s, SweepPathSegment::Arc { .. }))
            .count()
    };
    assert_eq!(arcs(6), 1);
    assert_eq!(arcs(25), 1);
    assert_eq!(arcs(26), 0);
    assert_eq!(arcs(2), 0);
}
