//! The entities of a boundary representation.

use vstd::prelude::*;

use crate::geometry::{
    Circle3, CylSurf, Ellipse3, Line3, Plane3, Point3, SphereSurf, TorusSurf, UnitVec3,
};
use crate::ids::{CoEdgeId, EdgeId, FaceId, LoopId, ShellId, SolidId, VertexId};
use crate::scalar::Real;

verus! {

/// The part of the carrier surface that a face covers.
#[derive(Clone, Debug)]
pub enum FaceExtent {
    /// Nothing known: the face has no bounds.
    Unknown,
    /// A full cylinder between two closed boundaries.
    Cylinder {
        /// Length along the axis (mm).
        length: Real,
        /// Boundary at the axis origin.
        start: FaceBoundary,
        /// Boundary at the far end.
        end: FaceBoundary,
    },
    /// A cylinder cut along its axis: an arc of the cross-section, swept.
    PartialCylinder {
        /// Length along the axis (mm).
        length: Real,
        /// Where the arc starts (radians, counter-clockwise from `arc_ref_dir`).
        arc_start_angle: Real,
        /// Where the arc ends.
        arc_end_angle: Real,
        /// Angle zero in the cross-section.
        arc_ref_dir: UnitVec3,
    },
    /// A cylinder patch whose arc edges are exact circles.
    CylinderArcFace {
        /// Length along the axis (mm).
        length: Real,
        /// Where the arc starts (radians, counter-clockwise from `arc_ref_dir`).
        arc_start_angle: Real,
        /// Where the arc ends.
        arc_end_angle: Real,
        /// Angle zero in the cross-section.
        arc_ref_dir: UnitVec3,
    },
    /// A disk about the plane's origin.
    Disk {
        /// Radius (mm).
        radius: Real,
    },
    /// A disk segment: an arc and its chord.
    PartialDisk {
        /// Radius of the arc (mm).
        radius: Real,
        /// Where the arc starts (radians, from the plane's x).
        start_angle: Real,
        /// Where the arc ends.
        end_angle: Real,
    },
    /// A bend of a tube, between two circles of the tube.
    TorusFillet {
        /// Circle at the incoming tube.
        start_circle: Circle3,
        /// Circle at the outgoing tube.
        end_circle: Circle3,
    },
    /// A plane inside one closed curve.
    PlanarBoundary {
        /// The curve.
        boundary: FaceBoundary,
    },
    /// A rectangle with rounded corners in a plane of constant y.
    RoundedRectCap {
        /// Smallest x.
        xmin: Real,
        /// Largest x.
        xmax: Real,
        /// Smallest z.
        zmin: Real,
        /// Largest z.
        zmax: Real,
        /// Corner radius.
        radius: Real,
        /// The plane's y.
        y: Real,
        /// Whether the face looks along +y.
        plus_y: bool,
    },
    /// A polygon, counter-clockwise.
    Polygon {
        /// Its corners.
        points: Vec<Point3>,
    },
    /// Bounded by the face's own loops.
    Trimmed,
}

/// What an extent says: the corners of a polygon, or the extent as it is.
#[verifier::ext_equal]
pub enum ExtentView {
    Polygon(Seq<Point3>),
    Plain(FaceExtent),
}

impl FaceExtent {
    /// What the extent says.
    pub open spec fn view(&self) -> ExtentView {
        match *self {
            FaceExtent::Polygon { points } => ExtentView::Polygon(points@),
            other => ExtentView::Plain(other),
        }
    }

    /// An extent that says the same.
    pub fn duplicate(&self) -> (copy: FaceExtent)
        ensures
            copy@ == self@,
    {
        match self {
            FaceExtent::Unknown => FaceExtent::Unknown,
            FaceExtent::Cylinder { length, start, end } => FaceExtent::Cylinder {
                length: *length,
                start: *start,
                end: *end,
            },
            FaceExtent::PartialCylinder { length, arc_start_angle, arc_end_angle, arc_ref_dir } =>
                FaceExtent::PartialCylinder {
                length: *length,
                arc_start_angle: *arc_start_angle,
                arc_end_angle: *arc_end_angle,
                arc_ref_dir: *arc_ref_dir,
            },
            FaceExtent::CylinderArcFace { length, arc_start_angle, arc_end_angle, arc_ref_dir } =>
                FaceExtent::CylinderArcFace {
                length: *length,
                arc_start_angle: *arc_start_angle,
                arc_end_angle: *arc_end_angle,
                arc_ref_dir: *arc_ref_dir,
            },
            FaceExtent::Disk { radius } => FaceExtent::Disk { radius: *radius },
            FaceExtent::PartialDisk { radius, start_angle, end_angle } => FaceExtent::PartialDisk {
                radius: *radius,
                start_angle: *start_angle,
                end_angle: *end_angle,
            },
            FaceExtent::TorusFillet { start_circle, end_circle } => FaceExtent::TorusFillet {
                start_circle: *start_circle,
                end_circle: *end_circle,
            },
            FaceExtent::PlanarBoundary { boundary } => FaceExtent::PlanarBoundary {
                boundary: *boundary,
            },
            FaceExtent::RoundedRectCap { xmin, xmax, zmin, zmax, radius, y, plus_y } =>
                FaceExtent::RoundedRectCap {
                xmin: *xmin,
                xmax: *xmax,
                zmin: *zmin,
                zmax: *zmax,
                radius: *radius,
                y: *y,
                plus_y: *plus_y,
            },
            FaceExtent::Polygon { points } => {
                let mut copy: Vec<Point3> = Vec::new();
                let mut i: usize = 0;
                while i < points.len()
                    invariant
                        i <= points@.len(),
                        copy@ == points@.take(i as int),
                    decreases points@.len() - i,
                {
                    copy.push(points[i]);
                    assert(copy@ =~= points@.take(i + 1));
                    i = i + 1;
                }
                assert(copy@ =~= points@);
                FaceExtent::Polygon { points: copy }
            },
            FaceExtent::Trimmed => FaceExtent::Trimmed,
        }
    }
}

/// A closed curve that bounds a face.
#[derive(Clone, Copy, Debug, PartialEq, Eq, Structural)]
pub enum FaceBoundary {
    /// A full circle.
    Circle(Circle3),
    /// A full ellipse, as where a tube meets a miter plane.
    Ellipse(Ellipse3),
}

/// A point of the model.
#[derive(Clone, Copy, Debug, PartialEq, Eq, Structural)]
pub struct Vertex {
    /// Where it is (mm).
    pub point: Point3,
}

/// The curve that carries an edge.
#[derive(Clone, Debug)]
pub enum EdgeGeom {
    /// A straight segment.
    Line(Line3),
    /// A circular arc.
    Circle(Circle3),
    /// An elliptic arc.
    Ellipse(Ellipse3),
    /// A chain of straight segments.
    Polyline(Vec<Point3>),
}

/// An edge without direction.
#[derive(Clone, Debug)]
pub struct Edge {
    /// The curve.
    pub geom: EdgeGeom,
    /// Vertex at `t_start`.
    pub v_start: VertexId,
    /// Vertex at `t_end`.
    pub v_end: VertexId,
    /// Curve parameter of the start.
    pub t_start: Real,
    /// Curve parameter of the end.
    pub t_end: Real,
    /// A co-edge that uses the edge.
    pub partner: Option<CoEdgeId>,
}

/// Whether a co-edge runs along its edge or against it.
#[derive(Clone, Copy, Debug, PartialEq, Eq, Structural)]
pub enum CoEdgeSense {
    /// Along the edge.
    Same,
    /// Against the edge.
    Opposite,
}

/// A directed use of an edge by one loop.
#[derive(Clone, Copy, Debug, PartialEq, Eq, Structural)]
pub struct CoEdge {
    /// The edge.
    pub edge: EdgeId,
    /// The direction.
    pub sense: CoEdgeSense,
    /// The co-edge after this one.
    pub next: CoEdgeId,
    /// The co-edge before this one.
    pub prev: CoEdgeId,
    /// The loop that it belongs to.
    pub loop_id: LoopId,
}

/// A closed chain of co-edges.
#[derive(Clone, Copy, Debug, PartialEq, Eq, Structural)]
pub struct Loop {
    /// Any co-edge of the chain.
    pub start: CoEdgeId,
    /// The face that it bounds.
    pub face: FaceId,
}

/// The surface that carries a face.
#[derive(Clone, Copy, Debug, PartialEq, Eq, Structural)]
pub enum FaceGeom {
    /// A plane.
    Plane(Plane3),
    /// A cylinder.
    Cylinder(CylSurf),
    /// A sphere.
    Sphere(SphereSurf),
    /// A torus.
    Torus(TorusSurf),
}

/// Whether a face looks along its surface's normal or against it.
#[derive(Clone, Copy, Debug, PartialEq, Eq, Structural)]
pub enum FaceNormal {
    /// Along the normal.
    Same,
    /// Against the normal.
    Reversed,
}

/// A bounded part of a surface.
#[derive(Clone, Debug)]
pub struct Face {
    /// The surface.
    pub geom: FaceGeom,
    /// The side that looks out.
    pub normal: FaceNormal,
    /// The outer boundary.
    pub outer_loop: LoopId,
    /// The holes.
    pub inner_loops: Vec<LoopId>,
    /// The shell that it belongs to.
    pub shell: ShellId,
    /// The part of the surface that it covers.
    pub extent: FaceExtent,
}

/// A connected set of faces.
#[derive(Clone, Debug)]
pub struct Shell {
    /// The faces.
    pub faces: Vec<FaceId>,
    /// Whether the shell is the outside of its solid, not a void in it.
    pub is_outer: bool,
    /// The solid that it belongs to.
    pub solid: SolidId,
}

/// A body.
#[derive(Clone, Debug)]
pub struct Solid {
    /// The shells, the outer one first.
    pub shells: Vec<ShellId>,
    /// A name for people.
    pub name: Option<String>,
}

} // verus!
