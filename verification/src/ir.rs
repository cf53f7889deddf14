//! The neutral document: features, sketches and the solved body.
//!
//! Only what the exporter reads is held. A surface carries its own frame beside
//! the parameters of its shape.

use crate::kernel::Vec3;
use crate::scalar::Scalar;
use vstd::prelude::*;

verus! {

/// A document.
pub struct CadIr {
    pub ir_version: String,
    pub source: Option<SourceMeta>,
    pub model: Model,
}

/// Where a document came from.
pub struct SourceMeta {
    pub format: String,
}

/// The arenas of a document.
pub struct Model {
    pub features: Vec<Feature>,
    pub sketches: Vec<Sketch>,
    pub sketch_entities: Vec<SketchEntity>,
    pub surfaces: Vec<Surface>,
    pub curves: Vec<Curve>,
    pub faces: Vec<Face>,
    pub loops: Vec<Loop>,
    pub coedges: Vec<Coedge>,
    pub edges: Vec<Edge>,
    pub vertices: Vec<Vertex>,
    pub points: Vec<Point>,
}

/// One step of the feature history.
pub struct Feature {
    pub id: String,
    pub name: Option<String>,
    pub ordinal: u64,
    pub suppressed: Option<bool>,
    pub definition: FeatureDefinition,
}

/// What a feature does.
pub enum FeatureDefinition {
    Sketch,
    Extrude { profile: ProfileRef, extent: ExtrudeExtent, op: BooleanOp },
    Fillet { groups: Vec<FilletGroup> },
    Revolve,
    Chamfer,
    Hole,
    Pattern,
    Shell,
    Loft,
    Sweep,
    Other,
}

/// How a feature's volume combines with the body.
#[derive(Clone, Copy, PartialEq, Eq, Structural, Debug)]
pub enum BooleanOp {
    Join,
    NewBody,
    Cut,
    Intersect,
    Unresolved,
}

/// The travel of an extrude.
#[derive(Clone, Copy, PartialEq, Eq, Structural, Debug)]
pub enum ExtrudeExtent {
    OneSided { side: ExtrudeSide },
    Symmetric { side: ExtrudeSide },
    TwoSided { first: ExtrudeSide, second: ExtrudeSide },
}

/// One side of an extrude.
#[derive(Clone, Copy, PartialEq, Eq, Structural, Debug)]
pub struct ExtrudeSide {
    pub termination: Termination,
}

/// Where one side of an extrude ends.
#[derive(Clone, Copy, PartialEq, Eq, Structural, Debug)]
pub enum Termination {
    Blind { length: Scalar },
    ThroughAll,
    Other,
}

/// A group of blended edges with one radius law.
pub struct FilletGroup {
    pub radius: RadiusSpec,
}

/// The radius law of a blend.
#[derive(Clone, Copy, PartialEq, Eq, Structural, Debug)]
pub enum RadiusSpec {
    Constant { radius: Scalar },
    Other,
}

/// The profile an extrude sweeps.
pub enum ProfileRef {
    Sketch(String),
    SketchProfiles { sketch: String, profiles: Vec<u32> },
    SketchRegions { sketch: String, regions: Vec<SketchProfileRegion> },
    SketchEntities { sketch: String, entities: Vec<String> },
    SketchSelection { sketch: String },
    /// A reference that names no sketch, described in words.
    Other { description: String },
}

/// A region of a sketch, by its boundary.
pub enum SketchProfileRegion {
    Loops { outer: u32, holes: Vec<u32> },
    Trimmed,
}

/// A sketch with its profile loops.
pub struct Sketch {
    pub id: String,
    pub placement: SketchPlacement,
    pub profiles: Vec<Vec<SketchEntityUse>>,
}

/// Where a sketch lies.
#[derive(Clone, Copy, PartialEq, Eq, Structural, Debug)]
pub enum SketchPlacement {
    Resolved { origin: Vec3, normal: Vec3, u_axis: Vec3 },
    Unresolved,
}

/// A use of an entity in a profile loop.
pub struct SketchEntityUse {
    pub entity: String,
}

/// A curve of a sketch.
pub struct SketchEntity {
    pub id: String,
    pub geometry: SketchGeometry,
}

/// The shape of a sketch curve, in sketch coordinates.
#[derive(Clone, Copy, Debug)]
pub enum SketchGeometry {
    Circle { center: (Scalar, Scalar), radius: Scalar },
    Arc { center: (Scalar, Scalar), radius: Scalar, start_angle: Scalar, end_angle: Scalar },
    Line { start: (Scalar, Scalar), end: (Scalar, Scalar) },
    Other,
}

/// A carrier surface of the solved body.
pub struct Surface {
    pub id: String,
    pub geometry: SurfaceGeometry,
}

/// The placement and shape of a carrier surface.
#[derive(Clone, Copy, PartialEq, Eq, Structural, Debug)]
pub struct SurfaceGeometry {
    /// Absent for surfaces without an axis.
    pub frame: Option<SurfaceFrame>,
    pub shape: SurfaceShape,
}

/// The origin of a surface and its axis, or the normal of a plane.
#[derive(Clone, Copy, PartialEq, Eq, Structural, Debug)]
pub struct SurfaceFrame {
    pub origin: Vec3,
    pub axis: Vec3,
}

/// The family of a surface.
#[derive(Clone, Copy, PartialEq, Eq, Structural, Debug)]
pub enum SurfaceShape {
    Plane,
    Cylinder { radius: Scalar },
    Cone { radius: Scalar, half_angle: Scalar },
    Sphere { radius: Scalar },
    Torus { major_radius: Scalar, minor_radius: Scalar },
    Other,
}

/// A carrier curve of the solved body.
pub struct Curve {
    pub id: String,
}

/// A face of the solved body.
pub struct Face {
    pub id: String,
    pub surface: String,
    pub loops: Vec<String>,
}

/// A boundary loop of a face.
pub struct Loop {
    pub id: String,
    pub face: String,
    pub coedges: Vec<String>,
}

/// A use of an edge in a loop.
pub struct Coedge {
    pub id: String,
    pub owner_loop: String,
    pub edge: String,
}

/// An edge between two vertices.
pub struct Edge {
    pub id: String,
    pub start: String,
    pub end: String,
}

/// A vertex at a point.
pub struct Vertex {
    pub id: String,
    pub point: String,
}

/// A solved position.
pub struct Point {
    pub id: String,
    pub position: Vec3,
}

} // verus!
