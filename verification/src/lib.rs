//! A half-edge mesh topology engine.
//!
//! The crate represents polygonal surfaces and open polyline topologies as a
//! half-edge graph: paired directed edges with `twin`, `next`, origin-vertex
//! and owning-face links, held in arena vectors addressed by stable indices.
//! Meshes are built from raw polygon soups by a validating builder, by
//! canonical primitive generators, and by a Wavefront OBJ text codec.
//!
//! Coordinates are carried as opaque decimal text (ASCII bytes): the topology
//! engine never interprets them numerically, and the OBJ codec reads and
//! writes them verbatim. Callers that need numeric coordinates convert at the
//! boundary.

pub mod builder;
pub mod mesh;
pub mod obj;
pub mod primitives;

pub use mesh::HalfEdgeMesh;
