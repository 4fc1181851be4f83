//! Verified core of a two-dimensional JST + Spalart-Allmaras finite-volume
//! solver on O-type structured meshes.
//!
//! The library holds the parts of the solver whose correctness is a matter of
//! indices, counts and file structure: the halo-indexed storage of cell and face
//! fields, the mesh file format and its checks, the ghost-layer rules, the
//! circumferential wrap-around, and the thread-count heuristic. Every kernel that
//! does floating-point arithmetic is written against these pieces.

pub mod threads;

pub use threads::choose_threads;
pub mod field;
pub use field::Field;
pub mod gradient;
pub use gradient::{fill_ghost_gradients, Grad};
pub mod text;
pub mod mesh;
pub use mesh::{Mesh, MeshError};
pub mod geometry;
pub use geometry::{FaceGeom, Geometry};
pub mod boundary;
