//! Core of an interactive GPU path tracer: SAH bounding-volume-hierarchy
//! construction over generic primitives, flat scene assembly with a
//! bottom-level/top-level acceleration structure, the progressive-sampling
//! driver, the orbit camera state, and frame metrics.
//!
//! All geometry runs on fixed-point coordinates (see [`geom`]); the host
//! program converts to and from the GPU's floating-point layout at the edge.

pub mod assets;
pub mod bvh;
pub mod camera;
pub mod driver;
pub mod geom;
pub mod metrics;
pub mod sampling;
pub mod scene;
