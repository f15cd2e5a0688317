//! The discrete core of a path tracer: bounding boxes over ordered
//! coordinate keys, the ordering of primitives, the bounding-volume
//! hierarchy with its nearest-hit traversal, and the integrator's
//! per-bounce decisions.
//!
//! Geometry is held by order alone. A coordinate is an `i64` key whose
//! signed order is the total order of the `f64` it stands for; a hit time
//! is a `u64` key, the bit pattern of a non-negative `f64`, whose unsigned
//! order is the order of the times. The floating-point work (slab tests,
//! ray/primitive intersection, scattering, colors) is done by the caller and
//! reaches this crate as such keys or as the answers of closures.

pub mod aabb;
pub mod order;
pub mod bvh;
pub mod trace;
