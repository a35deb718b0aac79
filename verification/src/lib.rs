//! The kernel of a path tracer: colours and images, the order of
//! single-precision numbers, bounding boxes, nearest-hit search over a
//! scene, and the decisions of the integrator and the sampler.

pub mod color;
pub mod hitable;
pub mod image;
pub mod material;
pub mod math;
pub mod obj;
pub mod prelude;
pub mod ray;
pub mod ray_image;
pub mod render;
pub mod text;
pub mod texture;
pub mod tracer;
