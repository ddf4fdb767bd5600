//! Verified core of a small path tracer: the construction of the bounding
//! volume hierarchy, the depth control of the radiance integrator, and the
//! pixel layout and text encoding of the rendered image.
pub mod bvh;
pub mod image;
pub mod path;
pub mod random;
