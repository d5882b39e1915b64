//! Integer-side core of a path-traced renderer: image encoding, slicing of the
//! image across workers, the bounding-volume hierarchy's construction, and the
//! texture variant tree.

pub mod bvh;
pub mod partition;
pub mod ppm;
pub mod random;
pub mod texture;
