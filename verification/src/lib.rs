//! A small path tracer for scenes of spheres, written over a fixed-point
//! scalar so that every part of the pipeline — intersection, scattering,
//! camera projection and the radiance integrator — carries a proved contract.
pub mod camera;
pub mod fixed;
pub mod hittable;
pub mod integrator;
pub mod material;
pub mod ray;
pub mod utilities;
pub mod vector;
