//! A verified core of a diffuse ray tracer.
//!
//! A camera casts rays through the pixels of an image; each ray is tested
//! against a scene of spheres and takes its colour from the nearest surface
//! it meets, by scattering onwards, or from a sky gradient where it meets
//! none. Every pixel averages several jittered rays.
//!
//! All arithmetic is fixed-point over integers (see `fixed`), so that every
//! function has an exact mathematical result which its contract states and
//! Verus proves: which root of the sphere's quadratic is reported and how
//! far the rounded hit point can lie from the surface (`sphere`), that the
//! scene reports the nearest hit whatever the order of its members
//! (`scene`), that the integrator ends and stays within the range of a colour
//! (`shade`), what an image is made of (`render`) and how it is written out
//! (`pixmap`). Random numbers come from the `rand` crate (`sampling`); of
//! them only their range is assumed.

pub mod camera;
pub mod fixed;
pub mod hit;
pub mod pixmap;
pub mod quadratic;
pub mod ray;
pub mod render;
pub mod sampling;
pub mod scene;
pub mod shade;
pub mod sphere;
pub mod vec3;
