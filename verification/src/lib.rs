//! The discrete core of a ray tracer.
//!
//! A ray tracer spends its time in floating-point kernels: transforming
//! rays, solving quadratics, evaluating a reflection model. Around those
//! kernels stands logic that never computes with a coordinate: which of
//! several intersections is the visible one, in what order intersections
//! are reported, when a point lies in shadow, which terms of the reflection
//! model light it, where the elements of a minor or of an inverse go, which
//! pixels a render visits, how a pixel grid is laid out as text. This
//! library holds that logic, with its proofs. The kernels are the caller's
//! and reach the library as closures or as values already computed.
//!
//! Numbers that the library has to put in order come as [`scalar::Scalar`]:
//! the bits of a binary32 number, ordered as the numbers that they encode.
pub mod camera;
pub mod canvas;
pub mod matrix;
pub mod ppm;
pub mod ray;
pub mod scalar;
pub mod shading;
pub mod world;
