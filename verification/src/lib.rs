//! The decision core of a small ray tracer.
//!
//! A ray tracer of this kind follows one ray per pixel through a handful of
//! planes and spheres, bounces it off the mirrors among them a bounded number
//! of times, and blends the colours it meets. Its arithmetic is
//! double-precision and belongs to the caller. What is decided from the
//! numbers belongs here:
//!
//! - [`double`]: a number seen through its bit pattern, with the order of the
//!   numbers read off the bits and proved to be the order of their values;
//! - [`scene`]: whether the roots of an intersection test amount to a hit, and
//!   which hit along a ray is the nearest, the first listed winning a tie;
//! - [`shade`]: the clamp of the diffuse term, the checker pattern of a plane
//!   and the clamp of a colour channel;
//! - [`bounce`]: the bounce loop as a state machine from the outcome of an
//!   intersection to what becomes of the accumulated colour;
//! - [`pixel`]: the byte of a scaled colour channel.
//!
//! A caller hands a number over with `Double::from_bits(x.to_bits())` and
//! takes one back the other way round.

pub mod bounce;
pub mod double;
pub mod pixel;
pub mod scene;
pub mod shade;
