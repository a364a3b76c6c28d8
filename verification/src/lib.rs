//! The surface of a convex shape, from its support map to a mesh.
//!
//! A convex shape is given by its support map, which takes a direction to the
//! point of the shape that lies farthest along it. The surface is found by
//! sampling directions evenly over the unit sphere ([`sampler`]), taking the
//! support point along each ([`shape`], [`cloud`]), wrapping the points in
//! their convex hull ([`hull`]) and shading the hull flat ([`mesh`]);
//! [`surface`] does all of it in one call.
//!
//! All coordinates are integers: a coordinate `c` stands for the real number
//! `c / ONE`. On such a lattice the orientation of four points is computed
//! exactly, so the hull needs no tolerance, and every statement made of it
//! holds as it stands. Lengths and directions are rounded to the lattice,
//! and what is stated of them says by how much.

mod arith;
pub mod determinant;
pub mod vec3;
pub mod incidence;
pub mod shell;
pub mod pairing;
pub mod hull;
pub mod horizon;
pub mod root;
pub mod unit;
pub mod shape;
pub mod sampler;
pub mod cloud;
pub mod mesh;
pub mod surface;
