//! Topological invariants of knots given as braids.
//!
//! A knot is described by a braid: a number of strands and a sequence of
//! crossings between neighbouring strands. From a braid the library
//! derives a set of invariants (approximate Jones and Alexander
//! polynomials, writhe, signature, determinant and others) and the terms
//! of a compatibility score between two such sets.
//!
//! All arithmetic is exact. Polynomials have rational coefficients, held
//! as integer numerators over a common denominator, and matrices have
//! integer entries; where a result does not fit the machine integers that
//! hold it, the operation says so instead of rounding or wrapping.
//!
//! - [`braid_group`]: braids, their words and their matrices.
//! - [`polynomial`]: polynomial algebra.
//! - [`seifert`], [`determinant`]: the Seifert matrix of a braid, its rank
//!   estimate, signature and determinant.
//! - [`knot_invariants`]: the invariants of a braid.
//! - [`compatibility`]: the terms of the compatibility score.
//! - [`knot_energy`]: the points that enter the curvature of a curve.
//! - [`api`]: the operations on braids given as plain values.
//! - [`matrix`], [`dense`]: integer matrices, of the library and of the
//!   `nalgebra` crate.
//! - [`error`], [`text`], [`bounds`]: failures, decimal numerals and
//!   bounds on products.

pub mod api;
pub mod bounds;
pub mod braid_group;
pub mod compatibility;
pub mod dense;
pub mod determinant;
pub mod error;
pub mod knot_energy;
pub mod knot_invariants;
pub mod matrix;
pub mod polynomial;
pub mod seifert;
pub mod text;
