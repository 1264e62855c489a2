//! Kauffman bracket polynomials of knots written as braid words.
//!
//! A braid word is read into a planar diagram of crossings and regions, every
//! smoothing of the diagram is resolved into a number of closed loops, and the
//! state sum over all smoothings is collected in a sparse polynomial with
//! rational coefficients and exponents.
//!
//! The state sum is taken by brute force: a knot with `n` crossings has `2^n`
//! smoothings, and time and space double with every crossing.
//!
//! Every function is verified against its contract. The contracts speak of
//! what the values stand for: a `Knot` for a `Diagram`, a `RegionCounter` for
//! a `Tally`, a `Polynomial` for a sequence of `Monomial`s with fractions of
//! unbounded integers. Rational arithmetic is done by the `num` crate and the
//! bits of a number are taken by the `bitvec` crate; what these return is
//! stated, not proved, in `rational` and in `resolution`.

pub mod addition;
pub mod binomial;
pub mod bracket;
pub mod diagram;
pub mod expansion;
pub mod knot;
pub mod lowest_terms;
pub mod polynomial;
pub mod rational;
pub mod region_counter;
pub mod resolution;
pub mod term;
pub mod weight;

pub use knot::{Knot, KnotParseError};
pub use region_counter::RegionCounter;
