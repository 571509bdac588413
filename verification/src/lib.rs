//! Orbit classification of homogeneous polynomials in three variables over
//! GF(2) and GF(3).
//!
//! A homogeneous polynomial of degree `D` is stored as one `u64`, one
//! fixed-width lane per monomial coefficient (1 bit over GF(2), 2 bits over
//! GF(3)).  The invertible linear substitutions of the variables act on these
//! packed polynomials; the library enumerates the orbits of that action,
//! reporting a canonical representative and the exact size of each orbit.

use vstd::prelude::*;

pub mod algebraic_types;
pub mod bijection;
pub mod enumerate;
pub mod field;
pub mod polynomials;
pub mod render;

verus! {

/// A configuration fault reported before any enumeration work starts.
#[derive(Debug, Clone, Copy, PartialEq, Eq, Structural)]
pub enum OrbitError {
    /// The requested field order is not 2 or 3.
    UnsupportedFieldOrder,
    /// The packed representation of the requested degree and field order
    /// would not fit the 64-bit word the engine iterates over.
    WidthExceeded,
}

} // verus!
