//! Symbolic computation on expressions of one real variable: parsing,
//! differentiation, classification, polynomial normalisation with exact
//! rational coefficients, and the planning of series expansions and of
//! numeric quadrature.
use vstd::prelude::*;

pub mod algebra;
pub mod classification;
pub mod combinatorics;
pub mod differentiation;
pub mod evaluation;
pub mod expr;
pub mod functions;
pub mod horner;
pub mod integration;
pub mod laws;
pub mod number;
pub mod parse;
pub mod polynomial;
pub mod rounding;
pub mod series;
pub mod simplify;


pub use classification::Category;
pub use expr::Elementary;
pub use number::Number;

verus! {

/// What can go wrong.
#[derive(Debug)]
pub enum Error {
    /// The text is not an expression.
    ParseError(String),
    /// A rewrite was attempted on an expression of the wrong shape.
    SimplifyError(Elementary, String),
    /// A step that should not fail did.
    InternalError(String),
    /// A series expansion could not be formed.
    ExpansionError(String),
    /// An argument is out of range.
    InputError(String),
}

} // verus!
