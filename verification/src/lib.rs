//! Arithmetic circuits: expressions built from integer constants,
//! variables, sums and products, with a simplifier that provably
//! preserves the value of every expression, an evaluator and a printer.
pub mod term;
pub mod laws;
pub mod expr;
pub mod text;
pub mod bindings;
pub mod limbs;
pub mod bigint;
pub mod parse;

pub use expr::Expr;

use vstd::prelude::*;

verus! {

/// Prepares the library for use. Expressions hold no global state, so
/// there is nothing to set up; calling it once or many times is harmless.
pub fn init() {
}

} // verus!
