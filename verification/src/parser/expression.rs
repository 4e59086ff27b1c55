//! Operator precedence levels for expression parsing, lowest binding first.

use vstd::prelude::*;

verus! {

/// The precedence ladder consulted while climbing through an expression,
/// from the loosest binding level to the tightest.
#[derive(Debug, PartialEq, Eq, Structural, Clone, Copy, PartialOrd)]
pub enum Precedence {
    Lowest,
    Equals,
    LessGreater,
    Sum,
    Product,
    Prefix,
    Call,
}

} // verus!
