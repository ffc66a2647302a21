use vstd::prelude::*;

pub mod error;
pub mod expr;
pub mod token;

verus! {

/// Associativity tag for operators that group left-to-right.
pub const ASSOC_LEFT: i32 = 0;

/// Associativity tag for operators that group right-to-left.
pub const ASSOC_RIGHT: i32 = 1;

} // verus!
