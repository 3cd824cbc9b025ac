//! A Fractran interpreter: programs are ordered lists of fractions, the state
//! is a single positive integer, and one step multiplies the state by the
//! first fraction that keeps it integral.

use vstd::prelude::*;

pub mod frac;
pub mod math;
pub mod primebasis;
pub mod program;

verus! {

/// N, where the nth prime is the largest one allowed as a factor of an input:
/// intuitively, the number of registers a program can read and write to. For
/// a value of `1000`, this means that the first number that cannot be
/// expressed is `7927`.
pub const MAX_REGS: u16 = 1000;

} // verus!
