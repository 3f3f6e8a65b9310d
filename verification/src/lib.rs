//! An interpreter for a small esoteric, byte-cell language whose program
//! text doubles as its own instruction stream. The machine is a
//! head-centered, bidirectionally growable tape of wrapping byte cells; a
//! single left-to-right scan turns each character buffer into a bidirectional
//! jump table over four pairing families; programs can name single-character
//! functions and re-invoke them as subroutines, and can re-execute their own
//! accumulated output as fresh code.

mod rng;
pub mod text;
pub mod interp;
pub mod machine;
pub mod pairing;
pub mod fntable;
pub mod tape;

pub use fntable::FnTable;
pub use interp::exec;
pub use interp::run;
pub use interp::InputFeed;
pub use pairing::PairingMap;
pub use tape::Tape;

use vstd::prelude::*;

verus! {

/// Everything that can abort a run. A mismatched loop bracket is the one
/// error expected on plausible user input; the others mark invariant
/// violations, deliberately unimplemented commands, or the defensive bounds
/// on recursion depth and step count.
#[derive(Clone, Copy, Debug, PartialEq, Eq, Structural)]
pub enum Error {
    /// A loop closer with no matching opener, at the given buffer position.
    MismatchedBrackets(usize),
    /// A command needed a pair lookup that the pairing map cannot answer,
    /// at the given buffer position.
    UnresolvedPair(usize),
    /// The quine command found the output buffer holding invalid text.
    InvalidOutputBytes,
    /// A reserved command with no implemented behaviour was executed.
    Unimplemented(char),
    /// The defensive bound on nested invocations was exceeded.
    RecursionLimitExceeded,
    /// The explicit step budget of the run was exhausted.
    StepLimitExceeded,
}

/// Round a byte to the nearest multiple of five, ties below the midpoint
/// rounding down; the step up from a multiple-of-five base wraps modulo 256.
pub open spec fn round5(n: int) -> int {
    let o = n % 5;
    let base = 5 * (n / 5);
    if o <= 2 {
        base
    } else {
        (base + 5) % 256
    }
}

/// Round a `u8` to the nearest multiple of 5 (remainders of 0..=2 go down,
/// 3..=4 go up, wrapping modulo 256 on the way up).
pub fn cell_round(n: u8) -> (r: u8)
    ensures
        r as int == round5(n as int),
{
    let o = n % 5;
    let m = 5 * (n / 5);
    if o <= 2 {
        m
    } else {
        m.wrapping_add(5)
    }
}

} // verus!

