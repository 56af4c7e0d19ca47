//! Core of an EVM-bytecode compiler: the bytecode analyzer (instruction
//! decoding, jump-destination discovery, basic-block metadata), the
//! 256-bit word arithmetic, and the suspend/resume execution ABI that a
//! compiled contract presents to its host.
//!
//! The machine a compiled function must implement bit-exactly is
//! written down as a specification in `machine`; the engine in `exec`
//! is proved to realize it, and `laws` proves the ABI's guarantees —
//! suspension transparency, replay from a resume token, stack-bounds
//! safety and idempotent termination — once and for all over that
//! machine.

use vstd::prelude::*;

pub mod analysis;
pub mod block;
pub mod exec;
pub mod laws;
pub mod machine;
pub mod opcode;
pub mod word;

verus! {

/// Number of 32-byte slots an EVM stack may hold.
pub const STACK_LIMIT: usize = 1024;

/// The stack limit the machine's overflow guard enforces.
pub fn stack_limit() -> (r: usize)
    ensures
        r == crate::machine::stack_limit(),
{
    STACK_LIMIT
}

} // verus!
