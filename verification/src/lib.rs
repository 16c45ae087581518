//! A small instruction set, a two-pass assembler for its mnemonic syntax,
//! and a register-machine interpreter for its binary encoding.

pub mod isa;
pub mod assembler;
pub mod emulator;

use vstd::prelude::*;

verus! {

/// Bytes of memory that an interpreter instance owns.
pub const RAM_SIZE: usize = 320_000;

/// Register index of the program counter.
pub const COUNTER_REG: usize = 14;

/// Register index of the stack pointer.
pub const STACK_REG: usize = 15;

} // verus!
