//! The numeric id of each opcode, as used by the AIR's selector columns.

use vstd::prelude::*;

verus! {

pub const LOAD_IMM: usize = 0;

pub const LOAD: usize = 1;

pub const STORE: usize = 2;

pub const ADD: usize = 3;

pub const MUL: usize = 4;

pub const JMP: usize = 5;

pub const JNZ: usize = 6;

pub const HALT: usize = 7;

} // verus!
