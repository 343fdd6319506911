pub mod error;
pub mod operator;
pub mod opcode;
pub mod value;

use vstd::prelude::*;

verus! {

/// A function call in progress: where to return to, and where its locals start on the stack.
#[derive(Eq, PartialEq, Debug, Clone, Copy)]
pub struct CallFrame {
    pub return_ip: usize,
    pub frame_pointer: usize,
}

} // verus!
