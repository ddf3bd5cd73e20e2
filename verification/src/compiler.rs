//! The instruction compiler: it gives every literal of an action log a register,
//! emits the commands that fill the registers and perform the actions, and writes
//! the commands in the machine's opcode alphabet.

pub mod bytecode;
pub mod lowering;
pub mod machine;
pub mod registers;
