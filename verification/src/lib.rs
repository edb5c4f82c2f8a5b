//! A verified emulator, disassembler, and debugging toolkit for a 16-bit
//! register-and-stack virtual machine with a 22-opcode instruction set,
//! modular 15-bit arithmetic, a growable call stack, and a character-stream
//! I/O protocol that suspends execution while input is pending.

pub mod analysis;
pub mod assembly;
pub mod emulator;
pub mod errors;
pub mod semantics;
pub mod text;
