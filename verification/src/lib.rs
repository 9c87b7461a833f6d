//! A just-in-time compiler for a bracket-structured tape-machine language.
//!
//! The library turns a source text into the bytes of an x86-64 routine and
//! states, byte for byte, what those bytes are. Making the bytes executable and
//! jumping into them is left to the embedding program.

pub mod vm;

pub use vm::jitmem::JitMemory;
pub use vm::program::CompileError;
pub use vm::program::HostAddrs;
pub use vm::BfJitVM;
