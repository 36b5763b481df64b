//! A small actor-oriented virtual machine: a bytecode compiler, a binary
//! container format, and a cooperative interpreter built around entities,
//! vats and promises.

pub mod opcodes;
pub mod ast;
pub mod vm_core;
pub mod pbin;
pub mod vm;
pub mod codegen;
