//! A small stack-based bytecode virtual machine: an assembler from text to
//! bytecode, a disassembler back to text, the bytecode file format and the
//! interpreter, each with a verified contract.

pub mod assembler;
pub mod bytecode;
pub mod cli;
pub mod disassembler;
pub mod isa;
pub mod numeral;
pub mod roundtrip;
pub mod text;
pub mod vm;
