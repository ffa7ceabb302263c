//! A small simulator for a RISC-V-like 32-bit machine: an assembler from
//! mnemonic text to machine words, and a CPU that runs those words.
pub mod instruction;
pub mod cpu;
pub mod text;
pub mod assembler;
