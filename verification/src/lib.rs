//! An instruction-set simulator with a set-associative cache.
//!
//! [`cpu::CPU`] executes a small fixed instruction set against
//! [`memory::Memory`], a sparse store of 32-bit words at 8-bit addresses, and
//! routes every load and store through [`cache::Cache`], a set-associative
//! cache with least-recently-used replacement. [`cache_laws`] and
//! [`cpu_laws`] hold what is proved of every run.
//!
//! Around this core stand [`disasm`], which spells instruction words out as
//! assembly text, [`loader`], which reads memory contents from lines of
//! text, [`assembler`], which makes instruction words from fields and from
//! short lines of source, and [`narration`], which tells the sample program.

pub mod assembler;
pub mod cache;
pub mod cache_laws;
pub mod cpu;
pub mod cpu_laws;
pub mod disasm;
pub mod loader;
pub mod memory;
pub mod narration;
