//! Structures that the x86-64 processor reads.
pub mod idt;
