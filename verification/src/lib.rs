pub mod allocator;
pub mod arch;
pub mod backrooms;
pub mod drivers;
pub mod fs;
pub mod gdt;
pub mod idt;
pub mod memory;
pub mod syscalls;
pub mod task;
pub mod vga;
