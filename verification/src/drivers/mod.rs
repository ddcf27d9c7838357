//! Device drivers: the framebuffer console and the PS/2 mouse.
pub mod mouse;
pub mod vga;
