//! Hardware-facing core of a small x86_64 kernel: a model of four-level
//! paging (translation, mapping and physical frame allocation), the chained
//! interrupt controllers, the interrupt vector table with its handlers, and
//! the text-mode screen writer.
pub mod interrupts;
pub mod memory;
pub mod pic;
pub mod vga_buffer;
