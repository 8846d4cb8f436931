//! Boot-time memory management core for a minimal kernel: a frame allocator
//! drawing from a boot-supplied memory map, a page-table translator and mapper
//! working over an explicit physical-memory window, and a heap bootstrapper
//! that backs a fixed virtual window and hands it to a bump allocator.

pub mod addr;
pub mod memory_map;
pub mod page_table;
pub mod memory;
pub mod allocator;
pub mod interrupt;
pub mod vga_buffer;
