//! Early-boot support library: a multiboot-style boot-information parser and a
//! text-mode console writer over a fixed character grid.

pub mod boot;
pub mod device;
pub mod error;
pub mod kernel;
pub mod report;
pub mod vga;

