//! Devices: the VGA text console.

pub mod vga;
