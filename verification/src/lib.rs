//! Verified core of the ryzc teaching kernel: the block file system and its
//! allocation bitmap, the scrolling VGA text writer, and the console's
//! line editing and command table.

pub mod arch;
pub mod console;
pub mod device;
pub mod fs;
