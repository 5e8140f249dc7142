//! NullOS: the logic of a small x86 kernel, verified. The modules hold the
//! on-disk file system, the byte stream over a sector device, the ATA command
//! decisions, the VGA text writer, the line editor, the shell's user and
//! command logic, and fixed-width string helpers.
use vstd::prelude::*;

pub mod strings;
pub mod ata;
pub mod mem_disk;
pub mod reader_writer;
pub mod inode;
pub mod file_system;
pub mod dir_entries;
pub mod vga_buffer;
pub mod interrupts;
pub mod keyboard;
pub mod fat_fs_adapter;
pub mod shell;
