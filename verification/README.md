# NullOS

A small x86 kernel with an inode file system on an ATA disk, a VGA text
console and a login shell. The kernel's logic is a Verus library whose
functions carry `requires`/`ensures` contracts that Verus proves.

## Layout

- `src/` — the verified library (`null_os`):
  - `strings` — NUL-terminated 80-character lines: `strlen`, `strcmp`.
  - `ata` — the sector-device trait `Disk`, the ports of an ATA bus, and
    the decisions of an LBA28 transfer (buffer checks, register values,
    what each status byte means) as the state machine `Transfer`.
  - `mem_disk` — a `Disk` held in memory, with the driver's checks.
  - `reader_writer` — a byte stream with a cursor over a `Disk`.
  - `inode`, `dir_entries` — the on-disk forms of inodes and directories,
    with their round-trip laws.
  - `file_system` — the inode table, the block byte map, file contents,
    directories and path lookup, over a mathematical model of the disk
    bytes; `fs_wf` is the invariant every write keeps.
  - `vga_buffer` — the 80×25 text writer: wrapping, scrolling, deleting
    back to a boundary.
  - `keyboard` — the line editor behind line input.
  - `interrupts` — interrupt vectors, the timer divisor, sleeping.
  - `shell` — command parsing, user accounts and what each command decides.
- `app/` — the kernel around the library: boot, interrupt handlers, port
  I/O for the disk, the screen and the keyboard, the heap, and the shell
  loop that reads lines and prints results.
- `tests/` — tests of the library on concrete values.
