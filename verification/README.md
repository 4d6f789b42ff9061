# ryzc

The verified core of a small x86-64 teaching kernel:

- `fs`: a block file system on a 4096-block disk — metadata entries hashed
  into 255 buckets, a free-block bitmap, file creation, lookup and reading.
  `fs::layout` states the on-disk format as functions of the disk's bytes;
  `fs::laws` proves properties that span operations.
- `device::vga`: the scrolling VGA text writer, specified as a state machine
  over its cursor, scroll-back buffer and screen.
- `console`: line editing, word splitting and the command table.
- `arch`: the system-call register frame and the segment selectors.

`app/` runs the console on a hosted machine, with standard input as the
keyboard and an in-memory disk.

## What reads back

- `inserted_file_reads_back`: when blocks 0 to 255 are marked as used (as
  after `fs::init`), a file created with ASCII contents gets blocks past them
  and reading the returned `File` gives back exactly its contents.
- `saved_file_is_found`: a file stored by `save_file_data` is found again by
  its name when the name is ASCII, has no zero character and is at most 26
  bytes, its blocks lie past block 255 and on the disk, its block count and
  length are below 65536 (the entry keeps them modulo 65536), the name was not
  listed before and its bucket had a free slot (a full bucket drops the entry).
- `created_file_reads_back` combines both for a whole `insert_file`.

## Not here

`VFS::remove_file`, `VFS::change_file_name` and `VFS::append_file` rest on a
block-device removal and renaming that the file system never defined, so they
have no behaviour to carry. Interrupt handlers, descriptor tables, boot code
and the demo tasks need the bare-metal target and the drivers, scheduler and
system calls, which are not part of this code.
