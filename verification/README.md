# moose

The verified core of the moose x86_64 kernel, written in Verus.

- `src/` is the library. Every function in it is verified: its contract,
  stated over `Seq`, `Map` and spec functions, is proved, and so is the
  absence of overflow and panics. It holds the kernel's data structures and
  decisions: the red-black tree and the high-resolution timer queue built on
  it, the scheduler's run queues, the process and thread table, time and
  date arithmetic, the GDT, IDT and
  TSS encodings, PCI configuration decoding, the framebuffer and terminal,
  the ATA, Hyper-V and clock drivers' register logic, the device manager,
  the boot information checks, and the FAT32 layout, allocation and
  read/write planning.
- `app/` is the kernel around it: port and MSR access, the logger, the
  descriptor tables in memory, the disk and file-system I/O that carries out
  the library's plans, and the entry point.
- `tests/` runs the library on concrete values.

Outside code that the library calls stands behind a few trusted items
(`hashbrown`'s map in `device_manager`, `ucs2::decode` in `fat_listing`);
each one's doc comment says what its contract claims.
