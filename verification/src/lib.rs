//! Verified core of the moose kernel: its ordered map, timer queue, time
//! arithmetic, descriptor-table encodings, PCI decoding and rendering logic.
pub mod rb_tree;
pub mod statistics;
pub mod time;
pub mod pci;
pub mod gdt;
pub mod idt;
pub mod vga;
pub mod terminal;
pub mod net;
pub mod io;
pub mod device_tree;
pub mod process;
pub mod timer;
pub mod scheduler;
pub mod apic;
pub mod clock;
pub mod hyperv;
pub mod ata;
pub mod device_manager;
pub mod boot;
pub mod kernel;
pub mod fat;
pub mod fat_file;
pub mod fat_listing;
pub mod arch;
pub mod bits;
pub mod syscall;
