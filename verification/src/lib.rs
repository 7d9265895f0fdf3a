//! The decisions of a small kernel nucleus, each with its contract: the
//! memory authority tree and the page tables built out of it, the capability
//! tables and the endpoints messages travel through, the process table and
//! how a process is built, the hardware-object tables (PCI assignments,
//! device windows, DMA regions, routed interrupts), and the boot console.
//! What touches the machine itself (ports, registers, the processor's own
//! tables) is left to the code around this library, which hands it plain
//! values and takes plain values back.
pub mod adversary;
pub mod apic;
pub mod backing;
pub mod boot;
pub mod boot_report;
pub mod capability;
pub mod console;
pub mod device;
pub mod dma;
pub mod exception;
pub mod framebuffer;
pub mod ipc;
pub mod injection;
pub mod irq;
pub mod launch;
pub mod measurement;
pub mod memory;
pub mod paging;
pub mod pci;
pub mod plan;
pub mod process;
pub mod region;
