# nucleus

The decision-making core of a small x86-64 kernel nucleus, written in Verus:
every public function carries a contract, and Verus proves each body against
it.

What is here is the part of a kernel that decides: which memory authority may
fund what, how a page-table tree changes when a page is mapped or a lane is
released, who holds which capability and what a grant or a release does to
it, which process runs next and how a process ends, how a launch record is
laid out, and which hardware objects (PCI functions, device windows, DMA
regions, routed interrupts) a process may reach. What touches the machine
(port and MMIO accesses, model-specific registers, loading the processor's
tables, the context switch) is not here; a kernel built on this library
performs those and hands the results in as plain values.

Layout:

- `src/region.rs`, `src/memory.rs`: the memory authority tree, its accounting,
  and the frames page tables are built out of.
- `src/paging.rs`, `src/backing.rs`: four-level page tables over a model of
  their frames, and the record of which frames back each region.
- `src/capability.rs`, `src/plan.rs`, `src/ipc.rs`: capability tables, launch
  plans, and endpoints.
- `src/process.rs`, `src/launch.rs`: the process table, the scheduler's
  decisions, and how a process is built.
- `src/pci.rs`, `src/device.rs`, `src/dma.rs`, `src/irq.rs`, `src/apic.rs`,
  `src/exception.rs`: hardware-object tables and the descriptors the processor
  reads.
- `src/console.rs`, `src/framebuffer.rs`, `src/boot_report.rs`, `src/boot.rs`,
  `src/measurement.rs`, `src/injection.rs`, `src/adversary.rs`: the boot
  console, its drawing, boot-time facts, and what test builds are told to do.
- `tests/`: concrete scenarios for each module.
