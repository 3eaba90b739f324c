# Molt

The hardware-facing half of a small operating system, with its behaviour proved
by Verus: VirtIO drivers, translation tables for x86_64 and RISC-V, firmware
tables, the on-disk format of a checksummed filesystem, and a few network
packets.

```text
src/          the library, verified but for a few calls into other crates
  window      registers and shared memory, as the accesses made to them
  dma         device addresses, mappings and where driver memory comes from
  frames      frames of physical memory, each handed out once
  virtio/     transport, queues, and the block, network and IOMMU drivers
  fs/         superblocks, log records, names, block slots, checkpoint selection
  net/        ARP, neighbour discovery, checksums
  riscv/      translation tables, `satp`, device trees, firmware calls, traps
  x86/        the kernel address space, ACPI, local APIC, message vectors
  smp         numbering cores and waking them
tests/        the library at work on concrete values
app/          the machine: pointers, instructions, interrupts and waiting
```

Hardware appears in `src/` as traits with a model: a `Window` has a trace of
every access, `Memory` a map of words, a `Space` the pages put into it. Each has
an implementation in plain memory in `src/`, which is what the tests run on;
`app/` has the ones with pointers behind them.

Where the machine has to be waited for, the library decides one step at a time
and `app/` runs the loop: a request is published by one call and settled by
another, and a survey of a volume asks for the blocks it wants to see.

What Verus believes without proof are the calls `src/` makes into `core`,
`bootloader_api` and `x86_64`: `as_text` in `fs/name`, `region_count` and
`region_at` in `x86/boot`, `flag_bits` in `x86/flags` and `user_selector` in
`x86/interrupts`. Each says in its doc comment what it claims.
