# mikan_kernel

The logic of a small x86-64 hobby operating system (a UEFI boot loader and
a kernel), written in Verus and proved against its contracts.

- `src/pci.rs`: configuration-space addresses, header decoding, and the bus
  scan as a state machine that asks its driver for one header at a time.
- `src/pci_scan.rs`: the bus scan as a recursive function of the
  configuration space, and the proofs that the state machine computes it,
  always finishes or fills its table, and records only present functions.
- `src/framebuffer.rs`, `src/graphics.rs`, `src/fonts.rs`: the frame
  buffer's shape, pixels, 8x16 glyphs and the text font reader.
- `src/console.rs`, `src/context.rs`: the 80x25 text console and the
  kernel's state.
- `src/boot.rs`: the kernel file's ELF check (through `elf_rs`), its entry
  address and page count.
- `src/bits.rs`: bit-field access through the `bit_field` crate.

`app/` holds what runs on the machine: the UEFI entry point, the kernel
entry point with the frame buffer's memory, and PCI port I/O.
