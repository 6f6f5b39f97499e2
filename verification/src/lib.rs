//! Core logic of a small x86-64 hobby kernel and its UEFI boot loader:
//! PCI configuration-space addressing, header decoding and bus scanning,
//! frame-buffer pixels and glyphs, a fixed-size text console, and what the
//! boot loader computes about the kernel image.
pub mod bits;
pub mod boot;
pub mod console;
pub mod context;
pub mod fonts;
pub mod framebuffer;
pub mod graphics;
pub mod pci;
pub mod pci_scan;
