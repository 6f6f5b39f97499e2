//! What the boot loader computes about the kernel image it loads.
use byteorder::{ByteOrder, LittleEndian};
use elf_rs::Elf;
use vstd::prelude::*;

verus! {

/// The physical address the kernel image is loaded at.
pub const KERNEL_BASE_ADDR: usize = 0x100000;

/// The size of a page.
pub const PAGE_SIZE: usize = 0x1000;

/// The offset of the entry-point address in an ELF64 header.
pub const ENTRY_OFFSET: usize = 24;

/// The 64-bit number whose little-endian bytes are `b[0..8]`.
pub open spec fn le_u64(b: Seq<u8>) -> u64 {
    (b[0] as u64) | ((b[1] as u64) << 8u64) | ((b[2] as u64) << 16u64) | ((b[3] as u64) << 24u64)
        | ((b[4] as u64) << 32u64) | ((b[5] as u64) << 40u64) | ((b[6] as u64) << 48u64)
        | ((b[7] as u64) << 56u64)
}

/// Reads a little-endian `u64` from the first eight bytes of `buf` with
/// `byteorder`'s `LittleEndian::read_u64`.
///
/// The contract claims what `byteorder` computes: the number whose
/// little-endian bytes are `buf[0..8]`. The crate panics on a buffer shorter
/// than eight bytes, which `requires` leaves out.
#[verifier::external_body]
fn read_u64_le(buf: &[u8]) -> (r: u64)
    requires
        buf@.len() >= 8,
    ensures
        r == le_u64(buf@),
{
    LittleEndian::read_u64(buf)
}

/// The entry-point address stored in the header of the loaded kernel image.
pub fn kernel_entry_address(image: &[u8]) -> (r: u64)
    requires
        image@.len() >= 32,
    ensures
        r == le_u64(image@.subrange(24, 32)),
{
    let field = vstd::slice::slice_subrange(image, ENTRY_OFFSET, ENTRY_OFFSET + 8);
    read_u64_le(field)
}

/// The number of pages that hold a kernel file of `file_size` bytes.
pub fn kernel_page_count(file_size: u64) -> (r: usize)
    requires
        file_size + 0xfff <= usize::MAX,
    ensures
        r == (file_size + 0xfff) / 0x1000,
        r * 0x1000 >= file_size,
        r * 0x1000 < file_size + 0x1000,
{
    (file_size as usize + 0xfff) / PAGE_SIZE
}

/// The word size an ELF image declares.
#[derive(Clone, Copy, Debug, PartialEq, Eq, Structural)]
pub enum ElfClass {
    Elf32,
    Elf64,
}

/// Why an image is not an ELF file that `elf_rs` accepts.
#[derive(Clone, Copy, Debug, PartialEq, Eq, Structural)]
pub enum ElfError {
    BufferTooShort,
    InvalidMagic,
    InvalidClass,
}

/// The 16-bit little-endian number at `b[i..i + 2]`.
pub open spec fn le_u16_at(b: Seq<u8>, i: int) -> int {
    b[i] + 256 * b[i + 1]
}

/// The four bytes every ELF file starts with.
pub open spec fn elf_magic() -> Seq<u8> {
    seq![0x7fu8, 0x45u8, 0x4cu8, 0x46u8]
}

/// What `elf_rs` makes of `b`: too short for a 32-bit header (52 bytes);
/// no ELF magic; the class byte at offset 4 names 32 bits (1) or 64 bits
/// (2), and the image must then also hold a header of that class (52 or 64
/// bytes) and the header size it records (at offset 40 or 52); any other
/// class byte is refused.
pub open spec fn spec_elf_check(b: Seq<u8>) -> Result<ElfClass, ElfError> {
    if b.len() < 52 {
        Err(ElfError::BufferTooShort)
    } else if b.subrange(0, 4) != elf_magic() {
        Err(ElfError::InvalidMagic)
    } else if b[4] == 1 {
        if b.len() < le_u16_at(b, 40) {
            Err(ElfError::BufferTooShort)
        } else {
            Ok(ElfClass::Elf32)
        }
    } else if b[4] == 2 {
        if b.len() < 64 || b.len() < le_u16_at(b, 52) {
            Err(ElfError::BufferTooShort)
        } else {
            Ok(ElfClass::Elf64)
        }
    } else {
        Err(ElfError::InvalidClass)
    }
}

/// Parses `image` with `elf_rs::Elf::from_bytes` and reports its class or
/// its error.
///
/// The contract claims what `elf_rs` does: the length check
/// against the 32-bit header, the magic, the class byte, and for the class
/// found the header-size checks, reading the recorded header size in the
/// machine's byte order, which is little-endian on x86-64, the only machine
/// this loader runs on. What the parsed header holds beyond that is not
/// claimed.
#[verifier::external_body]
fn elf_check(image: &[u8]) -> (r: Result<ElfClass, ElfError>)
    ensures
        r == spec_elf_check(image@),
{
    match Elf::from_bytes(image) {
        Ok(Elf::Elf32(_)) => Ok(ElfClass::Elf32),
        Ok(Elf::Elf64(_)) => Ok(ElfClass::Elf64),
        Err(elf_rs::Error::BufferTooShort) => Err(ElfError::BufferTooShort),
        Err(elf_rs::Error::InvalidMagic) => Err(ElfError::InvalidMagic),
        Err(elf_rs::Error::InvalidClass) => Err(ElfError::InvalidClass),
    }
}

/// Checks that the kernel file is an ELF image and says its class; the boot
/// loader stops on an error and shows the headers of a 64-bit image.
pub fn check_kernel_file(file: &[u8]) -> (r: Result<ElfClass, ElfError>)
    ensures
        r == spec_elf_check(file@),
        r is Ok ==> file@.len() >= 52 && file@.subrange(0, 4) == elf_magic(),
        r == Ok::<ElfClass, ElfError>(ElfClass::Elf64) ==> file@[4] == 2u8 && file@.len() >= 64,
        r == Ok::<ElfClass, ElfError>(ElfClass::Elf32) ==> file@[4] == 1u8,
{
    elf_check(file)
}

} // verus!
