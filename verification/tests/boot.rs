use mikan_kernel::boot::{
    check_kernel_file, kernel_entry_address, kernel_page_count, ElfClass, ElfError, KERNEL_BASE_ADDR,
};

#[test]
fn entry_address_is_little_endian_at_offset_24() {
    let mut image = vec![0u8; 64];
    image[24..32].copy_from_slice(&[0x08, 0x07, 0x06, 0x05, 0x04, 0x03, 0x02, 0x01]);
    assert_eq!(kernel_entry_address(&image), 0x0102_0304_0506_0708);
}

#[test]
fn entry_address_reads_only_its_eight_bytes() {
    let mut image = vec![0xffu8; 32];
    image[24..32].copy_from_slice(&0x0010_1000u64.to_le_bytes());
    assert_eq!(kernel_entry_address(&image), 0x0010_1000);
}

#[test]
fn page_count_rounds_up() {
    assert_eq!(kernel_page_count(0), 0);
    assert_eq!(kernel_page_count(1), 1);
    assert_eq!(kernel_page_count(4096), 1);
    assert_eq!(kernel_page_count(4097), 2);
    assert_eq!(kernel_page_count(3 * 4096 + 5), 4);
    assert_eq!(KERNEL_BASE_ADDR, 0x100000);
}

fn elf_header(class: u8, len: usize, ehsize: u16) -> Vec<u8> {
    let mut b = vec![0u8; len];
    b[0..4].copy_from_slice(&[0x7f, b'E', b'L', b'F']);
    b[4] = class;
    let at = if class == 1 { 40 } else { 52 };
    if at + 2 <= len {
        b[at..at + 2].copy_from_slice(&ehsize.to_le_bytes());
    }
    b
}

#[test]
fn elf_check_accepts_64_bit_image() {
    assert_eq!(check_kernel_file(&elf_header(2, 64, 64)), Ok(ElfClass::Elf64));
    assert_eq!(check_kernel_file(&elf_header(2, 200, 64)), Ok(ElfClass::Elf64));
}

#[test]
fn elf_check_accepts_32_bit_image() {
    assert_eq!(check_kernel_file(&elf_header(1, 52, 52)), Ok(ElfClass::Elf32));
}

#[test]
fn elf_check_refuses_short_buffer() {
    assert_eq!(check_kernel_file(&[0x7f, b'E', b'L', b'F', 2]), Err(ElfError::BufferTooShort));
    assert_eq!(check_kernel_file(&elf_header(2, 60, 64)), Err(ElfError::BufferTooShort));
    assert_eq!(check_kernel_file(&elf_header(2, 64, 100)), Err(ElfError::BufferTooShort));
    assert_eq!(check_kernel_file(&elf_header(1, 52, 60)), Err(ElfError::BufferTooShort));
}

#[test]
fn elf_check_refuses_bad_magic() {
    let mut b = elf_header(2, 64, 64);
    b[1] = b'X';
    assert_eq!(check_kernel_file(&b), Err(ElfError::InvalidMagic));
}

#[test]
fn elf_check_refuses_unknown_class() {
    assert_eq!(check_kernel_file(&elf_header(3, 64, 64)), Err(ElfError::InvalidClass));
    assert_eq!(check_kernel_file(&elf_header(0, 64, 64)), Err(ElfError::InvalidClass));
}
