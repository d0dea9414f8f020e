use firmware_sim::elf::{flash_image, reset_vector, u16_at, u32_at, validate_elf, ElfError};
use firmware_sim::layout::{MemoryLayout, MemoryRegion};

fn memory() -> MemoryLayout {
    MemoryLayout {
        flash_base: 0x0800_0000,
        flash_size: 0x80000,
        ram_regions: vec![MemoryRegion {
            name: "sram".into(),
            base: 0x2000_0000,
            size: 0x1c000,
        }],
        bootloader_size: 0x4000,
        slot_a_base: 0x0800_4000,
        slot_a_size: 0x74000,
        slot_b_base: None,
        slot_b_size: None,
        delta_base: None,
        delta_size: None,
        persistent_data_base: None,
        persistent_data_size: None,
        erase_size: 0x800,
        write_alignment: 8,
        sedsnet_pool: 4096,
    }
}

fn elf(load_vaddr: u32, load_paddr: u32, filesz: u32, memsz: u32) -> Vec<u8> {
    let mut data = vec![0_u8; 52 + 32 + filesz as usize];
    data[0..6].copy_from_slice(b"\x7fELF\x01\x01");
    data[24..28].copy_from_slice(&0x0800_4001_u32.to_le_bytes());
    data[28..32].copy_from_slice(&52_u32.to_le_bytes());
    data[42..44].copy_from_slice(&32_u16.to_le_bytes());
    data[44..46].copy_from_slice(&1_u16.to_le_bytes());
    data[52..56].copy_from_slice(&1_u32.to_le_bytes());
    data[56..60].copy_from_slice(&84_u32.to_le_bytes());
    data[60..64].copy_from_slice(&load_vaddr.to_le_bytes());
    data[64..68].copy_from_slice(&load_paddr.to_le_bytes());
    data[68..72].copy_from_slice(&filesz.to_le_bytes());
    data[72..76].copy_from_slice(&memsz.to_le_bytes());
    data
}

#[test]
fn accepts_segment_at_exact_ram_limit() {
    validate_elf(&elf(0x2000_0000, 0x0800_5000, 4, 0x1c000), &memory()).unwrap();
}

#[test]
fn rejects_segment_one_byte_beyond_ram() {
    let error = validate_elf(&elf(0x2000_0000, 0x0800_5000, 4, 0x1c001), &memory())
        .unwrap_err()
        .message("firmware");
    assert!(error.contains("exceeds every physical flash/RAM region"));
}

#[test]
fn rejects_segment_one_byte_beyond_flash() {
    let error = validate_elf(&elf(0x0800_0000, 0x0800_0000, 0x80001, 0x80001), &memory())
        .unwrap_err()
        .message("firmware");
    assert!(error.contains("exceeds every physical flash/RAM region"));
}

#[test]
fn finds_a_relocated_vector_table_inside_an_elf_segment() {
    let mut data = elf(0x0800_4000, 0x0800_4000, 0x300, 0x300);
    data[24..28].copy_from_slice(&0x0800_5101_u32.to_le_bytes());
    data[0x200..0x204].copy_from_slice(&0x2001_c000_u32.to_le_bytes());
    data[0x204..0x208].copy_from_slice(&0x0800_5101_u32.to_le_bytes());
    assert_eq!(
        reset_vector(&data, &memory()).unwrap(),
        (0x2001_c000, 0x0800_5101, 0x0800_41ac)
    );
}

#[test]
fn builds_erased_sparse_flash_image_from_physical_load_addresses() {
    let mut data = elf(0x2000_0000, 0x0800_5000, 4, 8);
    data[84..88].copy_from_slice(&[1, 2, 3, 4]);
    let image = flash_image(&data, &memory()).unwrap();
    assert_eq!(&image[0x5000..0x5004], &[1, 2, 3, 4]);
    assert!(image[..0x5000].iter().all(|byte| *byte == 0xff));
    assert_eq!(image.len(), 0x5004);
}

#[test]
fn fields_are_little_endian() {
    let bytes = [0x01, 0x02, 0x03, 0x04, 0x05];
    assert_eq!(u16_at(&bytes, 1), Ok(0x0302));
    assert_eq!(u32_at(&bytes, 1), Ok(0x0504_0302));
    assert!(u32_at(&bytes, 2).is_err());
    assert!(u16_at(&bytes, usize::MAX).is_err());
}

#[test]
fn each_flaw_of_a_file_has_its_error() {
    let good = elf(0x0800_4000, 0x0800_4000, 16, 16);
    let error = |change: &dyn Fn(&mut Vec<u8>)| {
        let mut data = good.clone();
        change(&mut data);
        validate_elf(&data, &memory()).unwrap_err()
    };
    assert_eq!(error(&|data| data.truncate(51)), ElfError::HeaderTruncated);
    assert_eq!(error(&|data| data[0] = 0), ElfError::Magic);
    assert_eq!(error(&|data| data[4] = 2), ElfError::Class);
    assert_eq!(error(&|data| data[5] = 2), ElfError::Endianness);
    assert_eq!(
        error(&|data| data[24..28].copy_from_slice(&0x2000_0001_u32.to_le_bytes())),
        ElfError::EntryOutside(0x2000_0001)
    );
    assert!(validate_elf(&good, &memory()).is_ok());
}

#[test]
fn a_file_without_a_vector_table_has_no_reset_vector() {
    let data = elf(0x0800_4000, 0x0800_4000, 4, 4);
    assert!(validate_elf(&data, &memory()).is_ok());
    assert!(reset_vector(&data, &memory()).is_err());
}
