use firmware_sim::layout::{MemoryLayout, MemoryRegion};
use firmware_sim::update::{
    classify_digests, digest, hex_text, interruption_matrix, Flash, FlashError, UpdateError,
    UpdateStrategy,
};
use firmware_sim::layout::BootImage;

fn memory() -> MemoryLayout {
    MemoryLayout {
        flash_base: 0x08000000,
        flash_size: 0x80000,
        ram_regions: vec![MemoryRegion {
            name: "sram".into(),
            base: 0x20000000,
            size: 0x1c000,
        }],
        bootloader_size: 0x4000,
        slot_a_base: 0x08004000,
        slot_a_size: 0x74000,
        slot_b_base: None,
        slot_b_size: None,
        delta_base: Some(0x08078000),
        delta_size: Some(0x6000),
        persistent_data_base: None,
        persistent_data_size: None,
        erase_size: 0x800,
        write_alignment: 8,
        sedsnet_pool: 4096,
    }
}

fn delta_transfer(size: usize) -> Vec<u8> {
    let mut transfer = vec![0x44; size];
    transfer[..4].copy_from_slice(&0x4c43_4450u32.to_le_bytes());
    transfer
}

#[test]
fn tests_delta_power_loss_matrix() {
    let report = interruption_matrix(
        &vec![0x11; 4096],
        &vec![0x22; 4096],
        &delta_transfer(1024),
        &memory(),
        128,
    )
    .unwrap();
    assert_eq!(report.strategy, UpdateStrategy::DeltaOnly);
    assert!(report.interruption_points_tested > report.chunks);
    assert!(report.recovery_required_points > 0);
    assert!(report.all_flash_operation_boundaries_tested);
    assert!(!report.cpu_reboots_executed);
}

#[test]
fn full_image_ota_uses_recovery_even_when_delta_staging_exists() {
    let report = interruption_matrix(
        &vec![0x11; 4096],
        &vec![0x22; 4096],
        &vec![0x55; 0x7000],
        &memory(),
        512,
    )
    .unwrap();
    assert_eq!(report.strategy, UpdateStrategy::RecoveryTransport);
}

#[test]
fn detects_dual_slot_and_recovery_layouts() {
    let mut dual = memory();
    dual.delta_base = None;
    dual.delta_size = None;
    dual.slot_a_size = 0x30000;
    dual.slot_b_base = Some(0x08034000);
    dual.slot_b_size = Some(0x30000);
    let dual_report =
        interruption_matrix(&[0x11; 4096], &[0x22; 4096], &[0x44; 2048], &dual, 128).unwrap();
    assert_eq!(dual_report.strategy, UpdateStrategy::DualSlot);
    assert_eq!(dual_report.recovery_required_points, 0);
    assert!(dual_report.old_image_boot_points > 0);
    assert!(dual_report.new_image_boot_points > 0);

    dual.slot_b_base = None;
    dual.slot_b_size = None;
    let recovery_report =
        interruption_matrix(&[0x11; 4096], &[0x22; 4096], &[0x44; 2048], &dual, 128).unwrap();
    assert_eq!(recovery_report.strategy, UpdateStrategy::RecoveryTransport);
}

#[test]
fn flash_enforces_real_programming_rules() {
    let mut flash = Flash::new(4096, 2048, 8);
    flash.erase(0, 2048).unwrap();
    flash.program(0, &[0x00; 8]).unwrap();
    assert!(flash.program(0, &[0xff; 8]).is_err());
    assert!(flash.erase(1, 2048).is_err());
}

#[test]
fn flash_reads_back_what_was_programmed() {
    let mut flash = Flash::new(4096, 2048, 8);
    flash.program(8, &[1, 2, 3]).unwrap();
    assert_eq!(flash.read(8, 4).unwrap(), &[1, 2, 3, 0xff]);
    assert_eq!(flash.read(0, 8).unwrap(), &[0xff; 8]);
    assert_eq!(flash.program(4, &[0]), Err(FlashError::UnalignedProgram));
    assert_eq!(flash.program(4096, &[0]), Err(FlashError::ProgramOutside));
    assert_eq!(flash.program(8, &[0xff]), Err(FlashError::ZeroToOne));
    assert_eq!(flash.erase(0, 8192), Err(FlashError::EraseOutside));
    assert_eq!(flash.erase(0, 1), Err(FlashError::UnalignedErase));
    assert!(flash.read(4095, 2).is_err());
    flash.erase(0, 2048).unwrap();
    assert_eq!(flash.read(8, 4).unwrap(), &[0xff; 4]);
}

#[test]
fn every_boundary_of_a_delta_update_is_classified() {
    let report = interruption_matrix(
        &vec![0x11; 4096],
        &vec![0x22; 4096],
        &delta_transfer(1024),
        &memory(),
        128,
    )
    .unwrap();
    // 8 chunks are staged, 2 units erased, 32 chunks written.
    assert_eq!(report.chunks, 8);
    assert_eq!(report.interruption_points_tested, 8 + 2 + 32 + 1);
    assert_eq!(report.old_image_boot_points, 1 + 8);
    assert_eq!(report.new_image_boot_points, 1);
    assert_eq!(report.recovery_required_points, 2 + 31);
    assert_eq!(
        report.old_image_boot_points
            + report.new_image_boot_points
            + report.recovery_required_points,
        report.interruption_points_tested
    );
}

#[test]
fn digests_are_sha256_in_hexadecimal() {
    assert_eq!(
        digest(b"abc"),
        "ba7816bf8f01cfea414140de5dae2223b00361a396177a9cb410ff61f20015ad"
    );
    assert_eq!(
        digest(b""),
        "e3b0c44298fc1c149afbf4c8996fb92427ae41e4649b934ca495991b7852b855"
    );
    assert_eq!(hex_text(&[0x00, 0x0a, 0xff]), "000aff");
}

#[test]
fn the_new_image_wins_where_both_are_whole() {
    assert_eq!(classify_digests("a", "a", "b", "b"), BootImage::New);
    assert_eq!(classify_digests("a", "a", "c", "b"), BootImage::Old);
    assert_eq!(classify_digests("c", "a", "b", "b"), BootImage::New);
    assert_eq!(classify_digests("c", "a", "c", "b"), BootImage::Recovery);
}

#[test]
fn each_refusal_of_an_update_has_its_error() {
    let old = vec![0x11; 64];
    let new = vec![0x22; 64];
    let error = |original: &[u8], updated: &[u8], transfer: &[u8], memory: &MemoryLayout, chunk| {
        interruption_matrix(original, updated, transfer, memory, chunk).unwrap_err()
    };
    assert_eq!(error(&[], &new, &new, &memory(), 8), UpdateError::EmptyImage);
    assert_eq!(error(&old, &new, &[], &memory(), 8), UpdateError::EmptyTransfer);
    assert_eq!(error(&old, &new, &new, &memory(), 0), UpdateError::ChunkSize);
    assert_eq!(error(&old, &old, &new, &memory(), 8), UpdateError::SameImage);
    let small = MemoryLayout { slot_a_size: 63, ..memory() };
    assert_eq!(error(&old, &new, &new, &small, 8), UpdateError::OriginalExceedsSlot);
    let larger = vec![0x22; 65];
    let exact = MemoryLayout { slot_a_size: 64, ..memory() };
    assert_eq!(error(&old, &larger, &new, &exact, 8), UpdateError::UpdatedExceedsSlot);
    assert_eq!(error(&old, &new, &new, &memory(), 4), UpdateError::ChunkUnaligned);
    let no_base = MemoryLayout { slot_b_size: Some(64), ..memory() };
    assert_eq!(error(&old, &new, &new, &no_base, 8), UpdateError::NoSlotB);
    let no_delta = MemoryLayout { delta_base: None, ..memory() };
    assert_eq!(error(&old, &new, &delta_transfer(64), &no_delta, 8), UpdateError::NoDelta);
    assert_eq!(
        error(&old, &new, &delta_transfer(0x6001), &memory(), 8),
        UpdateError::TransferExceedsDelta
    );
    assert_eq!(
        error(&old, &old, &new, &memory(), 8).message(),
        "simulated next firmware must differ from the installed image"
    );
}
