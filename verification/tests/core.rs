use firmware_sim::architecture::{
    Architecture, ArchitectureKind, DescriptorError, McuDescriptor, McuError, McuKind, MemoryError,
};
use firmware_sim::debug::CrashDiagnostic;
use firmware_sim::layout::{
    Artifacts, BoardConfig, BoardLayout, ExecutionConfig, MemoryLayout, MemoryRegion, OtaConfig,
    ResolveError,
};
use firmware_sim::pool::FixedPool;
use firmware_sim::simulator::self_test;
use firmware_sim::text::Text;
use firmware_sim::traffic::TrafficConfig;

fn g491() -> McuDescriptor {
    McuDescriptor {
        name: "stm32g491".into(),
        architecture: ArchitectureKind::Stm32g4,
        core_model: "cortex-m4f".into(),
        platform_file: "stm32g491.repl".into(),
        platform_from_firmware: false,
        flash_profile: "stm32g4".into(),
        flash_base: 0x0800_0000,
        flash_size: 0x80000,
        ram_base: 0x2000_0000,
        ram_size: 0x1c000,
        erase_size: 2048,
        write_alignment: 8,
        trustzone_capable: false,
        uart_ota: vec!["usart1".into(), "uart4".into()],
        can_ota: vec!["fdcan1".into()],
        usb_ota: vec!["usb".into()],
        sdmmc_ota: vec![],
        board_validated: true,
    }
}

fn h523() -> McuDescriptor {
    McuDescriptor {
        name: "stm32h523".into(),
        architecture: ArchitectureKind::Stm32h5,
        core_model: "cortex-m33".into(),
        platform_file: "stm32h523.repl".into(),
        platform_from_firmware: false,
        flash_profile: "stm32h5".into(),
        flash_base: 0x0800_0000,
        flash_size: 0x80000,
        ram_base: 0x2000_0000,
        ram_size: 278528,
        erase_size: 8192,
        write_alignment: 16,
        trustzone_capable: true,
        uart_ota: vec![],
        can_ota: vec!["fdcan1".into()],
        usb_ota: vec!["usb".into()],
        sdmmc_ota: vec!["sdmmc".into()],
        board_validated: true,
    }
}

fn sram(size: u64) -> MemoryRegion {
    MemoryRegion { name: "sram".into(), base: 0x2000_0000, size }
}

fn memory() -> MemoryLayout {
    MemoryLayout {
        flash_base: 0x0800_0000,
        flash_size: 0x80000,
        ram_regions: vec![sram(0x1c000)],
        bootloader_size: 0x4000,
        slot_a_base: 0x0800_4000,
        slot_a_size: 0x74000,
        slot_b_base: None,
        slot_b_size: None,
        delta_base: None,
        delta_size: None,
        persistent_data_base: None,
        persistent_data_size: None,
        erase_size: 0x800,
        write_alignment: 8,
        sedsnet_pool: 4096,
    }
}

fn board(mcu: &str, descriptor: Option<McuDescriptor>) -> BoardLayout {
    BoardLayout {
        name: "debug-board".into(),
        architecture: ArchitectureKind::Stm32h5,
        mcu: McuKind::new(mcu),
        mcu_descriptor: descriptor,
        memory: MemoryLayout {
            ram_regions: vec![sram(0x40000)],
            erase_size: 0x2000,
            write_alignment: 16,
            sedsnet_pool: 1024,
            ..memory()
        },
        artifacts: Artifacts {
            elf: "firmware.elf".into(),
            bootloader_elf: "bootloader.elf".into(),
            firmware: "firmware.bin".into(),
            bootloader: "boot.bin".into(),
            factory: "factory.bin".into(),
            updated_firmware: None,
            ota: None,
        },
        execution: ExecutionConfig::default(),
        traffic: TrafficConfig::default(),
        ota: OtaConfig::default(),
        board: BoardConfig::default(),
        peripherals: vec![],
    }
}

#[test]
fn validates_all_architectures() {
    for kind in [
        ArchitectureKind::Stm32,
        ArchitectureKind::Stm32g4,
        ArchitectureKind::Stm32h5,
        ArchitectureKind::Stm32u5,
    ] {
        self_test(kind).unwrap();
    }
}

#[test]
fn exact_mcu_must_match_architecture_and_capacity() {
    let catalog = [g491(), h523()];
    let mut memory = memory();
    let architecture = Architecture::for_kind(ArchitectureKind::Stm32g4);
    architecture
        .validate_mcu(McuKind::new("stm32g491").descriptor(&catalog).unwrap(), &memory)
        .unwrap();
    assert!(architecture
        .validate_mcu(McuKind::new("stm32h523").descriptor(&catalog).unwrap(), &memory)
        .is_err());
    memory.flash_size += 1;
    assert!(architecture
        .validate_mcu(McuKind::new("stm32g491").descriptor(&catalog).unwrap(), &memory)
        .is_err());
}

#[test]
fn rejects_overlapping_slot() {
    let memory = MemoryLayout {
        slot_a_base: 0x0800_2000,
        slot_a_size: 0x70000,
        ..memory()
    };
    assert!(Architecture::for_kind(ArchitectureKind::Stm32g4).validate(&memory).is_err());
}

#[test]
fn fixed_pool_never_overcommits() {
    let mut pool = FixedPool::new(64);
    assert!(pool.allocate(64));
    assert!(!pool.allocate(1));
    assert!(pool.release(64));
    assert_eq!(pool.stats().bytes_in_use, 0);
}

#[test]
fn rejects_pool_larger_than_physical_ram() {
    let mut memory = MemoryLayout {
        ram_regions: vec![sram(0x1000)],
        sedsnet_pool: 0x1001,
        ..memory()
    };
    assert!(Architecture::for_kind(ArchitectureKind::Stm32g4).validate(&memory).is_err());
    memory.sedsnet_pool = 0x1000;
    Architecture::for_kind(ArchitectureKind::Stm32g4).validate(&memory).unwrap();
}

#[test]
fn rejects_overlapping_physical_ram_banks() {
    let mut memory = MemoryLayout {
        ram_regions: vec![
            MemoryRegion { name: "sram1".into(), base: 0x2000_0000, size: 0x2000 },
            MemoryRegion { name: "sram2".into(), base: 0x2000_1000, size: 0x2000 },
        ],
        sedsnet_pool: 1024,
        ..memory()
    };
    assert!(Architecture::for_kind(ArchitectureKind::Stm32g4).validate(&memory).is_err());
    memory.ram_regions[1].base = 0x2000_2000;
    Architecture::for_kind(ArchitectureKind::Stm32g4).validate(&memory).unwrap();
}

#[test]
fn crash_snapshot_exposes_cortex_m_fault_state() {
    let layout = board("stm32h523", None);
    let diagnostic =
        CrashDiagnostic::capture(&layout, 7, "peripheral_execution", "bus fault".into());
    assert!(diagnostic.registers.is_none());
    assert!(diagnostic.fault_registers.is_none());
    assert!(diagnostic.note.contains("never emitted"));
    assert_eq!(diagnostic.board, "debug-board");
    assert_eq!(diagnostic.reason, "bus fault");
    assert_eq!(diagnostic.recent_events[2], "peripheral_execution");
}

#[test]
fn names_of_silicon_lines_are_lower_case() {
    assert_eq!(McuKind::new("STM32G491").as_str(), "stm32g491");
    assert_eq!(McuKind::new("STM32G491"), McuKind::new("stm32g491"));
    assert!(McuKind::new("stm32f4").descriptor(&[g491()]).is_none());
    assert_eq!(McuKind::named("STM32G491".into()).as_str(), "STM32G491");
}

#[test]
fn each_memory_rule_has_its_error() {
    let architecture = Architecture::for_kind(ArchitectureKind::Stm32g4);
    let error = |memory: MemoryLayout| architecture.validate(&memory).unwrap_err();
    assert_eq!(error(MemoryLayout { flash_size: 0, ..memory() }), MemoryError::FlashPartitions);
    assert_eq!(error(MemoryLayout { erase_size: 3, ..memory() }), MemoryError::EraseSize);
    assert_eq!(error(MemoryLayout { write_alignment: 6, ..memory() }), MemoryError::WriteAlignment);
    assert_eq!(
        error(MemoryLayout { slot_a_base: 0x0800_4100, ..memory() }),
        MemoryError::SlotUnaligned
    );
    assert_eq!(
        error(MemoryLayout { slot_a_base: 0x0800_2000, ..memory() }),
        MemoryError::SlotOverlapsBootloader
    );
    assert_eq!(
        error(MemoryLayout { slot_a_size: 0x7c001, ..memory() }),
        MemoryError::SlotExceedsFlash
    );
    assert_eq!(
        error(MemoryLayout { delta_base: Some(0x0800_4000), delta_size: Some(0x1000), ..memory() }),
        MemoryError::DeltaArea
    );
    assert_eq!(
        error(MemoryLayout { slot_b_base: Some(0x0807_8000), slot_b_size: Some(0), ..memory() }),
        MemoryError::SlotB
    );
    assert_eq!(error(MemoryLayout { sedsnet_pool: 0, ..memory() }), MemoryError::PoolEmpty);
    assert_eq!(error(MemoryLayout { ram_regions: vec![], ..memory() }), MemoryError::NoRam);
    assert_eq!(
        error(MemoryLayout { ram_regions: vec![sram(0)], ..memory() }),
        MemoryError::RamEmpty(0)
    );
}

#[test]
fn persistent_data_is_two_whole_erase_units_apart_from_the_slots() {
    let architecture = Architecture::for_kind(ArchitectureKind::Stm32g4);
    let with = |base: u64, size: u64| MemoryLayout {
        persistent_data_base: Some(base),
        persistent_data_size: Some(size),
        delta_base: Some(0x0807_a000),
        delta_size: Some(0x2000),
        ..memory()
    };
    architecture.validate(&with(0x0807_8000, 0x1000)).unwrap();
    assert_eq!(
        architecture.validate(&with(0x0807_8000, 0x800)),
        Err(MemoryError::PersistentArea)
    );
    assert_eq!(
        architecture.validate(&with(0x0807_8400, 0x1000)),
        Err(MemoryError::PersistentArea)
    );
    assert_eq!(
        architecture.validate(&with(0x0807_a000, 0x1000)),
        Err(MemoryError::PersistentOverlap)
    );
    let half = MemoryLayout { persistent_data_base: Some(0x0807_8000), ..memory() };
    assert_eq!(architecture.validate(&half), Err(MemoryError::PersistentPair));
}

#[test]
fn a_layout_stays_inside_its_part() {
    let architecture = Architecture::for_kind(ArchitectureKind::Stm32g4);
    let mut memory = memory();
    assert_eq!(architecture.validate_mcu(&h523(), &memory), Err(McuError::Architecture));
    memory.ram_regions[0].base = 0x1000_0000;
    assert_eq!(architecture.validate_mcu(&g491(), &memory), Err(McuError::RamOutside(0)));
    memory.ram_regions[0].base = 0x2000_0000;
    memory.erase_size = 0x1000;
    let error = architecture.validate_mcu(&g491(), &memory).unwrap_err();
    assert_eq!(error, McuError::Geometry);
    assert_eq!(
        error.message(&g491(), ArchitectureKind::Stm32g4, &memory),
        "stm32g491 flash geometry requires erase_size 2048 and write_alignment 8"
    );
}

#[test]
fn a_board_names_a_part_of_the_catalog_or_brings_its_own() {
    let catalog = [g491(), h523()];
    let layout = board("stm32h523", None);
    assert_eq!(layout.resolve_mcu_descriptor(&catalog).unwrap().erase_size, 8192);
    let unknown = board("stm32h999", None);
    let error = unknown.resolve_mcu_descriptor(&catalog).unwrap_err();
    assert_eq!(error, ResolveError::NotBuiltIn);
    assert_eq!(
        error.message(&unknown, &catalog),
        "MCU stm32h999 is not built in; add an exact mcu_descriptor to the board layout"
    );
    let mismatched = board("stm32h999", Some(h523()));
    let error = mismatched.resolve_mcu_descriptor(&catalog).unwrap_err();
    assert_eq!(
        error.message(&mismatched, &catalog),
        "mcu_descriptor name stm32h523 does not match mcu stm32h999"
    );
    let mut own = h523();
    own.platform_file = "../escape.repl".into();
    let broken = board("stm32h523", Some(own));
    assert!(matches!(
        broken.resolve_mcu_descriptor(&catalog),
        Err(ResolveError::Definition(DescriptorError::PlatformFile))
    ));
}

#[test]
fn releasing_what_was_allocated_restores_the_pool() {
    let mut pool = FixedPool::new(100);
    assert!(pool.allocate(30));
    assert!(pool.allocate(20));
    assert!(pool.release(20));
    assert_eq!(pool.stats().bytes_in_use, 30);
    assert_eq!(pool.stats().high_water, 50);
    assert!(!pool.release(31));
    assert_eq!(pool.stats().bytes_in_use, 30);
    assert!(!pool.allocate(71));
    assert_eq!(pool.stats().allocation_failures, 1);
}

fn next_random(state: &mut u64) -> u64 {
    *state ^= *state << 13;
    *state ^= *state >> 7;
    *state ^= *state << 17;
    *state
}

fn assert_durations(n: u64) {
    let millis = Text::new("").millis(n).done();
    assert_eq!(millis, format!("{}", n as f64 / 1000.0));
    let micros = Text::new("").micros(n).done();
    assert_eq!(micros, format!("{}", n as f64 / 1_000_000.0));
}

#[test]
fn durations_are_shown_in_double_precision() {
    assert_eq!(Text::new("").millis(0).done(), "0");
    assert_eq!(Text::new("").millis(1).done(), "0.001");
    assert_eq!(Text::new("").millis(16_250).done(), "16.25");
    assert_eq!(Text::new("").millis(u64::MAX).done(), "18446744073709550");
    assert_eq!(Text::new("").micros(87).done(), "0.000087");
    assert_eq!(Text::new("").micros(u64::MAX).done(), "18446744073709.55");
    assert_eq!(Text::new("").millis(1_125_899_906_842_624_250).done(), "1125899906842624.3");
    for n in 0..1000 {
        assert_durations(n);
        assert_durations(u64::MAX - n);
        assert_durations(1_125_899_906_842_624_000 + 250 * n);
    }
    for bit in 0..64 {
        for n in 0..20 {
            assert_durations((1_u64 << bit).wrapping_add(n));
            assert_durations((1_u64 << bit).wrapping_sub(n));
            assert_durations((1_u64 << bit).wrapping_mul(1000).wrapping_sub(n));
            assert_durations((1_u64 << bit).wrapping_mul(1_000_000).wrapping_add(n));
        }
    }
    for power in 0..20 {
        for n in 0..50 {
            assert_durations(10_u64.pow(power).wrapping_add(n));
            assert_durations(10_u64.pow(power).wrapping_sub(n));
        }
    }
    let mut state = 0x5ed5;
    for i in 0..30_000 {
        assert_durations(next_random(&mut state) >> (i % 64));
    }
}
