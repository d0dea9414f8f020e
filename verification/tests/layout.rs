use firmware_sim::layout::{
    legacy_adc, normalize_legacy_layout, BootImage, ExecutionConfig, LegacyArtifacts, LegacyError,
    LegacyLayout, LegacyMemory, LegacyPeripheral, MemoryProbe, OtaConfig,
};

fn legacy() -> LegacyLayout {
    LegacyLayout {
        architecture: Some("stm32h5".into()),
        has_mcu: false,
        memory: Some(LegacyMemory { has_ram_regions: false, ram_size: Some(278528) }),
        artifacts: Some(LegacyArtifacts {
            has_elf: false,
            firmware: Some("build/Firmware.launchcore.img".into()),
            has_bootloader_elf: false,
            bootloader: Some("build/FirmwareBootloader.bin".into()),
        }),
        peripherals: vec![LegacyPeripheral {
            kind: Some("adc".into()),
            name: Some("adc1".into()),
            has_model: false,
            has_bus: false,
        }],
    }
}

#[test]
fn loads_legacy_single_ram_layout() {
    let defaults = normalize_legacy_layout(Some(&legacy())).unwrap();
    assert_eq!(defaults.mcu.as_deref(), Some("stm32h523"));
    let region = defaults.ram_region.unwrap();
    assert_eq!(region.base, 0x2000_0000);
    assert_eq!(region.size, 278528);
    assert_eq!(defaults.elf.as_deref(), Some("build/Firmware.elf"));
    assert_eq!(defaults.bootloader_elf.as_deref(), Some("build/FirmwareBootloader.elf"));
    assert_eq!(defaults.adcs.len(), 1);
    let (model, bus) = defaults.adcs.into_iter().next().unwrap().unzip();
    assert_eq!(model.as_deref(), Some("stm32_adc"));
    assert_eq!(bus.as_deref(), Some("adc1"));
}

#[test]
fn required_stack_probe_needs_a_positive_remaining_margin() {
    let mut execution = ExecutionConfig {
        require_stack_probe: true,
        ..ExecutionConfig::default()
    };
    assert!(!execution.satisfies_stack_probe_requirement());
    execution.memory_probes.push(MemoryProbe {
        name: "telemetry_stack_remaining".into(),
        symbol: "g_telemetry_stack_remaining".into(),
        minimum: Some(8192),
        maximum: None,
        max_end_drop: None,
    });
    assert!(execution.satisfies_stack_probe_requirement());
    execution.memory_probes[0].minimum = Some(0);
    assert!(!execution.satisfies_stack_probe_requirement());
}

#[test]
fn physical_adcs_get_their_model_and_their_own_bus() {
    let spec = |kind: &str, name: &str| LegacyPeripheral {
        kind: Some(kind.into()),
        name: Some(name.into()),
        has_model: false,
        has_bus: false,
    };
    for (architecture, names) in [
        ("stm32g4", vec!["adc1", "adc2", "adc3"]),
        ("stm32h5", vec!["adc1"]),
        ("stm32u5", vec!["adc1", "adc4"]),
    ] {
        for name in ["adc", "adc1", "adc2", "adc3", "adc4", "adc5"] {
            let expected = if names.contains(&name) {
                Some(("stm32_adc".to_string(), name.to_string()))
            } else {
                None
            };
            assert_eq!(legacy_adc(&spec("adc", name), architecture), expected);
            assert_eq!(legacy_adc(&spec("imu", name), architecture), None);
        }
    }
    assert_eq!(legacy_adc(&spec("adc", "adc1"), "avr"), None);
    assert_eq!(
        legacy_adc(&LegacyPeripheral { has_bus: true, ..spec("adc", "adc1") }, "stm32g4"),
        None
    );
    assert_eq!(
        legacy_adc(&LegacyPeripheral { has_model: true, ..spec("adc", "adc1") }, "stm32g4"),
        None
    );
    assert_eq!(legacy_adc(&LegacyPeripheral { name: None, ..spec("adc", "") }, "stm32g4"), None);
}

#[test]
fn a_complete_layout_is_left_alone() {
    let explicit = LegacyLayout {
        architecture: Some("stm32h5".into()),
        has_mcu: true,
        memory: Some(LegacyMemory { has_ram_regions: true, ram_size: None }),
        artifacts: Some(LegacyArtifacts {
            has_elf: true,
            firmware: None,
            has_bootloader_elf: true,
            bootloader: None,
        }),
        peripherals: vec![LegacyPeripheral {
            kind: Some("adc".into()),
            name: Some("adc1".into()),
            has_model: true,
            has_bus: true,
        }],
    };
    let defaults = normalize_legacy_layout(Some(&explicit)).unwrap();
    assert!(defaults.mcu.is_none());
    assert!(defaults.ram_region.is_none());
    assert!(defaults.elf.is_none());
    assert!(defaults.bootloader_elf.is_none());
    assert_eq!(defaults.adcs, vec![None]);
}

#[test]
fn each_incomplete_layout_has_its_error() {
    assert_eq!(normalize_legacy_layout(None).unwrap_err(), LegacyError::NotAnObject);
    let error = |layout: LegacyLayout| normalize_legacy_layout(Some(&layout)).unwrap_err();
    assert_eq!(
        error(LegacyLayout { architecture: None, ..legacy() }),
        LegacyError::Architecture
    );
    assert_eq!(
        error(LegacyLayout { architecture: Some("avr".into()), ..legacy() }),
        LegacyError::UnknownArchitecture
    );
    assert_eq!(error(LegacyLayout { memory: None, ..legacy() }), LegacyError::Memory);
    assert_eq!(
        error(LegacyLayout {
            memory: Some(LegacyMemory { has_ram_regions: false, ram_size: None }),
            ..legacy()
        }),
        LegacyError::RamSize
    );
    assert_eq!(
        error(LegacyLayout {
            memory: Some(LegacyMemory { has_ram_regions: false, ram_size: Some(0) }),
            ..legacy()
        }),
        LegacyError::RamEmpty
    );
    assert_eq!(error(LegacyLayout { artifacts: None, ..legacy() }), LegacyError::Artifacts);
    let artifacts = |firmware: Option<&str>, bootloader: Option<&str>| LegacyLayout {
        artifacts: Some(LegacyArtifacts {
            has_elf: false,
            firmware: firmware.map(str::to_owned),
            has_bootloader_elf: false,
            bootloader: bootloader.map(str::to_owned),
        }),
        ..legacy()
    };
    assert_eq!(error(artifacts(None, Some("b.bin"))), LegacyError::Firmware);
    assert_eq!(error(artifacts(Some("f.hex"), Some("b.bin"))), LegacyError::Elf);
    assert_eq!(error(artifacts(Some("f.img"), None)), LegacyError::Bootloader);
    assert_eq!(error(artifacts(Some("f.img"), Some("b.hex"))), LegacyError::BootloaderElf);
}

#[test]
fn defaults_are_those_of_a_short_run() {
    let execution = ExecutionConfig::default();
    assert_eq!(execution.virtual_time_ms, 250);
    assert_eq!(execution.boot_success_symbol, "_tx_thread_schedule");
    assert_eq!(execution.factory_boot_success_symbol, "main");
    assert!(execution.can_acknowledged);
    let ota = OtaConfig::default();
    assert_eq!(ota.chunk_size, 512);
    assert_eq!(ota.inter_byte_us, 100);
    assert_eq!(ota.power_cuts.reboot_time_ms, 500);
    assert_eq!(BootImage::default(), BootImage::Recovery);
}
