use firmware_sim::architecture::{ArchitectureKind, McuDescriptor, McuKind};
use firmware_sim::campaign::Campaign;
use firmware_sim::elf::reset_vector;
use firmware_sim::execution::{judge_run, report_run, ExecutionReport, OtaPowerCutReport};
use firmware_sim::layout::{
    Artifacts, BoardConfig, BoardLayout, BootImage, BootOutcome, ClockConfig, ConnectionConfig,
    DmaRoute, ExecutionConfig, FlashEventKind, MemoryLayout, MemoryProbe, MemoryRegion, OtaConfig,
    OtaTransport, OtaTransportKind, PinConfig, PinState,
};
use firmware_sim::machine::{validate_machine_config, MachineError};
use firmware_sim::peripherals::PeripheralSpec;
use firmware_sim::report;
use firmware_sim::security::non_secure_regions;
use firmware_sim::simulator::{
    configure_unacknowledged_can, configure_unacknowledged_can_probes, diagnose, run, validate,
    validate_part, Images, SimulationError, TallyError, ValidationError,
};
use firmware_sim::traffic::TrafficConfig;

fn g491() -> McuDescriptor {
    McuDescriptor {
        name: "stm32g491".into(),
        architecture: ArchitectureKind::Stm32g4,
        core_model: "cortex-m4f".into(),
        platform_file: "stm32g491.repl".into(),
        platform_from_firmware: false,
        flash_profile: "stm32g4".into(),
        flash_base: 0x0800_0000,
        flash_size: 0x80000,
        ram_base: 0x2000_0000,
        ram_size: 0x1c000,
        erase_size: 2048,
        write_alignment: 8,
        trustzone_capable: false,
        uart_ota: vec!["usart1".into(), "uart4".into()],
        can_ota: vec!["fdcan1".into()],
        usb_ota: vec!["usb".into()],
        sdmmc_ota: vec![],
        board_validated: true,
    }
}

fn device(kind: &str, name: &str) -> PeripheralSpec {
    PeripheralSpec {
        kind: kind.into(),
        name: name.into(),
        model: None,
        bus: None,
        failure_every: None,
        disconnect_after: None,
        bits: None,
        channels: None,
        max_psi: None,
        channel_samples: vec![],
        noise_lsb: None,
        capacity_bytes: None,
    }
}

fn board() -> BoardLayout {
    BoardLayout {
        name: "integration-board".into(),
        architecture: ArchitectureKind::Stm32g4,
        mcu: McuKind::new("stm32g491"),
        mcu_descriptor: None,
        memory: MemoryLayout {
            flash_base: 134217728,
            flash_size: 524288,
            ram_regions: vec![MemoryRegion {
                name: "sram".into(),
                base: 536870912,
                size: 114688,
            }],
            bootloader_size: 16384,
            slot_a_base: 134234112,
            slot_a_size: 475136,
            slot_b_base: None,
            slot_b_size: None,
            delta_base: Some(134709248),
            delta_size: Some(24576),
            persistent_data_base: None,
            persistent_data_size: None,
            erase_size: 2048,
            write_alignment: 8,
            sedsnet_pool: 4096,
        },
        artifacts: Artifacts {
            elf: "build/firmware.elf".into(),
            bootloader_elf: "build/bootloader.elf".into(),
            firmware: "build/firmware.img".into(),
            bootloader: "build/bootloader.bin".into(),
            factory: "build/factory.bin".into(),
            updated_firmware: None,
            ota: Some("build/update.seds".into()),
        },
        execution: ExecutionConfig::default(),
        traffic: TrafficConfig {
            iterations: 1000,
            max_payload: 128,
            queue_depth: 0,
            immediate_dispatch: true,
        },
        ota: OtaConfig::default(),
        board: BoardConfig::default(),
        peripherals: vec![
            PeripheralSpec { failure_every: Some(17), ..device("imu", "imu") },
            device("barometer", "barometer"),
            PeripheralSpec { disconnect_after: Some(900), ..device("gps", "gps") },
            PeripheralSpec { bits: Some(12), channels: Some(8), ..device("adc", "adc") },
            PeripheralSpec {
                max_psi: Some(5000.0_f64.to_bits()),
                ..device("pressure_transducer", "pressure")
            },
        ],
    }
}

fn elf() -> Vec<u8> {
    let mut elf = vec![0_u8; 88];
    elf[0..6].copy_from_slice(b"\x7fELF\x01\x01");
    elf[24..28].copy_from_slice(&0x0800_4001_u32.to_le_bytes());
    elf[28..32].copy_from_slice(&52_u32.to_le_bytes());
    elf[42..44].copy_from_slice(&32_u16.to_le_bytes());
    elf[44..46].copy_from_slice(&1_u16.to_le_bytes());
    elf[52..56].copy_from_slice(&1_u32.to_le_bytes());
    elf[56..60].copy_from_slice(&84_u32.to_le_bytes());
    elf[60..64].copy_from_slice(&0x0800_4000_u32.to_le_bytes());
    elf[64..68].copy_from_slice(&0x0800_4000_u32.to_le_bytes());
    elf[68..72].copy_from_slice(&4_u32.to_le_bytes());
    elf[72..76].copy_from_slice(&4_u32.to_le_bytes());
    elf
}

fn images() -> Images {
    let mut factory = vec![0x33; 8192];
    factory[0..4].copy_from_slice(&0x2001_c000_u32.to_le_bytes());
    factory[4..8].copy_from_slice(&0x0800_4001_u32.to_le_bytes());
    Images {
        firmware_elf: elf(),
        bootloader_elf: elf(),
        firmware: vec![0x11; 4096],
        bootloader: vec![0x22; 1024],
        factory,
        ota: Some(vec![0x44; 2048]),
        updated_firmware: None,
    }
}

const OUTPUT: &str = "SEDS_FIRMWARE_BOOT_REACHED\nSEDS_FACTORY_BOOT_REACHED\nSEDS_REG FIRMWARE_PC\n0x08004101\nSEDS_REG FACTORY_PC\n0x08004101\nSEDS_EXECUTION_COMPLETE\n";

fn executed(layout: &BoardLayout) -> ExecutionReport {
    let seen = judge_run(layout, OUTPUT, false).unwrap();
    report_run(layout, "build/firmware.elf".into(), "".into(), seen, vec![])
}

#[test]
fn file_defined_board_and_firmware_run_end_to_end() {
    let layout = board();
    let images = images();
    validate(&layout, &[g491()], &images).unwrap();
    let report = run(&layout, &images, executed(&layout), 42).unwrap();
    assert_eq!(report.devices.len(), 5);
    assert_eq!(report.traffic.pool.bytes_in_use, 0);
    assert_ne!(report.update.original_sha256, report.update.updated_sha256);
    assert_eq!(report.ota_bytes, Some(2048));
    assert!(report.execution.instruction_execution_observed);
    let rendered = report::simulation(&report);
    assert!(rendered.contains("Fault test"));
    assert!(rendered.contains("Injected / Expected"));
    assert!(rendered.contains("Disconnected / Expected"));
    assert!(rendered.contains("58 / 58"));
    assert!(rendered.contains("100 / 100"));
    assert!(rendered.contains("2 fault-injection schedules passed"));
}

#[test]
fn a_report_names_what_was_simulated() {
    let layout = board();
    let report = run(&layout, &images(), executed(&layout), 42).unwrap();
    assert_eq!(report.physical_flash_bytes, 524288);
    assert_eq!(report.physical_ram_bytes, 114688);
    assert_eq!(report.firmware_bytes, 4096);
    assert!(!report.update.updated_image_from_artifact);
    assert_eq!(report.fidelity.exact_mcu, "stm32g491");
    assert_eq!(report.fidelity.limitations.len(), 6);
    assert!(!report.fidelity.instruction_coupled_faults);
    let rendered = report::simulation(&report);
    assert!(rendered.starts_with("Firmware simulation: integration-board (stm32g4)\n\nTEST MATRIX\n"));
    assert!(rendered.contains("firmware 4096 B (4.00 KiB), bootloader 1024 B (1.00 KiB), factory 8192 B (8.00 KiB), OTA 2048 B (2.00 KiB)"));
    assert!(rendered.contains("No firmware memory probes configured."));
    assert!(rendered.contains("| SEDS_REG FIRMWARE_PC | 0x08004101 |"));
}

#[test]
fn the_test_elf_is_placed_but_has_no_vector_table() {
    assert!(reset_vector(&elf(), &board().memory).is_err());
}

#[test]
fn disconnected_can_requires_tx_activity_without_inventing_a_hal_failure() {
    fn probe(name: &str, minimum: Option<u32>, maximum: Option<u32>) -> MemoryProbe {
        MemoryProbe {
            name: name.into(),
            symbol: name.into(),
            minimum,
            maximum,
            max_end_drop: None,
        }
    }
    let mut probes = vec![
        probe("fdcan_tx_fail", Some(1), Some(5)),
        probe("fdcan_tx_ok", None, None),
        probe("allocator_failures", None, Some(0)),
    ];

    configure_unacknowledged_can_probes(&mut probes);

    assert_eq!(probes[0].minimum, None);
    assert_eq!(probes[0].maximum, None);
    assert_eq!(probes[1].minimum, Some(1));
    assert_eq!(probes[2].maximum, Some(0));

    let mut layout = board();
    layout.execution.memory_probes = vec![probe("fdcan_tx_fail", Some(1), Some(5))];
    configure_unacknowledged_can(&mut layout);
    assert!(!layout.execution.can_acknowledged);
    assert_eq!(layout.execution.memory_probes[0].minimum, None);
}

#[test]
fn each_flaw_of_the_images_has_its_error() {
    let layout = board();
    let catalog = [g491()];
    let error = |images: Images| validate(&layout, &catalog, &images).unwrap_err();
    assert!(matches!(
        error(Images { firmware_elf: vec![], ..images() }),
        ValidationError::FirmwareElf(_)
    ));
    assert!(matches!(
        error(Images { bootloader_elf: vec![], ..images() }),
        ValidationError::BootloaderElf(_)
    ));
    assert_eq!(
        error(Images { bootloader: vec![0; 16385], ..images() }),
        ValidationError::BootloaderSize
    );
    assert_eq!(error(Images { bootloader: vec![], ..images() }), ValidationError::BootloaderEmpty);
    assert_eq!(error(Images { firmware: vec![], ..images() }), ValidationError::FirmwareEmpty);
    assert_eq!(
        error(Images { firmware: vec![0; 475137], ..images() }),
        ValidationError::FirmwareSize
    );
    assert_eq!(
        error(Images { factory: vec![0; 524289], ..images() }),
        ValidationError::FactorySize
    );
    assert_eq!(error(Images { factory: vec![0; 7], ..images() }), ValidationError::FactoryVector);
    assert_eq!(
        error(Images { factory: vec![0; 8], ..images() }).message(&layout, &catalog),
        "factory initial MSP 0x00000000 is outside physical RAM"
    );
    let mut even = images();
    even.factory[4] = 0;
    assert_eq!(
        error(even).message(&layout, &catalog),
        "factory reset handler 0x08004000 is not Thumb code in physical flash"
    );
    assert_eq!(error(Images { ota: Some(vec![]), ..images() }), ValidationError::PackageEmpty);
    assert_eq!(
        error(Images { updated_firmware: Some(vec![]), ..images() }),
        ValidationError::UpdatedEmpty
    );
    assert_eq!(
        error(Images { updated_firmware: Some(vec![0; 475137]), ..images() }),
        ValidationError::UpdatedSize
    );
}

#[test]
fn a_factory_image_leaves_the_settings_alone() {
    let mut layout = board();
    layout.memory.slot_a_size = 0x6000;
    layout.memory.persistent_data_base = Some(0x0800_c000);
    layout.memory.persistent_data_size = Some(0x1000);
    let mut images = images();
    images.factory.resize(0xc000, 0xff);
    validate(&layout, &[g491()], &images).unwrap();
    images.factory.push(0xff);
    assert_eq!(
        validate(&layout, &[g491()], &images),
        Err(ValidationError::FactoryPersistent)
    );
}

#[test]
fn a_board_needs_a_name_a_part_and_its_stack_probe() {
    let catalog = [g491()];
    let mut layout = board();
    layout.name = "".into();
    assert_eq!(validate_part(&layout, &catalog).unwrap_err(), ValidationError::Name);
    let mut layout = board();
    layout.mcu = McuKind::new("stm32x");
    assert!(matches!(
        validate_part(&layout, &catalog).unwrap_err(),
        ValidationError::Resolve(_)
    ));
    let mut layout = board();
    layout.memory.erase_size = 4096;
    assert!(matches!(validate_part(&layout, &catalog).unwrap_err(), ValidationError::Mcu(_)));
    let mut layout = board();
    layout.execution.require_stack_probe = true;
    assert_eq!(validate(&layout, &catalog, &images()), Err(ValidationError::StackProbe));
}

#[test]
fn each_flaw_of_a_machine_has_its_error() {
    let error = |change: &dyn Fn(&mut BoardLayout)| {
        let mut layout = board();
        change(&mut layout);
        let error = validate_machine_config(&layout, &g491()).unwrap_err();
        let message = error.message(&layout);
        (error, message)
    };
    assert!(validate_machine_config(&board(), &g491()).is_ok());
    assert_eq!(error(&|l| l.ota.chunk_size = 0).0, MachineError::ChunkSize);
    assert_eq!(error(&|l| l.ota.inter_byte_us = 0).0, MachineError::InterByte);
    let transport = |kind, peripheral: &str| {
        Some(OtaTransport {
            kind,
            peripheral: peripheral.into(),
            can_id: None,
            mtu: None,
            endpoint: None,
        })
    };
    let driven = |l: &mut BoardLayout| {
        l.ota.firmware_driven = true;
        l.ota.transport = transport(OtaTransportKind::Uart, "uart4");
        l.artifacts.updated_firmware = Some("next.bin".into());
        l.ota.outcomes = vec![BootOutcome {
            name: "new".into(),
            symbol: "boot_new".into(),
            image: BootImage::New,
        }];
    };
    assert_eq!(error(&|l| l.ota.firmware_driven = true).0, MachineError::NoTransport);
    assert_eq!(
        error(&|l| {
            driven(l);
            l.artifacts.ota = None;
        })
        .0,
        MachineError::NoPackage
    );
    assert_eq!(
        error(&|l| {
            driven(l);
            l.artifacts.updated_firmware = None;
        })
        .0,
        MachineError::NoUpdatedFirmware
    );
    assert_eq!(
        error(&|l| {
            driven(l);
            l.ota.outcomes.clear();
        })
        .0,
        MachineError::NoOutcomes
    );
    assert_eq!(
        error(&|l| {
            driven(l);
            l.ota.transport = transport(OtaTransportKind::Uart, "uart9");
        })
        .1,
        "stm32g491 has no modeled UART named uart9"
    );
    assert_eq!(
        error(&|l| {
            driven(l);
            l.ota.transport = transport(OtaTransportKind::Can, "fdcan1");
        })
        .0,
        MachineError::CanId
    );
    assert_eq!(
        error(&|l| {
            driven(l);
            l.ota.transport = transport(OtaTransportKind::Can, "fdcan9");
        })
        .0,
        MachineError::NoCan
    );
    assert_eq!(
        error(&|l| {
            driven(l);
            l.ota.transport = Some(OtaTransport {
                can_id: Some(1),
                mtu: Some(65),
                ..transport(OtaTransportKind::Can, "fdcan1").unwrap()
            });
        })
        .0,
        MachineError::CanPayload
    );
    assert_eq!(
        error(&|l| {
            driven(l);
            l.ota.transport = Some(OtaTransport {
                endpoint: Some(8),
                ..transport(OtaTransportKind::Usb, "usb").unwrap()
            });
        })
        .0,
        MachineError::UsbEndpoint
    );
    assert_eq!(
        error(&|l| {
            driven(l);
            l.ota.transport = transport(OtaTransportKind::Usb, "otg");
        })
        .0,
        MachineError::NoUsb
    );
    assert_eq!(
        error(&|l| {
            driven(l);
            l.ota.transport = transport(OtaTransportKind::Sdmmc, "sdmmc");
        })
        .0,
        MachineError::NoSdmmc
    );
    assert_eq!(
        error(&|l| {
            l.ota.power_cuts.every_flash_operation = true;
            l.ota.power_cuts.events = vec![FlashEventKind::EraseStart];
        })
        .0,
        MachineError::CutSelection
    );
    assert_eq!(
        error(&|l| l.ota.power_cuts.every_flash_operation = true).0,
        MachineError::CutWithoutFirmware
    );
    assert_eq!(
        error(&|l| {
            driven(l);
            l.ota.power_cuts.events =
                vec![FlashEventKind::EraseStart, FlashEventKind::OptionCommit];
        })
        .1,
        "power-cut event OptionCommit is not exposed by the flash model"
    );
    assert_eq!(
        error(&|l| {
            driven(l);
            l.ota.outcomes[0].name = "a b".into();
        })
        .0,
        MachineError::OutcomeName
    );
    assert_eq!(
        error(&|l| {
            driven(l);
            l.ota.outcomes.push(BootOutcome {
                name: "other".into(),
                symbol: "boot_new".into(),
                image: BootImage::Old,
            });
        })
        .1,
        "duplicate OTA outcome name or symbol other"
    );
    let clock = |peripheral: &str, frequency_hz| ClockConfig {
        peripheral: peripheral.into(),
        frequency_hz,
    };
    assert_eq!(error(&|l| l.board.clocks = vec![clock("uart4", 0)]).0, MachineError::Clock);
    assert_eq!(
        error(&|l| l.board.clocks = vec![clock("uart4", 1), clock("uart4", 2)]).1,
        "duplicate clock target uart4"
    );
    assert_eq!(
        error(&|l| {
            l.board.connections = vec![ConnectionConfig {
                from: "".into(),
                to: "x".into(),
                active_low: false,
            }]
        })
        .0,
        MachineError::Connection
    );
    let pin = |gpio: &str, pin| PinConfig { gpio: gpio.into(), pin, initial: PinState::Low };
    assert_eq!(error(&|l| l.board.pins = vec![pin("", 0)]).0, MachineError::GpioName);
    assert_eq!(
        error(&|l| l.board.pins = vec![pin("gpioA", 0)]).1,
        "stm32g491 has no GPIO bank named gpioA"
    );
    assert_eq!(
        error(&|l| l.board.pins = vec![pin("gpio", 111), pin("gpio", 112)]).1,
        "GPIO pin 112 is outside the MCU package model"
    );
    let route = |request: &str, controller: &str, channel| DmaRoute {
        request: request.into(),
        controller: controller.into(),
        channel,
    };
    assert_eq!(
        error(&|l| l.board.dma_routes = vec![route("", "dma1", 0)]).0,
        MachineError::DmaName
    );
    assert_eq!(
        error(&|l| l.board.dma_routes = vec![route("adc", "gpdma", 0)]).1,
        "stm32g491 has no modeled DMA controller named gpdma"
    );
    assert_eq!(
        error(&|l| l.board.dma_routes = vec![route("adc", "dma2", 16)]).0,
        MachineError::DmaChannel
    );
}

#[test]
fn secure_regions_are_disjoint_aligned_and_inside_the_part() {
    let mut m33 = g491();
    m33.trustzone_capable = true;
    let region = |name: &str, base, size| MemoryRegion { name: name.into(), base, size };
    let with = |regions: Vec<MemoryRegion>| {
        let mut layout = board();
        layout.board.security.trustzone = true;
        layout.board.security.secure_regions = regions;
        layout
    };
    let error = |layout: &BoardLayout| {
        validate_machine_config(layout, &m33).unwrap_err().message(layout)
    };
    let good = with(vec![region("b", 0x0800_2000, 0x1000), region("a", 0x0800_0000, 0x2000)]);
    assert!(validate_machine_config(&good, &m33).is_ok());
    assert_eq!(
        validate_machine_config(&good, &g491()),
        Err(MachineError::NoTrustzone)
    );
    assert_eq!(
        error(&with(vec![region("b", 0x0800_1000, 0x1000), region("a", 0x0800_0000, 0x2000)])),
        "secure regions a and b overlap"
    );
    assert_eq!(
        error(&with(vec![region("c", 0x0807_f000, 0x2000)])),
        "secure region c is outside physical flash/RAM"
    );
    assert_eq!(
        error(&with(vec![region("c", u64::MAX, 0x20)])),
        "secure region c is outside physical flash/RAM"
    );
    assert_eq!(
        error(&with(vec![region("c", 0x0800_0010, 0x20)])),
        "secure region c must use the Cortex-M33 32-byte attribution granularity"
    );
    let mut off = good;
    off.board.security.trustzone = false;
    assert_eq!(validate_machine_config(&off, &m33), Err(MachineError::TrustzoneOff));
    let scattered = with(
        (0..8).map(|i| region("s", 0x0800_1000 + i * 0x2000, 0x1000)).collect(),
    );
    assert_eq!(validate_machine_config(&scattered, &m33), Err(MachineError::SauRegions));
}

#[test]
fn secure_regions_may_be_written_in_any_order() {
    let mut m33 = g491();
    m33.trustzone_capable = true;
    let regions = [
        (0x0800_0000u64, 0x2000u64),
        (0x0800_4000, 0x1000),
        (0x2000_0000, 0x400),
        (0x0807_f000, 0x1000),
    ];
    let orders = [[0, 1, 2, 3], [3, 2, 1, 0], [2, 0, 3, 1], [1, 3, 0, 2]];
    for order in orders {
        let mut layout = board();
        layout.board.security.trustzone = true;
        for i in order {
            layout.board.security.secure_regions.push(MemoryRegion {
                name: "s".into(),
                base: regions[i].0,
                size: regions[i].1,
            });
        }
        assert!(validate_machine_config(&layout, &m33).is_ok());
        let spans: Vec<(u64, u64)> =
            non_secure_regions(&layout).iter().map(|span| (span.base, span.end)).collect();
        assert_eq!(
            spans,
            vec![
                (0x0800_2000, 0x0800_4000),
                (0x0800_5000, 0x0807_f000),
                (0x2000_0400, 0x2001_c000),
            ]
        );
        layout.board.security.secure_regions[0].size += 0x10;
        assert!(validate_machine_config(&layout, &m33).is_err());
    }
}

#[test]
fn non_secure_spans_are_the_rest_of_the_memory_map() {
    let mut layout = board();
    layout.board.security.trustzone = true;
    for (base, size) in [(0x2000_8000u64, 0x1000u64), (0x0800_0000, 0x1000), (0x0801_0000, 0x20)] {
        layout.board.security.secure_regions.push(MemoryRegion { name: "s".into(), base, size });
    }
    let spans = non_secure_regions(&layout);
    let held = |address: u64| {
        spans.iter().filter(|span| span.base <= address && address < span.end).count()
    };
    for address in [0x0800_1000, 0x0800_ffff, 0x0801_0020, 0x2000_7fff, 0x2000_9000, 0x2001_bfff] {
        assert_eq!(held(address), 1);
    }
    for address in [0x0800_0000, 0x0800_0fff, 0x0801_001f, 0x2000_8000, 0x2000_8fff] {
        assert_eq!(held(address), 0);
    }
    for address in [0, 0x07ff_ffff, 0x0808_0000, 0x1fff_ffff, 0x2001_c000, u64::MAX] {
        assert_eq!(held(address), 0);
    }
    assert!(spans.iter().all(|span| span.base < span.end));
}

#[test]
fn executed_power_cuts_replace_the_model() {
    let mut layout = board();
    layout.ota.firmware_driven = true;
    layout.ota.power_cuts.every_flash_operation = true;
    layout.ota.outcomes = vec![
        BootOutcome { name: "old".into(), symbol: "o".into(), image: BootImage::Old },
        BootOutcome { name: "new".into(), symbol: "n".into(), image: BootImage::New },
        BootOutcome { name: "dfu".into(), symbol: "d".into(), image: BootImage::Recovery },
    ];
    let cut = |after_flash_operation, outcome: &str| OtaPowerCutReport {
        after_flash_operation,
        power_cut_triggered: true,
        reboot_executed: true,
        outcome: outcome.into(),
    };
    let execution = |cuts: Vec<OtaPowerCutReport>, operations| ExecutionReport {
        ota_power_cuts: cuts,
        flash_operations_observed: operations,
        ota_outcome: Some("new".into()),
        ..executed(&board())
    };
    let cuts = || vec![cut(1, "old"), cut(2, "dfu"), cut(3, "new")];
    let report = run(&layout, &images(), execution(cuts(), Some(3)), 1).unwrap();
    assert_eq!(report.update.interruption_points_tested, 4);
    assert_eq!(report.update.old_image_boot_points, 1);
    assert_eq!(report.update.new_image_boot_points, 2);
    assert_eq!(report.update.recovery_required_points, 1);
    assert!(report.update.cpu_reboots_executed);
    assert!(report.update.all_flash_operation_boundaries_tested);
    assert!(report.fidelity.updater_and_reboot_executed_at_each_cut);
    assert_eq!(report.fidelity.limitations.len(), 5);
    let error = |execution| run(&layout, &images(), execution, 1).unwrap_err();
    assert_eq!(
        error(execution(cuts(), None)),
        SimulationError::Tally(TallyError::NoOperations)
    );
    assert_eq!(
        error(execution(cuts(), Some(4))).message(&layout),
        "firmware OTA tested 3 of 4 flash cut points"
    );
    assert_eq!(
        error(execution(vec![cut(1, "lost")], Some(1))),
        SimulationError::Tally(TallyError::UnknownOutcome)
    );
}

#[test]
fn a_campaign_cuts_power_after_each_selected_operation() {
    let mut layout = board();
    layout.ota.firmware_driven = true;
    layout.ota.power_cuts.events = vec![FlashEventKind::ProgramUnit];
    layout.ota.outcomes = vec![
        BootOutcome { name: "old".into(), symbol: "o".into(), image: BootImage::Old },
        BootOutcome { name: "new".into(), symbol: "n".into(), image: BootImage::New },
    ];
    let through = format!(
        "{OUTPUT}SEDS_OTA_TRANSFER_BEGIN\nSEDS_OTA_OUTCOME_new\nSEDS_FLASH_OPERATIONS\n0x3\nSEDS_FLASH_EVENT_TRACE\nprogram_unit,erase_start,program_unit\n"
    );
    let rebooted = |name: &str| {
        format!("SEDS_POWER_CUT_TRIGGERED\nTrue\nSEDS_POWER_CUT_REBOOT\nSEDS_OTA_OUTCOME_{name}\n")
    };
    let mut campaign = Campaign::start(&layout, &through, false).unwrap();
    assert_eq!(campaign.next_cut(), Some(1));
    assert!(campaign.record(&layout.ota.outcomes, "no reboot\n").is_err());
    assert_eq!(campaign.next_cut(), Some(1));
    campaign.record(&layout.ota.outcomes, &rebooted("old")).unwrap();
    assert_eq!(campaign.next_cut(), Some(3));
    campaign.record(&layout.ota.outcomes, &rebooted("new")).unwrap();
    assert_eq!(campaign.next_cut(), None);
    let execution = campaign.finish(&layout, "fw.elf".into(), "t".into());
    assert_eq!(execution.ota_power_cuts[1].after_flash_operation, 3);
    assert_eq!(execution.ota_power_cuts[1].outcome, "new");
    let report = run(&layout, &images(), execution, 1).unwrap();
    assert_eq!(report.update.interruption_points_tested, 3);
    assert_eq!(report.update.new_image_boot_points, 2);

    layout.ota.power_cuts.events = vec![FlashEventKind::EraseComplete];
    let error = Campaign::start(&layout, &through, false).unwrap_err();
    assert_eq!(
        error.message(&layout, &through),
        "none of the selected power-cut events occurred during firmware OTA"
    );
    let error = Campaign::start(&layout, OUTPUT, false).unwrap_err();
    assert!(error
        .message(&layout, OUTPUT)
        .starts_with("firmware-driven OTA completed without a configured boot outcome"));
}

#[test]
fn failures_name_their_phase() {
    let mut layout = board();
    layout.traffic.max_payload = 0;
    let error = run(&layout, &images(), executed(&layout), 1).unwrap_err();
    let message = error.message(&layout);
    assert!(message.starts_with("sedsnet_traffic: "));
    assert_eq!(diagnose(&layout, 1, message).simulated_phase, "sedsnet_traffic");
    let mut layout = board();
    layout.peripherals[1].name = "".into();
    let error = run(&layout, &images(), executed(&layout), 1).unwrap_err();
    assert_eq!(
        error.message(&layout),
        "peripheral_execution: peripheral name cannot be empty"
    );
    let mut same = images();
    same.updated_firmware = Some(same.firmware.clone());
    let layout = board();
    let error = run(&layout, &same, executed(&layout), 1).unwrap_err();
    assert_eq!(
        error.message(&layout),
        "ota_recovery: simulated next firmware must differ from the installed image"
    );
    let diagnostic = diagnose(&layout, 1, "instruction_execution: ota_recovery".into());
    assert_eq!(diagnostic.simulated_phase, "instruction_execution");
    assert_eq!(diagnose(&layout, 1, "other".into()).simulated_phase, "simulation");
}
