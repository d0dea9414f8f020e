use firmware_sim::architecture::{ArchitectureKind, McuDescriptor, McuKind};
use firmware_sim::execution::{
    command_failed, cut_operations, execution_faulted, factory_vector, judge_cut, judge_run, report_run,
    unique_ota_outcome, validate_execution, ConfigError, CutError,
};
use firmware_sim::layout::{
    Artifacts, BoardConfig, BoardLayout, BootImage, BootOutcome, ClockConfig, ConnectionConfig,
    ExecutionConfig, FlashEventKind, MemoryLayout, MemoryProbe, MemoryRegion, OtaConfig,
    OtaTransport, OtaTransportKind, PinConfig, PinState, PowerCutConfig,
};
use firmware_sim::output::{marker_bool, marker_csv, marker_lines, marker_u64, observed_marker, tail};
use firmware_sim::overlay::render_peripheral_overlay;
use firmware_sim::peripherals::PeripheralSpec;
use firmware_sim::platform::{materialize_platform, platform_path, PlatformError};
use firmware_sim::probes::{parse_memory_profile, parse_memory_profiles};
use firmware_sim::script::{
    render_ota_script, render_script, sample_duration, ExecutionArtifacts, ExecutionScenario,
};
use firmware_sim::security::{
    non_secure_regions, render_board_initialization_script, render_security_script,
};
use firmware_sim::traffic::TrafficConfig;

fn layout(architecture: &str, peripherals: Vec<PeripheralSpec>) -> BoardLayout {
    let (kind, mcu) = match architecture {
        "stm32g4" => (ArchitectureKind::Stm32g4, "stm32g491"),
        "stm32h5" => (ArchitectureKind::Stm32h5, "stm32h523"),
        "stm32u5" => (ArchitectureKind::Stm32u5, "stm32u585"),
        _ => unreachable!(),
    };
    BoardLayout {
        name: "test".into(),
        architecture: kind,
        mcu: McuKind::new(mcu),
        mcu_descriptor: None,
        memory: MemoryLayout {
            flash_base: 134217728,
            flash_size: 524288,
            ram_regions: vec![MemoryRegion {
                name: "sram".into(),
                base: 536870912,
                size: 114688,
            }],
            bootloader_size: 16384,
            slot_a_base: 134234112,
            slot_a_size: 475136,
            slot_b_base: None,
            slot_b_size: None,
            delta_base: None,
            delta_size: None,
            persistent_data_base: None,
            persistent_data_size: None,
            erase_size: 2048,
            write_alignment: 8,
            sedsnet_pool: 4096,
        },
        artifacts: Artifacts {
            elf: "fw.elf".into(),
            bootloader_elf: "boot.elf".into(),
            firmware: "fw.bin".into(),
            bootloader: "boot.bin".into(),
            factory: "factory.bin".into(),
            updated_firmware: None,
            ota: None,
        },
        execution: ExecutionConfig::default(),
        traffic: TrafficConfig::default(),
        ota: OtaConfig::default(),
        board: BoardConfig::default(),
        peripherals,
    }
}

fn device(kind: &str, name: &str, model: &str, bus: &str) -> PeripheralSpec {
    PeripheralSpec {
        kind: kind.into(),
        name: name.into(),
        model: Some(model.into()),
        bus: Some(bus.into()),
        failure_every: None,
        disconnect_after: None,
        bits: None,
        channels: None,
        max_psi: None,
        channel_samples: vec![],
        noise_lsb: None,
        capacity_bytes: None,
    }
}

fn transport(kind: OtaTransportKind, peripheral: &str) -> OtaTransport {
    OtaTransport {
        kind,
        peripheral: peripheral.into(),
        can_id: None,
        mtu: None,
        endpoint: None,
    }
}

const SOURCES: &str = "/sim/renode/peripherals";

#[test]
fn overlay_contains_only_layout_selected_g4_devices() {
    let board = layout(
        "stm32g4",
        vec![
            device("gps", "gps", "neo_m9n", "spi1"),
            device("adc", "rail", "ltc2990", "i2c2@0x4c"),
        ],
    );
    let overlay = render_peripheral_overlay(&board, SOURCES).unwrap();
    assert!(overlay.contains("flashBacking: Memory.MappedMemory @ sysbus 0x08000000"));
    assert!(overlay.contains("physicalFlash: MTD.SedsStm32FlashController"));
    assert!(overlay.contains("physicalRam0: Memory.MappedMemory @ sysbus 0x20000000"));
    assert!(overlay.contains("size: 0x1c000"));
    assert!(overlay.contains("SedsNeoM9N @ spi1"));
    assert!(overlay.contains("SedsLtc2990 @ i2c2 0x4c"));
    assert!(!overlay.contains("SedsFlightSensorBus"));
    assert!(!overlay.contains("SedsStm32Adc"));
}

#[test]
fn h5_sensor_declarations_share_one_physical_spi_model() {
    let board = layout(
        "stm32h5",
        vec![
            device("imu", "imu", "bmi088", "spi1"),
            device("barometer", "baro", "bmp390", "spi1"),
        ],
    );
    let overlay = render_peripheral_overlay(&board, SOURCES).unwrap();
    assert_eq!(overlay.matches("SedsFlightSensorBus @ spi1").count(), 1);
}

#[test]
fn shared_h5_sensor_bus_rejects_conflicting_fault_schedules() {
    let mut imu = device("imu", "imu", "bmi088", "spi1");
    imu.failure_every = Some(3);
    let mut baro = device("barometer", "baro", "bmp390", "spi1");
    baro.failure_every = Some(4);
    let board = layout("stm32h5", vec![imu, baro]);
    assert!(render_peripheral_overlay(&board, SOURCES).is_err());
}

#[test]
fn invalid_architecture_bus_combination_is_rejected() {
    let board = layout("stm32h5", vec![device("gps", "gps", "neo_m9n", "spi1")]);
    assert!(render_peripheral_overlay(&board, SOURCES).is_err());
}

#[test]
fn g4_adc_instances_have_independent_register_maps() {
    let board = layout(
        "stm32g4",
        vec![
            device("adc", "adc1", "stm32_adc", "adc1"),
            device("adc", "adc2", "stm32_adc", "adc2"),
            device("adc", "adc3", "stm32_adc", "adc3"),
        ],
    );
    let overlay = render_peripheral_overlay(&board, SOURCES).unwrap();
    assert!(overlay.contains("sysbus 0x50000000"));
    assert!(overlay.contains("sysbus 0x50000100"));
    assert!(overlay.contains("sysbus 0x50000400"));
    assert_eq!(overlay.matches("layoutAdc12Common").count(), 1);
    assert_eq!(overlay.matches("layoutAdc345Common").count(), 1);
}

#[test]
fn u5_adc_instances_are_selected_by_layout() {
    let board = layout(
        "stm32u5",
        vec![
            device("adc", "adc1", "stm32_adc", "adc1"),
            device("adc", "adc4", "stm32_adc", "adc4"),
        ],
    );
    let overlay = render_peripheral_overlay(&board, SOURCES).unwrap();
    assert!(overlay.contains("sysbus 0x42028000"));
    assert!(overlay.contains("sysbus 0x46021000"));
}

#[test]
fn u5_sd_card_is_selected_by_layout() {
    let board = layout("stm32u5", vec![device("storage", "sd", "sd_card", "sdmmc1")]);
    let overlay = render_peripheral_overlay(&board, SOURCES).unwrap();
    assert!(overlay.contains("sdmmc1:"));
}

#[test]
fn h5_sd_card_maps_logical_bus_to_platform_controller() {
    let board = layout("stm32h5", vec![device("storage", "sd", "sd_card", "sdmmc1")]);
    let overlay = render_peripheral_overlay(&board, SOURCES).unwrap();
    assert!(overlay.contains("sdmmc:"));
    assert!(!overlay.contains("sdmmc1:"));
    assert!(overlay.contains("FailureEvery: 0"));
}

#[test]
fn factory_boot_uses_binary_vectors_and_symbol_only_elf_loading() {
    let board = layout("stm32g4", vec![]);
    let script = render_script(
        &board,
        "platform.repl",
        "overlay.repl",
        ExecutionArtifacts {
            elf: "firmware.elf",
            bootloader_elf: "bootloader.elf",
            factory: "factory.bin",
            firmware_image: "firmware-flash.bin",
        },
        ExecutionScenario {
            firmware_reset: (0x2001_bff0, 0x0800_4001, 0x0800_4200),
            factory_reset: (0x2001_c000, 0x0800_0001),
            trace: "trace.bin",
            ota: None,
            power_cut_after: None,
        },
    );
    let firmware = script.split("_firmware\"").nth(1).unwrap();
    assert!(firmware.contains("cpu SetRegister 13 0x2001bff0"));
    assert!(firmware.contains("cpu PC 0x08004001"));
    assert!(firmware.contains("cpu VectorTableOffset 0x08004200"));
    let factory = script.split("_factory\"").nth(1).unwrap();
    assert!(factory.contains("LoadSymbolsFrom @firmware.elf"));
    assert!(factory.contains("LoadSymbolsFrom @bootloader.elf"));
    assert!(!factory.contains("LoadELF"));
    assert!(factory.contains("cpu SetRegister 13 0x2001c000"));
    assert!(factory.contains("cpu PC 0x08000001"));
}

#[test]
fn memory_probe_parser_tolerates_asynchronous_renode_logs() {
    let mut board = layout("stm32g4", vec![]);
    board.execution.memory_probes.push(MemoryProbe {
        name: "pool".into(),
        symbol: "pool_available".into(),
        minimum: None,
        maximum: None,
        max_end_drop: None,
    });
    let report = parse_memory_profile(
        &board.execution,
        "SEDS_PROBE pool 0\n[INFO] asynchronous peripheral message\n0x1234\n",
    )
    .unwrap();
    assert_eq!(report[0].samples, vec![0x1234]);
}

#[test]
fn firmware_ota_uses_real_uart_receive_method_and_virtual_time() {
    let mut board = layout("stm32g4", vec![]);
    board.ota.firmware_driven = true;
    board.ota.chunk_size = 2;
    board.ota.transport = Some(transport(OtaTransportKind::Uart, "uart4"));
    let script = render_ota_script(&board, Some(&[0x12, 0x34, 0x56]), None);
    assert!(script.contains("uart4 WriteChar 0x12"));
    assert!(script.contains("uart4 WriteChar 0x56"));
    assert!(script.contains("SEDS_OTA_TRANSFER_BEGIN"));
}

#[test]
fn flash_counter_parser_accepts_renode_hex_output() {
    assert_eq!(
        marker_u64(
            "SEDS_FLASH_OPERATIONS\n0x000000000000002a\n",
            "SEDS_FLASH_OPERATIONS"
        ),
        Some(42)
    );
    assert_eq!(
        marker_csv(
            "SEDS_FLASH_EVENT_TRACE\nprogram_unit,erase_complete\n",
            "SEDS_FLASH_EVENT_TRACE"
        ),
        vec!["program_unit", "erase_complete"]
    );
}

#[test]
fn firmware_ota_can_frames_enter_the_real_controller() {
    let mut board = layout("stm32g4", vec![]);
    board.ota.firmware_driven = true;
    board.ota.transport = Some(OtaTransport {
        can_id: Some(0x321),
        mtu: Some(2),
        ..transport(OtaTransportKind::Can, "fdcan1")
    });
    let script = render_ota_script(&board, Some(&[1, 2, 3]), None);
    assert_eq!(script.matches("OnFrameReceived").count(), 2);
    assert!(script.contains("CANMessageFrame(0x321"));
    assert!(script.contains("System.Array[System.Byte]([1,2])"));
}

#[test]
fn firmware_ota_usb_packets_enter_the_selected_endpoint() {
    let mut board = layout("stm32u5", vec![]);
    board.ota.firmware_driven = true;
    board.ota.chunk_size = 2;
    board.ota.transport = Some(OtaTransport {
        endpoint: Some(3),
        ..transport(OtaTransportKind::Usb, "usb")
    });
    let script = render_ota_script(&board, Some(&[1, 2, 3]), None);
    assert_eq!(script.matches("InjectPacket").count(), 2);
    assert!(script.contains("System.Array[System.Byte]([1,2]), 3"));
}

#[test]
fn firmware_ota_sdmmc_mounts_a_chunked_card_image() {
    let mut board = layout("stm32h5", vec![]);
    board.ota.firmware_driven = true;
    board.ota.chunk_size = 2;
    board.ota.transport = Some(transport(OtaTransportKind::Sdmmc, "sdmmc"));
    let script = render_ota_script(&board, Some(&[1, 2, 3]), None);
    assert!(script.contains("BeginCardImage"));
    assert_eq!(script.matches("AppendCardBytes").count(), 2);
    assert!(script.contains("MountCardImage"));
}

#[test]
fn board_clock_rewrites_the_real_platform_constructor() {
    let mut board = layout("stm32g4", vec![]);
    board.board.clocks.push(ClockConfig {
        peripheral: "uart4".into(),
        frequency_hz: 80_000_000,
    });
    let source = "cpu: CPU.CortexM @ sysbus\n    cpuType: \"cortex-m4f\"\n\nuart4: UART.STM32F7_USART @ sysbus 0x40004C00\n    frequency: 170000000\n\nusart1: UART.STM32F7_USART @ sysbus 0x40013800\n    frequency: 170000000\n";
    let platform = materialize_platform(source, &board, "cortex-m4f").unwrap().unwrap();
    let uart = platform
        .split("uart4:")
        .nth(1)
        .unwrap()
        .split("usart1:")
        .next()
        .unwrap();
    assert!(uart.starts_with(" UART.STM32F7_USART"));
    assert!(uart.contains("frequency: 80000000"));
    assert!(!uart.contains("frequency: 170000000"));
    assert!(platform.split("usart1:").nth(1).unwrap().contains("frequency: 170000000"));
}

#[test]
fn configuring_a_platform_changes_its_own_lines_only() {
    let mut board = layout("stm32u5", vec![]);
    board.board.clocks.push(ClockConfig { peripheral: "tim".into(), frequency_hz: 5 });
    let source = "timer: A\n  frequency: 1\ntim: B\n\t frequency: 2\n\n  x: 3\ncpu: C\n    cpuType: \"cortex-m33\"\nend: D";
    let clocked = materialize_platform(source, &board, "cortex-m33").unwrap().unwrap();
    assert_eq!(
        clocked,
        "timer: A\n  frequency: 1\ntim: B\n\t frequency: 5\n\n  x: 3\ncpu: C\n    cpuType: \"cortex-m33\"\nend: D\n"
    );
    board.board.security.trustzone = true;
    let secured = materialize_platform(source, &board, "cortex-m33").unwrap().unwrap();
    assert_eq!(
        secured,
        clocked.replace("end: D", "    enableTrustZone: true\nend: D")
    );
    assert_eq!(
        materialize_platform(&secured, &board, "cortex-m33").unwrap().as_deref(),
        Some(secured.as_str())
    );
    board.board.clocks[0].peripheral = "uart".into();
    let error = materialize_platform(source, &board, "cortex-m33").unwrap_err();
    assert_eq!(error, PlatformError::ClockTarget(0));
    assert_eq!(
        error.message(&board, "cortex-m33", "p.repl"),
        "clock target uart is not in the MCU platform"
    );
    board.board.clocks[0].peripheral = "end".into();
    let error = materialize_platform(source, &board, "cortex-m33").unwrap_err();
    assert_eq!(
        error.message(&board, "cortex-m33", "p.repl"),
        "clock target end has no configurable frequency"
    );
    board.board.clocks.clear();
    let plain = "cpu: C\n    cpuType: \"cortex-m4\"\n";
    assert_eq!(
        materialize_platform(plain, &board, "cortex-m4"),
        Err(PlatformError::NotCortexM33)
    );
    assert_eq!(
        materialize_platform("# cpuType: \"cortex-m4\"\n", &board, "cortex-m4"),
        Err(PlatformError::NoCpu)
    );
}

#[test]
fn a_refused_command_is_told_from_other_faults() {
    assert!(command_failed("x\nThere was an ERROR executing command 'y'\n"));
    assert!(command_failed("Parameters did not match the signature"));
    assert!(!command_failed("[ERROR] cpu: abort"));
    assert!(execution_faulted("[ERROR] cpu: abort"));
}

#[test]
fn platforms_lie_with_the_simulator_or_the_firmware() {
    let mut part = McuDescriptor {
        name: "stm32custom".into(),
        architecture: ArchitectureKind::Stm32,
        core_model: "cortex-m7".into(),
        platform_file: "sim/stm32custom.repl".into(),
        platform_from_firmware: true,
        flash_profile: "stm32g4".into(),
        flash_base: 134217728,
        flash_size: 2097152,
        ram_base: 536870912,
        ram_size: 524288,
        erase_size: 2048,
        write_alignment: 8,
        trustzone_capable: false,
        uart_ota: vec![],
        can_ota: vec![],
        usb_ota: vec![],
        sdmmc_ota: vec![],
        board_validated: false,
    };
    assert!(part.validate_definition().is_ok());
    assert_eq!(platform_path(&part, "/opt/sim", "/firmware"), "/firmware/sim/stm32custom.repl");
    part.platform_from_firmware = false;
    assert_eq!(
        platform_path(&part, "/opt/sim", "/firmware"),
        "/opt/sim/renode/platforms/sim/stm32custom.repl"
    );
}

#[test]
fn power_cut_script_reboots_from_persistent_factory_vectors() {
    let mut board = layout("stm32g4", vec![]);
    board.ota.firmware_driven = true;
    board.ota.transport = Some(transport(OtaTransportKind::Uart, "uart4"));
    let script = render_ota_script(&board, Some(&[1, 2]), Some(7));
    assert!(script.contains("physicalFlash ArmPowerCut 7"));
    assert!(script.contains("GetRegisteredPeripherals"));
    assert!(script.contains("e.Name not in ('sysbus', 'flashBacking')"));
    assert!(script.contains("physicalFlash DisarmPowerCut"));
    assert!(script.contains("cpu SetRegister 13 `sysbus ReadDoubleWord 0x08000000`"));
    assert!(script.contains("cpu PC `sysbus ReadDoubleWord 0x08000004`"));
}

#[test]
fn m33_platform_enables_trustzone_when_board_requests_it() {
    let mut board = layout("stm32u5", vec![]);
    board.board.security.trustzone = true;
    let source = "nvic: IRQControllers.NVIC @ sysbus 0xE000E000\n\ncpu: CPU.CortexM @ sysbus\n    cpuType: \"cortex-m33\"\n    nvic: nvic\n";
    let platform = materialize_platform(source, &board, "cortex-m33").unwrap().unwrap();
    let cpu = platform.split("cpu:").nth(1).unwrap();
    assert!(cpu.contains("cpuType: \"cortex-m33\""));
    assert!(cpu.contains("enableTrustZone: true"));
    assert_eq!(
        materialize_platform(source, &board, "cortex-m4").unwrap_err(),
        PlatformError::CoreModel
    );
    board.board.security.trustzone = false;
    assert_eq!(materialize_platform(source, &board, "cortex-m33").unwrap(), None);
}

#[test]
fn secure_regions_generate_real_sau_non_secure_complements() {
    let mut board = layout("stm32u5", vec![]);
    board.board.security.trustzone = true;
    board.board.security.secure_regions.push(MemoryRegion {
        name: "secure_boot".into(),
        base: 0x0800_0000,
        size: 0x2000,
    });
    let script = render_security_script(&board);
    assert!(!script.contains("SAURegionBaseAddress 0x08000000"));
    assert!(script.contains("SAURegionBaseAddress 0x08002000"));
    assert!(script.contains("cpu SAUControl 1"));
    let spans = non_secure_regions(&board);
    assert_eq!(spans.len(), 2);
    assert_eq!((spans[0].base, spans[0].end), (0x0800_2000, 0x0808_0000));
    assert_eq!((spans[1].base, spans[1].end), (0x2000_0000, 0x2001_c000));
}

#[test]
fn board_wires_support_numbered_outputs_and_active_low_routes() {
    let mut board = layout("stm32g4", vec![]);
    board.board.connections.push(ConnectionConfig {
        from: "gpio.0".into(),
        to: "gpio@1".into(),
        active_low: true,
    });
    let overlay = render_peripheral_overlay(&board, SOURCES).unwrap();
    assert!(overlay.contains("SedsSignalInverter"));
    assert!(overlay.contains("Output -> gpio@1"));
    assert!(overlay.contains("gpio:\n    0 -> layoutSignalInverter0@0"));
}

#[test]
fn pins_start_at_their_declared_levels() {
    let mut board = layout("stm32g4", vec![]);
    for (pin, initial) in [(3, PinState::Low), (4, PinState::High), (5, PinState::Floating)] {
        board.board.pins.push(PinConfig { gpio: "gpio".into(), pin, initial });
    }
    assert_eq!(
        render_board_initialization_script(&board),
        "gpio DrivePin 3 false\ngpio DrivePin 4 true\ngpio ReleasePin 5\n"
    );
}

#[test]
fn markers_are_lines_or_information_messages() {
    assert!(observed_marker("x\n  DONE  \n", "DONE"));
    assert!(observed_marker("12:00 [INFO] cpu: DONE\n", "DONE"));
    assert!(!observed_marker("12:00 [WARNING] cpu: DONE\n", "DONE"));
    assert_eq!(marker_bool("LATCH\nnoise\nTrue\n", "LATCH"), Some(true));
    assert_eq!(marker_bool("LATCH\nnoise\n", "LATCH"), None);
    assert_eq!(marker_u64("COUNT\n17\n", "COUNT"), Some(17));
    assert_eq!(marker_lines("SEDS_REG A PC\n0x1\nother\nSEDS_REG B PC\n"), vec![
        "SEDS_REG A PC",
        "0x1",
        "SEDS_REG B PC"
    ]);
    assert_eq!(tail("a\nb\nc\n", 2), "b\nc");
}

#[test]
fn faults_are_found_in_any_case() {
    assert!(execution_faulted("12:00 [ERROR] cpu\n"));
    assert!(execution_faulted("CPU abort [PC=0x0]\n"));
    assert!(!execution_faulted("all is well\n"));
}

#[test]
fn each_bad_execution_setting_has_its_error() {
    let ram = layout("stm32g4", vec![]).memory.ram_regions;
    let error = |execution: ExecutionConfig| validate_execution(&execution, &ram).unwrap_err();
    let base = ExecutionConfig::default;
    assert!(validate_execution(&base(), &ram).is_ok());
    assert_eq!(
        error(ExecutionConfig { boot_success_symbol: "a b".into(), ..base() }),
        ConfigError::SuccessSymbol
    );
    assert_eq!(
        error(ExecutionConfig { factory_boot_success_symbol: "a;".into(), ..base() }),
        ConfigError::FactorySymbol
    );
    assert_eq!(error(ExecutionConfig { sample_count: 0, ..base() }), ConfigError::NoSamples);
    assert_eq!(
        error(ExecutionConfig { sample_count: 251, ..base() }),
        ConfigError::TooManySamples
    );
    assert_eq!(
        error(ExecutionConfig { memory_probe_warmup_samples: 1, ..base() }),
        ConfigError::Warmup
    );
    assert_eq!(error(ExecutionConfig { hal_tick_step: 0, ..base() }), ConfigError::TickStep);
    assert_eq!(
        error(ExecutionConfig { hal_tick_address: Some(0x2001_bffd), ..base() }),
        ConfigError::TickAddress(0x2001_bffd)
    );
}

#[test]
fn factory_vectors_are_the_first_two_words() {
    assert_eq!(factory_vector(&[0; 7]), None);
    assert_eq!(
        factory_vector(&[0, 0xc0, 1, 0x20, 1, 0x40, 0, 8, 0xff]),
        Some((0x2001_c000, 0x0800_4001))
    );
}

fn outcomes() -> Vec<BootOutcome> {
    vec![
        BootOutcome { name: "old".into(), symbol: "boot_old".into(), image: BootImage::Old },
        BootOutcome { name: "new".into(), symbol: "boot_new".into(), image: BootImage::New },
    ]
}

#[test]
fn an_update_ends_in_at_most_one_outcome() {
    let all = outcomes();
    assert_eq!(unique_ota_outcome(&all, "nothing\n"), Ok(None));
    assert_eq!(unique_ota_outcome(&all, "SEDS_OTA_OUTCOME_new\n"), Ok(Some("new".into())));
    assert_eq!(
        unique_ota_outcome(&all, "SEDS_OTA_OUTCOME_new\nSEDS_OTA_OUTCOME_old\n"),
        Err(vec!["old".to_string(), "new".to_string()])
    );
}

const PASSED: &str = "SEDS_FIRMWARE_BOOT_REACHED\nSEDS_FACTORY_BOOT_REACHED\nSEDS_REG FIRMWARE_PC\n0x08004101\nSEDS_REG FACTORY_PC\n0x08004101\nSEDS_EXECUTION_COMPLETE\n";

#[test]
fn a_run_must_boot_twice_and_return_registers() {
    let board = layout("stm32g4", vec![]);
    let seen = judge_run(&board, PASSED, false).unwrap();
    assert_eq!(seen.registers.len(), 4);
    let report = report_run(&board, "fw.elf".into(), "t.trace".into(), seen, vec![]);
    assert_eq!(report.backend, "renode");
    assert!(report.trace.is_none());
    let error = judge_run(&board, "SEDS_FIRMWARE_BOOT_REACHED\n", false).unwrap_err();
    assert_eq!(
        error.message(&board, "SEDS_FIRMWARE_BOOT_REACHED\n"),
        "factory boot flow never reached main:\nSEDS_FIRMWARE_BOOT_REACHED"
    );
    let error = judge_run(&board, "boom\n", false).unwrap_err();
    assert_eq!(
        error.message(&board, "boom\n"),
        "firmware never reached _tx_thread_schedule; final registers: \nboom"
    );
}

#[test]
fn a_requested_trace_must_be_there() {
    let mut board = layout("stm32g4", vec![]);
    board.execution.trace = true;
    assert!(judge_run(&board, PASSED, true).is_ok());
    let error = judge_run(&board, PASSED, false).unwrap_err();
    assert_eq!(
        error.message(&board, PASSED),
        "Renode did not produce the requested instruction trace"
    );
}

#[test]
fn power_is_cut_after_the_selected_operations() {
    let trace: Vec<String> = ["erase_start", "erase_complete", "program_unit", "program_unit"]
        .into_iter()
        .map(str::to_owned)
        .collect();
    let every = PowerCutConfig { every_flash_operation: true, ..PowerCutConfig::default() };
    assert_eq!(cut_operations(&every, Some(4), &trace), Ok(vec![1, 2, 3, 4]));
    let units = PowerCutConfig {
        events: vec![FlashEventKind::ProgramUnit],
        ..PowerCutConfig::default()
    };
    assert_eq!(cut_operations(&units, Some(4), &trace), Ok(vec![3, 4]));
    assert_eq!(cut_operations(&units, None, &trace), Err(CutError::NoCount));
    let short = cut_operations(&units, Some(5), &trace).unwrap_err();
    assert_eq!(short.message(), "flash event trace has 4 entries for 5 operations");
    assert_eq!(cut_operations(&units, Some(2), &trace[..2]), Err(CutError::NoneSelected));
}

#[test]
fn a_power_cut_must_trigger_and_reboot_to_one_outcome() {
    let all = outcomes();
    let output = "SEDS_POWER_CUT_TRIGGERED\nTrue\nSEDS_POWER_CUT_REBOOT\nSEDS_OTA_OUTCOME_old\n";
    let report = judge_cut(&all, output, 3).unwrap();
    assert_eq!(report.after_flash_operation, 3);
    assert_eq!(report.outcome, "old");
    let message = |output: &str| judge_cut(&all, output, 3).unwrap_err().message(3);
    assert_eq!(message("x\n"), "power-cut run did not execute a cold reboot");
    assert_eq!(
        message("SEDS_OTA_OUTCOME_old\nSEDS_POWER_CUT_REBOOT\n"),
        "no boot outcome after flash operation 3"
    );
    assert_eq!(
        message("SEDS_POWER_CUT_REBOOT\nSEDS_OTA_OUTCOME_old\nSEDS_OTA_OUTCOME_new\n"),
        "OTA run reached conflicting boot outcomes: old, new"
    );
    assert_eq!(
        message("SEDS_POWER_CUT_REBOOT\nSEDS_OTA_OUTCOME_old\n"),
        "flash model did not report its power-cut latch"
    );
    assert_eq!(
        message("SEDS_POWER_CUT_TRIGGERED\nFalse\nSEDS_POWER_CUT_REBOOT\nSEDS_OTA_OUTCOME_old\n"),
        "flash cut after operation 3 was not triggered"
    );
}

fn probe(minimum: Option<u32>, maximum: Option<u32>, max_end_drop: Option<u32>) -> ExecutionConfig {
    ExecutionConfig {
        sample_count: 3,
        memory_probes: vec![MemoryProbe {
            name: "pool".into(),
            symbol: "pool".into(),
            minimum,
            maximum,
            max_end_drop,
        }],
        ..ExecutionConfig::default()
    }
}

#[test]
fn probes_are_put_in_order_and_held_to_their_limits() {
    let output =
        "SEDS_PROBE pool 2\n0x10\nSEDS_PROBE pool 0\n0x30\nSEDS_PROBE pool 1\n0x08\n";
    let report = &parse_memory_profile(&probe(None, None, None), output).unwrap()[0];
    assert_eq!(report.samples, vec![0x30, 0x08, 0x10]);
    assert_eq!(report.minimum_observed, 0x08);
    assert_eq!(report.maximum_observed, 0x30);
    assert_eq!(report.end_drop, 0x20);
    assert!(parse_memory_profile(&probe(Some(0x08), Some(0x30), Some(0x28)), output).is_ok());
    assert!(parse_memory_profile(&probe(Some(0x09), None, None), output).is_err());
    assert!(parse_memory_profile(&probe(None, Some(0x2f), None), output).is_err());
    let execution = probe(None, None, Some(0x27));
    let failure = parse_memory_profile(&execution, output).unwrap_err();
    assert_eq!(
        failure.message(&execution, output),
        "probe pool lost 40 bytes between first and last sample: [48, 8, 16]"
    );
    assert!(parse_memory_profile(&probe(None, None, None), "SEDS_PROBE pool 0\n0x1\n").is_err());
}

#[test]
fn end_drop_compares_the_floors_of_the_two_halves() {
    let output = |samples: &[u32]| {
        let mut text = String::new();
        for (i, sample) in samples.iter().enumerate() {
            text += &format!("SEDS_PROBE pool {i}\n0x{sample:x}\n");
        }
        text
    };
    let held = |samples: &[u32], limit, warmup| {
        let execution = ExecutionConfig {
            sample_count: samples.len(),
            memory_probe_warmup_samples: warmup,
            ..probe(None, None, Some(limit))
        };
        parse_memory_profile(&execution, &output(samples)).is_ok()
    };
    assert!(held(&[100, 50, 100, 50], 10, 0));
    assert!(held(&[100, 50, 100, 50], 0, 0));
    assert!(!held(&[100, 50, 100, 39], 10, 0));
    assert!(held(&[100, 50, 100, 40], 10, 0));
    assert!(!held(&[50, 40, 30, 100], 9, 0));
    assert!(held(&[50, 40, 30, 100], 10, 0));
    assert!(held(&[900, 100, 100], 0, 1));
    assert!(held(&[900, 1], 0, 1));
    let execution = ExecutionConfig { sample_count: 4, ..probe(None, None, Some(10)) };
    let reports = parse_memory_profile(&execution, &output(&[100, 50, 100, 50])).unwrap();
    assert_eq!(reports[0].end_drop, 50);
}

#[test]
fn node_probes_tell_of_all_their_failures() {
    let output = "SEDS_BAY_PROBE a pool 0\n0x10\nSEDS_BAY_PROBE a pool 1\n0x20\n";
    let execution = probe(Some(0x11), Some(0x1f), None);
    let error = parse_memory_profiles("a", &execution, output, 2, true).unwrap_err();
    assert_eq!(
        error.message("a", &execution, 2),
        "node a failed 2 probe threshold(s):\n- pool fell below 17: [16, 32]\n- pool exceeded 31: [16, 32]\n\nAll a probe observations:\npool: min=16, max=32, samples=[16, 32]"
    );
    let execution = probe(None, None, Some(0));
    let falling = "SEDS_BAY_PROBE a pool 0\n0x20\nSEDS_BAY_PROBE a pool 1\n0x10\n";
    let error = parse_memory_profiles("a", &execution, falling, 2, true).unwrap_err();
    assert!(error.message("a", &execution, 2).contains("\n- pool lost 16 bytes: [32, 16]\n"));
    assert!(parse_memory_profiles("a", &execution, falling, 2, false).is_ok());
}

#[test]
fn what_does_not_divide_evenly_goes_to_the_first_samples() {
    let durations: Vec<u64> = (0..4).map(|sample| sample_duration(10, 4, sample)).collect();
    assert_eq!(durations, vec![3, 3, 2, 2]);
}
