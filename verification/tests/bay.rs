use firmware_sim::architecture::{ArchitectureKind, McuKind};
use firmware_sim::bay::{
    default_duration, default_minimum_activity, default_quantum, default_sample_count,
    default_true, BayTopology, Endpoint, HostLinkTransport, HostLogAssertion, HostNode,
    HostSerialLink, Link, LinkKind, NetworkAssertion, Node, NodeBoard, TopologyError, Wiring,
};
use firmware_sim::certify::{certify, host_diagnostic, observe_endpoint_probe, HostRun};
use firmware_sim::elf::reset_vector;
use firmware_sim::layout::{
    Artifacts, BoardConfig, BoardLayout, ExecutionConfig, MemoryLayout, MemoryProbe, MemoryRegion,
    OtaConfig,
};
use firmware_sim::probes::MemoryProbeReport;
use firmware_sim::report;
use firmware_sim::roster::Roster;
use firmware_sim::traffic::TrafficConfig;

fn probe(name: &str, minimum: Option<u32>) -> MemoryProbe {
    MemoryProbe {
        name: name.into(),
        symbol: name.into(),
        minimum,
        maximum: None,
        max_end_drop: None,
    }
}

fn board(name: &str) -> BoardLayout {
    BoardLayout {
        name: name.into(),
        architecture: ArchitectureKind::Stm32g4,
        mcu: McuKind::new("stm32g491"),
        mcu_descriptor: None,
        memory: MemoryLayout {
            flash_base: 134217728,
            flash_size: 524288,
            ram_regions: vec![MemoryRegion {
                name: "sram".into(),
                base: 536870912,
                size: 114688,
            }],
            bootloader_size: 16384,
            slot_a_base: 134234112,
            slot_a_size: 475136,
            slot_b_base: None,
            slot_b_size: None,
            delta_base: None,
            delta_size: None,
            persistent_data_base: None,
            persistent_data_size: None,
            erase_size: 2048,
            write_alignment: 8,
            sedsnet_pool: 4096,
        },
        artifacts: Artifacts {
            elf: "build/fw.elf".into(),
            bootloader_elf: "build/boot.elf".into(),
            firmware: "build/fw.img".into(),
            bootloader: "build/boot.bin".into(),
            factory: "build/factory.bin".into(),
            updated_firmware: None,
            ota: None,
        },
        execution: ExecutionConfig {
            memory_probes: vec![
                probe("pool_available", Some(2048)),
                probe("can_tx", None),
                probe("can_rx", None),
                probe("topology_mask", None),
            ],
            ..ExecutionConfig::default()
        },
        traffic: TrafficConfig::default(),
        ota: OtaConfig::default(),
        board: BoardConfig::default(),
        peripherals: vec![],
    }
}

fn node(name: &str) -> Node {
    Node {
        name: name.into(),
        layout: format!("{name}/board.json"),
        firmware_root: name.into(),
    }
}

fn endpoint(node: &str) -> Endpoint {
    Endpoint {
        node: node.into(),
        peripheral: "fdcan2".into(),
        activity_probe: None,
        minimum_activity: default_minimum_activity(),
        tx_probe: Some("can_tx".into()),
        rx_probe: Some("can_rx".into()),
        minimum_tx: default_minimum_activity(),
        minimum_rx: default_minimum_activity(),
    }
}

fn discovered(name: &str, node: &str, bits: u32) -> NetworkAssertion {
    NetworkAssertion {
        name: name.into(),
        node: node.into(),
        probe: "topology_mask".into(),
        minimum: None,
        maximum: None,
        required_bits: Some(bits),
        sample: None,
    }
}

fn topology() -> BayTopology {
    BayTopology {
        name: "test-bay".into(),
        quantum_seconds: default_quantum(),
        virtual_time_ms: default_duration(),
        sample_count: default_sample_count(),
        enforce_end_drop: default_true(),
        nodes: vec![node("a"), node("b")],
        host_nodes: vec![],
        links: vec![Link {
            name: "can".into(),
            kind: LinkKind::Can,
            endpoints: vec![endpoint("a"), endpoint("b")],
            transport_path: vec![],
        }],
        assertions: vec![
            discovered("a discovered b", "a", 2),
            discovered("b discovered a", "b", 1),
        ],
        host_log_assertions: vec![],
    }
}

fn elf() -> Vec<u8> {
    let mut elf = vec![0_u8; 96];
    elf[0..6].copy_from_slice(b"\x7fELF\x01\x01");
    elf[24..28].copy_from_slice(&0x0800_4001_u32.to_le_bytes());
    elf[28..32].copy_from_slice(&52_u32.to_le_bytes());
    elf[42..44].copy_from_slice(&32_u16.to_le_bytes());
    elf[44..46].copy_from_slice(&1_u16.to_le_bytes());
    elf[52..56].copy_from_slice(&1_u32.to_le_bytes());
    elf[56..60].copy_from_slice(&84_u32.to_le_bytes());
    elf[60..64].copy_from_slice(&0x0800_4000_u32.to_le_bytes());
    elf[64..68].copy_from_slice(&0x0800_4000_u32.to_le_bytes());
    elf[68..72].copy_from_slice(&12_u32.to_le_bytes());
    elf[72..76].copy_from_slice(&12_u32.to_le_bytes());
    elf[84..88].copy_from_slice(&0x2001_c000_u32.to_le_bytes());
    elf[88..92].copy_from_slice(&0x0800_4001_u32.to_le_bytes());
    elf
}

fn loaded<'a>(layout: &'a BoardLayout) -> NodeBoard<'a> {
    NodeBoard {
        layout,
        platform: "platform.repl",
        overlay: "peripherals.repl",
        elf: "fw.elf",
        firmware_image: "firmware-flash.bin",
        vector: reset_vector(&elf(), &layout.memory).unwrap(),
    }
}

fn output() -> String {
    let mut output = String::from("SEDS_NODE_BOOT_a\nSEDS_NODE_BOOT_b\n");
    for i in 0..10 {
        for (node, probe, value) in [
            ("a", "pool_available", "0x1000"),
            ("b", "pool_available", "0x1000"),
            ("a", "can_tx", "0x5"),
            ("a", "can_rx", "0x6"),
            ("b", "can_tx", "0x6"),
            ("b", "can_rx", "0x5"),
            ("a", "topology_mask", "0x2"),
            ("b", "topology_mask", "0x1"),
        ] {
            output += &format!("SEDS_BAY_PROBE {node} {probe} {i}\n{value}\n");
        }
    }
    output += "SEDS_NODE a PC\n0x08004101\nSEDS_NODE b PC\n0x08004101\nSEDS_BAY_COMPLETE\n";
    output
}

#[test]
fn linked_bay_runs_two_real_elf_nodes_on_a_can_hub() {
    let topology = topology();
    let (a, b) = (board("a"), board("b"));
    let boards = [loaded(&a), loaded(&b)];
    topology.validate(&[]).unwrap();
    let report = certify(&topology, &boards, &output(), true, "exit status: 0", &[]).unwrap();
    assert_eq!(report.nodes_executed, 2);
    assert_eq!(report.links_connected, 1);
    assert_eq!(report.register_dump.len(), 4);
    assert_eq!(report.memory_profiles.get("a").unwrap()[0].samples.len(), 10);
    assert_eq!(report.memory_profiles.get("b").unwrap()[0].minimum_observed, 4096);
    assert_eq!(report.link_reports[0].endpoints[0].tx_observed, Some(5));
    assert_eq!(report.assertion_reports.len(), 2);
    let shown = report::bay(&report);
    assert!(shown.starts_with("Avionics bay simulation: test-bay\n\nTEST MATRIX\n"));
    assert!(shown.contains("| a    | can_rx         | 6       | 6       | 0        | 10      |"));
    assert!(shown.contains("| SEDS_NODE b PC | 0x08004101 |"));
}

#[test]
fn a_script_wires_loads_samples_and_stops_the_bay() {
    let mut topology = topology();
    topology.virtual_time_ms = 5;
    topology.sample_count = 2;
    let (a, b) = (board("a"), board("b"));
    let script = topology.render_script(&[loaded(&a), loaded(&b)], "/tmp/bay");
    assert!(script.starts_with("emulation CreateCANHub \"can\" false\nmach create \"a\"\n"));
    assert!(script.contains("sysbus LoadBinary @firmware-flash.bin 0x08000000\n"));
    assert!(script.contains("cpu VectorTableOffset 0x08004000\n"));
    assert!(script.contains("'self.InfoLog(\"SEDS_NODE_BOOT_b\")'\nconnector Connect sysbus.fdcan2 can\n"));
    assert!(script.contains("emulation SetGlobalQuantum \"0.0001\"\nemulation SetGlobalSerialExecution False\nemulation RunFor \"0.003s\"\nmach set \"a\"\n"));
    assert!(script.contains("echo \"SEDS_BAY_SAMPLE_DONE 1 2\"\nemulation RunFor \"0.002s\"\n"));
    assert!(script.contains("echo \"SEDS_BAY_PROBE b can_tx 1\"\nsysbus ReadDoubleWord `sysbus GetSymbolAddress \"can_tx\"`\n"));
    assert!(script.ends_with("mach set \"b\"\necho \"SEDS_NODE b PC\"\ncpu PC\necho \"SEDS_BAY_COMPLETE\"\n"));
    assert!(!script.contains("SEDS_HOST_ENDPOINTS_READY"));
}

fn host(name: &str, link: &str, transport: HostLinkTransport) -> HostNode {
    HostNode {
        name: name.into(),
        binary: "/bin/station".into(),
        cwd: None,
        args: vec![],
        env: vec![],
        network_variable_cache: None,
        serial_links: vec![HostSerialLink {
            link: link.into(),
            env: "PORT".into(),
            transport,
        }],
    }
}

fn radio(kind: LinkKind, transport: HostLinkTransport) -> BayTopology {
    let mut topology = topology();
    topology.host_nodes.push(host("station", "radio link", transport));
    topology.links.push(Link {
        name: "radio link".into(),
        kind,
        endpoints: vec![endpoint("a"), endpoint("station")],
        transport_path: vec!["RF".into(), "tunnel".into()],
    });
    topology
}

#[test]
fn host_programs_open_terminals_or_translated_sockets() {
    let plain = radio(LinkKind::Radio, HostLinkTransport::UartPty);
    plain.validate(&[true]).unwrap();
    assert_eq!(plain.wire(0), Wiring::CanHub);
    assert_eq!(
        plain.wire(1),
        Wiring::Host { endpoint: 1, transport: HostLinkTransport::UartPty }
    );
    let ports = plain.host_ports("/tmp/bay");
    assert_eq!(ports.len(), 1);
    assert_eq!(ports[0].link, 1);
    assert_eq!(ports[0].pty, "/tmp/bay/radio_link.pty");
    assert!(ports[0].socket.is_none());
    assert_eq!(
        plain.find_host_path("/tmp/bay", "radio link").as_deref(),
        Some("/tmp/bay/radio_link.pty")
    );
    assert_eq!(plain.find_host_path("/tmp/bay", "can"), None);
    let (a, b) = (board("a"), board("b"));
    let script = plain.render_script(&[loaded(&a), loaded(&b)], "/tmp/bay");
    assert!(script.contains("emulation CreateUartPtyTerminal \"radio_link\" \"/tmp/bay/radio_link.pty\"\n"));
    assert!(script.contains("echo \"SEDS_HOST_ENDPOINTS_READY\"\nsleep 5\n"));

    let translated = radio(LinkKind::PicoFi, HostLinkTransport::PicoFiI2cToUart);
    translated.validate(&[true]).unwrap();
    let ports = translated.host_ports("/tmp/bay");
    assert_eq!(ports[0].socket.as_deref(), Some("/tmp/bay/radio_link.i2c.sock"));
    assert_eq!(
        translated.find_host_path("/tmp/bay", "radio link").as_deref(),
        Some("/tmp/bay/radio_link.i2c.sock")
    );
}

#[test]
fn each_flaw_of_a_topology_has_its_error() {
    let error = |topology: &BayTopology, binaries: &[bool]| {
        let error = topology.validate(binaries).unwrap_err();
        (error, error.message(topology))
    };
    let mut bay = topology();
    bay.nodes.clear();
    assert_eq!(error(&bay, &[]).0, TopologyError::NoNodes);
    let mut bay = topology();
    bay.sample_count = 0;
    assert_eq!(error(&bay, &[]).0, TopologyError::NoSamples);
    bay.sample_count = 1001;
    assert_eq!(error(&bay, &[]).0, TopologyError::TooManySamples);
    let mut bay = topology();
    bay.nodes.push(node("a"));
    assert_eq!(error(&bay, &[]).1, "duplicate bay node a");
    let mut bay = topology();
    bay.host_nodes.push(host("b", "x", HostLinkTransport::UartPty));
    assert_eq!(error(&bay, &[true]).1, "host node b duplicates a firmware node");
    let bay = radio(LinkKind::Radio, HostLinkTransport::UartPty);
    assert_eq!(error(&bay, &[false]).1, "host node station binary is missing: /bin/station");
    let mut bay = topology();
    bay.links[0].endpoints.pop();
    assert_eq!(error(&bay, &[]).1, "link can needs at least two endpoints");
    let mut bay = topology();
    bay.links[0].endpoints[1].node = "c".into();
    assert_eq!(error(&bay, &[]).1, "link can references unknown node c");
    let mut bay = radio(LinkKind::Radio, HostLinkTransport::UartPty);
    bay.links[1].endpoints[0].node = "station".into();
    assert_eq!(error(&bay, &[true]).1, "link radio link has more than one host endpoint");
    let bay = radio(LinkKind::Can, HostLinkTransport::UartPty);
    assert_eq!(
        error(&bay, &[true]).1,
        "host endpoint station on radio link must use a serial link"
    );
    let bay = radio(LinkKind::Uart, HostLinkTransport::PicoFiI2cToUart);
    assert_eq!(
        error(&bay, &[true]).1,
        "host link radio link selects Pico-Fi I2C translation but is not pico_fi"
    );
    let mut bay = radio(LinkKind::Radio, HostLinkTransport::UartPty);
    bay.host_nodes[0].serial_links.push(HostSerialLink {
        link: "can".into(),
        env: "CAN".into(),
        transport: HostLinkTransport::default(),
    });
    assert_eq!(
        error(&bay, &[true]).1,
        "host node station references unknown serial link can"
    );
}

fn failure(topology: &BayTopology, output: &str, succeeded: bool, runs: &[HostRun]) -> String {
    let (a, b) = (board("a"), board("b"));
    certify(topology, &[loaded(&a), loaded(&b)], output, succeeded, "exit status: 3", runs)
        .unwrap_err()
}

#[test]
fn an_emulator_that_stops_early_is_a_failure() {
    let shown = "start\none\nUnexpected Exception here\ntwo\nthree\nfour\n";
    assert_eq!(
        failure(&topology(), shown, false, &[]),
        "linked bay execution failed (Renode status: exit status: 3):\nstart\none\nUnexpected Exception here\ntwo\nthree\n\nFinal Renode output:\nstart\none\nUnexpected Exception here\ntwo\nthree\nfour"
    );
    assert!(failure(&topology(), "SEDS_NODE_BOOT_a\n", true, &[])
        .contains("No explicit Renode error line was emitted."));
    let late = format!("{}There was an error executing command\n", output());
    assert!(failure(&topology(), &late, true, &[]).starts_with("linked bay execution failed"));
}

#[test]
fn every_node_must_boot_and_qualify() {
    let silent = output().replace("SEDS_NODE_BOOT_b\n", "");
    assert_eq!(
        failure(&topology(), &silent, true, &[]),
        "node b did not reach its boot-success symbol"
    );
    let starved = output().replace("SEDS_BAY_PROBE b pool_available 4\n0x1000", "SEDS_BAY_PROBE b pool_available 4\n0x7ff");
    let shown = failure(&topology(), &starved, true, &[]);
    assert!(shown.starts_with("node b failed 1 probe threshold(s):\n- pool_available fell below 2048: [4096, 4096, 4096, 4096, 2047, 4096"));
    assert!(shown.ends_with("\n\nHost diagnostics:\n"));
}

#[test]
fn links_must_carry_traffic_both_ways() {
    let quiet = output().replace("\n0x6\n", "\n0x0\n");
    assert_eq!(
        failure(&topology(), &quiet, true, &[]),
        "2 network endpoint check(s) failed:\n- can / a RX: can_rx=0 (required >= 1)\n- can / b TX: can_tx=0 (required >= 1)\n\nEndpoint diagnostics:\na: \nb: "
    );
    let mut bay = topology();
    bay.links[0].endpoints[0].tx_probe = Some("can_up".into());
    assert_eq!(
        failure(&bay, &output(), true, &[]),
        "link can endpoint a requires unknown TX probe can_up"
    );
    let mut bay = topology();
    bay.links[0].endpoints[1].rx_probe = None;
    assert_eq!(
        failure(&bay, &output(), true, &[]),
        "link can endpoint b has no TX/RX probes; bidirectional communication cannot be certified"
    );
    let mut bay = topology();
    let last = &mut bay.links[0].endpoints[1];
    last.tx_probe = None;
    last.rx_probe = None;
    last.activity_probe = Some("topology_mask".into());
    last.minimum_activity = 2;
    assert!(failure(&bay, &output(), true, &[])
        .starts_with("1 network endpoint check(s) failed:\n- can / b activity: topology_mask=1 (required >= 2)\n"));
}

#[test]
fn assertions_hold_or_tell_what_was_observed() {
    let mut bay = topology();
    bay.assertions[0].required_bits = Some(3);
    bay.assertions[1].minimum = Some(2);
    assert_eq!(
        failure(&bay, &output(), true, &[]),
        "2 network assertion(s) failed:\n- a discovered b: a.topology_mask observed 0x00000002, requires 0x00000003\n- b discovered a: b.topology_mask maximum 1 is below 2\n\nLink observations:\ncan: a(can_tx=5, can_rx=6), b(can_tx=6, can_rx=5)\n\nAssertion observations:\na discovered b: a.topology_mask=2\nb discovered a: b.topology_mask=1\n\nHost diagnostics:\n"
    );
    let mut bay = topology();
    bay.assertions[0].maximum = Some(1);
    assert!(failure(&bay, &output(), true, &[]).contains("a.topology_mask maximum 2 exceeds 1"));
    let mut bay = topology();
    bay.assertions[0].sample = Some(10);
    assert_eq!(
        failure(&bay, &output(), true, &[]),
        "assertion a discovered b requests sample 10, but a.topology_mask has 10 samples"
    );
    let mut bay = topology();
    bay.assertions[0].node = "c".into();
    assert_eq!(
        failure(&bay, &output(), true, &[]),
        "assertion a discovered b references unknown node c"
    );
    let mut bay = topology();
    bay.assertions[0].probe = "p".into();
    assert_eq!(
        failure(&bay, &output(), true, &[]),
        "assertion a discovered b references unknown probe p on a"
    );
}

fn ran(name: &str, exit: Option<&str>, output: &str) -> HostRun {
    HostRun {
        name: name.into(),
        exit: exit.map(str::to_owned),
        output: output.into(),
    }
}

#[test]
fn host_programs_must_run_to_the_end_and_report() {
    let bay = radio(LinkKind::Radio, HostLinkTransport::UartPty);
    assert_eq!(
        failure(&bay, &output(), true, &[ran("station", Some("exit status: 1"), "no port\n")]),
        "host node station exited early with exit status: 1; verify its serial-port and layout configuration\nno port"
    );
    assert_eq!(
        failure(&bay, "no machine\n", false, &[ran("station", Some("exit status: 1"), "x\n")]),
        "host node station exited early with exit status: 1; verify its serial-port and layout configuration\nx\n\nlinked bay execution failed (Renode status: exit status: 3):\nNo explicit Renode error line was emitted.\n\nFinal Renode output:\nno machine"
    );
    let (a, b) = (board("a"), board("b"));
    let boards = [loaded(&a), loaded(&b)];
    let mut bay = bay;
    bay.host_log_assertions.push(HostLogAssertion {
        name: "station linked".into(),
        node: "station".into(),
        contains: "link \"up\"".into(),
    });
    let good = [ran("station", None, "x\nlink \"up\" now\n")];
    let report = certify(&bay, &boards, &output(), true, "", &good).unwrap();
    assert_eq!(report.host_nodes_executed, 1);
    assert_eq!(report.link_reports[1].kind, "Radio");
    assert_eq!(report.link_reports[1].transport_path, vec!["RF", "tunnel"]);
    assert_eq!(report.link_reports[1].endpoints[1].tx_observed, None);
    let shown = failure(&bay, &output(), true, &[ran("station", None, "nothing\n")]);
    assert!(shown.starts_with(
        "1 network assertion(s) failed:\n- station linked: host station did not report \"link \\\"up\\\"\"\n"
    ));
    assert!(shown.contains("radio link: a(can_tx=5, can_rx=6), station(tx=n/a, rx=n/a)"));
    assert!(shown.ends_with("Host diagnostics:\nstation:\nnothing"));
    assert_eq!(
        failure(&bay, &output(), true, &[]),
        "host-log assertion station linked references unknown host node station"
    );
}

#[test]
fn long_logs_lose_their_middle() {
    let short: Vec<String> = (0..120).map(|i| i.to_string()).collect();
    assert_eq!(host_diagnostic(&short.join("\n")), short.join("\n"));
    let long: Vec<String> = (0..125).map(|i| i.to_string()).collect();
    assert_eq!(
        host_diagnostic(&long.join("\n")),
        format!(
            "{}\n... 5 host log lines omitted ...\n{}",
            long[..60].join("\n"),
            long[65..].join("\n")
        )
    );
}

#[test]
fn an_endpoint_without_a_probe_observes_nothing() {
    let reports = [MemoryProbeReport {
        name: "can_tx".into(),
        symbol: "can_tx".into(),
        samples: vec![1, 4, 2],
        minimum_observed: 1,
        maximum_observed: 4,
        end_drop: -1,
    }];
    assert_eq!(observe_endpoint_probe(&reports, None, "l", "n", "TX"), Ok(None));
    assert_eq!(observe_endpoint_probe(&reports, Some("can_tx"), "l", "n", "TX"), Ok(Some(4)));
    assert_eq!(
        observe_endpoint_probe(&reports, Some("x"), "l", "n", "RX"),
        Err("link l endpoint n requires unknown RX probe x".to_string())
    );
}

#[test]
fn a_roster_keeps_its_names_in_order() {
    let mut roster: Roster<u32> = Roster::new();
    for (name, value) in [("b", 1), ("a", 2), ("ab", 3), ("", 4), ("a", 5), ("B", 6)] {
        roster.put(name.to_string(), value);
    }
    let names: Vec<&str> = (0..roster.len()).map(|i| roster.name(i)).collect();
    assert_eq!(names, vec!["", "B", "a", "ab", "b"]);
    assert_eq!(roster.get("a"), Some(&5));
    assert_eq!(roster.get("c"), None);
    assert_eq!(*roster.value(0), 4);
}
