use firmware_sim::peripherals::{exercise_all, validate, PeripheralError, PeripheralSpec};

fn base(kind: &str, name: &str) -> PeripheralSpec {
    PeripheralSpec {
        kind: kind.into(),
        name: name.into(),
        model: None,
        bus: None,
        failure_every: None,
        disconnect_after: None,
        bits: None,
        channels: None,
        max_psi: None,
        channel_samples: vec![],
        noise_lsb: None,
        capacity_bytes: None,
    }
}

#[test]
fn devices_survive_fault_and_disconnect_behaviors() {
    let mut imu = base("imu", "imu1");
    imu.failure_every = Some(3);
    let mut baro = base("barometer", "baro1");
    baro.disconnect_after = Some(5);
    let mut adc = base("adc", "adc1");
    adc.bits = Some(12);
    adc.channels = Some(8);
    let mut pressure = base("pressure_transducer", "pt1");
    pressure.max_psi = Some(5000.0_f64.to_bits());
    let reports = exercise_all(&[imu, baro, base("gps", "gps1"), adc, pressure], 12, 42).unwrap();
    assert_eq!(reports.len(), 5);
    assert_eq!(reports[0].injected_errors, 4);
    assert_eq!(reports[1].disconnected_reads, 7);
}

#[test]
fn report_identifies_instruction_coupled_devices() {
    let coupled = PeripheralSpec {
        model: Some("neo_m9n".into()),
        bus: Some("spi1".into()),
        ..base("gps", "gps1")
    };
    let report = exercise_all(&[coupled], 1, 1).unwrap();
    assert!(report[0].instruction_coupled);
    assert!(report[0].behavioral_counts_only);
    assert_eq!(report[0].model.as_deref(), Some("neo_m9n"));
    assert_eq!(report[0].bus.as_deref(), Some("spi1"));
}

#[test]
fn every_read_is_a_success_a_failure_or_a_disconnection() {
    let mut imu = base("imu", "imu1");
    imu.failure_every = Some(17);
    let mut gps = base("gps", "gps1");
    gps.disconnect_after = Some(900);
    gps.failure_every = Some(100);
    let reports = exercise_all(&[imu, gps], 1_000, 42).unwrap();
    assert_eq!(reports[0].injected_errors, 58);
    assert_eq!(reports[0].expected_injected_errors, 58);
    assert_eq!(reports[0].successful_reads, 942);
    assert!(reports[0].faults_configured && reports[0].fault_test_passed);
    assert_eq!(reports[1].disconnected_reads, 100);
    assert_eq!(reports[1].injected_errors, 9);
    assert_eq!(reports[1].successful_reads, 891);
}

#[test]
fn each_faulty_declaration_has_its_error() {
    assert_eq!(validate(&base("imu", "")), Err(PeripheralError::EmptyName));
    let mut half = base("gps", "gps");
    half.model = Some("neo_m9n".into());
    assert_eq!(validate(&half), Err(PeripheralError::ModelAndBus));
    let mut odd = base("gps", "gps");
    odd.model = Some("bmp390".into());
    odd.bus = Some("spi1".into());
    let error = validate(&odd).unwrap_err();
    assert_eq!(error.message(&odd), "unsupported gps model bmp390");
    let mut adc = base("adc", "adc");
    adc.bits = Some(17);
    assert_eq!(validate(&adc).unwrap_err().message(&adc), "ADC bits must be 1..=16");
    adc.bits = Some(16);
    adc.channels = Some(0);
    assert_eq!(validate(&adc).unwrap_err().message(&adc), "ADC needs a channel");
    let mut pressure = base("pressure_transducer", "pt");
    for bad in [0.0_f64, -1.0, -0.0, f64::NAN] {
        pressure.max_psi = Some(bad.to_bits());
        assert_eq!(
            validate(&pressure).unwrap_err().message(&pressure),
            "max_psi must be positive"
        );
    }
    for good in [f64::MIN_POSITIVE, 5e-324, f64::INFINITY] {
        pressure.max_psi = Some(good.to_bits());
        assert!(validate(&pressure).is_ok());
    }
    let sonar = base("sonar", "s");
    assert_eq!(
        validate(&sonar).unwrap_err().message(&sonar),
        "unsupported peripheral type sonar"
    );
    let fault = exercise_all(&[base("imu", "a"), base("sonar", "b")], 1, 1).unwrap_err();
    assert_eq!(fault.index, 1);
}
