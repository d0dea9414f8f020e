use firmware_sim::traffic::{run, TrafficConfig, TrafficError};

#[test]
fn immediate_dispatch_does_not_need_a_queue() {
    let report = run(
        &TrafficConfig {
            iterations: 100_000,
            max_payload: 512,
            queue_depth: 0,
            immediate_dispatch: true,
        },
        4096,
        9,
    )
    .unwrap();
    assert_eq!(report.packets_dispatched, 100_000);
    assert_eq!(report.pool.bytes_in_use, 0);
    assert_eq!(report.pool.allocation_failures, 0);
}

#[test]
fn overload_is_bounded_and_drains() {
    let report = run(
        &TrafficConfig {
            iterations: 10_000,
            max_payload: 1024,
            queue_depth: 16,
            immediate_dispatch: false,
        },
        2048,
        9,
    )
    .unwrap();
    assert_eq!(report.pool.bytes_in_use, 0);
    assert!(report.pool.high_water <= report.pool.capacity);
}

#[test]
fn traffic_needs_a_payload_and_a_queue_or_immediate_dispatch() {
    let config = |max_payload, queue_depth, immediate_dispatch| TrafficConfig {
        iterations: 1,
        max_payload,
        queue_depth,
        immediate_dispatch,
    };
    let error = run(&config(0, 1, true), 64, 1).unwrap_err();
    assert_eq!(error, TrafficError::MaxPayload);
    let error = run(&config(8, 0, false), 64, 1).unwrap_err();
    assert_eq!(error, TrafficError::QueueDepth);
    let report = run(&config(8, 0, true), 64, 1).unwrap();
    assert_eq!(report.scope, "behavioral_pool_model");
    assert!(!report.firmware_path_exercised);
    assert_eq!(report.packets_attempted, 1);
}

#[test]
fn default_traffic_is_dispatched_at_once() {
    let config = TrafficConfig::default();
    assert_eq!(config.iterations, 10_000);
    assert_eq!(config.max_payload, 256);
    assert!(config.immediate_dispatch);
}

#[test]
fn a_pool_too_small_for_any_packet_fails_every_allocation() {
    let config = TrafficConfig {
        iterations: 5,
        max_payload: 8,
        queue_depth: 0,
        immediate_dispatch: true,
    };
    let report = run(&config, 23, 3).unwrap();
    assert_eq!(report.pool.allocation_failures, 5);
    assert_eq!(report.packets_dispatched, 0);
    assert_eq!(report.pool.high_water, 0);
}

#[test]
fn queued_traffic_stays_within_its_depth() {
    let config = TrafficConfig {
        iterations: 5_000,
        max_payload: 64,
        queue_depth: 8,
        immediate_dispatch: false,
    };
    let roomy = run(&config, 8 * 87, 7).unwrap();
    assert_eq!(roomy.packets_dispatched, 5_000);
    assert_eq!(roomy.pool.allocation_failures, 0);
    assert!(roomy.pool.high_water <= 8 * 87);
    let large = run(&config, 1_000_000, 7).unwrap();
    assert_eq!(large.pool.high_water, roomy.pool.high_water);
    let tight = run(&config, 150, 7).unwrap();
    assert!(tight.pool.allocation_failures > 0);
    assert!(tight.pool.high_water <= 150);
}
