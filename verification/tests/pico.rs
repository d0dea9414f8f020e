use firmware_sim::pico::{
    drain_gateway_uart_tx_paced, enqueue_gateway_uart_packet, enqueue_host_i2c_slots,
    gateway_uart_to_i2c_response, host_operation, host_session, i2c_request_to_gateway_uart,
    ingest_host_i2c_slot, next_host_slot, receive_gateway_uart, take_progress, write_reply,
    BridgeError, FrameError, HostAction, HostEvent, HostOperation, PicoBridgeState, SlotError,
    UartAction, UartEvent, PICO_I2C_DATA, PICO_I2C_END, PICO_I2C_START,
};

/// Lets an ideal port take every byte, and returns the bytes and the waits.
fn drain(state: &mut PicoBridgeState) -> (Vec<u8>, Vec<u64>) {
    let mut written = Vec::new();
    let mut delays = Vec::new();
    let mut event = UartEvent::Ready;
    loop {
        match drain_gateway_uart_tx_paced(state, event).unwrap() {
            UartAction::Write(byte) => {
                written.push(byte);
                event = UartEvent::Written(1);
            }
            UartAction::WaitNanos(nanos) => {
                delays.push(nanos);
                event = UartEvent::Ready;
            }
            UartAction::Done => return (written, delays),
        }
    }
}

#[test]
fn i2c_mailbox_envelope_is_recreated_for_gateway_uart() {
    let payload = b"sedsnet packet";
    let mut mailbox = vec![0xA5, 0x5A, payload.len() as u8, 0];
    mailbox.extend_from_slice(payload);
    let translated = i2c_request_to_gateway_uart(&mailbox).unwrap();
    assert_eq!(&translated[..2], &[0xA5, 0x5A]);
    assert_eq!(u16::from_le_bytes([translated[2], translated[3]]), 14);
    assert_eq!(&translated[4..], payload);
}

#[test]
fn uart_side_commands_do_not_cross_the_pico_network_bridge() {
    let data = [0xA5, 0x5A, 3, 0, 1, 2, 3];
    assert_eq!(gateway_uart_to_i2c_response(&data).unwrap(), data);
    let command = [0xA6, 0x5B, 3, 0, b'/', b'o', b'k'];
    assert!(gateway_uart_to_i2c_response(&command).is_none());
}

#[test]
fn pico_i2c_mailbox_chunks_match_firmware_slot_layout() {
    let frame = [
        0xA5, 0x5A, 16, 0, 0, 1, 2, 3, 4, 5, 6, 7, 8, 9, 10, 11, 12, 13, 14, 15,
    ];
    let mut state = PicoBridgeState::default();
    enqueue_host_i2c_slots(&mut state, &frame);
    assert_eq!(state.host_reads.len(), 2);
    let first = state.host_reads.pop_front().unwrap();
    let second = state.host_reads.pop_front().unwrap();
    assert_eq!(&first[..3], &[0x49, 0x32, 1]);
    assert_eq!(first[3], PICO_I2C_DATA);
    assert_eq!(first[4], PICO_I2C_START);
    assert_eq!(u32::from_le_bytes(first[6..10].try_into().unwrap()), 0);
    assert_eq!(u16::from_le_bytes(first[14..16].try_into().unwrap()), 14);
    assert_eq!(second[4], PICO_I2C_END);
    assert_eq!(u32::from_le_bytes(second[6..10].try_into().unwrap()), 14);
    assert_eq!(u16::from_le_bytes(second[14..16].try_into().unwrap()), 6);
}

#[test]
fn gateway_backpressure_does_not_reject_a_valid_mailbox_packet() {
    let mut state = PicoBridgeState::default();
    enqueue_gateway_uart_packet(&mut state, vec![1; 128]);
    assert_eq!(state.uart_tx_packets.len(), 1);
    assert_eq!(state.uart_tx_bytes, 128);
}

#[test]
fn gateway_uart_delivery_is_paced_at_the_physical_wire_rate() {
    let packet = vec![0xA5, 0x5A, 3, 0, 1, 2, 3];
    let mut state = PicoBridgeState::default();
    enqueue_gateway_uart_packet(&mut state, packet.clone());

    let (written, delays) = drain(&mut state);

    assert_eq!(written, packet);
    assert_eq!(delays.len(), packet.len());
    assert!(delays.iter().all(|delay| *delay >= 86_000));
    assert!(state.uart_tx_packets.is_empty());
    assert_eq!(state.uart_tx_bytes, 0);
}

#[test]
fn one_byte_takes_twelve_times_its_time_on_the_wire() {
    let mut state = PicoBridgeState::default();
    enqueue_gateway_uart_packet(&mut state, vec![7]);
    let (_, delays) = drain(&mut state);
    assert_eq!(delays, vec![1_041_666]);
}

#[test]
fn the_oldest_packets_leave_a_full_queue() {
    let mut state = PicoBridgeState::default();
    for packet in 0..9_u8 {
        enqueue_gateway_uart_packet(&mut state, vec![packet; 2]);
    }
    assert_eq!(state.uart_tx_packets.len(), 8);
    assert_eq!(state.uart_tx_packets[0], vec![1, 1]);
    assert_eq!(state.uart_tx_packets[7], vec![8, 8]);
    enqueue_gateway_uart_packet(&mut state, vec![9; 8192]);
    assert_eq!(state.uart_tx_packets.len(), 1);
    assert_eq!(state.uart_tx_bytes, 8192);
}

#[test]
fn a_blocked_or_closed_port_stops_the_transfer() {
    let mut state = PicoBridgeState::default();
    enqueue_gateway_uart_packet(&mut state, vec![1, 2]);
    assert_eq!(
        drain_gateway_uart_tx_paced(&mut state, UartEvent::Ready),
        Ok(UartAction::Write(1))
    );
    assert_eq!(
        drain_gateway_uart_tx_paced(&mut state, UartEvent::WouldBlock),
        Ok(UartAction::Done)
    );
    assert_eq!(
        drain_gateway_uart_tx_paced(&mut state, UartEvent::Ready),
        Ok(UartAction::Write(1))
    );
    assert_eq!(
        drain_gateway_uart_tx_paced(&mut state, UartEvent::Written(0)),
        Err(BridgeError::UartClosed)
    );
}

#[test]
fn slots_that_were_made_are_taken_again() {
    let payload: Vec<u8> = (0..40).collect();
    let mut frame = vec![0xA5, 0x5A, 40, 0];
    frame.extend_from_slice(&payload);
    let mut sender = PicoBridgeState::default();
    enqueue_host_i2c_slots(&mut sender, &frame);
    let mut receiver = PicoBridgeState::default();
    while let Some(slot) = sender.host_reads.pop_front() {
        ingest_host_i2c_slot(&mut receiver, &slot).unwrap();
    }
    assert!(receiver.host_assembly.is_none());
    assert_eq!(receiver.uart_tx_packets.len(), 1);
    assert_eq!(receiver.uart_tx_packets[0], frame);
}

#[test]
fn each_malformed_slot_has_its_error() {
    let mut sender = PicoBridgeState::default();
    enqueue_host_i2c_slots(&mut sender, &[0xA5, 0x5A, 16, 0, 1, 2, 3, 4, 5, 6, 7, 8, 9, 10, 11, 12, 13, 14, 15, 16]);
    let first = sender.host_reads.pop_front().unwrap();
    let second = sender.host_reads.pop_front().unwrap();
    let error = |slot: [u8; 32]| {
        ingest_host_i2c_slot(&mut PicoBridgeState::default(), &slot).unwrap_err()
    };
    let with = |at: usize, value: u8| {
        let mut slot = first;
        slot[at] = value;
        slot
    };
    assert_eq!(error(with(0, 0)), SlotError::Magic);
    assert_eq!(error(with(2, 2)), SlotError::Version);
    assert_eq!(error(with(3, 9)), SlotError::Kind);
    assert_eq!(error(with(14, 15)), SlotError::SlotSize);
    assert_eq!(error(with(11, 0x11)), SlotError::TransferSize);
    assert_eq!(error(with(6, 1)), SlotError::StartOffset);
    assert_eq!(error(second), SlotError::NoStart);
    let mut state = PicoBridgeState::default();
    ingest_host_i2c_slot(&mut state, &first).unwrap();
    let mut other = second;
    other[16] = 99;
    assert_eq!(ingest_host_i2c_slot(&mut state, &other), Err(SlotError::TransferId));
    let mut longer = second;
    longer[10] = 21;
    assert_eq!(ingest_host_i2c_slot(&mut state, &longer), Err(SlotError::TransferLength));
}

#[test]
fn each_malformed_request_has_its_error() {
    assert_eq!(i2c_request_to_gateway_uart(&[0xA5]), Err(FrameError::MissingEnvelope));
    assert_eq!(i2c_request_to_gateway_uart(&[0xA6, 0x5B, 0, 0]), Err(FrameError::Sync));
    assert_eq!(i2c_request_to_gateway_uart(&[0xA5, 0x5A, 1, 0]), Err(FrameError::Length));
    assert_eq!(
        FrameError::Length.message(),
        "invalid I2C DATA frame length"
    );
}

#[test]
fn a_frame_split_between_reads_is_delivered_whole() {
    let mut state = PicoBridgeState::default();
    receive_gateway_uart(&mut state, &[0x00, 0xA5]).unwrap();
    receive_gateway_uart(&mut state, &[0x5A, 2, 0, 7]).unwrap();
    assert_eq!(next_host_slot(&mut state), [0; 32]);
    receive_gateway_uart(&mut state, &[8]).unwrap();
    let slot = next_host_slot(&mut state);
    assert_eq!(slot[4], PICO_I2C_START | PICO_I2C_END);
    assert_eq!(&slot[18..24], &[0xA5, 0x5A, 2, 0, 7, 8]);
    assert_eq!(next_host_slot(&mut state), [0; 32]);
}

#[test]
fn an_oversized_frame_is_an_error() {
    let mut state = PicoBridgeState::default();
    assert_eq!(
        receive_gateway_uart(&mut state, &[0xA5, 0x5A, 0xff, 0xff]),
        Err(BridgeError::OversizedFrame)
    );
}

#[test]
fn a_host_that_breaks_off_ends_only_its_session() {
    assert_eq!(host_session(HostEvent::Closed), Ok(HostAction::End));
    assert_eq!(host_session(HostEvent::Broken), Ok(HostAction::End));
    assert_eq!(host_session(HostEvent::Paused), Ok(HostAction::Keep));
    assert_eq!(host_session(HostEvent::Served), Ok(HostAction::Keep));
    assert_eq!(
        host_session(HostEvent::Asked(b'W')),
        Ok(HostAction::Serve(HostOperation::Write))
    );
    assert_eq!(
        host_session(HostEvent::Asked(b'R')),
        Ok(HostAction::Serve(HostOperation::Read))
    );
    assert_eq!(
        host_session(HostEvent::Asked(0)),
        Err(BridgeError::UnknownOperation(0))
    );
}

#[test]
fn host_operations_are_single_letters() {
    assert_eq!(host_operation(b'W'), Ok(HostOperation::Write));
    assert_eq!(host_operation(b'R'), Ok(HostOperation::Read));
    assert_eq!(
        host_operation(0x0f).unwrap_err().message(),
        "unknown simulated I2C operation 0x0f"
    );
    assert_eq!(write_reply(true), 0);
    assert_eq!(write_reply(false), 1);
}

#[test]
fn completed_requests_are_counted_and_told() {
    let mut sender = PicoBridgeState::default();
    let mut frame = vec![0x5A, 0xA5, 20, 0];
    frame.extend(0..20_u8);
    enqueue_host_i2c_slots(&mut sender, &frame);
    let slots: Vec<[u8; 32]> = sender.host_reads.into_iter().collect();
    assert_eq!(slots.len(), 2);
    let mut state = PicoBridgeState::default();
    ingest_host_i2c_slot(&mut state, &slots[0]).unwrap();
    assert_eq!(state.i2c_to_uart_frames, 0);
    assert!(state.uart_tx_packets.is_empty());
    ingest_host_i2c_slot(&mut state, &slots[1]).unwrap();
    assert_eq!(state.i2c_to_uart_frames, 1);
    assert_eq!(state.uart_to_i2c_frames, 0);
    assert!(state.host_assembly.is_none());
    let mut sent = vec![0xA5, 0x5A];
    sent.extend_from_slice(&frame[2..]);
    assert_eq!(state.uart_tx_packets.back(), Some(&sent));
    assert_eq!(
        take_progress(&mut state),
        vec!["[SIM] Pico-Fi I2C->UART frame 1 translated (20 payload bytes, head [00, 01, 02, 03, 04, 05, 06, 07, 08, 09, 0a, 0b])"]
    );
    assert!(take_progress(&mut state).is_empty());
    assert!(ingest_host_i2c_slot(&mut state, &slots[1]).is_err());
    assert_eq!(state.i2c_to_uart_frames, 1);
    for _ in 1..50 {
        for slot in &slots {
            ingest_host_i2c_slot(&mut state, slot).unwrap();
        }
    }
    assert_eq!(state.i2c_to_uart_frames, 50);
    let told = take_progress(&mut state);
    assert_eq!(told.len(), 6);
    assert!(told[3].starts_with("[SIM] Pico-Fi I2C->UART frame 5 translated (20 payload"));
    assert!(told[4].contains(" frame 25 translated "));
    assert!(told[5].contains(" frame 50 translated "));
}

#[test]
fn crossing_frames_are_counted_and_told() {
    let mut state = PicoBridgeState::default();
    receive_gateway_uart(&mut state, &[0xA5]).unwrap();
    assert_eq!(state.uart_to_i2c_frames, 0);
    receive_gateway_uart(&mut state, &[0x5A, 1, 0, 7]).unwrap();
    assert_eq!(state.uart_to_i2c_frames, 1);
    assert_eq!(state.i2c_to_uart_frames, 0);
    assert_eq!(
        take_progress(&mut state),
        vec!["[SIM] Pico-Fi UART->I2C frame 1 translated (5 payload bytes, head [a5, 5a, 01, 00, 07])"]
    );
    let slot = next_host_slot(&mut state);
    assert_eq!(&slot[14..23], &[5, 0, 1, 0, 0xA5, 0x5A, 1, 0, 7]);
    assert!(state.host_reads.is_empty());
    let mut bytes = vec![0xA6, 0x5B, 1, 0, 9];
    for _ in 0..6 {
        bytes.extend_from_slice(&[0x5A, 0xA5, 0, 0]);
    }
    receive_gateway_uart(&mut state, &bytes).unwrap();
    assert_eq!(state.uart_to_i2c_frames, 7);
    let told = take_progress(&mut state);
    assert_eq!(told.len(), 4);
    assert!(told[3].ends_with("frame 5 translated (4 payload bytes, head [5a, a5, 00, 00])"));
}

#[test]
fn reads_may_split_a_stream_anywhere() {
    let stream = [
        0x01, 0xA5, 0xA5, 0x5A, 2, 0, 0xA5, 0x5A, 0xA7, 0x7A, 0, 0, 0x5A, 0xA5, 1, 0, 3, 0x5B,
    ];
    let mut whole = PicoBridgeState::default();
    receive_gateway_uart(&mut whole, &stream).unwrap();
    assert_eq!(whole.uart_to_i2c_frames, 2);
    for at in 0..stream.len() {
        let mut split = PicoBridgeState::default();
        receive_gateway_uart(&mut split, &stream[..at]).unwrap();
        receive_gateway_uart(&mut split, &stream[at..]).unwrap();
        assert_eq!(split.uart_rx, whole.uart_rx);
        assert_eq!(split.mailbox_packets, whole.mailbox_packets);
        assert_eq!(split.uart_to_i2c_frames, 2);
        assert_eq!(split.progress, whole.progress);
    }
}
