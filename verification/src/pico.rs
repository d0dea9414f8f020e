//! The Pico-Fi pair between a host and a gateway: fixed-size I2C slots on one
//! side, framed UART bytes on the other, and a bounded queue that overwrites
//! its oldest packets in each direction.

use std::collections::VecDeque;

use vstd::prelude::*;
use vstd::slice::slice_subrange;

use crate::arith::div_ceil;
use crate::elf::{le16, le32, lemma_number_at, number_at};
use crate::text::{dec, hex2, join, join_texts, texts, Text};

verus! {

pub const PICO_I2C_SLOT_SIZE: usize = 32;

pub const PICO_I2C_HEADER_SIZE: usize = 18;

pub const PICO_I2C_PAYLOAD_SIZE: usize = 14;

pub const PICO_I2C_VERSION: u8 = 1;

pub const PICO_I2C_DATA: u8 = 1;

pub const PICO_I2C_START: u8 = 1;

pub const PICO_I2C_END: u8 = 2;

pub const PICO_I2C_PACKET_MAX: usize = 4096;

pub const PICO_UART_MAX_FRAME: usize = 4100;

pub const PICO_PACKET_QUEUE_DEPTH: usize = 8;

pub const PICO_PACKET_QUEUE_BYTES: usize = 8192;

pub const PICO_UART_BAUD: u64 = 115_200;

pub const PICO_UART_BITS_PER_BYTE: u64 = 10;

pub const PICO_UART_EMULATION_PACING_SCALE: u64 = 12;

/// A transfer of which some slots have arrived.
#[derive(Debug)]
pub struct Assembly {
    pub transfer_id: u16,
    pub total: usize,
    pub payload: Vec<u8>,
}

#[derive(Debug)]
pub struct PicoBridgeState {
    pub host_assembly: Option<Assembly>,
    pub uart_rx: Vec<u8>,
    pub uart_tx_packets: VecDeque<Vec<u8>>,
    pub uart_tx_offset: usize,
    pub uart_tx_bytes: usize,
    /// Packets for the host, the newest last.
    pub mailbox_packets: VecDeque<Vec<u8>>,
    pub mailbox_bytes: usize,
    /// What is left of the transfer that the host is reading.
    pub host_reads: VecDeque<[u8; 32]>,
    pub next_transfer_id: u16,
    /// The requests that went to the gateway.
    pub i2c_to_uart_frames: u32,
    /// The frames that came for the host.
    pub uart_to_i2c_frames: u32,
    /// What there is to tell of them and was not told yet.
    pub progress: Vec<String>,
}

#[derive(Clone, Copy, Debug, PartialEq, Eq, Structural)]
pub enum FrameError {
    MissingEnvelope,
    Sync,
    Length,
}

#[derive(Clone, Copy, Debug, PartialEq, Eq, Structural)]
pub enum SlotError {
    Magic,
    Version,
    Kind,
    SlotSize,
    TransferSize,
    StartOffset,
    NoStart,
    TransferId,
    TransferLength,
    Discontinuous,
    Exceeded,
    EndedEarly,
    Frame(FrameError),
}

#[derive(Clone, Copy, Debug, PartialEq, Eq, Structural)]
pub enum BridgeError {
    OversizedFrame,
    UartClosed,
    UnknownOperation(u8),
}

impl FrameError {
    pub open spec fn text(self) -> Seq<char> {
        match self {
            FrameError::MissingEnvelope => "I2C DATA frame is missing its envelope"@,
            FrameError::Sync => "invalid I2C DATA frame sync"@,
            FrameError::Length => "invalid I2C DATA frame length"@,
        }
    }

    pub fn message(self) -> (res: String)
        ensures
            res@ == self.text(),
    {
        match self {
            FrameError::MissingEnvelope => "I2C DATA frame is missing its envelope".to_owned(),
            FrameError::Sync => "invalid I2C DATA frame sync".to_owned(),
            FrameError::Length => "invalid I2C DATA frame length".to_owned(),
        }
    }
}

impl SlotError {
    pub open spec fn text(self) -> Seq<char> {
        match self {
            SlotError::Magic => "invalid Pico-Fi I2C slot magic"@,
            SlotError::Version => "unsupported Pico-Fi I2C slot version"@,
            SlotError::Kind => "unsupported Pico-Fi I2C slot kind"@,
            SlotError::SlotSize => "oversized Pico-Fi I2C slot"@,
            SlotError::TransferSize => "oversized Pico-Fi transfer"@,
            SlotError::StartOffset => "Pico-Fi transfer starts at a nonzero offset"@,
            SlotError::NoStart => "Pico-Fi continuation without START"@,
            SlotError::TransferId => "Pico-Fi transfer id changed"@,
            SlotError::TransferLength => "Pico-Fi transfer length changed"@,
            SlotError::Discontinuous => "Pico-Fi transfer offset is discontinuous"@,
            SlotError::Exceeded => "Pico-Fi transfer exceeded declared length"@,
            SlotError::EndedEarly => "Pico-Fi transfer ended early"@,
            SlotError::Frame(error) => error.text(),
        }
    }

    pub fn message(self) -> (res: String)
        ensures
            res@ == self.text(),
    {
        match self {
            SlotError::Magic => "invalid Pico-Fi I2C slot magic".to_owned(),
            SlotError::Version => "unsupported Pico-Fi I2C slot version".to_owned(),
            SlotError::Kind => "unsupported Pico-Fi I2C slot kind".to_owned(),
            SlotError::SlotSize => "oversized Pico-Fi I2C slot".to_owned(),
            SlotError::TransferSize => "oversized Pico-Fi transfer".to_owned(),
            SlotError::StartOffset => "Pico-Fi transfer starts at a nonzero offset".to_owned(),
            SlotError::NoStart => "Pico-Fi continuation without START".to_owned(),
            SlotError::TransferId => "Pico-Fi transfer id changed".to_owned(),
            SlotError::TransferLength => "Pico-Fi transfer length changed".to_owned(),
            SlotError::Discontinuous => "Pico-Fi transfer offset is discontinuous".to_owned(),
            SlotError::Exceeded => "Pico-Fi transfer exceeded declared length".to_owned(),
            SlotError::EndedEarly => "Pico-Fi transfer ended early".to_owned(),
            SlotError::Frame(error) => error.message(),
        }
    }
}

impl BridgeError {
    pub open spec fn text(self) -> Seq<char> {
        match self {
            BridgeError::OversizedFrame => "Gateway UART frame is oversized"@,
            BridgeError::UartClosed => "Gateway UART closed during Pico-Fi transfer"@,
            BridgeError::UnknownOperation(byte) => "unknown simulated I2C operation 0x"@ + hex2(
                byte as nat,
            ),
        }
    }

    pub fn message(self) -> (res: String)
        ensures
            res@ == self.text(),
    {
        match self {
            BridgeError::OversizedFrame => "Gateway UART frame is oversized".to_owned(),
            BridgeError::UartClosed => "Gateway UART closed during Pico-Fi transfer".to_owned(),
            BridgeError::UnknownOperation(byte) => Text::new(
                "unknown simulated I2C operation 0x",
            ).hex2(byte as u64).done(),
        }
    }
}

// ---------------------------------------------------------------------------
// Frames
// ---------------------------------------------------------------------------

/// The two bytes that open a DATA frame.
pub open spec fn data_sync(first: u8, second: u8) -> bool {
    first == 0xA5 && second == 0x5A || first == 0x5A && second == 0xA5
}

/// The two bytes that open any frame.
pub open spec fn any_sync(first: u8, second: u8) -> bool {
    ||| data_sync(first, second)
    ||| first == 0xA6 && second == 0x5B
    ||| first == 0x5B && second == 0xA6
    ||| first == 0xA7 && second == 0x7A
}

/// The declared length of a frame whose header has arrived.
pub open spec fn frame_length(frame: Seq<u8>) -> Option<int> {
    if frame.len() < 4 {
        None
    } else {
        Some(4 + le16(frame, 2))
    }
}

pub fn complete_uart_frame_length(frame: &[u8]) -> (res: Option<usize>)
    ensures
        match frame_length(frame@) {
            Some(length) => res matches Some(found) && found == length,
            None => res is None,
        },
{
    if frame.len() < 4 {
        return None;
    }
    Some(4 + (frame[2] as usize + 0x100 * (frame[3] as usize)))
}

fn is_data_sync(first: u8, second: u8) -> (res: bool)
    ensures
        res == data_sync(first, second),
{
    first == 0xA5 && second == 0x5A || first == 0x5A && second == 0xA5
}

fn is_any_sync(first: u8, second: u8) -> (res: bool)
    ensures
        res == any_sync(first, second),
{
    is_data_sync(first, second) || first == 0xA6 && second == 0x5B || first == 0x5B && second
        == 0xA6 || first == 0xA7 && second == 0x7A
}

pub open spec fn request_error(frame: Seq<u8>) -> Option<FrameError> {
    if frame.len() < 4 {
        Some(FrameError::MissingEnvelope)
    } else if !data_sync(frame[0], frame[1]) {
        Some(FrameError::Sync)
    } else if 4 + le16(frame, 2) != frame.len() {
        Some(FrameError::Length)
    } else {
        None
    }
}

/// The frame that the gateway receives for a host's request: the same payload
/// in an envelope of its own.
pub open spec fn gateway_frame(frame: Seq<u8>) -> Seq<u8> {
    seq![0xA5u8, 0x5Au8] + frame.skip(2)
}

pub fn i2c_request_to_gateway_uart(frame: &[u8]) -> (res: Result<Vec<u8>, FrameError>)
    ensures
        match request_error(frame@) {
            Some(error) => res == Err::<Vec<u8>, FrameError>(error),
            None => res matches Ok(translated) && translated@ == gateway_frame(frame@),
        },
{
    if frame.len() < 4 {
        return Err(FrameError::MissingEnvelope);
    }
    if !is_data_sync(frame[0], frame[1]) {
        return Err(FrameError::Sync);
    }
    let payload: usize = frame[2] as usize + 0x100 * (frame[3] as usize);
    if payload + 4 != frame.len() {
        return Err(FrameError::Length);
    }
    let mut translated: Vec<u8> = Vec::new();
    translated.push(0xA5);
    translated.push(0x5A);
    let mut i: usize = 2;
    while i < frame.len()
        invariant
            2 <= i <= frame@.len(),
            translated@ == seq![0xA5u8, 0x5Au8] + frame@.subrange(2, i as int),
        decreases frame@.len() - i,
    {
        translated.push(frame[i]);
        i = i + 1;
        assert(translated@ =~= seq![0xA5u8, 0x5Au8] + frame@.subrange(2, i as int));
    }
    assert(frame@.subrange(2, i as int) =~= frame@.skip(2));
    Ok(translated)
}

/// A whole DATA frame, which crosses the bridge. Commands are consumed by the
/// device that receives them.
pub open spec fn crosses(frame: Seq<u8>) -> bool {
    frame_length(frame) == Some(frame.len() as int) && data_sync(frame[0], frame[1])
}

pub fn gateway_uart_to_i2c_response(frame: &[u8]) -> (res: Option<Vec<u8>>)
    ensures
        if crosses(frame@) {
            res matches Some(response) && response@ == frame@
        } else {
            res is None
        },
{
    match complete_uart_frame_length(frame) {
        Some(length) => {
            if length != frame.len() || !is_data_sync(frame[0], frame[1]) {
                return None;
            }
        },
        None => {
            return None;
        },
    }
    Some(copy_bytes(frame))
}

fn copy_bytes(bytes: &[u8]) -> (res: Vec<u8>)
    ensures
        res@ == bytes@,
{
    let mut copy: Vec<u8> = Vec::new();
    let mut i: usize = 0;
    while i < bytes.len()
        invariant
            i <= bytes@.len(),
            copy@ == bytes@.take(i as int),
        decreases bytes@.len() - i,
    {
        copy.push(bytes[i]);
        i = i + 1;
        assert(copy@ =~= bytes@.take(i as int));
    }
    assert(bytes@.take(i as int) =~= bytes@);
    copy
}

// ---------------------------------------------------------------------------
// Bounded queues
// ---------------------------------------------------------------------------

pub open spec fn contents(packets: Seq<Vec<u8>>) -> Seq<Seq<u8>> {
    packets.map_values(|packet: Vec<u8>| packet@)
}

pub open spec fn byte_count(packets: Seq<Seq<u8>>) -> int
    decreases packets.len(),
{
    if packets.len() == 0 {
        0
    } else {
        packets[0].len() + byte_count(packets.skip(1))
    }
}

pub open spec fn has_room(packets: Seq<Seq<u8>>, size: int) -> bool {
    packets.len() < PICO_PACKET_QUEUE_DEPTH && byte_count(packets) + size
        <= PICO_PACKET_QUEUE_BYTES
}

/// What is left of a queue when its oldest packets have made way for one of
/// `size` bytes.
pub open spec fn making_room(packets: Seq<Seq<u8>>, size: int) -> Seq<Seq<u8>>
    decreases packets.len(),
{
    if packets.len() == 0 || has_room(packets, size) {
        packets
    } else {
        making_room(packets.skip(1), size)
    }
}

pub open spec fn enqueued(packets: Seq<Seq<u8>>, packet: Seq<u8>) -> Seq<Seq<u8>> {
    making_room(packets, packet.len() as int).push(packet)
}

proof fn lemma_byte_count_push(packets: Seq<Seq<u8>>, packet: Seq<u8>)
    ensures
        byte_count(packets.push(packet)) == byte_count(packets) + packet.len(),
    decreases packets.len(),
{
    if packets.len() == 0 {
        assert(packets.push(packet).skip(1) =~= Seq::<Seq<u8>>::empty());
        assert(byte_count(packets.push(packet).skip(1)) == 0);
    } else {
        assert(packets.push(packet).skip(1) =~= packets.skip(1).push(packet));
        lemma_byte_count_push(packets.skip(1), packet);
    }
}

proof fn lemma_byte_count(packets: Seq<Seq<u8>>)
    ensures
        byte_count(packets) >= 0,
        packets.len() > 0 ==> byte_count(packets) == packets[0].len() + byte_count(packets.skip(1)),
    decreases packets.len(),
{
    if packets.len() > 0 {
        lemma_byte_count(packets.skip(1));
    }
}

/// Puts `packet` at the end of a queue, at the price of its oldest packets.
/// Says whether any was dropped.
fn enqueue(packets: &mut VecDeque<Vec<u8>>, bytes: &mut usize, packet: Vec<u8>) -> (res: bool)
    requires
        *old(bytes) == byte_count(contents(old(packets)@)),
    ensures
        contents(final(packets)@) == enqueued(contents(old(packets)@), packet@),
        *final(bytes) == byte_count(contents(final(packets)@)),
        res == (final(packets)@.len() < old(packets)@.len() + 1),
{
    let size: usize = packet.len();
    let mut dropped = false;
    let ghost before = contents(packets@);
    while packets.len() >= PICO_PACKET_QUEUE_DEPTH || size > PICO_PACKET_QUEUE_BYTES || *bytes
        > PICO_PACKET_QUEUE_BYTES - size
        invariant_except_break
            size == packet@.len(),
            before == contents(old(packets)@),
            *bytes == byte_count(contents(packets@)),
            making_room(before, size as int) == making_room(contents(packets@), size as int),
            packets@.len() <= old(packets)@.len(),
            dropped == (packets@.len() < old(packets)@.len()),
        ensures
            size == packet@.len(),
            *bytes == byte_count(contents(packets@)),
            *bytes + size <= usize::MAX,
            contents(packets@) == making_room(before, size as int),
            packets@.len() <= old(packets)@.len(),
            dropped == (packets@.len() < old(packets)@.len()),
        decreases packets@.len(),
    {
        let ghost queue = packets@;
        proof {
            lemma_byte_count(contents(queue));
            lemma_byte_count(contents(queue).skip(1));
        }
        match packets.pop_front() {
            Some(oldest) => {
                assert(contents(packets@) =~= contents(queue).skip(1));
                assert(contents(queue)[0] == oldest@);
                *bytes = *bytes - oldest.len();
                dropped = true;
            },
            None => {
                assert(contents(packets@) =~= Seq::<Seq<u8>>::empty());
                break;
            },
        }
    }
    let ghost kept = packets@;
    proof {
        lemma_byte_count_push(contents(kept), packet@);
    }
    *bytes = *bytes + size;
    packets.push_back(packet);
    assert(contents(packets@) =~= contents(kept).push(packet@));
    dropped
}

/// A queue never holds more packets than its depth nor, unless one packet
/// alone is larger, more bytes than its limit. The newest packet is always
/// kept, and those in front of it are the newest of what was queued, in their
/// order.
pub proof fn law_queue_is_bounded(packets: Seq<Seq<u8>>, packet: Seq<u8>)
    ensures
        enqueued(packets, packet).len() <= PICO_PACKET_QUEUE_DEPTH,
        packet.len() <= PICO_PACKET_QUEUE_BYTES ==> byte_count(enqueued(packets, packet))
            <= PICO_PACKET_QUEUE_BYTES,
        enqueued(packets, packet).last() == packet,
        exists|dropped: int|
            0 <= dropped <= packets.len() && enqueued(packets, packet) == #[trigger] packets.skip(
                dropped,
            ).push(packet),
    decreases packets.len(),
{
    lemma_byte_count_push(making_room(packets, packet.len() as int), packet);
    if packets.len() == 0 || has_room(packets, packet.len() as int) {
        assert(packets.skip(0) =~= packets);
        assert(enqueued(packets, packet) == packets.skip(0).push(packet));
    } else {
        law_queue_is_bounded(packets.skip(1), packet);
        let dropped = choose|dropped: int|
            0 <= dropped <= packets.skip(1).len() && enqueued(packets.skip(1), packet)
                == #[trigger] packets.skip(1).skip(dropped).push(packet);
        assert(packets.skip(1).skip(dropped) =~= packets.skip(1 + dropped));
        assert(enqueued(packets, packet) == packets.skip(1 + dropped).push(packet));
    }
}

/// A packet that fits is queued behind the others, and nothing is lost.
pub proof fn law_nothing_is_dropped_while_there_is_room(packets: Seq<Seq<u8>>, packet: Seq<u8>)
    requires
        has_room(packets, packet.len() as int),
    ensures
        enqueued(packets, packet) == packets.push(packet),
{
}

// ---------------------------------------------------------------------------
// The bridge's state
// ---------------------------------------------------------------------------

impl PicoBridgeState {
    /// The counts are those of the queues, no packet for the gateway is empty
    /// and none for the host is longer than a frame, and what was sent of the
    /// first packet is less than all of it.
    pub open spec fn consistent(&self) -> bool {
        &&& self.uart_tx_bytes == byte_count(contents(self.uart_tx_packets@))
        &&& self.mailbox_bytes == byte_count(contents(self.mailbox_packets@))
        &&& forall|i: int|
            0 <= i < self.uart_tx_packets@.len() ==> (#[trigger] self.uart_tx_packets@[i])@.len()
                > 0
        &&& forall|i: int|
            0 <= i < self.mailbox_packets@.len() ==> (#[trigger] self.mailbox_packets@[i])@.len()
                <= PICO_UART_MAX_FRAME
        &&& if self.uart_tx_packets@.len() == 0 {
            self.uart_tx_offset == 0
        } else {
            self.uart_tx_offset < self.uart_tx_packets@[0]@.len()
        }
    }

    /// All but the UART transmit queue is as it was.
    pub open spec fn same_but_uart_tx(&self, other: &Self) -> bool {
        &&& self.host_assembly == other.host_assembly
        &&& self.uart_rx == other.uart_rx
        &&& self.mailbox_packets == other.mailbox_packets
        &&& self.mailbox_bytes == other.mailbox_bytes
        &&& self.host_reads == other.host_reads
        &&& self.next_transfer_id == other.next_transfer_id
        &&& self.same_counts(other)
    }

    /// What was counted and what there is to tell is as it was.
    pub open spec fn same_counts(&self, other: &Self) -> bool {
        &&& self.i2c_to_uart_frames == other.i2c_to_uart_frames
        &&& self.uart_to_i2c_frames == other.uart_to_i2c_frames
        &&& self.progress == other.progress
    }

    /// Nothing was counted and there is nothing to tell.
    pub open spec fn uncounted(&self) -> bool {
        &&& self.i2c_to_uart_frames == 0
        &&& self.uart_to_i2c_frames == 0
        &&& self.progress@.len() == 0
    }

    /// A bridge that has just started.
    pub fn new() -> (res: Self)
        ensures
            res.consistent(),
            res.host_assembly is None,
            res.uart_rx@.len() == 0,
            res.uart_tx_packets@.len() == 0,
            res.mailbox_packets@.len() == 0,
            res.host_reads@.len() == 0,
            res.next_transfer_id == 1,
            res.uncounted(),
    {
        let mut state = PicoBridgeState::default();
        state.next_transfer_id = 1;
        state
    }
}

impl Default for PicoBridgeState {
    fn default() -> (res: Self)
        ensures
            res.consistent(),
            res.host_assembly is None,
            res.uart_rx@.len() == 0,
            res.uart_tx_packets@.len() == 0,
            res.mailbox_packets@.len() == 0,
            res.host_reads@.len() == 0,
            res.next_transfer_id == 0,
            res.uncounted(),
    {
        PicoBridgeState {
            host_assembly: None,
            uart_rx: Vec::new(),
            uart_tx_packets: VecDeque::new(),
            uart_tx_offset: 0,
            uart_tx_bytes: 0,
            mailbox_packets: VecDeque::new(),
            mailbox_bytes: 0,
            host_reads: VecDeque::new(),
            next_transfer_id: 0,
            i2c_to_uart_frames: 0,
            uart_to_i2c_frames: 0,
            progress: Vec::new(),
        }
    }
}

proof fn lemma_enqueued_nonempty(packets: Seq<Seq<u8>>, packet: Seq<u8>)
    requires
        packet.len() > 0,
        forall|i: int| 0 <= i < packets.len() ==> (#[trigger] packets[i]).len() > 0,
    ensures
        forall|i: int|
            0 <= i < enqueued(packets, packet).len() ==> (#[trigger] enqueued(
                packets,
                packet,
            )[i]).len() > 0,
        enqueued(packets, packet).len() == packets.len() + 1 && packets.len() > 0 ==> enqueued(
            packets,
            packet,
        )[0] == packets[0],
{
    law_queue_is_bounded(packets, packet);
    let dropped = choose|dropped: int|
        0 <= dropped <= packets.len() && enqueued(packets, packet) == #[trigger] packets.skip(
            dropped,
        ).push(packet);
}

/// Admits a packet to the gateway's side. Where the packet being sent is
/// dropped for it, sending starts over with the next.
pub fn enqueue_gateway_uart_packet(state: &mut PicoBridgeState, packet: Vec<u8>)
    requires
        old(state).consistent(),
        packet@.len() > 0,
    ensures
        final(state).consistent(),
        final(state).same_but_uart_tx(old(state)),
        contents(final(state).uart_tx_packets@) == enqueued(
            contents(old(state).uart_tx_packets@),
            packet@,
        ),
        final(state).uart_tx_offset == if final(state).uart_tx_packets@.len() == old(
            state,
        ).uart_tx_packets@.len() + 1 {
            old(state).uart_tx_offset
        } else {
            0
        },
{
    let ghost before = contents(state.uart_tx_packets@);
    let ghost added = packet@;
    proof {
        assert forall|i: int| 0 <= i < before.len() implies (#[trigger] before[i]).len() > 0 by {
            assert(state.uart_tx_packets@[i]@.len() > 0);
        }
        lemma_enqueued_nonempty(before, added);
    }
    let dropped = enqueue(&mut state.uart_tx_packets, &mut state.uart_tx_bytes, packet);
    if dropped {
        state.uart_tx_offset = 0;
    }
    proof {
        let after = contents(state.uart_tx_packets@);
        law_queue_is_bounded(before, added);
        assert forall|i: int| 0 <= i < state.uart_tx_packets@.len() implies (
        #[trigger] state.uart_tx_packets@[i])@.len() > 0 by {
            assert(after[i].len() > 0);
        }
        assert(after[0] == state.uart_tx_packets@[0]@);
    }
}

// ---------------------------------------------------------------------------
// Sending to the gateway
// ---------------------------------------------------------------------------

/// What became of the last thing that the sender was told to do.
#[derive(Clone, Copy, Debug, PartialEq, Eq, Structural)]
pub enum UartEvent {
    /// Sending begins, or the wait after a byte is over.
    Ready,
    /// The port took this many of the one byte offered.
    Written(usize),
    WouldBlock,
}

#[derive(Clone, Copy, Debug, PartialEq, Eq, Structural)]
pub enum UartAction {
    Write(u8),
    WaitNanos(u64),
    Done,
}

/// The time one byte takes on the wire, stretched to virtual time.
pub open spec fn byte_time_nanos() -> int {
    1_000_000_000int * PICO_UART_BITS_PER_BYTE * PICO_UART_EMULATION_PACING_SCALE / PICO_UART_BAUD as int
}

impl PicoBridgeState {
    /// All bytes that are still to be sent, in their order.
    pub open spec fn unsent(&self) -> Seq<u8> {
        contents(self.uart_tx_packets@).flatten().skip(self.uart_tx_offset as int)
    }
}

proof fn lemma_flatten_first(packets: Seq<Seq<u8>>)
    requires
        packets.len() > 0,
    ensures
        packets.flatten() == packets[0] + packets.skip(1).flatten(),
{
    assert(packets.drop_first() =~= packets.skip(1));
}

/// Decides how sending goes on: one byte at a time, with the wire's pause
/// after each.
pub fn drain_gateway_uart_tx_paced(state: &mut PicoBridgeState, event: UartEvent) -> (res: Result<
    UartAction,
    BridgeError,
>)
    requires
        old(state).consistent(),
        event matches UartEvent::Written(count) ==> count <= 1 && old(state).unsent().len() > 0,
    ensures
        final(state).consistent(),
        final(state).same_but_uart_tx(old(state)),
        match event {
            UartEvent::Ready => *final(state) == *old(state) && match res {
                Ok(UartAction::Write(byte)) => old(state).unsent().len() > 0 && byte == old(
                    state,
                ).unsent()[0],
                Ok(UartAction::Done) => old(state).unsent().len() == 0,
                _ => false,
            },
            UartEvent::Written(count) => if count == 0 {
                *final(state) == *old(state) && res == Err::<UartAction, BridgeError>(
                    BridgeError::UartClosed,
                )
            } else {
                &&& final(state).unsent() == old(state).unsent().skip(1)
                &&& res matches Ok(UartAction::WaitNanos(nanos)) && nanos == byte_time_nanos()
            },
            UartEvent::WouldBlock => *final(state) == *old(state) && res == Ok::<
                UartAction,
                BridgeError,
            >(UartAction::Done),
        },
{
    let ghost packets = contents(state.uart_tx_packets@);
    proof {
        if packets.len() > 0 {
            lemma_flatten_first(packets);
            assert(packets[0] == state.uart_tx_packets@[0]@);
        } else {
            assert(packets =~= Seq::<Seq<u8>>::empty());
        }
    }
    match event {
        UartEvent::Ready => {
            if state.uart_tx_packets.len() == 0 {
                return Ok(UartAction::Done);
            }
            let byte: u8 = state.uart_tx_packets[0][state.uart_tx_offset];
            Ok(UartAction::Write(byte))
        },
        UartEvent::Written(count) => {
            if count == 0 {
                return Err(BridgeError::UartClosed);
            }
            let ghost rest = packets.skip(1).flatten();
            let ghost offset = state.uart_tx_offset as int;
            let length: usize = state.uart_tx_packets[0].len();
            state.uart_tx_offset = state.uart_tx_offset + 1;
            if state.uart_tx_offset == length {
                let ghost queue = state.uart_tx_packets@;
                proof {
                    lemma_byte_count(packets);
                    lemma_byte_count(packets.skip(1));
                }
                if let Some(sent) = state.uart_tx_packets.pop_front() {
                    state.uart_tx_bytes = state.uart_tx_bytes - sent.len();
                }
                state.uart_tx_offset = 0;
                proof {
                    assert(contents(state.uart_tx_packets@) =~= packets.skip(1));
                    assert((packets[0] + rest).skip(offset).skip(1) =~= rest.skip(0));
                    assert forall|i: int| 0 <= i < state.uart_tx_packets@.len() implies (
                    #[trigger] state.uart_tx_packets@[i])@.len() > 0 by {
                        assert(state.uart_tx_packets@[i] == queue[i + 1]);
                    }
                }
            } else {
                assert((packets[0] + rest).skip(offset).skip(1) =~= (packets[0] + rest).skip(
                    offset + 1,
                ));
            }
            Ok(
                UartAction::WaitNanos(
                    1_000_000_000 * PICO_UART_BITS_PER_BYTE * PICO_UART_EMULATION_PACING_SCALE
                        / PICO_UART_BAUD,
                ),
            )
        },
        UartEvent::WouldBlock => Ok(UartAction::Done),
    }
}

// ---------------------------------------------------------------------------
// What there is to tell
// ---------------------------------------------------------------------------

pub open spec fn hex_pairs(bytes: Seq<u8>) -> Seq<Seq<char>> {
    Seq::new(bytes.len(), |i: int| ""@ + hex2(bytes[i] as nat))
}

/// `[a5, 5a]`.
pub open spec fn byte_list(bytes: Seq<u8>) -> Seq<char> {
    "["@ + join(hex_pairs(bytes), ", "@) + "]"@
}

/// The bytes of `frame` from `start` up to `end`, as far as there are any.
pub open spec fn head(frame: Seq<u8>, start: int, end: int) -> Seq<u8> {
    frame.subrange(
        start,
        if frame.len() < end {
            frame.len() as int
        } else {
            end
        },
    )
}

pub open spec fn translated_text(direction: Seq<char>, count: int, bytes: int, shown: Seq<u8>) -> Seq<
    char,
> {
    "[SIM] Pico-Fi "@ + direction + " frame "@ + dec(count as nat) + " translated ("@ + dec(
        bytes as nat,
    ) + " payload bytes, head "@ + byte_list(shown) + ")"@
}

/// What is told of the request that is number `count`: of the first five, and
/// of every twenty-fifth.
pub open spec fn request_lines(count: int, request: Seq<u8>) -> Seq<Seq<char>> {
    if count <= 5 || count % 25 == 0 {
        seq![translated_text("I2C->UART"@, count, request.len() - 4, head(request, 4, 16))]
    } else {
        Seq::empty()
    }
}

/// What is told of the frame that is number `count`: of the first five.
pub open spec fn response_lines(count: int, frame: Seq<u8>) -> Seq<Seq<char>> {
    if count <= 5 {
        seq![translated_text("UART->I2C"@, count, frame.len() as int, head(frame, 0, 12))]
    } else {
        Seq::empty()
    }
}

/// What is told of the first `end` of `frames`, where `before` came earlier.
pub open spec fn all_response_lines(before: int, frames: Seq<Seq<u8>>, end: int) -> Seq<Seq<char>>
    decreases end,
{
    if end <= 0 {
        Seq::empty()
    } else {
        all_response_lines(before, frames, end - 1) + response_lines(
            before + end,
            frames[end - 1],
        )
    }
}

fn render_bytes(bytes: &[u8]) -> (res: String)
    ensures
        res@ == byte_list(bytes@),
{
    let mut pairs: Vec<String> = Vec::new();
    let mut i: usize = 0;
    assert(texts(pairs@) =~= hex_pairs(bytes@).take(0));
    while i < bytes.len()
        invariant
            i <= bytes@.len(),
            texts(pairs@) == hex_pairs(bytes@).take(i as int),
        decreases bytes@.len() - i,
    {
        let ghost before = texts(pairs@);
        pairs.push(Text::new("").hex2(bytes[i] as u64).done());
        assert(texts(pairs@) =~= before.push(hex_pairs(bytes@)[i as int]));
        i = i + 1;
        assert(texts(pairs@) =~= hex_pairs(bytes@).take(i as int));
    }
    assert(hex_pairs(bytes@).take(i as int) =~= hex_pairs(bytes@));
    Text::new("[").str(join_texts(pairs.as_slice(), ", ").as_str()).str("]").done()
}

fn render_translated(direction: &str, count: u32, bytes: usize, shown: &[u8]) -> (res: String)
    ensures
        res@ == translated_text(direction@, count as int, bytes as int, shown@),
{
    Text::new("[SIM] Pico-Fi ").str(direction).str(" frame ").dec(count as u64).str(
        " translated (",
    ).dec(bytes as u64).str(" payload bytes, head ").str(render_bytes(shown).as_str()).str(
        ")",
    ).done()
}

fn head_of(frame: &[u8], start: usize, end: usize) -> (res: &[u8])
    requires
        start <= end,
        start <= frame@.len(),
    ensures
        res@ == head(frame@, start as int, end as int),
{
    let last: usize = if frame.len() < end {
        frame.len()
    } else {
        end
    };
    slice_subrange(frame, start, last)
}

fn push_line(progress: &mut Vec<String>, line: String)
    ensures
        texts(final(progress)@) == texts(old(progress)@) + seq![line@],
{
    let ghost before = texts(progress@);
    let ghost told = line@;
    progress.push(line);
    assert(texts(progress@) =~= before + seq![told]);
}

fn note_request(state: &mut PicoBridgeState, request: &[u8])
    requires
        request@.len() >= 4,
    ensures
        texts(final(state).progress@) == texts(old(state).progress@) + request_lines(
            old(state).i2c_to_uart_frames as int,
            request@,
        ),
        *final(state) == (PicoBridgeState { progress: final(state).progress, ..*old(state) }),
{
    let count: u32 = state.i2c_to_uart_frames;
    if count <= 5 || count % 25 == 0 {
        let shown = head_of(request, 4, 16);
        let line = render_translated("I2C->UART", count, request.len() - 4, shown);
        push_line(&mut state.progress, line);
    } else {
        assert(texts(state.progress@) =~= texts(state.progress@) + Seq::<Seq<char>>::empty());
    }
}

fn note_response(state: &mut PicoBridgeState, frame: &[u8])
    ensures
        texts(final(state).progress@) == texts(old(state).progress@) + response_lines(
            old(state).uart_to_i2c_frames as int,
            frame@,
        ),
        *final(state) == (PicoBridgeState { progress: final(state).progress, ..*old(state) }),
{
    let count: u32 = state.uart_to_i2c_frames;
    if count <= 5 {
        let shown = head_of(frame, 0, 12);
        let line = render_translated("UART->I2C", count, frame.len(), shown);
        push_line(&mut state.progress, line);
    } else {
        assert(texts(state.progress@) =~= texts(state.progress@) + Seq::<Seq<char>>::empty());
    }
}

/// Hands out what there is to tell.
pub fn take_progress(state: &mut PicoBridgeState) -> (res: Vec<String>)
    ensures
        res@ == old(state).progress@,
        final(state).progress@.len() == 0,
        *final(state) == (PicoBridgeState { progress: final(state).progress, ..*old(state) }),
{
    let mut lines: Vec<String> = Vec::new();
    std::mem::swap(&mut lines, &mut state.progress);
    lines
}

// ---------------------------------------------------------------------------
// Slots from the host
// ---------------------------------------------------------------------------

/// A transfer of which `payload` has arrived.
pub ghost struct Transfer {
    pub id: int,
    pub total: int,
    pub payload: Seq<u8>,
}

impl Assembly {
    pub open spec fn transfer(&self) -> Transfer {
        Transfer {
            id: self.transfer_id as int,
            total: self.total as int,
            payload: self.payload@,
        }
    }
}

pub open spec fn transfer_of(assembly: Option<Assembly>) -> Option<Transfer> {
    match assembly {
        Some(assembly) => Some(assembly.transfer()),
        None => None,
    }
}

pub open spec fn slot_flag(slot: Seq<u8>, flag: u8) -> bool {
    slot[4] & flag != 0
}

pub open spec fn slot_offset(slot: Seq<u8>) -> int {
    le32(slot, 6)
}

pub open spec fn slot_total(slot: Seq<u8>) -> int {
    le32(slot, 10)
}

pub open spec fn slot_length(slot: Seq<u8>) -> int {
    le16(slot, 14)
}

pub open spec fn slot_id(slot: Seq<u8>) -> int {
    le16(slot, 16)
}

/// What is wrong with a slot, whatever came before it.
pub open spec fn slot_error(slot: Seq<u8>) -> Option<SlotError> {
    if !(slot[0] == 0x49 && slot[1] == 0x32) {
        Some(SlotError::Magic)
    } else if slot[2] != PICO_I2C_VERSION {
        Some(SlotError::Version)
    } else if slot[3] != PICO_I2C_DATA {
        Some(SlotError::Kind)
    } else if slot_length(slot) > PICO_I2C_PAYLOAD_SIZE {
        Some(SlotError::SlotSize)
    } else if slot_total(slot) > PICO_I2C_PACKET_MAX {
        Some(SlotError::TransferSize)
    } else if slot_flag(slot, PICO_I2C_START) && slot_offset(slot) != 0 {
        Some(SlotError::StartOffset)
    } else {
        None
    }
}

/// The transfer that a slot belongs to: a new one, where it starts one.
pub open spec fn slot_transfer(before: Option<Transfer>, slot: Seq<u8>) -> Option<Transfer> {
    if slot_flag(slot, PICO_I2C_START) {
        Some(Transfer { id: slot_id(slot), total: slot_total(slot), payload: Seq::empty() })
    } else {
        before
    }
}

/// A slot's own part of the transfer.
pub open spec fn slot_payload(slot: Seq<u8>) -> Seq<u8> {
    slot.subrange(PICO_I2C_HEADER_SIZE as int, PICO_I2C_HEADER_SIZE + slot_length(slot))
}

/// What a slot makes of the transfer under way: the transfer afterwards, and
/// the slot's error or the request that it completes.
pub open spec fn ingested(before: Option<Transfer>, slot: Seq<u8>) -> (
    Option<Transfer>,
    Result<Option<Seq<u8>>, SlotError>,
) {
    match slot_error(slot) {
        Some(error) => (before, Err(error)),
        None => match slot_transfer(before, slot) {
            None => (None, Err(SlotError::NoStart)),
            Some(transfer) => {
                let payload = transfer.payload + slot_payload(slot);
                let grown = Transfer { payload, ..transfer };
                if transfer.id != slot_id(slot) {
                    (Some(transfer), Err(SlotError::TransferId))
                } else if transfer.total != slot_total(slot) {
                    (Some(transfer), Err(SlotError::TransferLength))
                } else if transfer.payload.len() != slot_offset(slot) {
                    (Some(transfer), Err(SlotError::Discontinuous))
                } else if payload.len() > slot_total(slot) {
                    (Some(grown), Err(SlotError::Exceeded))
                } else if !slot_flag(slot, PICO_I2C_END) {
                    (Some(grown), Ok(None))
                } else if payload.len() != slot_total(slot) {
                    (Some(grown), Err(SlotError::EndedEarly))
                } else {
                    match request_error(payload) {
                        Some(error) => (None, Err(SlotError::Frame(error))),
                        None => (None, Ok(Some(payload))),
                    }
                }
            },
        },
    }
}

fn slot_u16(slot: &[u8; 32], at: usize) -> (res: u16)
    requires
        at + 2 <= 32,
    ensures
        res == le16(slot@, at as int),
{
    slot[at] as u16 + 0x100 * (slot[at + 1] as u16)
}

fn slot_u32(slot: &[u8; 32], at: usize) -> (res: u32)
    requires
        at + 4 <= 32,
    ensures
        res == le32(slot@, at as int),
{
    slot_u16(slot, at) as u32 + 0x1_0000 * (slot_u16(slot, at + 2) as u32)
}

fn check_slot(slot: &[u8; 32]) -> (res: Result<(), SlotError>)
    ensures
        match slot_error(slot@) {
            Some(error) => res == Err::<(), SlotError>(error),
            None => res is Ok,
        },
{
    if !(slot[0] == 0x49 && slot[1] == 0x32) {
        return Err(SlotError::Magic);
    }
    if slot[2] != PICO_I2C_VERSION {
        return Err(SlotError::Version);
    }
    if slot[3] != PICO_I2C_DATA {
        return Err(SlotError::Kind);
    }
    if slot_u16(slot, 14) as usize > PICO_I2C_PAYLOAD_SIZE {
        return Err(SlotError::SlotSize);
    }
    if slot_u32(slot, 10) as usize > PICO_I2C_PACKET_MAX {
        return Err(SlotError::TransferSize);
    }
    if slot[4] & PICO_I2C_START != 0 && slot_u32(slot, 6) != 0 {
        return Err(SlotError::StartOffset);
    }
    Ok(())
}

/// Takes a slot that the host wrote. The slot that completes a request also
/// admits it to the gateway's queue, in an envelope of its own, and counts it;
/// full queues never reject it.
pub fn ingest_host_i2c_slot(state: &mut PicoBridgeState, slot: &[u8; 32]) -> (res: Result<
    (),
    SlotError,
>)
    requires
        old(state).consistent(),
        ingested(transfer_of(old(state).host_assembly), slot@).1 matches Ok(Some(_)) ==> old(
            state,
        ).i2c_to_uart_frames < u32::MAX,
    ensures
        final(state).consistent(),
        transfer_of(final(state).host_assembly) == ingested(
            transfer_of(old(state).host_assembly),
            slot@,
        ).0,
        final(state).uart_rx == old(state).uart_rx,
        final(state).mailbox_packets == old(state).mailbox_packets,
        final(state).host_reads == old(state).host_reads,
        final(state).next_transfer_id == old(state).next_transfer_id,
        match ingested(transfer_of(old(state).host_assembly), slot@).1 {
            Err(error) => {
                &&& res == Err::<(), SlotError>(error)
                &&& final(state).uart_tx_packets == old(state).uart_tx_packets
                &&& final(state).uart_tx_offset == old(state).uart_tx_offset
                &&& final(state).same_counts(old(state))
            },
            Ok(None) => {
                &&& res is Ok
                &&& final(state).uart_tx_packets == old(state).uart_tx_packets
                &&& final(state).uart_tx_offset == old(state).uart_tx_offset
                &&& final(state).same_counts(old(state))
            },
            Ok(Some(request)) => {
                &&& res is Ok
                &&& contents(final(state).uart_tx_packets@) == enqueued(
                    contents(old(state).uart_tx_packets@),
                    gateway_frame(request),
                )
                &&& final(state).uart_tx_offset == if final(state).uart_tx_packets@.len() == old(
                    state,
                ).uart_tx_packets@.len() + 1 {
                    old(state).uart_tx_offset
                } else {
                    0
                }
                &&& final(state).i2c_to_uart_frames == old(state).i2c_to_uart_frames + 1
                &&& final(state).uart_to_i2c_frames == old(state).uart_to_i2c_frames
                &&& texts(final(state).progress@) == texts(old(state).progress@) + request_lines(
                    old(state).i2c_to_uart_frames + 1,
                    request,
                )
            },
        },
{
    match check_slot(slot) {
        Ok(()) => {},
        Err(error) => {
            return Err(error);
        },
    }
    let offset: usize = slot_u32(slot, 6) as usize;
    let total: usize = slot_u32(slot, 10) as usize;
    let length: usize = slot_u16(slot, 14) as usize;
    let transfer_id: u16 = slot_u16(slot, 16);
    if slot[4] & PICO_I2C_START != 0 {
        state.host_assembly = Some(Assembly { transfer_id, total, payload: Vec::new() });
        assert(state.host_assembly->0.payload@ =~= Seq::<u8>::empty());
    }
    let mut assembly = match state.host_assembly.take() {
        Some(assembly) => assembly,
        None => {
            return Err(SlotError::NoStart);
        },
    };
    if assembly.transfer_id != transfer_id {
        state.host_assembly = Some(assembly);
        return Err(SlotError::TransferId);
    }
    if assembly.total != total {
        state.host_assembly = Some(assembly);
        return Err(SlotError::TransferLength);
    }
    if assembly.payload.len() != offset {
        state.host_assembly = Some(assembly);
        return Err(SlotError::Discontinuous);
    }
    let ghost arrived = assembly.payload@;
    let mut i: usize = 0;
    assert(arrived + slot@.subrange(18, 18) =~= arrived);
    while i < length
        invariant
            i <= length <= PICO_I2C_PAYLOAD_SIZE,
            assembly.transfer_id == transfer_id,
            assembly.total == total,
            assembly.payload@ == arrived + slot@.subrange(18, 18 + i),
        decreases length - i,
    {
        assembly.payload.push(slot[PICO_I2C_HEADER_SIZE + i]);
        i = i + 1;
        assert(assembly.payload@ =~= arrived + slot@.subrange(18, 18 + i));
    }
    if assembly.payload.len() > total {
        state.host_assembly = Some(assembly);
        return Err(SlotError::Exceeded);
    }
    if slot[4] & PICO_I2C_END == 0 {
        state.host_assembly = Some(assembly);
        return Ok(());
    }
    if assembly.payload.len() != total {
        state.host_assembly = Some(assembly);
        return Err(SlotError::EndedEarly);
    }
    match i2c_request_to_gateway_uart(assembly.payload.as_slice()) {
        Ok(frame) => {
            enqueue_gateway_uart_packet(state, frame);
            state.i2c_to_uart_frames = state.i2c_to_uart_frames + 1;
            note_request(state, assembly.payload.as_slice());
            Ok(())
        },
        Err(error) => Err(SlotError::Frame(error)),
    }
}

// ---------------------------------------------------------------------------
// Slots for the host
// ---------------------------------------------------------------------------

pub open spec fn le16_bytes(value: int) -> Seq<u8> {
    seq![(value % 0x100) as u8, (value / 0x100 % 0x100) as u8]
}

pub open spec fn le32_bytes(value: int) -> Seq<u8> {
    le16_bytes(value % 0x1_0000) + le16_bytes(value / 0x1_0000 % 0x1_0000)
}

pub open spec fn zeros(count: int) -> Seq<u8> {
    Seq::new(count as nat, |i: int| 0u8)
}

/// Where the part of `frame` that starts at `offset` ends.
pub open spec fn part_end(frame: Seq<u8>, offset: int) -> int {
    if offset + PICO_I2C_PAYLOAD_SIZE <= frame.len() {
        offset + PICO_I2C_PAYLOAD_SIZE
    } else {
        frame.len() as int
    }
}

pub open spec fn part_flags(frame: Seq<u8>, offset: int) -> u8 {
    if offset == 0 && part_end(frame, offset) == frame.len() {
        3
    } else if offset == 0 {
        PICO_I2C_START
    } else if part_end(frame, offset) == frame.len() {
        PICO_I2C_END
    } else {
        0
    }
}

pub open spec fn slot_header(flags: u8, offset: int, total: int, length: int, id: int) -> Seq<u8> {
    seq![0x49u8, 0x32u8, PICO_I2C_VERSION, PICO_I2C_DATA, flags, 0u8] + le32_bytes(offset)
        + le32_bytes(total) + le16_bytes(length) + le16_bytes(id)
}

/// The `index`-th slot of `frame` as transfer `id`.
#[verifier::opaque]
pub open spec fn slot_of(frame: Seq<u8>, id: int, index: int) -> Seq<u8> {
    let offset = index * 14;
    let end = part_end(frame, offset);
    slot_header(part_flags(frame, offset), offset, frame.len() as int, end - offset, id)
        + frame.subrange(offset, end) + zeros(14 - (end - offset))
}

pub open spec fn slots_of(frame: Seq<u8>, id: int) -> Seq<Seq<u8>> {
    Seq::new(div_ceil(frame.len() as int, 14) as nat, |index: int| slot_of(frame, id, index))
}

pub open spec fn slot_contents(slots: Seq<[u8; 32]>) -> Seq<Seq<u8>> {
    slots.map_values(|slot: [u8; 32]| slot@)
}

/// Transfer numbers start at one and skip zero.
pub open spec fn this_transfer(next: u16) -> int {
    if next == 0 {
        1
    } else {
        next as int
    }
}

pub open spec fn following_transfer(next: u16) -> int {
    if this_transfer(next) == u16::MAX {
        1
    } else {
        this_transfer(next) + 1
    }
}

fn start_slot(flags: u8, offset: u32, total: u32, length: u16, id: u16) -> (res: [u8; 32])
    ensures
        res@.take(18) == slot_header(
            flags,
            offset as int,
            total as int,
            length as int,
            id as int,
        ),
        forall|k: int| 18 <= k < 32 ==> res@[k] == 0,
{
    let mut slot: [u8; 32] = [0;32];
    slot[0] = 0x49;
    slot[1] = 0x32;
    slot[2] = PICO_I2C_VERSION;
    slot[3] = PICO_I2C_DATA;
    slot[4] = flags;
    slot[6] = (offset % 0x1_0000 % 0x100) as u8;
    slot[7] = (offset % 0x1_0000 / 0x100 % 0x100) as u8;
    slot[8] = (offset / 0x1_0000 % 0x1_0000 % 0x100) as u8;
    slot[9] = (offset / 0x1_0000 % 0x1_0000 / 0x100 % 0x100) as u8;
    slot[10] = (total % 0x1_0000 % 0x100) as u8;
    slot[11] = (total % 0x1_0000 / 0x100 % 0x100) as u8;
    slot[12] = (total / 0x1_0000 % 0x1_0000 % 0x100) as u8;
    slot[13] = (total / 0x1_0000 % 0x1_0000 / 0x100 % 0x100) as u8;
    slot[14] = (length % 0x100) as u8;
    slot[15] = (length / 0x100 % 0x100) as u8;
    slot[16] = (id % 0x100) as u8;
    slot[17] = (id / 0x100 % 0x100) as u8;
    assert(slot@.take(18) =~= slot_header(
        flags,
        offset as int,
        total as int,
        length as int,
        id as int,
    ));
    slot
}

fn make_slot(frame: &[u8], transfer_id: u16, offset: usize, Ghost(index): Ghost<int>) -> (res: [u8;
    32])
    requires
        offset < frame@.len() <= u32::MAX,
        offset == index * 14,
    ensures
        res@ == slot_of(frame@, transfer_id as int, index),
{
    let length: usize = if frame.len() - offset <= PICO_I2C_PAYLOAD_SIZE {
        frame.len() - offset
    } else {
        PICO_I2C_PAYLOAD_SIZE
    };
    let last = offset + length == frame.len();
    let flags: u8 = if offset == 0 && last {
        3
    } else if offset == 0 {
        PICO_I2C_START
    } else if last {
        PICO_I2C_END
    } else {
        0
    };
    let mut slot = start_slot(flags, offset as u32, frame.len() as u32, length as u16, transfer_id);
    let ghost header = slot@.take(18);
    let mut i: usize = 0;
    while i < length
        invariant
            i <= length <= PICO_I2C_PAYLOAD_SIZE,
            offset + length <= frame@.len() <= u32::MAX,
            slot@.take(18) == header,
            slot@.subrange(18, 18 + i) == frame@.subrange(offset as int, offset + i),
            forall|k: int| 18 + i <= k < 32 ==> slot@[k] == 0,
        decreases length - i,
    {
        slot[PICO_I2C_HEADER_SIZE + i] = frame[offset + i];
        i = i + 1;
        assert(slot@.take(18) =~= header);
        assert(slot@.subrange(18, 18 + i) =~= frame@.subrange(offset as int, offset + i));
    }
    proof {
        reveal(slot_of);
        assert(slot@ =~= slot@.take(18) + slot@.subrange(18, 18 + length) + slot@.skip(
            18 + length,
        ));
        assert(slot@.skip(18 + length) =~= zeros(14 - length));
    }
    slot
}

/// Cuts `frame` into slots behind those that the host has not read yet.
pub fn enqueue_host_i2c_slots(state: &mut PicoBridgeState, frame: &[u8])
    requires
        old(state).consistent(),
        frame@.len() <= u32::MAX,
    ensures
        final(state).consistent(),
        slot_contents(final(state).host_reads@) == slot_contents(old(state).host_reads@) + slots_of(
            frame@,
            this_transfer(old(state).next_transfer_id),
        ),
        final(state).next_transfer_id == following_transfer(old(state).next_transfer_id),
        final(state).host_assembly == old(state).host_assembly,
        final(state).uart_rx == old(state).uart_rx,
        final(state).uart_tx_packets == old(state).uart_tx_packets,
        final(state).uart_tx_offset == old(state).uart_tx_offset,
        final(state).mailbox_packets == old(state).mailbox_packets,
        final(state).same_counts(old(state)),
{
    let transfer_id: u16 = if state.next_transfer_id == 0 {
        1
    } else {
        state.next_transfer_id
    };
    state.next_transfer_id = if transfer_id == u16::MAX {
        1
    } else {
        transfer_id + 1
    };
    let ghost before = slot_contents(state.host_reads@);
    let ghost slots = slots_of(frame@, transfer_id as int);
    let ghost mut index: int = 0;
    let mut offset: usize = 0;
    proof {
        crate::flash::lemma_div_ceil_covers(frame@.len() as int, 14);
        assert(before + slots.take(0) =~= before);
    }
    while offset < frame.len()
        invariant
            frame@.len() <= u32::MAX,
            slots == slots_of(frame@, transfer_id as int),
            slots.len() == div_ceil(frame@.len() as int, 14),
            0 <= index <= slots.len(),
            if index < slots.len() {
                offset == index * 14
            } else {
                offset == frame@.len()
            },
            frame@.len() <= slots.len() * 14 < frame@.len() + 14,
            before == slot_contents(old(state).host_reads@),
            slot_contents(state.host_reads@) == before + slots.take(index),
            state.next_transfer_id == following_transfer(old(state).next_transfer_id),
            state.host_assembly == old(state).host_assembly,
            state.uart_rx == old(state).uart_rx,
            state.uart_tx_packets == old(state).uart_tx_packets,
            state.uart_tx_offset == old(state).uart_tx_offset,
            state.uart_tx_bytes == old(state).uart_tx_bytes,
            state.mailbox_packets == old(state).mailbox_packets,
            state.mailbox_bytes == old(state).mailbox_bytes,
            state.same_counts(old(state)),
        decreases frame@.len() - offset,
    {
        let slot = make_slot(frame, transfer_id, offset, Ghost(index));
        let ghost queue = state.host_reads@;
        state.host_reads.push_back(slot);
        proof {
            assert(slot_contents(state.host_reads@) =~= slot_contents(queue).push(slot@));
            assert(slots.take(index + 1) =~= slots.take(index).push(slots[index]));
            assert(before + slots.take(index + 1) =~= (before + slots.take(index)).push(
                slots[index],
            ));
            index = index + 1;
        }
        offset = if frame.len() - offset <= PICO_I2C_PAYLOAD_SIZE {
            frame.len()
        } else {
            offset + PICO_I2C_PAYLOAD_SIZE
        };
    }
    assert(slots.take(index) =~= slots);
}

/// The next slot that the host reads: the rest of the transfer under way, else
/// the first slot of the newest packet in the mailbox, else zeros.
pub open spec fn staged(
    reads: Seq<Seq<u8>>,
    mailbox: Seq<Seq<u8>>,
    next_transfer_id: u16,
) -> Seq<Seq<u8>> {
    if reads.len() == 0 && mailbox.len() > 0 {
        slots_of(mailbox.last(), this_transfer(next_transfer_id))
    } else {
        reads
    }
}

pub fn next_host_slot(state: &mut PicoBridgeState) -> (res: [u8; 32])
    requires
        old(state).consistent(),
    ensures
        final(state).consistent(),
        ({
            let reads = slot_contents(old(state).host_reads@);
            let mailbox = contents(old(state).mailbox_packets@);
            let slots = staged(reads, mailbox, old(state).next_transfer_id);
            &&& if slots.len() > 0 {
                &&& res@ == slots[0]
                &&& slot_contents(final(state).host_reads@) == slots.skip(1)
            } else {
                &&& res@ == zeros(32)
                &&& final(state).host_reads@.len() == 0
            }
            &&& if reads.len() == 0 && mailbox.len() > 0 {
                &&& contents(final(state).mailbox_packets@) == mailbox.drop_last()
                &&& final(state).next_transfer_id == following_transfer(
                    old(state).next_transfer_id,
                )
            } else {
                &&& contents(final(state).mailbox_packets@) == mailbox
                &&& final(state).next_transfer_id == old(state).next_transfer_id
            }
        }),
        final(state).host_assembly == old(state).host_assembly,
        final(state).uart_rx == old(state).uart_rx,
        final(state).uart_tx_packets == old(state).uart_tx_packets,
        final(state).uart_tx_offset == old(state).uart_tx_offset,
        final(state).same_counts(old(state)),
{
    let ghost mailbox = contents(state.mailbox_packets@);
    let ghost queue = state.mailbox_packets@;
    if state.host_reads.len() == 0 {
        assert(slot_contents(state.host_reads@) =~= Seq::<Seq<u8>>::empty());
        if let Some(newest) = state.mailbox_packets.pop_back() {
            proof {
                assert(contents(state.mailbox_packets@) =~= mailbox.drop_last());
                assert(mailbox =~= mailbox.drop_last().push(newest@));
                lemma_byte_count_push(mailbox.drop_last(), newest@);
                lemma_byte_count(mailbox.drop_last());
                assert(queue[queue.len() - 1]@.len() <= PICO_UART_MAX_FRAME);
            }
            state.mailbox_bytes = state.mailbox_bytes - newest.len();
            enqueue_host_i2c_slots(state, newest.as_slice());
            assert(slot_contents(state.host_reads@) =~= slots_of(
                newest@,
                this_transfer(old(state).next_transfer_id),
            ));
        }
    }
    let ghost reads = state.host_reads@;
    match state.host_reads.pop_front() {
        Some(slot) => {
            assert(slot_contents(state.host_reads@) =~= slot_contents(reads).skip(1));
            slot
        },
        None => {
            let empty: [u8; 32] = [0;32];
            assert(empty@ =~= zeros(32));
            empty
        },
    }
}

// ---------------------------------------------------------------------------
// Bytes from the gateway
// ---------------------------------------------------------------------------

/// The first position, from `from` on, where a frame can start.
pub open spec fn sync_from(bytes: Seq<u8>, from: int) -> Option<int>
    decreases bytes.len() - from,
{
    if from < 0 || from + 2 > bytes.len() {
        None
    } else if any_sync(bytes[from], bytes[from + 1]) {
        Some(from)
    } else {
        sync_from(bytes, from + 1)
    }
}

pub proof fn lemma_sync_from(bytes: Seq<u8>, from: int)
    requires
        0 <= from,
    ensures
        sync_from(bytes, from) matches Some(at) ==> from <= at && at + 2 <= bytes.len(),
    decreases bytes.len() - from,
{
    if from + 2 <= bytes.len() {
        lemma_sync_from(bytes, from + 1);
    }
}

/// A byte that may turn out to open a frame when the next one arrives.
pub open spec fn may_start_sync(byte: u8) -> bool {
    byte == 0xA5 || byte == 0x5A || byte == 0xA6 || byte == 0x5B || byte == 0xA7
}

/// What is kept of bytes in which no frame starts.
pub open spec fn possible_start(bytes: Seq<u8>) -> Seq<u8> {
    if bytes.len() > 0 && may_start_sync(bytes.last()) {
        bytes.skip(bytes.len() - 1)
    } else {
        Seq::empty()
    }
}

/// What received bytes make of a mailbox: the bytes that wait for more, the
/// mailbox afterwards, and whether a frame was too large.
pub open spec fn received(bytes: Seq<u8>, mailbox: Seq<Seq<u8>>) -> (Seq<u8>, Seq<Seq<u8>>, bool)
    decreases bytes.len(),
{
    match sync_from(bytes, 0) {
        None => (possible_start(bytes), mailbox, false),
        Some(sync) => {
            let rest = bytes.skip(sync);
            match frame_length(rest) {
                None => (rest, mailbox, false),
                Some(length) => if length > PICO_UART_MAX_FRAME {
                    (rest, mailbox, true)
                } else if rest.len() < length {
                    (rest, mailbox, false)
                } else {
                    let frame = rest.take(length);
                    proof {
                        lemma_sync_from(bytes, 0);
                    }
                    received(
                        rest.skip(length),
                        if crosses(frame) {
                            enqueued(mailbox, frame)
                        } else {
                            mailbox
                        },
                    )
                },
            }
        },
    }
}

/// The whole DATA frames in received bytes, up to one that is too large.
pub open spec fn crossing(bytes: Seq<u8>) -> Seq<Seq<u8>>
    decreases bytes.len(),
{
    match sync_from(bytes, 0) {
        None => Seq::empty(),
        Some(sync) => {
            let rest = bytes.skip(sync);
            match frame_length(rest) {
                None => Seq::empty(),
                Some(length) => if length > PICO_UART_MAX_FRAME || rest.len() < length {
                    Seq::empty()
                } else {
                    let frame = rest.take(length);
                    proof {
                        lemma_sync_from(bytes, 0);
                    }
                    (if crosses(frame) {
                        seq![frame]
                    } else {
                        Seq::empty()
                    }) + crossing(rest.skip(length))
                },
            }
        },
    }
}

/// Every frame that crosses took its envelope at least.
pub proof fn law_crossing_frames_hold_an_envelope(bytes: Seq<u8>)
    ensures
        4 * crossing(bytes).len() <= bytes.len(),
    decreases bytes.len(),
{
    if let Some(sync) = sync_from(bytes, 0) {
        lemma_sync_from(bytes, 0);
        let rest = bytes.skip(sync);
        if let Some(length) = frame_length(rest) {
            if length <= PICO_UART_MAX_FRAME && rest.len() >= length {
                law_crossing_frames_hold_an_envelope(rest.skip(length));
            }
        }
    }
}

proof fn lemma_response_lines(before: int, frames: Seq<Seq<u8>>, more: Seq<Seq<u8>>, end: int)
    requires
        0 <= end <= frames.len(),
    ensures
        all_response_lines(before, frames + more, end) == all_response_lines(before, frames, end),
    decreases end,
{
    if end > 0 {
        lemma_response_lines(before, frames, more, end - 1);
    }
}

fn find_sync(bytes: &[u8], start: usize) -> (res: Option<usize>)
    requires
        start <= bytes@.len(),
    ensures
        match sync_from(bytes@.skip(start as int), 0) {
            Some(at) => res matches Some(found) && found == start + at && start <= found && found + 2
                <= bytes@.len(),
            None => res is None,
        },
{
    let ghost rest = bytes@.skip(start as int);
    let mut at: usize = start;
    while bytes.len() - at >= 2
        invariant
            start <= at <= bytes@.len(),
            rest == bytes@.skip(start as int),
            sync_from(rest, 0) == sync_from(rest, at - start),
        decreases bytes@.len() - at,
    {
        if is_any_sync(bytes[at], bytes[at + 1]) {
            return Some(at);
        }
        at = at + 1;
    }
    None
}

/// Takes bytes that the gateway sent. Whole DATA frames go to the mailbox and
/// are counted, the rest waits for more bytes.
pub fn receive_gateway_uart(state: &mut PicoBridgeState, bytes: &[u8]) -> (res: Result<
    (),
    BridgeError,
>)
    requires
        old(state).consistent(),
        old(state).uart_rx@.len() + bytes@.len() <= usize::MAX,
        old(state).uart_to_i2c_frames + crossing(old(state).uart_rx@ + bytes@).len() <= u32::MAX,
    ensures
        final(state).consistent(),
        ({
            let frames = crossing(old(state).uart_rx@ + bytes@);
            let before = old(state).uart_to_i2c_frames as int;
            &&& final(state).uart_to_i2c_frames == before + frames.len()
            &&& texts(final(state).progress@) == texts(old(state).progress@)
                + all_response_lines(before, frames, frames.len() as int)
        }),
        final(state).i2c_to_uart_frames == old(state).i2c_to_uart_frames,
        ({
            let outcome = received(
                old(state).uart_rx@ + bytes@,
                contents(old(state).mailbox_packets@),
            );
            &&& final(state).uart_rx@ == outcome.0
            &&& contents(final(state).mailbox_packets@) == outcome.1
            &&& if outcome.2 {
                res == Err::<(), BridgeError>(BridgeError::OversizedFrame)
            } else {
                res is Ok
            }
        }),
        final(state).host_assembly == old(state).host_assembly,
        final(state).uart_tx_packets == old(state).uart_tx_packets,
        final(state).uart_tx_offset == old(state).uart_tx_offset,
        final(state).host_reads == old(state).host_reads,
        final(state).next_transfer_id == old(state).next_transfer_id,
{
    let ghost mailbox = contents(state.mailbox_packets@);
    let mut all: Vec<u8> = copy_bytes(state.uart_rx.as_slice());
    let mut i: usize = 0;
    while i < bytes.len()
        invariant
            i <= bytes@.len(),
            all@ == state.uart_rx@ + bytes@.take(i as int),
        decreases bytes@.len() - i,
    {
        all.push(bytes[i]);
        i = i + 1;
        assert(all@ =~= state.uart_rx@ + bytes@.take(i as int));
    }
    assert(bytes@.take(i as int) =~= bytes@);
    assert(all@.skip(0) =~= all@);
    let mut start: usize = 0;
    let ghost frames = crossing(all@);
    let ghost first = state.uart_to_i2c_frames as int;
    let ghost told = texts(state.progress@);
    let ghost mut done: Seq<Seq<u8>> = Seq::empty();
    proof {
        assert(done + crossing(all@.skip(0)) =~= frames);
        assert(told + all_response_lines(first, done, 0) =~= told);
    }
    loop
        invariant
            start <= all@.len(),
            frames == crossing(all@),
            frames == done + crossing(all@.skip(start as int)),
            first == old(state).uart_to_i2c_frames,
            first + frames.len() <= u32::MAX,
            told == texts(old(state).progress@),
            state.uart_to_i2c_frames == first + done.len(),
            state.i2c_to_uart_frames == old(state).i2c_to_uart_frames,
            texts(state.progress@) == told + all_response_lines(first, done, done.len() as int),
            all@ == old(state).uart_rx@ + bytes@,
            mailbox == contents(old(state).mailbox_packets@),
            received(all@, mailbox) == received(
                all@.skip(start as int),
                contents(state.mailbox_packets@),
            ),
            state.consistent(),
            state.host_assembly == old(state).host_assembly,
            state.uart_tx_packets == old(state).uart_tx_packets,
            state.uart_tx_offset == old(state).uart_tx_offset,
            state.host_reads == old(state).host_reads,
            state.next_transfer_id == old(state).next_transfer_id,
        decreases all@.len() - start,
    {
        let sync: usize = match find_sync(all.as_slice(), start) {
            Some(sync) => sync,
            None => {
                let ghost rest = all@.skip(start as int);
                let length: usize = all.len();
                let mut kept: Vec<u8> = Vec::new();
                if start < length {
                    let last: u8 = all[length - 1];
                    if last == 0xA5 || last == 0x5A || last == 0xA6 || last == 0x5B || last
                        == 0xA7 {
                        kept.push(last);
                    }
                }
                assert(kept@ =~= possible_start(rest));
                assert(done =~= frames);
                state.uart_rx = kept;
                return Ok(());
            },
        };
        let ghost rest = all@.skip(start as int).skip(sync - start);
        assert(rest =~= all@.skip(sync as int));
        let waiting = slice_subrange(all.as_slice(), sync, all.len());
        assert(waiting@ =~= rest);
        let length: usize = match complete_uart_frame_length(waiting) {
            Some(length) => length,
            None => {
                assert(done =~= frames);
                state.uart_rx = copy_bytes(waiting);
                return Ok(());
            },
        };
        if length > PICO_UART_MAX_FRAME {
            assert(done =~= frames);
            state.uart_rx = copy_bytes(waiting);
            return Err(BridgeError::OversizedFrame);
        }
        if waiting.len() < length {
            assert(done =~= frames);
            state.uart_rx = copy_bytes(waiting);
            return Ok(());
        }
        let frame = slice_subrange(waiting, 0, length);
        assert(frame@ =~= rest.take(length as int));
        assert(all@.skip(sync + length) =~= rest.skip(length as int));
        match gateway_uart_to_i2c_response(frame) {
            Some(response) => {
                proof {
                    let now = done.push(frame@);
                    assert(frames =~= now + crossing(rest.skip(length as int)));
                    lemma_response_lines(first, done, seq![frame@], done.len() as int);
                    assert(done + seq![frame@] =~= now);
                    assert(told + all_response_lines(first, now, now.len() as int) =~= told
                        + all_response_lines(first, done, done.len() as int) + response_lines(
                        first + now.len(),
                        frame@,
                    ));
                    done = now;
                }
                state.uart_to_i2c_frames = state.uart_to_i2c_frames + 1;
                note_response(state, frame);
                let ghost before = contents(state.mailbox_packets@);
                let ghost added = response@;
                proof {
                    assert forall|i: int| 0 <= i < before.len() implies (
                    #[trigger] before[i]).len() <= PICO_UART_MAX_FRAME by {
                        assert(state.mailbox_packets@[i]@.len() <= PICO_UART_MAX_FRAME);
                    }
                    law_queue_is_bounded(before, added);
                }
                enqueue(&mut state.mailbox_packets, &mut state.mailbox_bytes, response);
                assert forall|i: int| 0 <= i < state.mailbox_packets@.len() implies (
                #[trigger] state.mailbox_packets@[i])@.len() <= PICO_UART_MAX_FRAME by {
                    assert(contents(state.mailbox_packets@)[i] == state.mailbox_packets@[i]@);
                }
            },
            None => {
                assert(frames =~= done + crossing(rest.skip(length as int)));
            },
        }
        start = sync + length;
    }
}

/// What the host asks for.
#[derive(Clone, Copy, Debug, PartialEq, Eq, Structural)]
pub enum HostOperation {
    /// A slot follows.
    Write,
    /// A slot is expected.
    Read,
}

pub fn host_operation(byte: u8) -> (res: Result<HostOperation, BridgeError>)
    ensures
        res == if byte == 0x57 {
            Ok::<HostOperation, BridgeError>(HostOperation::Write)
        } else if byte == 0x52 {
            Ok(HostOperation::Read)
        } else {
            Err(BridgeError::UnknownOperation(byte))
        },
{
    if byte == 0x57 {
        Ok(HostOperation::Write)
    } else if byte == 0x52 {
        Ok(HostOperation::Read)
    } else {
        Err(BridgeError::UnknownOperation(byte))
    }
}

/// What became of the last thing that the bridge did with its host.
#[derive(Clone, Copy, Debug, PartialEq, Eq, Structural)]
pub enum HostEvent {
    /// The host closed its side.
    Closed,
    /// The host sends nothing for now.
    Paused,
    /// The host asks for an operation.
    Asked(u8),
    /// The operation was served to its end.
    Served,
    /// Reading from the host, or answering it, broke off.
    Broken,
}

#[derive(Clone, Copy, Debug, PartialEq, Eq, Structural)]
pub enum HostAction {
    /// The host keeps its session.
    Keep,
    /// Its session ends, and the bridge waits for the next host.
    End,
    Serve(HostOperation),
}

/// A host that is gone, or that breaks off, ends its own session only: the
/// bridge itself fails at nothing but an operation that there is not.
pub fn host_session(event: HostEvent) -> (res: Result<HostAction, BridgeError>)
    ensures
        res == match event {
            HostEvent::Closed | HostEvent::Broken => Ok::<HostAction, BridgeError>(HostAction::End),
            HostEvent::Paused | HostEvent::Served => Ok(HostAction::Keep),
            HostEvent::Asked(byte) => if byte == 0x57 {
                Ok(HostAction::Serve(HostOperation::Write))
            } else if byte == 0x52 {
                Ok(HostAction::Serve(HostOperation::Read))
            } else {
                Err(BridgeError::UnknownOperation(byte))
            },
        },
{
    match event {
        HostEvent::Closed | HostEvent::Broken => Ok(HostAction::End),
        HostEvent::Paused | HostEvent::Served => Ok(HostAction::Keep),
        HostEvent::Asked(byte) => match host_operation(byte) {
            Ok(operation) => Ok(HostAction::Serve(operation)),
            Err(error) => Err(error),
        },
    }
}

/// The answer to a slot that the host wrote.
pub fn write_reply(accepted: bool) -> (res: u8)
    ensures
        res == if accepted {
            0u8
        } else {
            1u8
        },
{
    if accepted {
        0
    } else {
        1
    }
}

// ---------------------------------------------------------------------------
// What crosses the bridge
// ---------------------------------------------------------------------------

/// Commands of the UART side never reach the host.
pub proof fn law_commands_do_not_cross(frame: Seq<u8>)
    requires
        frame.len() >= 2,
        frame[0] == 0xA6 || frame[0] == 0x5B || frame[0] == 0xA7,
    ensures
        !crosses(frame),
{
}

/// A request keeps its payload on the way to the gateway, and the envelope it
/// gets there is one that the bridge itself would accept.
pub proof fn law_translated_requests_are_frames(frame: Seq<u8>)
    requires
        request_error(frame) is None,
    ensures
        gateway_frame(frame).len() == frame.len(),
        gateway_frame(frame).skip(4) == frame.skip(4),
        crosses(gateway_frame(frame)),
        request_error(gateway_frame(frame)) is None,
{
    assert(gateway_frame(frame).skip(4) =~= frame.skip(4));
}

/// What a host makes of a run of slots that begins with `before` under way:
/// the transfer afterwards and the last slot's result, or the first error.
pub open spec fn ingested_all(before: Option<Transfer>, slots: Seq<Seq<u8>>) -> (
    Option<Transfer>,
    Result<Option<Seq<u8>>, SlotError>,
)
    decreases slots.len(),
{
    if slots.len() == 0 {
        (before, Ok(None))
    } else {
        let earlier = ingested_all(before, slots.drop_last());
        match earlier.1 {
            Err(error) => earlier,
            Ok(_) => ingested(earlier.0, slots.last()),
        }
    }
}

proof fn lemma_le16(value: int, bytes: Seq<u8>, at: int)
    requires
        0 <= value < 0x1_0000,
        0 <= at,
        at + 2 <= bytes.len(),
        bytes.subrange(at, at + 2) == le16_bytes(value),
    ensures
        le16(bytes, at) == value,
{
    assert(bytes[at] == bytes.subrange(at, at + 2)[0]);
    assert(bytes[at + 1] == bytes.subrange(at, at + 2)[1]);
}

proof fn lemma_le32(value: int, bytes: Seq<u8>, at: int)
    requires
        0 <= value <= u32::MAX,
        0 <= at,
        at + 4 <= bytes.len(),
        bytes.subrange(at, at + 4) == le32_bytes(value),
    ensures
        le32(bytes, at) == value,
{
    assert(bytes.subrange(at, at + 2) =~= bytes.subrange(at, at + 4).subrange(0, 2));
    assert(bytes.subrange(at + 2, at + 4) =~= bytes.subrange(at, at + 4).subrange(2, 4));
    assert(le32_bytes(value).subrange(0, 2) =~= le16_bytes(value % 0x1_0000));
    assert(le32_bytes(value).subrange(2, 4) =~= le16_bytes(value / 0x1_0000 % 0x1_0000));
    lemma_le16(value % 0x1_0000, bytes, at);
    lemma_le16(value / 0x1_0000 % 0x1_0000, bytes, at + 2);
}

proof fn lemma_slot_of(frame: Seq<u8>, id: int, index: int)
    requires
        frame.len() <= u32::MAX,
        0 <= id < 0x1_0000,
        0 <= index,
        index * 14 < frame.len(),
    ensures
        ({
            let slot = slot_of(frame, id, index);
            let offset = index * 14;
            &&& slot.len() == 32
            &&& slot[0] == 0x49 && slot[1] == 0x32
            &&& slot[2] == PICO_I2C_VERSION && slot[3] == PICO_I2C_DATA
            &&& slot_offset(slot) == offset
            &&& slot_total(slot) == frame.len()
            &&& slot_length(slot) == part_end(frame, offset) - offset
            &&& slot_id(slot) == id
            &&& slot_payload(slot) == frame.subrange(offset, part_end(frame, offset))
            &&& slot_flag(slot, PICO_I2C_START) == (offset == 0)
            &&& slot_flag(slot, PICO_I2C_END) == (part_end(frame, offset) == frame.len())
        }),
{
    reveal(slot_of);
    let slot = slot_of(frame, id, index);
    let offset = index * 14;
    let end = part_end(frame, offset);
    assert(slot.subrange(6, 10) =~= le32_bytes(offset));
    assert(slot.subrange(10, 14) =~= le32_bytes(frame.len() as int));
    assert(slot.subrange(14, 16) =~= le16_bytes(end - offset));
    assert(slot.subrange(16, 18) =~= le16_bytes(id));
    lemma_le32(offset, slot, 6);
    lemma_le32(frame.len() as int, slot, 10);
    lemma_le16(end - offset, slot, 14);
    lemma_le16(id, slot, 16);
    assert(slot_payload(slot) =~= frame.subrange(offset, end));
    assert(3u8 & 1u8 != 0 && 3u8 & 2u8 != 0 && 1u8 & 1u8 != 0 && 1u8 & 2u8 == 0 && 2u8 & 1u8 == 0
        && 2u8 & 2u8 != 0 && 0u8 & 1u8 == 0 && 0u8 & 2u8 == 0) by (bit_vector);
}

proof fn lemma_slots_assemble(before: Option<Transfer>, frame: Seq<u8>, id: int, count: int)
    requires
        4 <= frame.len() <= PICO_I2C_PACKET_MAX,
        request_error(frame) is None,
        0 <= id < 0x1_0000,
        0 < count <= slots_of(frame, id).len(),
    ensures
        ingested_all(before, slots_of(frame, id).take(count)) == if count < slots_of(
            frame,
            id,
        ).len() {
            (
                Some(
                    Transfer { id, total: frame.len() as int, payload: frame.take(count * 14) },
                ),
                Ok::<Option<Seq<u8>>, SlotError>(None),
            )
        } else {
            (None, Ok(Some(frame)))
        },
    decreases count,
{
    let slots = slots_of(frame, id);
    let index = count - 1;
    crate::flash::lemma_div_ceil_covers(frame.len() as int, 14);
    let slot = slot_of(frame, id, index);
    let run = slots.take(count);
    assert(run.drop_last() =~= slots.take(index));
    assert(run.last() == slot);
    lemma_slot_of(frame, id, index);
    let offset = index * 14;
    let end = part_end(frame, offset);
    if index > 0 {
        lemma_slots_assemble(before, frame, id, index);
        assert(frame.take(offset) + frame.subrange(offset, end) =~= frame.take(end));
    } else {
        assert(slots.take(0) =~= Seq::<Seq<u8>>::empty());
        assert(ingested_all(before, slots.take(0)) == (
            before,
            Ok::<Option<Seq<u8>>, SlotError>(None),
        ));
        assert(Seq::<u8>::empty() + frame.subrange(0, end) =~= frame.take(end));
    }
    if count == slots.len() {
        assert(frame.take(end) =~= frame);
    }
}

/// Cutting a request into slots and putting the slots together again gives
/// the request back, whatever transfer was under way: the two sides of the
/// mailbox agree on the slot layout. Every slot is accepted, and none but the
/// last completes a request.
pub proof fn law_slots_give_back_the_frame(before: Option<Transfer>, frame: Seq<u8>, id: int)
    requires
        frame.len() <= PICO_I2C_PACKET_MAX,
        request_error(frame) is None,
        0 <= id < 0x1_0000,
    ensures
        ingested_all(before, slots_of(frame, id)) == (
            None::<Transfer>,
            Ok::<Option<Seq<u8>>, SlotError>(Some(frame)),
        ),
        forall|count: int|
            0 < count < slots_of(frame, id).len() ==> (#[trigger] ingested_all(
                before,
                slots_of(frame, id).take(count),
            )).1 == Ok::<Option<Seq<u8>>, SlotError>(None),
{
    assert forall|count: int| 0 < count < slots_of(frame, id).len() implies (
    #[trigger] ingested_all(before, slots_of(frame, id).take(count))).1 == Ok::<
        Option<Seq<u8>>,
        SlotError,
    >(None) by {
        lemma_slots_assemble(before, frame, id, count);
    }
    crate::flash::lemma_div_ceil_covers(frame.len() as int, 14);
    lemma_slots_assemble(before, frame, id, slots_of(frame, id).len() as int);
    assert(slots_of(frame, id).take(slots_of(frame, id).len() as int) =~= slots_of(frame, id));
}

/// Two bytes that open a frame survive being received apart: a first byte that
/// can open one is kept until the second arrives.
pub proof fn law_split_sync_survives(first: u8, second: u8, mailbox: Seq<Seq<u8>>)
    requires
        any_sync(first, second),
    ensures
        received(seq![first], mailbox) == (seq![first], mailbox, false),
        sync_from(seq![first] + seq![second], 0) == Some(0int),
{
    let alone = seq![first];
    assert(sync_from(alone, 0) is None);
    assert(alone.skip(alone.len() - 1) =~= alone);
}

proof fn lemma_sync_found(bytes: Seq<u8>, more: Seq<u8>, from: int)
    requires
        0 <= from,
        sync_from(bytes, from) is Some,
    ensures
        sync_from(bytes + more, from) == sync_from(bytes, from),
    decreases bytes.len() - from,
{
    if !any_sync(bytes[from], bytes[from + 1]) {
        lemma_sync_found(bytes, more, from + 1);
    }
}

proof fn lemma_sync_shifted(bytes: Seq<u8>, skipped: int, from: int)
    requires
        0 <= skipped <= from <= bytes.len(),
    ensures
        sync_from(bytes, from) == match sync_from(bytes.skip(skipped), from - skipped) {
            Some(at) => Some(at + skipped),
            None => None,
        },
    decreases bytes.len() - from,
{
    if from + 2 <= bytes.len() && !any_sync(bytes[from], bytes[from + 1]) {
        lemma_sync_shifted(bytes, skipped, from + 1);
    }
}

/// Where no frame starts in `bytes`, none starts before its last byte when
/// `more` follows.
proof fn lemma_sync_later(bytes: Seq<u8>, more: Seq<u8>, from: int)
    requires
        0 <= from < bytes.len(),
        sync_from(bytes, from) is None,
    ensures
        sync_from(bytes + more, from) == sync_from(bytes + more, bytes.len() - 1),
    decreases bytes.len() - from,
{
    if from + 2 <= bytes.len() {
        lemma_sync_later(bytes, more, from + 1);
    }
}

/// What is kept of bytes without a frame is all that matters of them.
proof fn lemma_possible_start(bytes: Seq<u8>, more: Seq<u8>, mailbox: Seq<Seq<u8>>)
    requires
        sync_from(bytes, 0) is None,
    ensures
        received(possible_start(bytes) + more, mailbox) == received(bytes + more, mailbox),
        crossing(possible_start(bytes) + more) == crossing(bytes + more),
{
    let kept = possible_start(bytes);
    let whole = bytes + more;
    let skipped = bytes.len() - kept.len();
    assert(kept + more =~= whole.skip(skipped));
    if bytes.len() > 0 {
        lemma_sync_later(bytes, more, 0);
        if kept.len() == 0 && more.len() > 0 {
            assert(whole[bytes.len() - 1] == bytes.last());
            assert(!any_sync(whole[bytes.len() - 1], whole[bytes.len() as int]));
            assert(sync_from(whole, bytes.len() - 1) == sync_from(whole, bytes.len() as int));
        }
        if kept.len() == 0 && more.len() == 0 {
            assert(whole =~= bytes);
            assert(sync_from(whole, bytes.len() as int) is None);
        }
        assert(sync_from(whole, 0) == sync_from(whole, skipped));
        lemma_sync_shifted(whole, skipped, skipped);
    } else {
        assert(whole =~= kept + more);
    }
    lemma_sync_from(whole, 0);
    lemma_sync_from(kept + more, 0);
    match sync_from(kept + more, 0) {
        Some(at) => {
            assert(whole.skip(at + skipped) =~= (kept + more).skip(at));
        },
        None => {
            if more.len() > 0 {
                assert(whole.last() == more.last() && (kept + more).last() == more.last());
                assert(possible_start(whole) =~= possible_start(kept + more));
            } else {
                assert(whole =~= bytes);
                assert(kept + more =~= kept);
                assert(possible_start(kept) =~= kept);
            }
        },
    }
}

/// A whole DATA frame of the gateway crosses as it is and is counted once.
pub proof fn law_a_frame_crosses_once(frame: Seq<u8>, mailbox: Seq<Seq<u8>>)
    requires
        crosses(frame),
        frame.len() <= PICO_UART_MAX_FRAME,
    ensures
        received(frame, mailbox) == (Seq::<u8>::empty(), enqueued(mailbox, frame), false),
        crossing(frame) == seq![frame],
{
    assert(frame.skip(0) =~= frame);
    assert(frame.take(frame.len() as int) =~= frame);
    let rest = frame.skip(frame.len() as int);
    assert(rest =~= Seq::<u8>::empty());
    assert(sync_from(rest, 0) is None);
    assert(received(rest, enqueued(mailbox, frame)) == (
        Seq::<u8>::empty(),
        enqueued(mailbox, frame),
        false,
    ));
    assert(crossing(rest) == Seq::<Seq<u8>>::empty());
    assert(seq![frame] + crossing(rest) =~= seq![frame]);
}

/// Where reads split what the gateway sends makes no difference: the frames
/// that cross, the mailbox and what waits for more bytes are those of one read.
pub proof fn law_reads_may_split_anywhere(first: Seq<u8>, second: Seq<u8>, mailbox: Seq<Seq<u8>>)
    requires
        !received(first, mailbox).2,
    ensures
        ({
            let (kept, held, _) = received(first, mailbox);
            &&& received(kept + second, held) == received(first + second, mailbox)
            &&& crossing(first) + crossing(kept + second) == crossing(first + second)
        }),
    decreases first.len(),
{
    let (kept, held, _) = received(first, mailbox);
    let whole = first + second;
    match sync_from(first, 0) {
        None => {
            lemma_possible_start(first, second, mailbox);
            assert(crossing(first) =~= Seq::<Seq<u8>>::empty());
            assert(crossing(first) + crossing(kept + second) =~= crossing(whole));
        },
        Some(sync) => {
            lemma_sync_from(first, 0);
            lemma_sync_found(first, second, 0);
            let rest = first.skip(sync);
            let all = rest + second;
            assert(whole.skip(sync) =~= all);
            let waits = match frame_length(rest) {
                None => true,
                Some(length) => rest.len() < length,
            };
            if waits {
                assert(kept == rest);
                assert(sync_from(all, 0) == Some(0int)) by {
                    assert(all[0] == first[sync] && all[1] == first[sync + 1]);
                    lemma_sync_opens(first, 0);
                }
                assert(all.skip(0) =~= all);
                assert(crossing(first) =~= Seq::<Seq<u8>>::empty());
                assert(crossing(first) + crossing(kept + second) =~= crossing(whole));
            } else {
                let length = frame_length(rest)->0;
                let frame = rest.take(length);
                let next = if crosses(frame) {
                    enqueued(mailbox, frame)
                } else {
                    mailbox
                };
                law_reads_may_split_anywhere(rest.skip(length), second, next);
                assert(all.take(length) =~= frame);
                assert(all.skip(length) =~= rest.skip(length) + second);
                assert(frame_length(all) == frame_length(rest));
                assert(crossing(first) + crossing(kept + second) =~= crossing(whole));
            }
        },
    }
}

proof fn lemma_sync_opens(bytes: Seq<u8>, from: int)
    requires
        0 <= from,
    ensures
        sync_from(bytes, from) matches Some(at) ==> any_sync(bytes[at], bytes[at + 1]),
    decreases bytes.len() - from,
{
    if from + 2 <= bytes.len() && !any_sync(bytes[from], bytes[from + 1]) {
        lemma_sync_opens(bytes, from + 1);
    }
}

// ---------------------------------------------------------------------------
// Formats and limits
// ---------------------------------------------------------------------------

/// A DATA frame: `a5 5a` or `5a a5`, the length of the payload, low byte
/// first, and the payload.
pub open spec fn is_data_frame(frame: Seq<u8>) -> bool {
    &&& frame.len() >= 4
    &&& (frame[0] == 0xa5 && frame[1] == 0x5a) || (frame[0] == 0x5a && frame[1] == 0xa5)
    &&& frame.len() == 4 + frame[2] + 256 * frame[3]
}

/// Requests of the host, and what crosses from the gateway, are DATA frames. A
/// request reaches the gateway with `a5 5a` in front and otherwise unchanged.
pub proof fn law_data_frames_cross(frame: Seq<u8>)
    ensures
        request_error(frame) is None <==> is_data_frame(frame),
        crosses(frame) <==> is_data_frame(frame),
        request_error(frame) == Some(FrameError::MissingEnvelope) <==> frame.len() < 4,
        request_error(frame) == Some(FrameError::Length) ==> frame.len() != 4 + frame[2] + 256
            * frame[3],
        request_error(frame) is None ==> {
            let translated = gateway_frame(frame);
            &&& translated.len() == frame.len()
            &&& translated[0] == 0xa5 && translated[1] == 0x5a
            &&& forall|i: int| 2 <= i < frame.len() ==> #[trigger] translated[i] == frame[i]
        },
{
}

/// Five pairs of bytes open a frame: the two of DATA frames and three of
/// commands.
pub proof fn law_what_opens_a_frame(first: u8, second: u8)
    ensures
        any_sync(first, second) <==> {
            ||| first == 0xa5 && second == 0x5a
            ||| first == 0x5a && second == 0xa5
            ||| first == 0xa6 && second == 0x5b
            ||| first == 0x5b && second == 0xa6
            ||| first == 0xa7 && second == 0x7a
        },
{
}

/// A slot is accepted by itself exactly where it begins with `I2`, is data of
/// the first version, holds at most fourteen bytes of a transfer of at most
/// 4096, and stands at the beginning of it if it says so.
pub proof fn law_sound_slots_are_accepted(slot: Seq<u8>)
    requires
        slot.len() == 32,
    ensures
        slot_error(slot) is None <==> {
            &&& slot[0] == 0x49 && slot[1] == 0x32
            &&& slot[2] == 1 && slot[3] == 1
            &&& number_at(slot, 14, 2) <= 14
            &&& number_at(slot, 10, 4) <= 4096
            &&& slot[4] % 2 == 1 ==> number_at(slot, 6, 4) == 0
        },
        slot_offset(slot) == number_at(slot, 6, 4),
        slot_total(slot) == number_at(slot, 10, 4),
        slot_length(slot) == number_at(slot, 14, 2),
        slot_id(slot) == number_at(slot, 16, 2),
        slot_error(slot) is None ==> slot_payload(slot).len() == number_at(slot, 14, 2)
            && forall|i: int|
            0 <= i < slot_payload(slot).len() ==> #[trigger] slot_payload(slot)[i] == slot[18 + i],
{
    lemma_number_at(slot, 6);
    lemma_number_at(slot, 10);
    lemma_number_at(slot, 14);
    lemma_number_at(slot, 16);
    let flags = slot[4];
    assert((flags & 1 != 0) <==> (flags % 2 == 1)) by (bit_vector);
}

/// A transfer goes on with the next slot exactly where that one names it and
/// its size and stands right behind what has arrived. It is complete with the
/// slot that ends it, and a transfer that is complete is over.
pub proof fn law_slots_continue_their_transfer(under_way: Transfer, slot: Seq<u8>)
    requires
        slot.len() == 32,
        slot_error(slot) is None,
        slot[4] % 2 == 0,
    ensures
        ({
            let (after, result) = ingested(Some(under_way), slot);
            let all = under_way.payload + slot_payload(slot);
            let joins = number_at(slot, 16, 2) == under_way.id && number_at(slot, 10, 4)
                == under_way.total && number_at(slot, 6, 4) == under_way.payload.len();
            let ends = slot[4] / 2 % 2 == 1;
            &&& result == Ok::<Option<Seq<u8>>, SlotError>(None) <==> joins && all.len()
                <= under_way.total && !ends
            &&& result is Ok && result->Ok_0 is Some <==> joins && ends && all.len()
                == under_way.total && is_data_frame(all)
            &&& result is Ok && result->Ok_0 is Some ==> result->Ok_0->0 == all && after is None
            &&& result == Ok::<Option<Seq<u8>>, SlotError>(None) ==> after == Some(
                Transfer { payload: all, ..under_way },
            )
            &&& !joins ==> after == Some(under_way)
        }),
        ingested(None, slot) == (
            None::<Transfer>,
            Err::<Option<Seq<u8>>, SlotError>(SlotError::NoStart),
        ),
{
    law_sound_slots_are_accepted(slot);
    law_data_frames_cross(under_way.payload + slot_payload(slot));
    let flags = slot[4];
    assert((flags & 1 != 0) <==> (flags % 2 == 1)) by (bit_vector);
    assert((flags & 2 != 0) <==> (flags / 2 % 2 == 1)) by (bit_vector);
}

proof fn lemma_little_endian(bytes: Seq<u8>, at: int, value: int)
    requires
        0 <= at,
    ensures
        0 <= value < 0x1_0000 && at + 2 <= bytes.len() && bytes.subrange(at, at + 2) == le16_bytes(
            value,
        ) ==> number_at(bytes, at, 2) == value,
        0 <= value < 0x1_0000_0000 && at + 4 <= bytes.len() && bytes.subrange(at, at + 4)
            == le32_bytes(value) ==> number_at(bytes, at, 4) == value,
{
    reveal_with_fuel(number_at, 5);
    if 0 <= value < 0x1_0000 && at + 2 <= bytes.len() && bytes.subrange(at, at + 2) == le16_bytes(
        value,
    ) {
        assert(bytes[at] == bytes.subrange(at, at + 2)[0]);
        assert(bytes[at + 1] == bytes.subrange(at, at + 2)[1]);
    }
    if 0 <= value < 0x1_0000_0000 && at + 4 <= bytes.len() && bytes.subrange(at, at + 4)
        == le32_bytes(value) {
        assert(bytes[at] == bytes.subrange(at, at + 4)[0]);
        assert(bytes[at + 1] == bytes.subrange(at, at + 4)[1]);
        assert(bytes[at + 2] == bytes.subrange(at, at + 4)[2]);
        assert(bytes[at + 3] == bytes.subrange(at, at + 4)[3]);
    }
}

/// A slot of a frame holds fourteen bytes of it, or what is left, behind a
/// header that says where they stand, how long frame and part are, and which
/// transfer they belong to; the first and the last slot are marked, and what
/// is left of a slot is zero.
pub proof fn law_what_a_slot_holds(frame: Seq<u8>, id: int, index: int)
    requires
        0 < frame.len() <= 4096,
        0 <= id < 0x1_0000,
        0 <= index < slots_of(frame, id).len(),
    ensures
        14 * slots_of(frame, id).len() >= frame.len(),
        14 * (slots_of(frame, id).len() - 1) < frame.len(),
        ({
            let slot = slots_of(frame, id)[index];
            let left = frame.len() - 14 * index;
            let held = if left < 14 {
                left
            } else {
                14
            };
            &&& slot.len() == 32
            &&& slot[0] == 0x49 && slot[1] == 0x32 && slot[2] == 1 && slot[3] == 1
            &&& slot[4] == (if index == 0 {
                1int
            } else {
                0
            }) + (if left <= 14 {
                2int
            } else {
                0
            })
            &&& slot[5] == 0
            &&& number_at(slot, 6, 4) == 14 * index
            &&& number_at(slot, 10, 4) == frame.len()
            &&& number_at(slot, 14, 2) == held
            &&& number_at(slot, 16, 2) == id
            &&& forall|k: int| 18 <= k < 18 + held ==> #[trigger] slot[k] == frame[14 * index + k - 18]
            &&& forall|k: int| 18 + held <= k < 32 ==> #[trigger] slot[k] == 0
        }),
{
    reveal(slot_of);
    crate::flash::lemma_div_ceil_covers(frame.len() as int, 14);
    let slot = slots_of(frame, id)[index];
    let offset = index * 14;
    let end = part_end(frame, offset);
    let flags = part_flags(frame, offset);
    let header = slot_header(flags, offset, frame.len() as int, end - offset, id);
    let part = frame.subrange(offset, end);
    assert(slot == header + part + zeros(14 - (end - offset)));
    assert(header.len() == 18);
    assert(slot.subrange(6, 10) =~= le32_bytes(offset));
    assert(slot.subrange(10, 14) =~= le32_bytes(frame.len() as int));
    assert(slot.subrange(14, 16) =~= le16_bytes(end - offset));
    assert(slot.subrange(16, 18) =~= le16_bytes(id));
    lemma_little_endian(slot, 6, offset);
    lemma_little_endian(slot, 10, frame.len() as int);
    lemma_little_endian(slot, 14, end - offset);
    lemma_little_endian(slot, 16, id);
    assert forall|k: int| 18 <= k < 18 + (end - offset) implies #[trigger] slot[k] == frame[14
        * index + k - 18] by {
        assert(slot[k] == part[k - 18]);
    }
}

/// At most eight packets of together at most 8192 bytes wait in a queue, and
/// for a new one only as many make way as must.
pub proof fn law_no_packet_makes_way_in_vain(packets: Seq<Seq<u8>>, packet: Seq<u8>)
    ensures
        ({
            let kept = enqueued(packets, packet).len() - 1;
            let dropped = packets.len() - kept;
            &&& 0 <= dropped <= packets.len()
            &&& enqueued(packets, packet) == packets.skip(dropped).push(packet)
            &&& kept <= 7
            &&& kept > 0 ==> byte_count(packets.skip(dropped)) + packet.len() <= 8192
            &&& forall|fewer: int|
                0 <= fewer < dropped ==> packets.len() - fewer >= 8 || byte_count(
                    #[trigger] packets.skip(fewer),
                ) + packet.len() > 8192
        }),
    decreases packets.len(),
{
    let size = packet.len() as int;
    let made = making_room(packets, size);
    assert(enqueued(packets, packet).len() == made.len() + 1);
    if packets.len() == 0 || has_room(packets, size) {
        assert(packets.skip(0) =~= packets);
    } else {
        let rest = packets.skip(1);
        law_no_packet_makes_way_in_vain(rest, packet);
        let dropped = rest.len() - made.len();
        assert(rest.skip(dropped) =~= packets.skip(dropped + 1));
        assert forall|fewer: int| 0 <= fewer < dropped + 1 implies packets.len() - fewer >= 8
            || byte_count(#[trigger] packets.skip(fewer)) + packet.len() > 8192 by {
            if fewer == 0 {
                assert(packets.skip(0) =~= packets);
            } else {
                assert(rest.skip(fewer - 1) =~= packets.skip(fewer));
            }
        }
    }
}

/// The bytes of a queue are those of its packets together.
pub proof fn law_bytes_are_counted_packet_by_packet(packets: Seq<Seq<u8>>, packet: Seq<u8>)
    ensures
        byte_count(Seq::<Seq<u8>>::empty()) == 0,
        byte_count(packets.push(packet)) == byte_count(packets) + packet.len(),
{
    lemma_byte_count_push(packets, packet);
}

/// A byte is ten bits at 115200 baud, and takes twelve times as long as on the
/// wire.
pub proof fn law_bytes_are_paced()
    ensures
        byte_time_nanos() * 115_200 <= 12 * 10 * 1_000_000_000,
        (byte_time_nanos() + 1) * 115_200 > 12 * 10 * 1_000_000_000,
{
}

/// Transfers are numbered from one to 65535, over and over, and zero is never
/// a number.
pub proof fn law_transfers_are_numbered_in_turn(next: u16)
    ensures
        1 <= this_transfer(next) <= 0xffff,
        next != 0 ==> this_transfer(next) == next,
        following_transfer(next) == this_transfer(next) % 0xffff + 1,
{
}

/// The host reads the rest of the packet that it began; else it begins with the
/// packet that arrived last.
pub proof fn law_hosts_read_the_newest_packet(
    reads: Seq<Seq<u8>>,
    mailbox: Seq<Seq<u8>>,
    packet: Seq<u8>,
    next: u16,
)
    ensures
        reads.len() > 0 ==> staged(reads, mailbox, next) == reads,
        staged(Seq::empty(), mailbox.push(packet), next) == slots_of(packet, this_transfer(next)),
        staged(Seq::empty(), Seq::empty(), next).len() == 0,
{
}

/// The first five frames of either direction are told, and of the requests
/// every twenty-fifth too.
pub proof fn law_which_frames_are_told(count: int, frame: Seq<u8>)
    ensures
        request_lines(count, frame).len() == if count <= 5 || count == 25 * (count / 25) {
            1int
        } else {
            0
        },
        response_lines(count, frame).len() == if count <= 5 {
            1int
        } else {
            0
        },
{
}

proof fn lemma_noise(noise: Seq<u8>, bytes: Seq<u8>, from: int)
    requires
        0 <= from <= noise.len(),
        bytes.len() >= 2,
        any_sync(bytes[0], bytes[1]),
        forall|i: int|
            0 <= i < noise.len() ==> !any_sync(
                #[trigger] (noise + bytes)[i],
                (noise + bytes)[i + 1],
            ),
    ensures
        sync_from(noise + bytes, from) == Some(noise.len() as int),
    decreases noise.len() - from,
{
    let all = noise + bytes;
    if from < noise.len() {
        assert(!any_sync(all[from], all[from + 1]));
        lemma_noise(noise, bytes, from + 1);
    } else {
        assert(all[from] == bytes[0] && all[from + 1] == bytes[1]);
    }
}

/// What stands before a frame and opens none is passed over, and a whole
/// command is passed over too.
pub proof fn law_noise_and_commands_are_passed_over(
    noise: Seq<u8>,
    bytes: Seq<u8>,
    mailbox: Seq<Seq<u8>>,
)
    requires
        bytes.len() >= 2,
        any_sync(bytes[0], bytes[1]),
        forall|i: int|
            0 <= i < noise.len() ==> !any_sync(
                #[trigger] (noise + bytes)[i],
                (noise + bytes)[i + 1],
            ),
    ensures
        received(noise + bytes, mailbox) == received(bytes, mailbox),
        crossing(noise + bytes) == crossing(bytes),
        bytes.len() >= 4 && bytes.len() == 4 + bytes[2] + 256 * bytes[3] && bytes.len() <= 4100
            && !is_data_frame(bytes) ==> received(bytes, mailbox) == (
            Seq::<u8>::empty(),
            mailbox,
            false,
        ),
{
    lemma_noise(noise, bytes, 0);
    lemma_noise(Seq::empty(), bytes, 0);
    assert(Seq::<u8>::empty() + bytes =~= bytes);
    assert((noise + bytes).skip(noise.len() as int) =~= bytes);
    assert(bytes.skip(0) =~= bytes);
    if bytes.len() >= 4 && bytes.len() == 4 + bytes[2] + 256 * bytes[3] && bytes.len() <= 4100
        && !is_data_frame(bytes) {
        law_data_frames_cross(bytes);
        assert(bytes.take(bytes.len() as int) =~= bytes);
        let rest = bytes.skip(bytes.len() as int);
        assert(rest =~= Seq::<u8>::empty());
        assert(received(rest, mailbox) == (Seq::<u8>::empty(), mailbox, false));
    }
}

/// A frame that says that it is longer than 4100 bytes is too large, and stops
/// the bridge before anything behind it is read.
pub proof fn law_large_frames_stop_the_bridge(bytes: Seq<u8>, mailbox: Seq<Seq<u8>>)
    requires
        bytes.len() >= 4,
        any_sync(bytes[0], bytes[1]),
        4 + bytes[2] + 256 * bytes[3] > 4100,
    ensures
        received(bytes, mailbox) == (bytes, mailbox, true),
        crossing(bytes).len() == 0,
{
    lemma_noise(Seq::empty(), bytes, 0);
    assert(Seq::<u8>::empty() + bytes =~= bytes);
    assert(bytes.skip(0) =~= bytes);
}

/// What a slot is refused for is wrong with it, by itself or as the next of the
/// transfer under way.
pub proof fn law_slots_are_refused_for_what_is_wrong(before: Option<Transfer>, slot: Seq<u8>)
    requires
        slot.len() == 32,
    ensures
        ({
            let starts = slot[4] % 2 == 1;
            let under_way = if starts {
                Some(
                    Transfer {
                        id: number_at(slot, 16, 2),
                        total: number_at(slot, 10, 4),
                        payload: Seq::empty(),
                    },
                )
            } else {
                before
            };
            let all = under_way->0.payload + slot_payload(slot);
            match ingested(before, slot).1 {
                Ok(_) => true,
                Err(SlotError::Magic) => slot[0] != 0x49 || slot[1] != 0x32,
                Err(SlotError::Version) => slot[2] != 1,
                Err(SlotError::Kind) => slot[3] != 1,
                Err(SlotError::SlotSize) => number_at(slot, 14, 2) > 14,
                Err(SlotError::TransferSize) => number_at(slot, 10, 4) > 4096,
                Err(SlotError::StartOffset) => starts && number_at(slot, 6, 4) != 0,
                Err(SlotError::NoStart) => !starts && before is None,
                Err(SlotError::TransferId) => under_way->0.id != number_at(slot, 16, 2),
                Err(SlotError::TransferLength) => under_way->0.total != number_at(slot, 10, 4),
                Err(SlotError::Discontinuous) => under_way->0.payload.len() != number_at(
                    slot,
                    6,
                    4,
                ),
                Err(SlotError::Exceeded) => all.len() > number_at(slot, 10, 4),
                Err(SlotError::EndedEarly) => all.len() < number_at(slot, 10, 4),
                Err(SlotError::Frame(error)) => request_error(all) == Some(error),
            }
        }),
{
    law_sound_slots_are_accepted(slot);
    let flags = slot[4];
    assert((flags & 1 != 0) <==> (flags % 2 == 1)) by (bit_vector);
}

/// What is shown of a frame is its bytes from `start` up to `end`, as far as
/// there are any.
pub proof fn law_the_head_is_shown(frame: Seq<u8>, start: int, end: int, i: int)
    requires
        0 <= start <= end,
        start <= frame.len(),
    ensures
        head(frame, start, end).len() == if frame.len() < end {
            frame.len() - start
        } else {
            end - start
        },
        0 <= i < head(frame, start, end).len() ==> head(frame, start, end)[i] == frame[start + i],
{
}

} // verus!
