//! What a layout's update, board and security settings must meet before a
//! machine is built from them.

use vstd::prelude::*;

use crate::architecture::{
    law_partitions_in_flash, law_ram_banks_are_disjoint, regions_overlap, ArchitectureKind,
    McuDescriptor,
};
use crate::layout::{
    BoardLayout, BootOutcome, ClockConfig, ConnectionConfig, DmaRoute, FlashEventKind, MemoryLayout,
    MemoryRegion, OtaTransport, OtaTransportKind, PinConfig,
};
use crate::security::{
    apart, bases_differ, found_among, found_in, held_by, lemma_non_secure, lemma_order_of_regions,
    non_secure_regions, physical_apart, span_of, taken_in, Span,
};
use crate::text::{dec, is_made_of, made_of, same_text, texts, Text};

verus! {

/// An index is a position in the list that the error is about.
#[derive(Clone, Copy, Debug, PartialEq, Eq, Structural)]
pub enum MachineError {
    ChunkSize,
    InterByte,
    NoTransport,
    NoPackage,
    NoUpdatedFirmware,
    NoOutcomes,
    NoUart,
    NoCan,
    CanId,
    CanPayload,
    NoUsb,
    UsbEndpoint,
    NoSdmmc,
    CutSelection,
    CutWithoutFirmware,
    CutEvent(FlashEventKind),
    OutcomeName,
    OutcomeTaken(usize),
    Clock,
    ClockTaken(usize),
    Connection,
    GpioName,
    GpioBank(usize),
    GpioPin(u32),
    DmaName,
    DmaController(usize),
    DmaChannel,
    SecureOutside(usize),
    SecureGranularity(usize),
    NoTrustzone,
    TrustzoneOff,
    SecureOverlap(usize, usize),
    SauRegions,
}

impl MachineError {
    pub open spec fn text(self, layout: BoardLayout) -> Seq<char> {
        let secure = layout.board.security.secure_regions@;
        match self {
            MachineError::ChunkSize => "OTA chunk_size must be positive"@,
            MachineError::InterByte => "OTA inter_byte_us must be positive"@,
            MachineError::NoTransport => "firmware-driven OTA requires ota.transport"@,
            MachineError::NoPackage => "firmware-driven OTA requires artifacts.ota"@,
            MachineError::NoUpdatedFirmware =>
                "firmware-driven OTA requires artifacts.updated_firmware for real image classification"@,
            MachineError::NoOutcomes =>
                "firmware-driven OTA requires at least one observable outcome symbol"@,
            MachineError::NoUart => ""@ + layout.mcu@ + " has no modeled UART named "@
                + layout.transport_name(),
            MachineError::NoCan => ""@ + layout.mcu@ + " has no modeled CAN controller named "@
                + layout.transport_name(),
            MachineError::CanId => "CAN OTA requires transport.can_id"@,
            MachineError::CanPayload => "CAN-FD payload cannot exceed 64 bytes"@,
            MachineError::NoUsb => ""@ + layout.mcu@ + " has no modeled USB controller named "@
                + layout.transport_name(),
            MachineError::UsbEndpoint => "USB endpoint must be in the range 0..=7"@,
            MachineError::NoSdmmc => ""@ + layout.mcu@ + " has no modeled SDMMC controller named "@
                + layout.transport_name(),
            MachineError::CutSelection =>
                "power_cuts must select either every_flash_operation or specific events"@,
            MachineError::CutWithoutFirmware => "power-cut execution requires firmware_driven OTA"@,
            MachineError::CutEvent(event) => "power-cut event "@ + event_variant(event)
                + " is not exposed by the flash model"@,
            MachineError::OutcomeName => "invalid OTA outcome name or symbol"@,
            MachineError::OutcomeTaken(i) => "duplicate OTA outcome name or symbol "@
                + layout.ota.outcomes@[i as int].name@,
            MachineError::Clock => "invalid board clock declaration"@,
            MachineError::ClockTaken(i) => "duplicate clock target "@
                + layout.board.clocks@[i as int].peripheral@,
            MachineError::Connection => "invalid board connection"@,
            MachineError::GpioName => "invalid GPIO controller name"@,
            MachineError::GpioBank(i) => ""@ + layout.mcu@ + " has no GPIO bank named "@
                + layout.board.pins@[i as int].gpio@,
            MachineError::GpioPin(pin) => "GPIO pin "@ + dec(pin as nat)
                + " is outside the MCU package model"@,
            MachineError::DmaName => "invalid DMA route"@,
            MachineError::DmaController(i) => ""@ + layout.mcu@
                + " has no modeled DMA controller named "@
                + layout.board.dma_routes@[i as int].controller@,
            MachineError::DmaChannel => "DMA channel must be below 16"@,
            MachineError::SecureOutside(i) => "secure region "@ + secure[i as int].name@
                + " is outside physical flash/RAM"@,
            MachineError::SecureGranularity(i) => "secure region "@ + secure[i as int].name@
                + " must use the Cortex-M33 32-byte attribution granularity"@,
            MachineError::NoTrustzone => ""@ + layout.mcu@ + " has no Arm TrustZone core"@,
            MachineError::TrustzoneOff => "secure_regions requires board.security.trustzone"@,
            MachineError::SecureOverlap(i, j) => "secure regions "@ + secure[i as int].name@
                + " and "@ + secure[j as int].name@ + " overlap"@,
            MachineError::SauRegions =>
                "secure-region layout needs more than the Cortex-M33's eight SAU regions"@,
        }
    }

    /// What this speaks of is there.
    pub open spec fn of(self, layout: BoardLayout) -> bool {
        let secure = layout.board.security.secure_regions@.len();
        match self {
            MachineError::OutcomeTaken(i) => i < layout.ota.outcomes@.len(),
            MachineError::ClockTaken(i) => i < layout.board.clocks@.len(),
            MachineError::GpioBank(i) => i < layout.board.pins@.len(),
            MachineError::DmaController(i) => i < layout.board.dma_routes@.len(),
            MachineError::SecureOutside(i) => i < secure,
            MachineError::SecureGranularity(i) => i < secure,
            MachineError::SecureOverlap(i, j) => i < secure && j < secure,
            _ => true,
        }
    }

    pub fn message(self, layout: &BoardLayout) -> (res: String)
        requires
            self.of(*layout),
        ensures
            res@ == self.text(*layout),
    {
        let mcu = layout.mcu.as_str();
        let transport = match &layout.ota.transport {
            Some(transport) => transport.peripheral.as_str(),
            None => "",
        };
        let secure = &layout.board.security.secure_regions;
        match self {
            MachineError::ChunkSize => Text::new("OTA chunk_size must be positive").done(),
            MachineError::InterByte => Text::new("OTA inter_byte_us must be positive").done(),
            MachineError::NoTransport => Text::new(
                "firmware-driven OTA requires ota.transport",
            ).done(),
            MachineError::NoPackage => Text::new(
                "firmware-driven OTA requires artifacts.ota",
            ).done(),
            MachineError::NoUpdatedFirmware => Text::new(
                "firmware-driven OTA requires artifacts.updated_firmware for real image classification",
            ).done(),
            MachineError::NoOutcomes => Text::new(
                "firmware-driven OTA requires at least one observable outcome symbol",
            ).done(),
            MachineError::NoUart => Text::new("").str(mcu).str(" has no modeled UART named ").str(
                transport,
            ).done(),
            MachineError::NoCan => Text::new("").str(mcu).str(
                " has no modeled CAN controller named ",
            ).str(transport).done(),
            MachineError::CanId => Text::new("CAN OTA requires transport.can_id").done(),
            MachineError::CanPayload => Text::new("CAN-FD payload cannot exceed 64 bytes").done(),
            MachineError::NoUsb => Text::new("").str(mcu).str(
                " has no modeled USB controller named ",
            ).str(transport).done(),
            MachineError::UsbEndpoint => Text::new(
                "USB endpoint must be in the range 0..=7",
            ).done(),
            MachineError::NoSdmmc => Text::new("").str(mcu).str(
                " has no modeled SDMMC controller named ",
            ).str(transport).done(),
            MachineError::CutSelection => Text::new(
                "power_cuts must select either every_flash_operation or specific events",
            ).done(),
            MachineError::CutWithoutFirmware => Text::new(
                "power-cut execution requires firmware_driven OTA",
            ).done(),
            MachineError::CutEvent(event) => Text::new("power-cut event ").str(
                event_name(event),
            ).str(" is not exposed by the flash model").done(),
            MachineError::OutcomeName => Text::new("invalid OTA outcome name or symbol").done(),
            MachineError::OutcomeTaken(i) => Text::new(
                "duplicate OTA outcome name or symbol ",
            ).str(layout.ota.outcomes[i].name.as_str()).done(),
            MachineError::Clock => Text::new("invalid board clock declaration").done(),
            MachineError::ClockTaken(i) => Text::new("duplicate clock target ").str(
                layout.board.clocks[i].peripheral.as_str(),
            ).done(),
            MachineError::Connection => Text::new("invalid board connection").done(),
            MachineError::GpioName => Text::new("invalid GPIO controller name").done(),
            MachineError::GpioBank(i) => Text::new("").str(mcu).str(
                " has no GPIO bank named ",
            ).str(layout.board.pins[i].gpio.as_str()).done(),
            MachineError::GpioPin(pin) => Text::new("GPIO pin ").dec(pin as u64).str(
                " is outside the MCU package model",
            ).done(),
            MachineError::DmaName => Text::new("invalid DMA route").done(),
            MachineError::DmaController(i) => Text::new("").str(mcu).str(
                " has no modeled DMA controller named ",
            ).str(layout.board.dma_routes[i].controller.as_str()).done(),
            MachineError::DmaChannel => Text::new("DMA channel must be below 16").done(),
            MachineError::SecureOutside(i) => Text::new("secure region ").str(
                secure[i].name.as_str(),
            ).str(" is outside physical flash/RAM").done(),
            MachineError::SecureGranularity(i) => Text::new("secure region ").str(
                secure[i].name.as_str(),
            ).str(" must use the Cortex-M33 32-byte attribution granularity").done(),
            MachineError::NoTrustzone => Text::new("").str(mcu).str(
                " has no Arm TrustZone core",
            ).done(),
            MachineError::TrustzoneOff => Text::new(
                "secure_regions requires board.security.trustzone",
            ).done(),
            MachineError::SecureOverlap(i, j) => Text::new("secure regions ").str(
                secure[i].name.as_str(),
            ).str(" and ").str(secure[j].name.as_str()).str(" overlap").done(),
            MachineError::SauRegions => Text::new(
                "secure-region layout needs more than the Cortex-M33's eight SAU regions",
            ).done(),
        }
    }
}

pub open spec fn event_variant(event: FlashEventKind) -> Seq<char> {
    match event {
        FlashEventKind::EraseStart => "EraseStart"@,
        FlashEventKind::EraseComplete => "EraseComplete"@,
        FlashEventKind::ProgramUnit => "ProgramUnit"@,
        FlashEventKind::OptionCommit => "OptionCommit"@,
    }
}

fn event_name(event: FlashEventKind) -> (res: &'static str)
    ensures
        res@ == event_variant(event),
{
    match event {
        FlashEventKind::EraseStart => "EraseStart",
        FlashEventKind::EraseComplete => "EraseComplete",
        FlashEventKind::ProgramUnit => "ProgramUnit",
        FlashEventKind::OptionCommit => "OptionCommit",
    }
}

impl BoardLayout {
    pub open spec fn transport_name(&self) -> Seq<char> {
        match self.ota.transport {
            Some(transport) => transport.peripheral@,
            None => ""@,
        }
    }
}

// ---------------------------------------------------------------------------
// Names
// ---------------------------------------------------------------------------

/// A name that the emulator's scripts can hold.
pub open spec fn machine_name(name: Seq<char>) -> bool {
    name.len() > 0 && made_of(name, "_-.@"@)
}

fn is_machine_name(name: &str) -> (res: bool)
    ensures
        res == machine_name(name@),
{
    !name.is_empty() && is_made_of(name, "_-.@")
}

fn is_listed(names: &[String], name: &str) -> (res: bool)
    ensures
        res == texts(names@).contains(name@),
{
    let mut i: usize = 0;
    while i < names.len()
        invariant
            i <= names@.len(),
            forall|k: int| 0 <= k < i ==> (#[trigger] texts(names@)[k]) != name@,
        decreases names@.len() - i,
    {
        if same_text(names[i].as_str(), name) {
            assert(texts(names@)[i as int] == name@);
            return true;
        }
        i = i + 1;
    }
    false
}

// ---------------------------------------------------------------------------
// Updates
// ---------------------------------------------------------------------------

impl OtaTransport {
    /// Why this part cannot be updated over this transport.
    pub open spec fn error(&self, mcu: McuDescriptor) -> Option<MachineError> {
        match self.kind {
            OtaTransportKind::Uart => if !texts(mcu.uart_ota@).contains(self.peripheral@) {
                Some(MachineError::NoUart)
            } else {
                None
            },
            OtaTransportKind::Can => if !texts(mcu.can_ota@).contains(self.peripheral@) {
                Some(MachineError::NoCan)
            } else if self.can_id is None {
                Some(MachineError::CanId)
            } else if self.mtu matches Some(mtu) && mtu > 64 {
                Some(MachineError::CanPayload)
            } else {
                None
            },
            OtaTransportKind::Usb => if !texts(mcu.usb_ota@).contains(self.peripheral@) {
                Some(MachineError::NoUsb)
            } else if self.endpoint matches Some(endpoint) && endpoint > 7 {
                Some(MachineError::UsbEndpoint)
            } else {
                None
            },
            OtaTransportKind::Sdmmc => if !texts(mcu.sdmmc_ota@).contains(self.peripheral@) {
                Some(MachineError::NoSdmmc)
            } else {
                None
            },
        }
    }

    fn check(&self, mcu: &McuDescriptor) -> (res: Option<MachineError>)
        ensures
            res == self.error(*mcu),
    {
        let name = self.peripheral.as_str();
        match self.kind {
            OtaTransportKind::Uart => {
                if !is_listed(mcu.uart_ota.as_slice(), name) {
                    return Some(MachineError::NoUart);
                }
            },
            OtaTransportKind::Can => {
                if !is_listed(mcu.can_ota.as_slice(), name) {
                    return Some(MachineError::NoCan);
                }
                if self.can_id.is_none() {
                    return Some(MachineError::CanId);
                }
                if let Some(mtu) = self.mtu {
                    if mtu > 64 {
                        return Some(MachineError::CanPayload);
                    }
                }
            },
            OtaTransportKind::Usb => {
                if !is_listed(mcu.usb_ota.as_slice(), name) {
                    return Some(MachineError::NoUsb);
                }
                if let Some(endpoint) = self.endpoint {
                    if endpoint > 7 {
                        return Some(MachineError::UsbEndpoint);
                    }
                }
            },
            OtaTransportKind::Sdmmc => {
                if !is_listed(mcu.sdmmc_ota.as_slice(), name) {
                    return Some(MachineError::NoSdmmc);
                }
            },
        }
        None
    }
}

/// The first selected event, from `i` on, that the flash model does not show.
pub open spec fn hidden_event(events: Seq<FlashEventKind>, i: int) -> Option<MachineError>
    decreases events.len() - i,
{
    if i < 0 || i >= events.len() {
        None
    } else if events[i] == FlashEventKind::OptionCommit {
        Some(MachineError::CutEvent(events[i]))
    } else {
        hidden_event(events, i + 1)
    }
}

pub open spec fn same_outcome(outcomes: Seq<BootOutcome>, j: int, i: int) -> bool {
    outcomes[j].name@ == outcomes[i].name@ || outcomes[j].symbol@ == outcomes[i].symbol@
}

pub open spec fn outcome_taken(outcomes: Seq<BootOutcome>, i: int) -> bool {
    exists|j: int| 0 <= j < i && #[trigger] same_outcome(outcomes, j, i)
}

/// What is wrong with the first bad outcome from `i` on.
pub open spec fn outcome_error(outcomes: Seq<BootOutcome>, i: int) -> Option<MachineError>
    decreases outcomes.len() - i,
{
    if i < 0 || i >= outcomes.len() {
        None
    } else if !machine_name(outcomes[i].name@) || !machine_name(outcomes[i].symbol@) {
        Some(MachineError::OutcomeName)
    } else if outcome_taken(outcomes, i) {
        Some(MachineError::OutcomeTaken(i as usize))
    } else {
        outcome_error(outcomes, i + 1)
    }
}

impl BoardLayout {
    /// Why the declared update cannot be driven by the firmware.
    pub open spec fn driven_error(&self, mcu: McuDescriptor) -> Option<MachineError> {
        match self.ota.transport {
            None => Some(MachineError::NoTransport),
            Some(transport) => if self.artifacts.ota is None {
                Some(MachineError::NoPackage)
            } else if self.artifacts.updated_firmware is None {
                Some(MachineError::NoUpdatedFirmware)
            } else if self.ota.outcomes@.len() == 0 {
                Some(MachineError::NoOutcomes)
            } else {
                transport.error(mcu)
            },
        }
    }

    pub open spec fn ota_error(&self, mcu: McuDescriptor) -> Option<MachineError> {
        let cuts = self.ota.power_cuts;
        if self.ota.chunk_size == 0 {
            Some(MachineError::ChunkSize)
        } else if self.ota.inter_byte_us == 0 {
            Some(MachineError::InterByte)
        } else if self.ota.firmware_driven && self.driven_error(mcu) is Some {
            self.driven_error(mcu)
        } else if cuts.every_flash_operation && cuts.events@.len() > 0 {
            Some(MachineError::CutSelection)
        } else if !self.ota.firmware_driven && cuts.requested() {
            Some(MachineError::CutWithoutFirmware)
        } else if hidden_event(cuts.events@, 0) is Some {
            hidden_event(cuts.events@, 0)
        } else {
            outcome_error(self.ota.outcomes@, 0)
        }
    }
}

fn find_hidden_event(events: &[FlashEventKind]) -> (res: Option<MachineError>)
    ensures
        res == hidden_event(events@, 0),
        res matches Some(error) ==> error is CutEvent,
{
    let mut i: usize = 0;
    while i < events.len()
        invariant
            i <= events@.len(),
            hidden_event(events@, 0) == hidden_event(events@, i as int),
        decreases events@.len() - i,
    {
        if events[i] == FlashEventKind::OptionCommit {
            return Some(MachineError::CutEvent(events[i]));
        }
        i = i + 1;
    }
    None
}

fn is_outcome_taken(outcomes: &[BootOutcome], i: usize) -> (res: bool)
    requires
        i < outcomes@.len(),
    ensures
        res == outcome_taken(outcomes@, i as int),
{
    let mut j: usize = 0;
    while j < i
        invariant
            j <= i,
            i < outcomes@.len(),
            forall|k: int| 0 <= k < j ==> !#[trigger] same_outcome(outcomes@, k, i as int),
        decreases i - j,
    {
        if same_text(outcomes[j].name.as_str(), outcomes[i].name.as_str()) || same_text(
            outcomes[j].symbol.as_str(),
            outcomes[i].symbol.as_str(),
        ) {
            assert(same_outcome(outcomes@, j as int, i as int));
            return true;
        }
        j = j + 1;
    }
    false
}

fn check_outcomes(outcomes: &[BootOutcome]) -> (res: Option<MachineError>)
    ensures
        res == outcome_error(outcomes@, 0),
        res matches Some(error) ==> error == MachineError::OutcomeName || (
        error matches MachineError::OutcomeTaken(i) && i < outcomes@.len()),
{
    let mut i: usize = 0;
    while i < outcomes.len()
        invariant
            i <= outcomes@.len(),
            outcome_error(outcomes@, 0) == outcome_error(outcomes@, i as int),
        decreases outcomes@.len() - i,
    {
        if !is_machine_name(outcomes[i].name.as_str()) || !is_machine_name(
            outcomes[i].symbol.as_str(),
        ) {
            return Some(MachineError::OutcomeName);
        }
        if is_outcome_taken(outcomes, i) {
            return Some(MachineError::OutcomeTaken(i));
        }
        i = i + 1;
    }
    None
}

fn check_driven(layout: &BoardLayout, mcu: &McuDescriptor) -> (res: Option<MachineError>)
    ensures
        res == layout.driven_error(*mcu),
        res matches Some(error) ==> error.of(*layout),
{
    match &layout.ota.transport {
        None => Some(MachineError::NoTransport),
        Some(transport) => if layout.artifacts.ota.is_none() {
            Some(MachineError::NoPackage)
        } else if layout.artifacts.updated_firmware.is_none() {
            Some(MachineError::NoUpdatedFirmware)
        } else if layout.ota.outcomes.len() == 0 {
            Some(MachineError::NoOutcomes)
        } else {
            transport.check(mcu)
        },
    }
}

fn check_ota(layout: &BoardLayout, mcu: &McuDescriptor) -> (res: Option<MachineError>)
    ensures
        res == layout.ota_error(*mcu),
        res matches Some(error) ==> error.of(*layout),
{
    let cuts = &layout.ota.power_cuts;
    if layout.ota.chunk_size == 0 {
        return Some(MachineError::ChunkSize);
    }
    if layout.ota.inter_byte_us == 0 {
        return Some(MachineError::InterByte);
    }
    if layout.ota.firmware_driven {
        if let Some(error) = check_driven(layout, mcu) {
            return Some(error);
        }
    }
    if cuts.every_flash_operation && cuts.events.len() > 0 {
        return Some(MachineError::CutSelection);
    }
    if !layout.ota.firmware_driven && (cuts.every_flash_operation || cuts.events.len() > 0) {
        return Some(MachineError::CutWithoutFirmware);
    }
    if let Some(error) = find_hidden_event(cuts.events.as_slice()) {
        return Some(error);
    }
    check_outcomes(layout.ota.outcomes.as_slice())
}

// ---------------------------------------------------------------------------
// Board
// ---------------------------------------------------------------------------

pub open spec fn clock_error(clocks: Seq<ClockConfig>, i: int) -> Option<MachineError>
    decreases clocks.len() - i,
{
    if i < 0 || i >= clocks.len() {
        None
    } else if !machine_name(clocks[i].peripheral@) || clocks[i].frequency_hz == 0 {
        Some(MachineError::Clock)
    } else {
        clock_error(clocks, i + 1)
    }
}

pub open spec fn same_clock(clocks: Seq<ClockConfig>, j: int, i: int) -> bool {
    clocks[j].peripheral@ == clocks[i].peripheral@
}

pub open spec fn clock_taken(clocks: Seq<ClockConfig>, i: int) -> bool {
    exists|j: int| 0 <= j < i && #[trigger] same_clock(clocks, j, i)
}

pub open spec fn taken_clock_error(clocks: Seq<ClockConfig>, i: int) -> Option<MachineError>
    decreases clocks.len() - i,
{
    if i < 0 || i >= clocks.len() {
        None
    } else if clock_taken(clocks, i) {
        Some(MachineError::ClockTaken(i as usize))
    } else {
        taken_clock_error(clocks, i + 1)
    }
}

pub open spec fn connection_error(connections: Seq<ConnectionConfig>, i: int) -> Option<
    MachineError,
>
    decreases connections.len() - i,
{
    if i < 0 || i >= connections.len() {
        None
    } else if !machine_name(connections[i].from@) || !machine_name(connections[i].to@) {
        Some(MachineError::Connection)
    } else {
        connection_error(connections, i + 1)
    }
}

/// How many pins the package models of an architecture have. A platform that
/// the firmware supplies has no package model.
pub open spec fn pin_count(architecture: ArchitectureKind) -> int {
    match architecture {
        ArchitectureKind::Stm32 => 0,
        ArchitectureKind::Stm32g4 => 7 * 16int,
        ArchitectureKind::Stm32h5 => 8 * 16int,
        ArchitectureKind::Stm32u5 => 9 * 16int,
    }
}

pub open spec fn pin_error(pins: Seq<PinConfig>, architecture: ArchitectureKind, i: int) -> Option<
    MachineError,
>
    decreases pins.len() - i,
{
    if i < 0 || i >= pins.len() {
        None
    } else if !machine_name(pins[i].gpio@) {
        Some(MachineError::GpioName)
    } else if pins[i].gpio@ != "gpio"@ {
        Some(MachineError::GpioBank(i as usize))
    } else if pins[i].pin >= pin_count(architecture) {
        Some(MachineError::GpioPin(pins[i].pin))
    } else {
        pin_error(pins, architecture, i + 1)
    }
}

pub open spec fn dma_modeled(architecture: ArchitectureKind, controller: Seq<char>) -> bool {
    if architecture == ArchitectureKind::Stm32g4 {
        controller == "dma1"@ || controller == "dma2"@
    } else {
        controller == "gpdma"@
    }
}

pub open spec fn dma_error(routes: Seq<DmaRoute>, architecture: ArchitectureKind, i: int) -> Option<
    MachineError,
>
    decreases routes.len() - i,
{
    if i < 0 || i >= routes.len() {
        None
    } else if !machine_name(routes[i].request@) || !machine_name(routes[i].controller@) {
        Some(MachineError::DmaName)
    } else if !dma_modeled(architecture, routes[i].controller@) {
        Some(MachineError::DmaController(i as usize))
    } else if routes[i].channel >= 16 {
        Some(MachineError::DmaChannel)
    } else {
        dma_error(routes, architecture, i + 1)
    }
}

impl BoardLayout {
    pub open spec fn board_error(&self) -> Option<MachineError> {
        let board = self.board;
        if clock_error(board.clocks@, 0) is Some {
            clock_error(board.clocks@, 0)
        } else if taken_clock_error(board.clocks@, 0) is Some {
            taken_clock_error(board.clocks@, 0)
        } else if connection_error(board.connections@, 0) is Some {
            connection_error(board.connections@, 0)
        } else if pin_error(board.pins@, self.architecture, 0) is Some {
            pin_error(board.pins@, self.architecture, 0)
        } else {
            dma_error(board.dma_routes@, self.architecture, 0)
        }
    }
}

fn is_clock_taken(clocks: &[ClockConfig], i: usize) -> (res: bool)
    requires
        i < clocks@.len(),
    ensures
        res == clock_taken(clocks@, i as int),
{
    let mut j: usize = 0;
    while j < i
        invariant
            j <= i,
            i < clocks@.len(),
            forall|k: int| 0 <= k < j ==> !#[trigger] same_clock(clocks@, k, i as int),
        decreases i - j,
    {
        if same_text(clocks[j].peripheral.as_str(), clocks[i].peripheral.as_str()) {
            assert(same_clock(clocks@, j as int, i as int));
            return true;
        }
        j = j + 1;
    }
    false
}

fn check_clocks(clocks: &[ClockConfig]) -> (res: Option<MachineError>)
    ensures
        res == if clock_error(clocks@, 0) is Some {
            clock_error(clocks@, 0)
        } else {
            taken_clock_error(clocks@, 0)
        },
        res matches Some(error) ==> error == MachineError::Clock || (
        error matches MachineError::ClockTaken(i) && i < clocks@.len()),
{
    let mut i: usize = 0;
    while i < clocks.len()
        invariant
            i <= clocks@.len(),
            clock_error(clocks@, 0) == clock_error(clocks@, i as int),
        decreases clocks@.len() - i,
    {
        if !is_machine_name(clocks[i].peripheral.as_str()) || clocks[i].frequency_hz == 0 {
            return Some(MachineError::Clock);
        }
        i = i + 1;
    }
    let mut k: usize = 0;
    while k < clocks.len()
        invariant
            k <= clocks@.len(),
            clock_error(clocks@, 0) is None,
            taken_clock_error(clocks@, 0) == taken_clock_error(clocks@, k as int),
        decreases clocks@.len() - k,
    {
        if is_clock_taken(clocks, k) {
            return Some(MachineError::ClockTaken(k));
        }
        k = k + 1;
    }
    None
}

fn check_connections(connections: &[ConnectionConfig]) -> (res: Option<MachineError>)
    ensures
        res == connection_error(connections@, 0),
        res matches Some(error) ==> error == MachineError::Connection,
{
    let mut i: usize = 0;
    while i < connections.len()
        invariant
            i <= connections@.len(),
            connection_error(connections@, 0) == connection_error(connections@, i as int),
        decreases connections@.len() - i,
    {
        if !is_machine_name(connections[i].from.as_str()) || !is_machine_name(
            connections[i].to.as_str(),
        ) {
            return Some(MachineError::Connection);
        }
        i = i + 1;
    }
    None
}

fn check_pins(layout: &BoardLayout) -> (res: Option<MachineError>)
    ensures
        res == pin_error(layout.board.pins@, layout.architecture, 0),
        res matches Some(error) ==> error.of(*layout),
{
    let pins = &layout.board.pins;
    let count: u32 = match layout.architecture {
        ArchitectureKind::Stm32 => 0,
        ArchitectureKind::Stm32g4 => 7 * 16,
        ArchitectureKind::Stm32h5 => 8 * 16,
        ArchitectureKind::Stm32u5 => 9 * 16,
    };
    let mut i: usize = 0;
    while i < pins.len()
        invariant
            i <= pins@.len(),
            pins@ == layout.board.pins@,
            count == pin_count(layout.architecture),
            pin_error(pins@, layout.architecture, 0) == pin_error(
                pins@,
                layout.architecture,
                i as int,
            ),
        decreases pins@.len() - i,
    {
        let pin = &pins[i];
        if !is_machine_name(pin.gpio.as_str()) {
            return Some(MachineError::GpioName);
        }
        if !same_text(pin.gpio.as_str(), "gpio") {
            return Some(MachineError::GpioBank(i));
        }
        if pin.pin >= count {
            return Some(MachineError::GpioPin(pin.pin));
        }
        i = i + 1;
    }
    None
}

fn check_dma(layout: &BoardLayout) -> (res: Option<MachineError>)
    ensures
        res == dma_error(layout.board.dma_routes@, layout.architecture, 0),
        res matches Some(error) ==> error.of(*layout),
{
    let routes = &layout.board.dma_routes;
    let mut i: usize = 0;
    while i < routes.len()
        invariant
            i <= routes@.len(),
            routes@ == layout.board.dma_routes@,
            dma_error(routes@, layout.architecture, 0) == dma_error(
                routes@,
                layout.architecture,
                i as int,
            ),
        decreases routes@.len() - i,
    {
        let route = &routes[i];
        let controller = route.controller.as_str();
        if !is_machine_name(route.request.as_str()) || !is_machine_name(controller) {
            return Some(MachineError::DmaName);
        }
        let modeled = if layout.architecture == ArchitectureKind::Stm32g4 {
            same_text(controller, "dma1") || same_text(controller, "dma2")
        } else {
            same_text(controller, "gpdma")
        };
        if !modeled {
            return Some(MachineError::DmaController(i));
        }
        if route.channel >= 16 {
            return Some(MachineError::DmaChannel);
        }
        i = i + 1;
    }
    None
}

fn check_board(layout: &BoardLayout) -> (res: Option<MachineError>)
    ensures
        res == layout.board_error(),
        res matches Some(error) ==> error.of(*layout),
{
    if let Some(error) = check_clocks(layout.board.clocks.as_slice()) {
        return Some(error);
    }
    if let Some(error) = check_connections(layout.board.connections.as_slice()) {
        return Some(error);
    }
    if let Some(error) = check_pins(layout) {
        return Some(error);
    }
    check_dma(layout)
}

// ---------------------------------------------------------------------------
// Security
// ---------------------------------------------------------------------------

impl MemoryLayout {
    /// Flash and every RAM bank end inside the address space.
    pub open spec fn ranges_fit(&self) -> bool {
        &&& self.flash_base + self.flash_size <= u64::MAX
        &&& forall|i: int|
            0 <= i < self.ram_regions@.len() ==> (#[trigger] self.ram_regions@[i]).base
                + self.ram_regions@[i].size <= u64::MAX
    }
}

pub open spec fn within(region: MemoryRegion, base: int, end: int) -> bool {
    base <= region.base && region.base + region.size <= end
}

pub open spec fn within_region(region: MemoryRegion, bank: MemoryRegion) -> bool {
    within(region, bank.base as int, bank.base + bank.size)
}

/// The region lies in flash or in one RAM bank.
pub open spec fn within_memory(region: MemoryRegion, memory: MemoryLayout) -> bool {
    ||| within(region, memory.flash_base as int, memory.flash_base + memory.flash_size)
    ||| exists|i: int|
        0 <= i < memory.ram_regions@.len() && #[trigger] within_region(
            region,
            memory.ram_regions@[i],
        )
}

/// What is wrong with the first bad secure region from `i` on.
pub open spec fn secure_region_error(
    regions: Seq<MemoryRegion>,
    memory: MemoryLayout,
    i: int,
) -> Option<MachineError>
    decreases regions.len() - i,
{
    if i < 0 || i >= regions.len() {
        None
    } else if regions[i].size == 0 || !within_memory(regions[i], memory) {
        Some(MachineError::SecureOutside(i as usize))
    } else if regions[i].base % 32 != 0 || regions[i].size % 32 != 0 {
        Some(MachineError::SecureGranularity(i as usize))
    } else {
        secure_region_error(regions, memory, i + 1)
    }
}

/// `i` put behind every position whose region starts no later.
pub open spec fn position_placed(
    regions: Seq<MemoryRegion>,
    order: Seq<usize>,
    i: usize,
) -> Seq<usize>
    decreases order.len(),
{
    if order.len() == 0 || regions[order.last() as int].base <= regions[i as int].base {
        order.push(i)
    } else {
        position_placed(regions, order.drop_last(), i).push(order.last())
    }
}

/// The positions of the first `count` regions, by where the regions start.
pub open spec fn base_order(regions: Seq<MemoryRegion>, count: int) -> Seq<usize>
    decreases count,
{
    if count <= 0 {
        Seq::empty()
    } else {
        position_placed(regions, base_order(regions, count - 1), (count - 1) as usize)
    }
}

/// The first region, from the `k`th in `order` on, that reaches into the next.
pub open spec fn overlap_error(
    regions: Seq<MemoryRegion>,
    order: Seq<usize>,
    k: int,
) -> Option<MachineError>
    decreases order.len() - k,
{
    if k < 0 || k + 1 >= order.len() {
        None
    } else {
        let first = regions[order[k] as int];
        if first.base + first.size > regions[order[k + 1] as int].base {
            Some(MachineError::SecureOverlap(order[k], order[k + 1]))
        } else {
            overlap_error(regions, order, k + 1)
        }
    }
}

impl BoardLayout {
    pub open spec fn security_error(&self, mcu: McuDescriptor) -> Option<MachineError> {
        let regions = self.board.security.secure_regions@;
        let order = base_order(regions, regions.len() as int);
        if secure_region_error(regions, self.memory, 0) is Some {
            secure_region_error(regions, self.memory, 0)
        } else if self.board.security.trustzone && !mcu.trustzone_capable {
            Some(MachineError::NoTrustzone)
        } else if regions.len() > 0 && !self.board.security.trustzone {
            Some(MachineError::TrustzoneOff)
        } else if overlap_error(regions, order, 0) is Some {
            overlap_error(regions, order, 0)
        } else if self.non_secure_spans().len() > 8 {
            Some(MachineError::SauRegions)
        } else {
            None
        }
    }

    /// Why no machine is built from this layout on this part.
    pub open spec fn machine_error(&self, mcu: McuDescriptor) -> Option<MachineError> {
        if self.ota_error(mcu) is Some {
            self.ota_error(mcu)
        } else if self.board_error() is Some {
            self.board_error()
        } else {
            self.security_error(mcu)
        }
    }
}

fn is_within(region: &MemoryRegion, base: u64, size: u64) -> (res: bool)
    requires
        base + size <= u64::MAX,
    ensures
        res == within(*region, base as int, base + size),
{
    match region.base.checked_add(region.size) {
        Some(end) => region.base >= base && end <= base + size,
        None => false,
    }
}

fn is_within_memory(region: &MemoryRegion, memory: &MemoryLayout) -> (res: bool)
    requires
        memory.ranges_fit(),
    ensures
        res == within_memory(*region, *memory),
{
    if is_within(region, memory.flash_base, memory.flash_size) {
        return true;
    }
    let mut i: usize = 0;
    while i < memory.ram_regions.len()
        invariant
            i <= memory.ram_regions@.len(),
            memory.ranges_fit(),
            forall|k: int|
                0 <= k < i ==> !#[trigger] within_region(*region, memory.ram_regions@[k]),
        decreases memory.ram_regions@.len() - i,
    {
        let bank = &memory.ram_regions[i];
        if is_within(region, bank.base, bank.size) {
            assert(within_region(*region, memory.ram_regions@[i as int]));
            return true;
        }
        i = i + 1;
    }
    false
}

/// A region inside this memory ends inside the address space.
proof fn lemma_within_memory(region: MemoryRegion, memory: MemoryLayout)
    requires
        memory.ranges_fit(),
        within_memory(region, memory),
    ensures
        region.base + region.size <= u64::MAX,
{
}

fn check_secure_regions(layout: &BoardLayout) -> (res: Option<MachineError>)
    requires
        layout.memory.ranges_fit(),
    ensures
        res == secure_region_error(
            layout.board.security.secure_regions@,
            layout.memory,
            0,
        ),
        res matches Some(error) ==> error.of(*layout),
        res is None ==> layout.addresses_fit(),
{
    let regions = &layout.board.security.secure_regions;
    let mut i: usize = 0;
    while i < regions.len()
        invariant
            i <= regions@.len(),
            layout.memory.ranges_fit(),
            regions@ == layout.board.security.secure_regions@,
            secure_region_error(regions@, layout.memory, 0) == secure_region_error(
                regions@,
                layout.memory,
                i as int,
            ),
            forall|k: int|
                0 <= k < i ==> (#[trigger] regions@[k]).base + regions@[k].size <= u64::MAX,
        decreases regions@.len() - i,
    {
        let region = &regions[i];
        if region.size == 0 || !is_within_memory(region, &layout.memory) {
            return Some(MachineError::SecureOutside(i));
        }
        if region.base % 32 != 0 || region.size % 32 != 0 {
            return Some(MachineError::SecureGranularity(i));
        }
        proof {
            lemma_within_memory(*region, layout.memory);
        }
        i = i + 1;
    }
    None
}

proof fn lemma_position_placed(regions: Seq<MemoryRegion>, order: Seq<usize>, i: usize)
    ensures
        position_placed(regions, order, i).len() == order.len() + 1,
        forall|k: int|
            0 <= k < order.len() + 1 ==> (#[trigger] position_placed(regions, order, i)[k]) == i
                || order.contains(position_placed(regions, order, i)[k]),
        position_placed(regions, order, i).contains(i),
        forall|k: int|
            0 <= k < order.len() ==> position_placed(regions, order, i).contains(
                #[trigger] order[k],
            ),
    decreases order.len(),
{
    let placed = position_placed(regions, order, i);
    if order.len() == 0 || regions[order.last() as int].base <= regions[i as int].base {
        assert(placed[order.len() as int] == i);
        assert forall|k: int| 0 <= k < order.len() implies placed.contains(#[trigger] order[k]) by {
            assert(placed[k] == order[k]);
        }
    } else {
        let head = order.drop_last();
        lemma_position_placed(regions, head, i);
        let earlier = position_placed(regions, head, i);
        assert forall|k: int| 0 <= k < order.len() + 1 implies (#[trigger] placed[k]) == i
            || order.contains(placed[k]) by {
            if k < order.len() {
                assert(placed[k] == earlier[k]);
                if earlier[k] != i {
                    let at = choose|at: int| 0 <= at < head.len() && head[at] == earlier[k];
                    assert(order[at] == placed[k]);
                }
            } else {
                assert(order[order.len() - 1] == placed[k]);
            }
        }
        let at = choose|at: int| 0 <= at < earlier.len() && earlier[at] == i;
        assert(placed[at] == i);
        assert forall|k: int| 0 <= k < order.len() implies placed.contains(#[trigger] order[k]) by {
            if k < head.len() {
                assert(head[k] == order[k]);
                let at = choose|at: int| 0 <= at < earlier.len() && earlier[at] == head[k];
                assert(placed[at] == order[k]);
            } else {
                assert(placed[order.len() as int] == order[k]);
            }
        }
    }
}

proof fn lemma_base_order(regions: Seq<MemoryRegion>, count: int)
    requires
        0 <= count <= regions.len() <= usize::MAX,
    ensures
        base_order(regions, count).len() == count,
        forall|k: int| 0 <= k < count ==> (#[trigger] base_order(regions, count)[k]) < count,
        forall|i: usize| i < count ==> #[trigger] base_order(regions, count).contains(i),
    decreases count,
{
    if count > 0 {
        let earlier = base_order(regions, count - 1);
        let order = base_order(regions, count);
        lemma_base_order(regions, count - 1);
        lemma_position_placed(regions, earlier, (count - 1) as usize);
        assert forall|k: int| 0 <= k < count implies (#[trigger] order[k]) < count by {
            if order[k] != (count - 1) as usize {
                let at = choose|at: int| 0 <= at < earlier.len() && earlier[at] == order[k];
                assert(earlier[at] < count - 1);
            }
        }
        assert forall|i: usize| i < count implies #[trigger] order.contains(i) by {
            if i < count - 1 {
                assert(earlier.contains(i));
                let at = choose|at: int| 0 <= at < earlier.len() && earlier[at] == i;
                assert(order.contains(earlier[at]));
            }
        }
    }
}

fn place_position(regions: &[MemoryRegion], order: &mut Vec<usize>, i: usize)
    requires
        i < regions@.len(),
        forall|k: int| 0 <= k < old(order)@.len() ==> (#[trigger] old(order)@[k]) < regions@.len(),
    ensures
        final(order)@ == position_placed(regions@, old(order)@, i),
{
    let ghost before = order@;
    let mut at: usize = order.len();
    assert(before.take(at as int) =~= before);
    assert(position_placed(regions@, before, i) + before.skip(at as int) =~= position_placed(
        regions@,
        before,
        i,
    ));
    while at > 0 && regions[order[at - 1]].base > regions[i].base
        invariant
            at <= before.len(),
            order@ == before,
            i < regions@.len(),
            forall|k: int| 0 <= k < before.len() ==> (#[trigger] before[k]) < regions@.len(),
            position_placed(regions@, before, i) == position_placed(
                regions@,
                before.take(at as int),
                i,
            ) + before.skip(at as int),
        decreases at,
    {
        proof {
            let head = before.take(at as int);
            assert(head.drop_last() =~= before.take(at - 1));
            assert(position_placed(regions@, before.take(at - 1), i).push(head.last())
                + before.skip(at as int) =~= position_placed(regions@, before.take(at - 1), i)
                + before.skip(at - 1));
        }
        at = at - 1;
    }
    order.insert(at, i);
    assert(order@ =~= before.take(at as int).push(i) + before.skip(at as int));
}

fn find_overlap(regions: &[MemoryRegion]) -> (res: Option<MachineError>)
    requires
        forall|i: int|
            0 <= i < regions@.len() ==> (#[trigger] regions@[i]).base + regions@[i].size
                <= u64::MAX,
    ensures
        res == overlap_error(regions@, base_order(regions@, regions@.len() as int), 0),
        res matches Some(error) ==> (error matches MachineError::SecureOverlap(i, j) && i
            < regions@.len() && j < regions@.len()),
{
    let count: usize = regions.len();
    let mut order: Vec<usize> = Vec::new();
    let mut i: usize = 0;
    while i < count
        invariant
            i <= count,
            count == regions@.len(),
            order@ == base_order(regions@, i as int),
        decreases count - i,
    {
        proof {
            lemma_base_order(regions@, i as int);
        }
        place_position(regions, &mut order, i);
        i = i + 1;
    }
    proof {
        lemma_base_order(regions@, count as int);
    }
    let mut k: usize = 0;
    while k < count && k + 1 < count
        invariant
            k <= count,
            count == regions@.len(),
            order@.len() == count,
            order@ == base_order(regions@, count as int),
            forall|k: int| 0 <= k < count ==> (#[trigger] order@[k]) < count,
            forall|i: int|
                0 <= i < regions@.len() ==> (#[trigger] regions@[i]).base + regions@[i].size
                    <= u64::MAX,
            overlap_error(regions@, order@, 0) == overlap_error(regions@, order@, k as int),
        decreases count - k,
    {
        let first = &regions[order[k]];
        if first.base + first.size > regions[order[k + 1]].base {
            return Some(MachineError::SecureOverlap(order[k], order[k + 1]));
        }
        k = k + 1;
    }
    None
}

fn check_security(layout: &BoardLayout, mcu: &McuDescriptor) -> (res: Option<MachineError>)
    requires
        layout.memory.ranges_fit(),
    ensures
        res == layout.security_error(*mcu),
        res matches Some(error) ==> error.of(*layout),
        res is None ==> layout.addresses_fit(),
{
    if let Some(error) = check_secure_regions(layout) {
        return Some(error);
    }
    let security = &layout.board.security;
    if security.trustzone && !mcu.trustzone_capable {
        return Some(MachineError::NoTrustzone);
    }
    if security.secure_regions.len() > 0 && !security.trustzone {
        return Some(MachineError::TrustzoneOff);
    }
    if let Some(error) = find_overlap(security.secure_regions.as_slice()) {
        return Some(error);
    }
    let spans: Vec<Span> = non_secure_regions(layout);
    if spans.len() > 8 {
        return Some(MachineError::SauRegions);
    }
    None
}

/// Checks everything that a machine is built from besides its memory and its
/// images.
pub fn validate_machine_config(layout: &BoardLayout, mcu: &McuDescriptor) -> (res: Result<
    (),
    MachineError,
>)
    requires
        layout.memory.ranges_fit(),
    ensures
        match layout.machine_error(*mcu) {
            Some(error) => res == Err::<(), MachineError>(error) && error.of(*layout),
            None => res is Ok && layout.addresses_fit(),
        },
{
    if let Some(error) = check_ota(layout, mcu) {
        return Err(error);
    }
    if let Some(error) = check_board(layout) {
        return Err(error);
    }
    if let Some(error) = check_security(layout, mcu) {
        return Err(error);
    }
    Ok(())
}

// ---------------------------------------------------------------------------
// What an accepted configuration gives
// ---------------------------------------------------------------------------

proof fn lemma_secure_region(regions: Seq<MemoryRegion>, memory: MemoryLayout, from: int, k: int)
    requires
        0 <= from <= k < regions.len(),
        secure_region_error(regions, memory, from) is None,
    ensures
        regions[k].size > 0,
        within_memory(regions[k], memory),
        regions[k].base % 32 == 0,
        regions[k].size % 32 == 0,
    decreases k - from,
{
    if from < k {
        lemma_secure_region(regions, memory, from + 1, k);
    }
}

proof fn lemma_in_order(regions: Seq<MemoryRegion>, order: Seq<usize>, from: int, p: int, q: int)
    requires
        0 <= from <= p < q < order.len(),
        overlap_error(regions, order, from) is None,
    ensures
        regions[order[p] as int].base + regions[order[p] as int].size
            <= regions[order[q] as int].base,
    decreases q - from,
{
    if from < p {
        lemma_in_order(regions, order, from + 1, p, q);
    } else if p + 1 < q {
        lemma_in_order(regions, order, from + 1, p + 1, q);
    }
}

/// In an accepted configuration every secure region is nonempty, lies in flash
/// or in one RAM bank, keeps the attribution granularity, and shares no
/// address with another; there are none unless the part has a TrustZone core
/// that is switched on.
pub proof fn law_secure_regions_are_disjoint(layout: BoardLayout, mcu: McuDescriptor, i: usize, j: usize)
    requires
        layout.machine_error(mcu) is None,
        i < layout.board.security.secure_regions@.len() <= usize::MAX,
        j < layout.board.security.secure_regions@.len(),
    ensures
        layout.board.security.trustzone && mcu.trustzone_capable,
        ({
            let a = layout.board.security.secure_regions@[i as int];
            let b = layout.board.security.secure_regions@[j as int];
            &&& a.size > 0 && a.base % 32 == 0 && a.size % 32 == 0
            &&& within_memory(a, layout.memory)
            &&& i != j ==> a.base + a.size <= b.base || b.base + b.size <= a.base
        }),
{
    let regions = layout.board.security.secure_regions@;
    let order = base_order(regions, regions.len() as int);
    lemma_secure_region(regions, layout.memory, 0, i as int);
    lemma_base_order(regions, regions.len() as int);
    if i != j {
        assert(order.contains(i) && order.contains(j));
        let p = choose|p: int| 0 <= p < order.len() && order[p] == i;
        let q = choose|q: int| 0 <= q < order.len() && order[q] == j;
        if p < q {
            lemma_in_order(regions, order, 0, p, q);
        } else {
            lemma_in_order(regions, order, 0, q, p);
        }
    }
}

proof fn lemma_physical_apart(layout: BoardLayout, vector_alignment: int)
    requires
        layout.memory.error(vector_alignment) is None,
        layout.flash_apart(),
    ensures
        physical_apart(layout, layout.memory.ram_regions@.len() as int + 1),
{
    let banks = layout.memory.ram_regions@;
    law_ram_banks_are_disjoint(layout.memory, vector_alignment);
    assert forall|p: int, q: int|
        #![trigger layout.physical_span(p), layout.physical_span(q)]
        0 <= p < q < banks.len() + 1 implies apart(
        layout.physical_span(p),
        layout.physical_span(q),
    ) by {
        assert(banks[q - 1].size > 0);
        if p > 0 {
            assert(banks[p - 1].size > 0);
            assert(!regions_overlap(banks, p - 1, q - 1));
        }
    }
}

/// In an accepted layout the non-secure spans cover the memory map's whole
/// complement: each of them is nonempty, and every address of flash or of a
/// RAM bank that no secure region holds lies in one. As long as flash shares
/// no address with a RAM bank, no other address lies in one, and no two of
/// them share an address.
pub proof fn law_non_secure_covers_the_map(
    layout: BoardLayout,
    mcu: McuDescriptor,
    vector_alignment: int,
    address: int,
)
    requires
        layout.memory.error(vector_alignment) is None,
        layout.machine_error(mcu) is None,
    ensures
        forall|i: int|
            0 <= i < layout.non_secure_spans().len() ==> (#[trigger] layout.non_secure_spans()[i]).base
                < layout.non_secure_spans()[i].end,
        layout.mapped(address) && !layout.secured(address) ==> held_by(
            layout.non_secure_spans(),
            address,
        ),
        layout.flash_apart() ==> (held_by(layout.non_secure_spans(), address) <==> layout.mapped(
            address,
        ) && !layout.secured(address)),
        layout.flash_apart() ==> forall|i: int, j: int|
            0 <= i < j < layout.non_secure_spans().len() ==> apart(
                #[trigger] layout.non_secure_spans()[i],
                #[trigger] layout.non_secure_spans()[j],
            ),
{
    let banks = layout.memory.ram_regions@;
    let count = banks.len() as int + 1;
    let secure = layout.board.security.secure_regions@;
    law_partitions_in_flash(layout.memory, vector_alignment);
    law_ram_banks_are_disjoint(layout.memory, vector_alignment);
    assert forall|k: int| 0 <= k < secure.len() implies (#[trigger] secure[k]).base
        + secure[k].size <= u64::MAX by {
        lemma_secure_region(secure, layout.memory, 0, k);
        lemma_within_memory(secure[k], layout.memory);
    }
    lemma_non_secure(layout, count, address);
    if layout.mapped(address) && !layout.secured(address) {
        let p = choose|p: int|
            0 <= p <= banks.len() && (#[trigger] layout.physical_span(p)).holds(address);
        assert(!taken_in(secure, layout.physical_span(p), address));
    }
    if layout.flash_apart() {
        lemma_physical_apart(layout, vector_alignment);
        if held_by(layout.non_secure_spans(), address) && layout.secured(address) {
            let p = choose|p: int|
                0 <= p < count && (#[trigger] layout.physical_span(p)).holds(address) && !taken_in(
                    secure,
                    layout.physical_span(p),
                    address,
                );
            let k = choose|k: int|
                0 <= k < secure.len() && (#[trigger] span_of(secure[k])).holds(address);
            lemma_secure_region(secure, layout.memory, 0, k);
            let q: int = if within(
                secure[k],
                layout.memory.flash_base as int,
                layout.memory.flash_base + layout.memory.flash_size,
            ) {
                0
            } else {
                1 + choose|i: int|
                    0 <= i < banks.len() && #[trigger] within_region(secure[k], banks[i])
            };
            assert(layout.physical_span(q).holds(address));
            assert(layout.physical_span(q).holds(secure[k].base as int));
            assert(p == q);
        }
    }
}

/// Each position stands once, and no region starts earlier than one before it.
spec fn in_base_order(regions: Seq<MemoryRegion>, order: Seq<usize>) -> bool {
    forall|p: int, q: int|
        0 <= p < q < order.len() ==> order[p] != order[q] && regions[(#[trigger] order[p]) as int].base
            <= regions[(#[trigger] order[q]) as int].base
}

proof fn lemma_placed_in_order(regions: Seq<MemoryRegion>, order: Seq<usize>, i: usize)
    requires
        in_base_order(regions, order),
        !order.contains(i),
    ensures
        in_base_order(regions, position_placed(regions, order, i)),
    decreases order.len(),
{
    let placed = position_placed(regions, order, i);
    if order.len() == 0 || regions[order.last() as int].base <= regions[i as int].base {
        assert forall|p: int, q: int| 0 <= p < q < placed.len() implies placed[p] != placed[q]
            && regions[(#[trigger] placed[p]) as int].base <= regions[(
        #[trigger] placed[q]) as int].base by {
            assert(placed[p] == order[p]);
            assert(order.contains(order[p]));
            if p < order.len() - 1 {
                assert(regions[order[p] as int].base <= regions[order[order.len() - 1] as int].base);
            }
        }
    } else {
        let head = order.drop_last();
        assert(!head.contains(i)) by {
            if head.contains(i) {
                let at = choose|at: int| 0 <= at < head.len() && head[at] == i;
                assert(order[at] == i);
            }
        }
        lemma_placed_in_order(regions, head, i);
        lemma_position_placed(regions, head, i);
        let earlier = position_placed(regions, head, i);
        assert(order.contains(order[order.len() - 1]));
        assert forall|p: int, q: int| 0 <= p < q < placed.len() implies placed[p] != placed[q]
            && regions[(#[trigger] placed[p]) as int].base <= regions[(
        #[trigger] placed[q]) as int].base by {
            assert(placed[p] == earlier[p]);
            if q < earlier.len() {
                assert(placed[q] == earlier[q]);
            } else if earlier[p] != i {
                let at = choose|at: int| 0 <= at < head.len() && head[at] == earlier[p];
                assert(order[at] == earlier[p]);
            }
        }
    }
}

proof fn lemma_order_of_bases(regions: Seq<MemoryRegion>, count: int)
    requires
        0 <= count <= regions.len() <= usize::MAX,
    ensures
        in_base_order(regions, base_order(regions, count)),
    decreases count,
{
    if count > 0 {
        let earlier = base_order(regions, count - 1);
        lemma_order_of_bases(regions, count - 1);
        lemma_base_order(regions, count - 1);
        lemma_placed_in_order(regions, earlier, (count - 1) as usize);
    }
}

/// No two regions share an address, and none is empty.
spec fn regions_apart(regions: Seq<MemoryRegion>) -> bool {
    &&& forall|i: int| 0 <= i < regions.len() ==> (#[trigger] regions[i]).size > 0
    &&& forall|i: int, j: int|
        0 <= i < regions.len() && 0 <= j < regions.len() && i != j ==> (#[trigger] regions[i]).base
            + regions[i].size <= (#[trigger] regions[j]).base || regions[j].base + regions[j].size
            <= regions[i].base
}

proof fn lemma_bases_differ(regions: Seq<MemoryRegion>)
    requires
        regions_apart(regions),
    ensures
        bases_differ(regions),
{
    assert forall|i: int, j: int| 0 <= i < j < regions.len() implies (#[trigger] regions[i]).base
        != (#[trigger] regions[j]).base by {
        assert(regions[i].size > 0 && regions[j].size > 0);
    }
}

proof fn lemma_no_overlap(regions: Seq<MemoryRegion>, k: int)
    requires
        0 <= k,
        regions.len() <= usize::MAX,
        regions_apart(regions),
    ensures
        overlap_error(regions, base_order(regions, regions.len() as int), k) is None,
    decreases regions.len() - k,
{
    let order = base_order(regions, regions.len() as int);
    lemma_base_order(regions, regions.len() as int);
    lemma_order_of_bases(regions, regions.len() as int);
    if k + 1 < order.len() {
        assert(regions[order[k] as int].base <= regions[order[k + 1] as int].base);
        lemma_no_overlap(regions, k + 1);
    }
}

proof fn lemma_secure_regions(regions: Seq<MemoryRegion>, memory: MemoryLayout, from: int)
    requires
        0 <= from,
        forall|k: int|
            0 <= k < regions.len() ==> (#[trigger] regions[k]).size > 0 && within_memory(
                regions[k],
                memory,
            ) && regions[k].base % 32 == 0 && regions[k].size % 32 == 0,
    ensures
        secure_region_error(regions, memory, from) is None,
    decreases regions.len() - from,
{
    if from < regions.len() {
        assert(regions[from].size > 0);
        lemma_secure_regions(regions, memory, from + 1);
    }
}

/// Where each region starts, and its size.
pub open spec fn extents(regions: Seq<MemoryRegion>) -> Seq<(u64, u64)> {
    Seq::new(regions.len(), |i: int| (regions[i].base, regions[i].size))
}

/// The layouts differ at most in the order of their secure regions, and in
/// what those are called.
pub open spec fn regions_reordered(a: BoardLayout, b: BoardLayout) -> bool {
    &&& extents(a.board.security.secure_regions@).to_multiset() == extents(
        b.board.security.secure_regions@,
    ).to_multiset()
    &&& a.board.security.trustzone == b.board.security.trustzone
    &&& a.board.clocks == b.board.clocks
    &&& a.board.connections == b.board.connections
    &&& a.board.pins == b.board.pins
    &&& a.board.dma_routes == b.board.dma_routes
    &&& a.architecture == b.architecture
    &&& a.memory == b.memory
    &&& a.artifacts == b.artifacts
    &&& a.ota == b.ota
}

proof fn lemma_found(these: Seq<MemoryRegion>, those: Seq<MemoryRegion>)
    requires
        extents(these).to_multiset() == extents(those).to_multiset(),
    ensures
        these.len() == those.len(),
        found_among(these, those),
{
    broadcast use vstd::seq_lib::group_to_multiset_ensures;

    let left = extents(these);
    let right = extents(those);
    assert(left.to_multiset().len() == left.len() && right.to_multiset().len() == right.len());
    assert forall|i: int| 0 <= i < these.len() implies found_in(#[trigger] these[i], those) by {
        assert(left.contains(left[i]));
        assert(left.to_multiset().count(left[i]) > 0);
        assert(right.contains(left[i]));
        let j = choose|j: int| 0 <= j < right.len() && right[j] == left[i];
        assert(those[j].base == these[i].base);
    }
}

proof fn lemma_reordered_apart(these: Seq<MemoryRegion>, those: Seq<MemoryRegion>)
    requires
        extents(these).to_multiset() == extents(those).to_multiset(),
        regions_apart(these),
    ensures
        regions_apart(those),
{
    let left = extents(these);
    let right = extents(those);
    lemma_found(those, these);
    assert(left.no_duplicates()) by {
        assert forall|i: int, j: int|
            0 <= i < left.len() && 0 <= j < left.len() && i != j implies left[i] != left[j] by {
            assert(these[i].size > 0 && these[j].size > 0);
        }
    }
    left.lemma_multiset_has_no_duplicates();
    right.lemma_multiset_has_no_duplicates_conv();
    assert forall|i: int, j: int|
        0 <= i < those.len() && 0 <= j < those.len() && i != j implies (#[trigger] those[i]).base
        + those[i].size <= (#[trigger] those[j]).base || those[j].base + those[j].size
        <= those[i].base by {
        assert(found_in(those[i], these));
        let p = choose|p: int|
            0 <= p < these.len() && (#[trigger] these[p]).base == those[i].base && these[p].size
                == those[i].size;
        assert(found_in(those[j], these));
        let q = choose|q: int|
            0 <= q < these.len() && (#[trigger] these[q]).base == those[j].base && these[q].size
                == those[j].size;
        assert(right[i] != right[j]);
    }
    assert forall|i: int| 0 <= i < those.len() implies (#[trigger] those[i]).size > 0 by {
        assert(found_in(those[i], these));
        let p = choose|p: int|
            0 <= p < these.len() && (#[trigger] these[p]).base == those[i].base && these[p].size
                == those[i].size;
        assert(these[p].size > 0);
    }
}

proof fn lemma_reordered_regions(
    these: Seq<MemoryRegion>,
    those: Seq<MemoryRegion>,
    memory: MemoryLayout,
)
    requires
        found_among(those, these),
        secure_region_error(these, memory, 0) is None,
    ensures
        secure_region_error(those, memory, 0) is None,
{
    assert forall|k: int| 0 <= k < those.len() implies (#[trigger] those[k]).size > 0
        && within_memory(those[k], memory) && those[k].base % 32 == 0 && those[k].size % 32
        == 0 by {
        assert(found_in(those[k], these));
        let p = choose|p: int|
            0 <= p < these.len() && (#[trigger] these[p]).base == those[k].base && these[p].size
                == those[k].size;
        lemma_secure_region(these, memory, 0, p);
        if !within(these[p], memory.flash_base as int, memory.flash_base + memory.flash_size) {
            let i = choose|i: int|
                0 <= i < memory.ram_regions@.len() && #[trigger] within_region(
                    these[p],
                    memory.ram_regions@[i],
                );
            assert(within_region(those[k], memory.ram_regions@[i]));
        }
    }
    lemma_secure_regions(those, memory, 0);
}

proof fn lemma_accepted_apart(layout: BoardLayout, mcu: McuDescriptor)
    requires
        layout.board.security.secure_regions@.len() <= usize::MAX,
        layout.machine_error(mcu) is None,
    ensures
        regions_apart(layout.board.security.secure_regions@),
{
    let regions = layout.board.security.secure_regions@;
    assert forall|i: int| 0 <= i < regions.len() implies (#[trigger] regions[i]).size > 0 by {
        lemma_secure_region(regions, layout.memory, 0, i);
    }
    assert forall|i: int, j: int|
        0 <= i < regions.len() && 0 <= j < regions.len() && i != j implies (
    #[trigger] regions[i]).base + regions[i].size <= (#[trigger] regions[j]).base
        || regions[j].base + regions[j].size <= regions[i].base by {
        law_secure_regions_are_disjoint(layout, mcu, i as usize, j as usize);
    }
}

proof fn lemma_other_settings(a: BoardLayout, b: BoardLayout, mcu: McuDescriptor)
    requires
        regions_reordered(a, b),
    ensures
        a.ota_error(mcu) == b.ota_error(mcu),
        a.board_error() == b.board_error(),
{
}

proof fn lemma_accepted_in_any_order(a: BoardLayout, b: BoardLayout, mcu: McuDescriptor)
    requires
        regions_reordered(a, b),
        a.board.security.secure_regions@.len() <= usize::MAX,
        a.machine_error(mcu) is None,
    ensures
        b.machine_error(mcu) is None,
        a.non_secure_spans() == b.non_secure_spans(),
{
    let these = a.board.security.secure_regions@;
    let those = b.board.security.secure_regions@;
    lemma_found(these, those);
    lemma_found(those, these);
    lemma_accepted_apart(a, mcu);
    lemma_reordered_apart(these, those);
    lemma_reordered_regions(these, those, a.memory);
    lemma_no_overlap(those, 0);
    lemma_bases_differ(these);
    lemma_bases_differ(those);
    lemma_order_of_regions(a, b, a.memory.ram_regions@.len() as int + 1);
    lemma_other_settings(a, b, mcu);
}

/// Whether a configuration is accepted, and what it leaves non-secure, does
/// not depend on the order in which its secure regions are written.
pub proof fn law_order_of_secure_regions_is_free(a: BoardLayout, b: BoardLayout, mcu: McuDescriptor)
    requires
        regions_reordered(a, b),
        a.board.security.secure_regions@.len() <= usize::MAX,
    ensures
        a.machine_error(mcu) is None <==> b.machine_error(mcu) is None,
        a.machine_error(mcu) is None ==> a.non_secure_spans() == b.non_secure_spans(),
{
    lemma_found(a.board.security.secure_regions@, b.board.security.secure_regions@);
    if a.machine_error(mcu) is None {
        lemma_accepted_in_any_order(a, b, mcu);
    }
    if b.machine_error(mcu) is None {
        lemma_accepted_in_any_order(b, a, mcu);
    }
}

proof fn lemma_outcome(outcomes: Seq<BootOutcome>, from: int, k: int)
    requires
        0 <= from <= k < outcomes.len(),
        outcome_error(outcomes, from) is None,
    ensures
        !outcome_taken(outcomes, k),
    decreases k - from,
{
    if from < k {
        lemma_outcome(outcomes, from + 1, k);
    }
}

/// In an accepted configuration no two boot outcomes share a name or a symbol.
pub proof fn law_outcomes_are_told_apart(layout: BoardLayout, mcu: McuDescriptor, j: int, i: int)
    requires
        layout.machine_error(mcu) is None,
        0 <= j < i < layout.ota.outcomes@.len(),
    ensures
        !same_outcome(layout.ota.outcomes@, j, i),
{
    lemma_outcome(layout.ota.outcomes@, 0, i);
}

/// In an accepted configuration power is cut only where the firmware drives
/// the update itself over a transport that the part has.
pub proof fn law_power_cuts_need_a_driven_update(layout: BoardLayout, mcu: McuDescriptor)
    requires
        layout.machine_error(mcu) is None,
        layout.ota.power_cuts.requested(),
    ensures
        layout.ota.firmware_driven,
        layout.ota.transport matches Some(transport) && transport.error(mcu) is None,
        layout.artifacts.ota is Some,
        layout.artifacts.updated_firmware is Some,
        layout.ota.outcomes@.len() > 0,
{
}

// ---------------------------------------------------------------------------
// Which configurations are accepted
// ---------------------------------------------------------------------------

/// At least one character, each a letter, a digit or one of `_ - . @`.
pub open spec fn plain_name(name: Seq<char>) -> bool {
    &&& name.len() > 0
    &&& forall|i: int|
        0 <= i < name.len() ==> ('a' <= #[trigger] name[i] && name[i] <= 'z') || ('A' <= name[i]
            && name[i] <= 'Z') || ('0' <= name[i] && name[i] <= '9') || name[i] == '_' || name[i]
            == '-' || name[i] == '.' || name[i] == '@'
}

/// The emulator's scripts hold the plain names, and no others.
pub proof fn law_machine_names_are_plain(name: Seq<char>)
    ensures
        machine_name(name) <==> plain_name(name),
{
    reveal_strlit("_-.@");
    let extra = "_-.@"@;
    assert(extra[0] == '_' && extra[1] == '-' && extra[2] == '.' && extra[3] == '@');
    assert(extra.len() == 4);
    assert forall|c: char| extra.contains(c) <==> c == '_' || c == '-' || c == '.' || c
        == '@' by {
        if extra.contains(c) {
            let i = choose|i: int| 0 <= i < extra.len() && extra[i] == c;
            assert(i == 0 || i == 1 || i == 2 || i == 3);
        }
    }
}

pub open spec fn has_name(names: Seq<String>, name: Seq<char>) -> bool {
    exists|i: int| 0 <= i < names.len() && (#[trigger] names[i])@ == name
}

/// The part can be updated over this transport: it has the peripheral for
/// updates of this kind, a CAN transport has an identifier and frames of at
/// most 64 bytes, and a USB one an endpoint below eight.
pub open spec fn transport_sound(transport: OtaTransport, mcu: McuDescriptor) -> bool {
    &&& match transport.kind {
        OtaTransportKind::Uart => has_name(mcu.uart_ota@, transport.peripheral@),
        OtaTransportKind::Can => has_name(mcu.can_ota@, transport.peripheral@),
        OtaTransportKind::Usb => has_name(mcu.usb_ota@, transport.peripheral@),
        OtaTransportKind::Sdmmc => has_name(mcu.sdmmc_ota@, transport.peripheral@),
    }
    &&& transport.kind == OtaTransportKind::Can ==> {
        &&& transport.can_id is Some
        &&& transport.mtu matches Some(mtu) ==> mtu <= 64
    }
    &&& transport.kind == OtaTransportKind::Usb ==> {
        transport.endpoint matches Some(endpoint) ==> endpoint <= 7
    }
}

proof fn lemma_listed(names: Seq<String>, name: Seq<char>)
    ensures
        texts(names).contains(name) <==> has_name(names, name),
{
    let all = texts(names);
    if all.contains(name) {
        let i = choose|i: int| 0 <= i < all.len() && all[i] == name;
        assert(names[i]@ == name);
    }
    if has_name(names, name) {
        let i = choose|i: int| 0 <= i < names.len() && (#[trigger] names[i])@ == name;
        assert(all[i] == name);
    }
}

/// A transport is accepted exactly where the part can be updated over it; what
/// is refused is the first of its peripheral, its identifier and its frames, or
/// its endpoint.
pub proof fn law_sound_transports_are_accepted(transport: OtaTransport, mcu: McuDescriptor)
    ensures
        transport.error(mcu) is None <==> transport_sound(transport, mcu),
        transport.error(mcu) == Some(MachineError::CanId) ==> transport.kind
            == OtaTransportKind::Can && transport.can_id is None,
        transport.error(mcu) == Some(MachineError::CanPayload) ==> (transport.kind
            == OtaTransportKind::Can && (transport.mtu matches Some(mtu) && mtu > 64)),
        transport.error(mcu) == Some(MachineError::UsbEndpoint) ==> (transport.kind
            == OtaTransportKind::Usb && (transport.endpoint matches Some(endpoint) && endpoint
            > 7)),
        transport.error(mcu) == Some(MachineError::NoUart) ==> transport.kind
            == OtaTransportKind::Uart,
        transport.error(mcu) == Some(MachineError::NoCan) ==> transport.kind
            == OtaTransportKind::Can,
        transport.error(mcu) == Some(MachineError::NoUsb) ==> transport.kind
            == OtaTransportKind::Usb,
        transport.error(mcu) == Some(MachineError::NoSdmmc) ==> transport.kind
            == OtaTransportKind::Sdmmc,
{
    let name = transport.peripheral@;
    lemma_listed(mcu.uart_ota@, name);
    lemma_listed(mcu.can_ota@, name);
    lemma_listed(mcu.usb_ota@, name);
    lemma_listed(mcu.sdmmc_ota@, name);
}

proof fn lemma_hidden_event(events: Seq<FlashEventKind>, from: int)
    requires
        0 <= from,
    ensures
        hidden_event(events, from) is None <==> forall|i: int|
            from <= i < events.len() ==> (#[trigger] events[i]) != FlashEventKind::OptionCommit,
    decreases events.len() - from,
{
    if from < events.len() {
        lemma_hidden_event(events, from + 1);
        if hidden_event(events, from) is None {
            assert forall|i: int| from <= i < events.len() implies (#[trigger] events[i])
                != FlashEventKind::OptionCommit by {
                if i > from {
                    assert(from + 1 <= i);
                }
            }
        }
    }
}

spec fn outcome_sound(outcomes: Seq<BootOutcome>, i: int) -> bool {
    &&& plain_name(outcomes[i].name@)
    &&& plain_name(outcomes[i].symbol@)
    &&& forall|j: int|
        0 <= j < i ==> (#[trigger] outcomes[j]).name@ != outcomes[i].name@ && outcomes[j].symbol@
            != outcomes[i].symbol@
}

proof fn lemma_outcome_sound(outcomes: Seq<BootOutcome>, i: int)
    requires
        0 <= i < outcomes.len(),
    ensures
        outcome_sound(outcomes, i) <==> machine_name(outcomes[i].name@) && machine_name(
            outcomes[i].symbol@,
        ) && !outcome_taken(outcomes, i),
{
    law_machine_names_are_plain(outcomes[i].name@);
    law_machine_names_are_plain(outcomes[i].symbol@);
    if !outcome_taken(outcomes, i) {
        assert forall|j: int| 0 <= j < i implies (#[trigger] outcomes[j]).name@
            != outcomes[i].name@ && outcomes[j].symbol@ != outcomes[i].symbol@ by {
            assert(!same_outcome(outcomes, j, i));
        }
    } else {
        let j = choose|j: int| 0 <= j < i && #[trigger] same_outcome(outcomes, j, i);
        assert(outcomes[j].name@ == outcomes[i].name@ || outcomes[j].symbol@
            == outcomes[i].symbol@);
    }
}

proof fn lemma_outcomes_sound(outcomes: Seq<BootOutcome>, from: int)
    requires
        0 <= from,
    ensures
        outcome_error(outcomes, from) is None <==> forall|i: int|
            from <= i < outcomes.len() ==> #[trigger] outcome_sound(outcomes, i),
    decreases outcomes.len() - from,
{
    if from < outcomes.len() {
        lemma_outcomes_sound(outcomes, from + 1);
        lemma_outcome_sound(outcomes, from);
        if outcome_error(outcomes, from) is None {
            assert forall|i: int| from <= i < outcomes.len() implies #[trigger] outcome_sound(
                outcomes,
                i,
            ) by {
                if i > from {
                    assert(from + 1 <= i);
                }
            }
        } else {
            assert(!outcome_sound(outcomes, from) || exists|i: int|
                from + 1 <= i < outcomes.len() && !#[trigger] outcome_sound(outcomes, i));
        }
    }
}

/// Every outcome has a plain name and a plain symbol, and shares neither with
/// another.
pub open spec fn outcomes_sound(outcomes: Seq<BootOutcome>) -> bool {
    &&& forall|i: int|
        0 <= i < outcomes.len() ==> plain_name((#[trigger] outcomes[i]).name@) && plain_name(
            outcomes[i].symbol@,
        )
    &&& forall|i: int, j: int|
        0 <= j < i < outcomes.len() ==> (#[trigger] outcomes[j]).name@ != (
        #[trigger] outcomes[i]).name@ && outcomes[j].symbol@ != outcomes[i].symbol@
}

/// An update is accepted exactly where its data comes in nonempty chunks with
/// time between the bytes; where the firmware, if it drives the update, has a
/// transport that the part can use, a package, the image that it gives and an
/// outcome to reach; where power is cut in one way at most, only in updates
/// that the firmware drives, and never at an option commit; and where the
/// outcomes can be told apart.
pub proof fn law_sound_updates_are_accepted(layout: BoardLayout, mcu: McuDescriptor)
    ensures
        layout.ota_error(mcu) is None <==> {
            let ota = layout.ota;
            &&& ota.chunk_size > 0
            &&& ota.inter_byte_us > 0
            &&& ota.firmware_driven ==> {
                &&& ota.transport is Some
                &&& transport_sound(ota.transport->0, mcu)
                &&& layout.artifacts.ota is Some
                &&& layout.artifacts.updated_firmware is Some
                &&& ota.outcomes@.len() > 0
            }
            &&& ota.power_cuts.every_flash_operation ==> ota.firmware_driven
                && ota.power_cuts.events@.len() == 0
            &&& ota.power_cuts.events@.len() > 0 ==> ota.firmware_driven
            &&& !ota.power_cuts.events@.contains(FlashEventKind::OptionCommit)
            &&& outcomes_sound(ota.outcomes@)
        },
{
    let ota = layout.ota;
    if ota.transport is Some {
        law_sound_transports_are_accepted(ota.transport->0, mcu);
    }
    lemma_hidden_event(ota.power_cuts.events@, 0);
    lemma_outcomes_sound(ota.outcomes@, 0);
    let outcomes = ota.outcomes@;
    if outcomes_sound(outcomes) {
        assert forall|i: int| 0 <= i < outcomes.len() implies #[trigger] outcome_sound(
            outcomes,
            i,
        ) by {}
    }
    if outcome_error(outcomes, 0) is None {
        assert forall|i: int| 0 <= i < outcomes.len() implies plain_name(
            (#[trigger] outcomes[i]).name@,
        ) && plain_name(outcomes[i].symbol@) by {
            assert(outcome_sound(outcomes, i));
        }
        assert forall|i: int, j: int| 0 <= j < i < outcomes.len() implies (
        #[trigger] outcomes[j]).name@ != (#[trigger] outcomes[i]).name@ && outcomes[j].symbol@
            != outcomes[i].symbol@ by {
            assert(outcome_sound(outcomes, i));
        }
    }
}

proof fn lemma_clocks(clocks: Seq<ClockConfig>, from: int)
    requires
        0 <= from,
    ensures
        clock_error(clocks, from) is None <==> forall|i: int|
            from <= i < clocks.len() ==> plain_name((#[trigger] clocks[i]).peripheral@)
                && clocks[i].frequency_hz > 0,
    decreases clocks.len() - from,
{
    if from < clocks.len() {
        lemma_clocks(clocks, from + 1);
        law_machine_names_are_plain(clocks[from].peripheral@);
        if clock_error(clocks, from) is None {
            assert forall|i: int| from <= i < clocks.len() implies plain_name(
                (#[trigger] clocks[i]).peripheral@,
            ) && clocks[i].frequency_hz > 0 by {
                if i > from {
                    assert(from + 1 <= i);
                }
            }
        }
    }
}

proof fn lemma_clocks_apart(clocks: Seq<ClockConfig>, from: int)
    requires
        0 <= from,
    ensures
        taken_clock_error(clocks, from) is None <==> forall|i: int|
            from <= i < clocks.len() ==> !#[trigger] clock_taken(clocks, i),
    decreases clocks.len() - from,
{
    if from < clocks.len() {
        lemma_clocks_apart(clocks, from + 1);
        if taken_clock_error(clocks, from) is None {
            assert forall|i: int| from <= i < clocks.len() implies !#[trigger] clock_taken(
                clocks,
                i,
            ) by {
                if i > from {
                    assert(from + 1 <= i);
                }
            }
        } else {
            assert(clock_taken(clocks, from) || exists|i: int|
                from + 1 <= i < clocks.len() && #[trigger] clock_taken(clocks, i));
        }
    }
}

proof fn lemma_connections(connections: Seq<ConnectionConfig>, from: int)
    requires
        0 <= from,
    ensures
        connection_error(connections, from) is None <==> forall|i: int|
            from <= i < connections.len() ==> plain_name((#[trigger] connections[i]).from@)
                && plain_name(connections[i].to@),
    decreases connections.len() - from,
{
    if from < connections.len() {
        lemma_connections(connections, from + 1);
        law_machine_names_are_plain(connections[from].from@);
        law_machine_names_are_plain(connections[from].to@);
        if connection_error(connections, from) is None {
            assert forall|i: int| from <= i < connections.len() implies plain_name(
                (#[trigger] connections[i]).from@,
            ) && plain_name(connections[i].to@) by {
                if i > from {
                    assert(from + 1 <= i);
                }
            }
        }
    }
}

/// The ports of an architecture's package models, of sixteen pins each.
pub open spec fn ports(architecture: ArchitectureKind) -> Seq<char> {
    match architecture {
        ArchitectureKind::Stm32 => ""@,
        ArchitectureKind::Stm32g4 => "ABCDEFG"@,
        ArchitectureKind::Stm32h5 => "ABCDEFGH"@,
        ArchitectureKind::Stm32u5 => "ABCDEFGHI"@,
    }
}

proof fn lemma_gpio_is_plain()
    ensures
        plain_name("gpio"@),
{
    reveal_strlit("gpio");
}

proof fn lemma_pins(pins: Seq<PinConfig>, architecture: ArchitectureKind, from: int)
    requires
        0 <= from,
    ensures
        pin_error(pins, architecture, from) is None <==> forall|i: int|
            from <= i < pins.len() ==> (#[trigger] pins[i]).gpio@ == "gpio"@ && pins[i].pin / 16
                < ports(architecture).len(),
    decreases pins.len() - from,
{
    reveal_strlit("");
    reveal_strlit("ABCDEFG");
    reveal_strlit("ABCDEFGH");
    reveal_strlit("ABCDEFGHI");
    if from < pins.len() {
        lemma_pins(pins, architecture, from + 1);
        lemma_gpio_is_plain();
        law_machine_names_are_plain("gpio"@);
        if pin_error(pins, architecture, from) is None {
            assert forall|i: int| from <= i < pins.len() implies (#[trigger] pins[i]).gpio@
                == "gpio"@ && pins[i].pin / 16 < ports(architecture).len() by {
                if i > from {
                    assert(from + 1 <= i);
                }
            }
        }
    }
}

spec fn route_sound(route: DmaRoute, architecture: ArchitectureKind) -> bool {
    &&& plain_name(route.request@)
    &&& if architecture == ArchitectureKind::Stm32g4 {
        route.controller@ == "dma1"@ || route.controller@ == "dma2"@
    } else {
        route.controller@ == "gpdma"@
    }
    &&& route.channel <= 15
}

proof fn lemma_controllers_are_plain()
    ensures
        plain_name("dma1"@),
        plain_name("dma2"@),
        plain_name("gpdma"@),
{
    reveal_strlit("dma1");
    reveal_strlit("dma2");
    reveal_strlit("gpdma");
}

proof fn lemma_routes(routes: Seq<DmaRoute>, architecture: ArchitectureKind, from: int)
    requires
        0 <= from,
    ensures
        dma_error(routes, architecture, from) is None <==> forall|i: int|
            from <= i < routes.len() ==> route_sound(#[trigger] routes[i], architecture),
    decreases routes.len() - from,
{
    if from < routes.len() {
        lemma_routes(routes, architecture, from + 1);
        law_machine_names_are_plain(routes[from].request@);
        lemma_controllers_are_plain();
        law_machine_names_are_plain(routes[from].controller@);
        if dma_error(routes, architecture, from) is None {
            assert forall|i: int| from <= i < routes.len() implies route_sound(
                #[trigger] routes[i],
                architecture,
            ) by {
                if i > from {
                    assert(from + 1 <= i);
                }
            }
        }
    }
}

/// A board is accepted exactly where every clock runs and belongs to a
/// peripheral of its own, every connection joins two plain names, every pin is
/// one of the modelled ports', and every DMA request goes to one of the sixteen
/// channels of a modelled controller.
pub proof fn law_sound_boards_are_accepted(layout: BoardLayout)
    ensures
        layout.board_error() is None <==> {
            let board = layout.board;
            &&& forall|i: int|
                0 <= i < board.clocks@.len() ==> plain_name((#[trigger] board.clocks@[i]).peripheral@)
                    && board.clocks@[i].frequency_hz > 0
            &&& forall|i: int, j: int|
                0 <= j < i < board.clocks@.len() ==> (#[trigger] board.clocks@[j]).peripheral@ != (
                #[trigger] board.clocks@[i]).peripheral@
            &&& forall|i: int|
                0 <= i < board.connections@.len() ==> plain_name(
                    (#[trigger] board.connections@[i]).from@,
                ) && plain_name(board.connections@[i].to@)
            &&& forall|i: int|
                0 <= i < board.pins@.len() ==> (#[trigger] board.pins@[i]).gpio@ == "gpio"@
                    && board.pins@[i].pin / 16 < ports(layout.architecture).len()
            &&& forall|i: int|
                0 <= i < board.dma_routes@.len() ==> plain_name(
                    (#[trigger] board.dma_routes@[i]).request@,
                ) && board.dma_routes@[i].channel <= 15 && if layout.architecture
                    == ArchitectureKind::Stm32g4 {
                    board.dma_routes@[i].controller@ == "dma1"@
                        || board.dma_routes@[i].controller@ == "dma2"@
                } else {
                    board.dma_routes@[i].controller@ == "gpdma"@
                }
        },
{
    let board = layout.board;
    let clocks = board.clocks@;
    lemma_clocks(clocks, 0);
    lemma_clocks_apart(clocks, 0);
    lemma_connections(board.connections@, 0);
    lemma_pins(board.pins@, layout.architecture, 0);
    lemma_routes(board.dma_routes@, layout.architecture, 0);
    if taken_clock_error(clocks, 0) is None {
        assert forall|i: int, j: int| 0 <= j < i < clocks.len() implies (
        #[trigger] clocks[j]).peripheral@ != (#[trigger] clocks[i]).peripheral@ by {
            assert(!clock_taken(clocks, i));
            assert(!same_clock(clocks, j, i));
        }
    } else {
        let i = choose|i: int| 0 <= i < clocks.len() && #[trigger] clock_taken(clocks, i);
        let j = choose|j: int| 0 <= j < i && #[trigger] same_clock(clocks, j, i);
        assert(clocks[j].peripheral@ == clocks[i].peripheral@);
    }
    assert forall|i: int| 0 <= i < board.dma_routes@.len() implies route_sound(
        #[trigger] board.dma_routes@[i],
        layout.architecture,
    ) == (plain_name(board.dma_routes@[i].request@) && board.dma_routes@[i].channel <= 15 && if layout.architecture
        == ArchitectureKind::Stm32g4 {
        board.dma_routes@[i].controller@ == "dma1"@ || board.dma_routes@[i].controller@ == "dma2"@
    } else {
        board.dma_routes@[i].controller@ == "gpdma"@
    }) by {}
}

/// The region is nonempty, begins and ends at the attribution granularity, and
/// lies in flash or in one RAM bank.
pub open spec fn securable(region: MemoryRegion, memory: MemoryLayout) -> bool {
    &&& region.size > 0
    &&& region.base % 32 == 0
    &&& region.size % 32 == 0
    &&& {
        ||| memory.flash_base <= region.base && region.base + region.size <= memory.flash_base
            + memory.flash_size
        ||| exists|i: int|
            0 <= i < memory.ram_regions@.len() && (#[trigger] memory.ram_regions@[i]).base
                <= region.base && region.base + region.size <= memory.ram_regions@[i].base
                + memory.ram_regions@[i].size
    }
}

proof fn lemma_securable(region: MemoryRegion, memory: MemoryLayout)
    ensures
        securable(region, memory) <==> region.size > 0 && within_memory(region, memory)
            && region.base % 32 == 0 && region.size % 32 == 0,
{
    let banks = memory.ram_regions@;
    if exists|i: int| 0 <= i < banks.len() && #[trigger] within_region(region, banks[i]) {
        let i = choose|i: int| 0 <= i < banks.len() && #[trigger] within_region(region, banks[i]);
        assert(banks[i].base <= region.base);
    }
    assert forall|i: int|
        0 <= i < banks.len() && (#[trigger] banks[i]).base <= region.base && region.base
            + region.size <= banks[i].base + banks[i].size implies within_region(
        region,
        banks[i],
    ) by {}
}

/// Security settings are accepted exactly where every secure region can be
/// secured and shares no address with another, where there are none unless
/// TrustZone is switched on, where it is on only on a part that has it, and
/// where at most eight spans are left to be declared non-secure.
pub proof fn law_sound_security_is_accepted(layout: BoardLayout, mcu: McuDescriptor)
    requires
        layout.board.security.secure_regions@.len() <= usize::MAX,
    ensures
        layout.security_error(mcu) is None <==> {
            let security = layout.board.security;
            let regions = security.secure_regions@;
            &&& security.trustzone ==> mcu.trustzone_capable
            &&& regions.len() > 0 ==> security.trustzone
            &&& forall|i: int|
                0 <= i < regions.len() ==> securable(#[trigger] regions[i], layout.memory)
            &&& forall|i: int, j: int|
                0 <= j < i < regions.len() ==> (#[trigger] regions[i]).base + regions[i].size <= (
                #[trigger] regions[j]).base || regions[j].base + regions[j].size <= regions[i].base
            &&& layout.non_secure_spans().len() <= 8
        },
{
    let regions = layout.board.security.secure_regions@;
    let order = base_order(regions, regions.len() as int);
    assert forall|i: int| 0 <= i < regions.len() implies (securable(
        #[trigger] regions[i],
        layout.memory,
    ) <==> regions[i].size > 0 && within_memory(regions[i], layout.memory) && regions[i].base % 32
        == 0 && regions[i].size % 32 == 0) by {
        lemma_securable(regions[i], layout.memory);
    }
    if secure_region_error(regions, layout.memory, 0) is None {
        assert forall|i: int| 0 <= i < regions.len() implies securable(
            #[trigger] regions[i],
            layout.memory,
        ) by {
            lemma_secure_region(regions, layout.memory, 0, i);
        }
    }
    if forall|i: int| 0 <= i < regions.len() ==> securable(#[trigger] regions[i], layout.memory) {
        lemma_secure_regions(regions, layout.memory, 0);
        if forall|i: int, j: int|
            0 <= j < i < regions.len() ==> (#[trigger] regions[i]).base + regions[i].size <= (
            #[trigger] regions[j]).base || regions[j].base + regions[j].size <= regions[i].base {
            assert(regions_apart(regions));
            lemma_no_overlap(regions, 0);
        }
    }
    if overlap_error(regions, order, 0) is None {
        lemma_base_order(regions, regions.len() as int);
        assert forall|i: int, j: int| 0 <= j < i < regions.len() implies (#[trigger] regions[i]).base
            + regions[i].size <= (#[trigger] regions[j]).base || regions[j].base + regions[j].size
            <= regions[i].base by {
            assert(order.contains(i as usize) && order.contains(j as usize));
            let p = choose|p: int| 0 <= p < order.len() && order[p] == i as usize;
            let q = choose|q: int| 0 <= q < order.len() && order[q] == j as usize;
            if p < q {
                lemma_in_order(regions, order, 0, p, q);
            } else {
                lemma_in_order(regions, order, 0, q, p);
            }
        }
    }
}

/// A machine is built exactly where its update, its board and its security
/// settings are each accepted.
pub proof fn law_every_part_of_a_machine_is_held_to_it(layout: BoardLayout, mcu: McuDescriptor)
    ensures
        layout.machine_error(mcu) is None <==> layout.ota_error(mcu) is None
            && layout.board_error() is None && layout.security_error(mcu) is None,
{
}

proof fn lemma_outcome_fault(outcomes: Seq<BootOutcome>, from: int)
    requires
        0 <= from,
        outcomes.len() <= usize::MAX,
    ensures
        match outcome_error(outcomes, from) {
            None => true,
            Some(MachineError::OutcomeName) => exists|i: int|
                0 <= i < outcomes.len() && !(plain_name((#[trigger] outcomes[i]).name@)
                    && plain_name(outcomes[i].symbol@)),
            Some(MachineError::OutcomeTaken(i)) => i < outcomes.len() && exists|j: int|
                0 <= j < i && ((#[trigger] outcomes[j]).name@ == outcomes[i as int].name@
                    || outcomes[j].symbol@ == outcomes[i as int].symbol@),
            Some(_) => false,
        },
    decreases outcomes.len() - from,
{
    if from < outcomes.len() {
        law_machine_names_are_plain(outcomes[from].name@);
        law_machine_names_are_plain(outcomes[from].symbol@);
        lemma_outcome_fault(outcomes, from + 1);
        if outcome_taken(outcomes, from) {
            let j = choose|j: int| 0 <= j < from && #[trigger] same_outcome(outcomes, j, from);
            assert(outcomes[j].name@ == outcomes[from].name@ || outcomes[j].symbol@
                == outcomes[from].symbol@);
        }
    }
}

proof fn lemma_hidden_kind(events: Seq<FlashEventKind>, from: int)
    requires
        0 <= from,
    ensures
        hidden_event(events, from) matches Some(error) ==> error == MachineError::CutEvent(
            FlashEventKind::OptionCommit,
        ) && events.contains(FlashEventKind::OptionCommit),
    decreases events.len() - from,
{
    if from < events.len() {
        lemma_hidden_kind(events, from + 1);
        if events[from] == FlashEventKind::OptionCommit {
            assert(events.contains(events[from]));
        }
    }
}

/// What an update is refused for is wrong with it.
pub proof fn law_updates_are_refused_for_what_is_wrong(layout: BoardLayout, mcu: McuDescriptor)
    requires
        layout.ota.outcomes@.len() <= usize::MAX,
    ensures
        ({
            let ota = layout.ota;
            let outcomes = ota.outcomes@;
            match layout.ota_error(mcu) {
                None => true,
                Some(MachineError::ChunkSize) => ota.chunk_size == 0,
                Some(MachineError::InterByte) => ota.inter_byte_us == 0,
                Some(MachineError::NoTransport) => ota.firmware_driven && ota.transport is None,
                Some(MachineError::NoPackage) => ota.firmware_driven && layout.artifacts.ota is None,
                Some(MachineError::NoUpdatedFirmware) => ota.firmware_driven
                    && layout.artifacts.updated_firmware is None,
                Some(MachineError::NoOutcomes) => ota.firmware_driven && outcomes.len() == 0,
                Some(MachineError::CutSelection) => ota.power_cuts.every_flash_operation
                    && ota.power_cuts.events@.len() > 0,
                Some(MachineError::CutWithoutFirmware) => !ota.firmware_driven && (
                ota.power_cuts.every_flash_operation || ota.power_cuts.events@.len() > 0),
                Some(MachineError::CutEvent(kind)) => kind == FlashEventKind::OptionCommit
                    && ota.power_cuts.events@.contains(kind),
                Some(MachineError::OutcomeName) => exists|i: int|
                    0 <= i < outcomes.len() && !(plain_name((#[trigger] outcomes[i]).name@)
                        && plain_name(outcomes[i].symbol@)),
                Some(MachineError::OutcomeTaken(i)) => i < outcomes.len() && exists|j: int|
                    0 <= j < i && ((#[trigger] outcomes[j]).name@ == outcomes[i as int].name@
                        || outcomes[j].symbol@ == outcomes[i as int].symbol@),
                Some(error) => ota.firmware_driven && ota.transport is Some && (
                ota.transport->0).error(mcu) == Some(error),
            }
        }),
{
    lemma_hidden_kind(layout.ota.power_cuts.events@, 0);
    lemma_outcome_fault(layout.ota.outcomes@, 0);
}

proof fn lemma_clock_fault(clocks: Seq<ClockConfig>, from: int)
    requires
        0 <= from,
        clocks.len() <= usize::MAX,
    ensures
        clock_error(clocks, from) matches Some(error) ==> error == MachineError::Clock,
        match taken_clock_error(clocks, from) {
            None => true,
            Some(MachineError::ClockTaken(i)) => i < clocks.len() && exists|j: int|
                0 <= j < i && (#[trigger] clocks[j]).peripheral@ == clocks[i as int].peripheral@,
            Some(_) => false,
        },
    decreases clocks.len() - from,
{
    if from < clocks.len() {
        lemma_clock_fault(clocks, from + 1);
        if clock_taken(clocks, from) {
            let j = choose|j: int| 0 <= j < from && #[trigger] same_clock(clocks, j, from);
            assert(clocks[j].peripheral@ == clocks[from].peripheral@);
        }
    }
}

proof fn lemma_connection_fault(connections: Seq<ConnectionConfig>, from: int)
    requires
        0 <= from,
    ensures
        connection_error(connections, from) matches Some(error) ==> error
            == MachineError::Connection,
    decreases connections.len() - from,
{
    if from < connections.len() {
        lemma_connection_fault(connections, from + 1);
    }
}

proof fn lemma_pin_fault(pins: Seq<PinConfig>, architecture: ArchitectureKind, from: int)
    requires
        0 <= from,
        pins.len() <= usize::MAX,
    ensures
        match pin_error(pins, architecture, from) {
            None => true,
            Some(MachineError::GpioName) => exists|i: int|
                0 <= i < pins.len() && !plain_name((#[trigger] pins[i]).gpio@),
            Some(MachineError::GpioBank(i)) => i < pins.len() && pins[i as int].gpio@ != "gpio"@,
            Some(MachineError::GpioPin(pin)) => pin as int / 16 >= ports(architecture).len()
                && exists|i: int| 0 <= i < pins.len() && (#[trigger] pins[i]).pin == pin,
            Some(_) => false,
        },
    decreases pins.len() - from,
{
    reveal_strlit("");
    reveal_strlit("ABCDEFG");
    reveal_strlit("ABCDEFGH");
    reveal_strlit("ABCDEFGHI");
    if from < pins.len() {
        law_machine_names_are_plain(pins[from].gpio@);
        lemma_pin_fault(pins, architecture, from + 1);
        assert(pins[from].pin == pins[from].pin);
    }
}

proof fn lemma_dma_fault(routes: Seq<DmaRoute>, architecture: ArchitectureKind, from: int)
    requires
        0 <= from,
        routes.len() <= usize::MAX,
    ensures
        match dma_error(routes, architecture, from) {
            None => true,
            Some(MachineError::DmaName) => exists|i: int|
                0 <= i < routes.len() && !(plain_name((#[trigger] routes[i]).request@) && plain_name(
                    routes[i].controller@,
                )),
            Some(MachineError::DmaController(i)) => i < routes.len() && if architecture
                == ArchitectureKind::Stm32g4 {
                routes[i as int].controller@ != "dma1"@ && routes[i as int].controller@ != "dma2"@
            } else {
                routes[i as int].controller@ != "gpdma"@
            },
            Some(MachineError::DmaChannel) => exists|i: int|
                0 <= i < routes.len() && (#[trigger] routes[i]).channel > 15,
            Some(_) => false,
        },
    decreases routes.len() - from,
{
    if from < routes.len() {
        law_machine_names_are_plain(routes[from].request@);
        law_machine_names_are_plain(routes[from].controller@);
        lemma_dma_fault(routes, architecture, from + 1);
        assert(routes[from].channel == routes[from].channel);
    }
}

/// What a board is refused for is wrong with it.
pub proof fn law_boards_are_refused_for_what_is_wrong(layout: BoardLayout)
    requires
        layout.board.clocks@.len() <= usize::MAX,
        layout.board.pins@.len() <= usize::MAX,
        layout.board.dma_routes@.len() <= usize::MAX,
    ensures
        ({
            let board = layout.board;
            match layout.board_error() {
                None => true,
                Some(MachineError::Clock) => exists|i: int|
                    0 <= i < board.clocks@.len() && !(plain_name(
                        (#[trigger] board.clocks@[i]).peripheral@,
                    ) && board.clocks@[i].frequency_hz > 0),
                Some(MachineError::ClockTaken(i)) => i < board.clocks@.len() && exists|j: int|
                    0 <= j < i && (#[trigger] board.clocks@[j]).peripheral@
                        == board.clocks@[i as int].peripheral@,
                Some(MachineError::Connection) => exists|i: int|
                    0 <= i < board.connections@.len() && !(plain_name(
                        (#[trigger] board.connections@[i]).from@,
                    ) && plain_name(board.connections@[i].to@)),
                Some(MachineError::GpioName) => exists|i: int|
                    0 <= i < board.pins@.len() && !plain_name((#[trigger] board.pins@[i]).gpio@),
                Some(MachineError::GpioBank(i)) => i < board.pins@.len()
                    && board.pins@[i as int].gpio@ != "gpio"@,
                Some(MachineError::GpioPin(pin)) => pin as int / 16 >= ports(
                    layout.architecture,
                ).len(),
                Some(MachineError::DmaName) => exists|i: int|
                    0 <= i < board.dma_routes@.len() && !(plain_name(
                        (#[trigger] board.dma_routes@[i]).request@,
                    ) && plain_name(board.dma_routes@[i].controller@)),
                Some(MachineError::DmaController(i)) => i < board.dma_routes@.len() && if layout.architecture
                    == ArchitectureKind::Stm32g4 {
                    board.dma_routes@[i as int].controller@ != "dma1"@
                        && board.dma_routes@[i as int].controller@ != "dma2"@
                } else {
                    board.dma_routes@[i as int].controller@ != "gpdma"@
                },
                Some(MachineError::DmaChannel) => exists|i: int|
                    0 <= i < board.dma_routes@.len() && (#[trigger] board.dma_routes@[i]).channel > 15,
                Some(_) => false,
            }
        }),
{
    let board = layout.board;
    lemma_clock_fault(board.clocks@, 0);
    lemma_clocks(board.clocks@, 0);
    lemma_connection_fault(board.connections@, 0);
    lemma_connections(board.connections@, 0);
    lemma_pin_fault(board.pins@, layout.architecture, 0);
    lemma_dma_fault(board.dma_routes@, layout.architecture, 0);
}

proof fn lemma_secure_fault(regions: Seq<MemoryRegion>, memory: MemoryLayout, from: int)
    requires
        0 <= from,
        regions.len() <= usize::MAX,
    ensures
        match secure_region_error(regions, memory, from) {
            None => true,
            Some(MachineError::SecureOutside(i)) => i < regions.len() && (regions[i as int].size
                == 0 || !within_memory(regions[i as int], memory)),
            Some(MachineError::SecureGranularity(i)) => i < regions.len() && (regions[i as int].base
                as int % 32 != 0 || regions[i as int].size as int % 32 != 0),
            Some(_) => false,
        },
    decreases regions.len() - from,
{
    if from < regions.len() {
        lemma_secure_fault(regions, memory, from + 1);
    }
}

proof fn lemma_overlap_fault(regions: Seq<MemoryRegion>, order: Seq<usize>, k: int)
    requires
        0 <= k,
    ensures
        match overlap_error(regions, order, k) {
            None => true,
            Some(MachineError::SecureOverlap(i, j)) => {
                &&& regions[i as int].base + regions[i as int].size > regions[j as int].base
                &&& exists|p: int|
                    0 <= p && p + 1 < order.len() && #[trigger] order[p] == i && order[p + 1] == j
            },
            Some(_) => false,
        },
    decreases order.len() - k,
{
    if k + 1 < order.len() {
        lemma_overlap_fault(regions, order, k + 1);
        assert(order[k] == order[k]);
    }
}

/// What security settings are refused for is wrong with them.
pub proof fn law_security_is_refused_for_what_is_wrong(layout: BoardLayout, mcu: McuDescriptor)
    requires
        layout.board.security.secure_regions@.len() <= usize::MAX,
    ensures
        ({
            let security = layout.board.security;
            let regions = security.secure_regions@;
            match layout.security_error(mcu) {
                None => true,
                Some(MachineError::SecureOutside(i)) => i < regions.len() && !securable(
                    regions[i as int],
                    layout.memory,
                ),
                Some(MachineError::SecureGranularity(i)) => i < regions.len() && (
                regions[i as int].base as int % 32 != 0 || regions[i as int].size as int % 32 != 0),
                Some(MachineError::NoTrustzone) => security.trustzone && !mcu.trustzone_capable,
                Some(MachineError::TrustzoneOff) => regions.len() > 0 && !security.trustzone,
                Some(MachineError::SecureOverlap(i, j)) => {
                    &&& i < regions.len() && j < regions.len() && i != j
                    &&& regions[i as int].base <= regions[j as int].base < regions[i as int].base
                        + regions[i as int].size
                },
                Some(MachineError::SauRegions) => layout.non_secure_spans().len() > 8,
                Some(_) => false,
            }
        }),
{
    let regions = layout.board.security.secure_regions@;
    let order = base_order(regions, regions.len() as int);
    lemma_secure_fault(regions, layout.memory, 0);
    lemma_overlap_fault(regions, order, 0);
    lemma_base_order(regions, regions.len() as int);
    lemma_order_of_bases(regions, regions.len() as int);
    match secure_region_error(regions, layout.memory, 0) {
        Some(MachineError::SecureOutside(i)) => {
            lemma_securable(regions[i as int], layout.memory);
        },
        _ => {},
    }
    match overlap_error(regions, order, 0) {
        Some(MachineError::SecureOverlap(i, j)) => {
            let p = choose|p: int|
                0 <= p && p + 1 < order.len() && #[trigger] order[p] == i && order[p + 1] == j;
            assert(regions[order[p] as int].base <= regions[order[p + 1] as int].base);
        },
        _ => {},
    }
}

} // verus!
