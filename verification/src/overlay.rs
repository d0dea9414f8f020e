//! The per-board platform overlay: physical memory, the wires of the board and
//! the devices that the layout attaches to the emulated processor.

use vstd::prelude::*;
use vstd::slice::slice_subrange;

use crate::architecture::ArchitectureKind;
use crate::layout::{BoardLayout, ConnectionConfig, DmaRoute, MemoryRegion};
use crate::peripherals::PeripheralSpec;
use crate::probes::{decimal_texts, decimals};
use crate::text::{
    char_index, chars_of, contains, dec, find_char, hex, hex8, join, join_texts, lemma_char_index,
    lemma_grouped, lemma_pieces_are_kept, same_text, Text,
};

verus! {

impl ArchitectureKind {
    pub open spec fn debug_name(self) -> Seq<char> {
        match self {
            ArchitectureKind::Stm32 => "Stm32"@,
            ArchitectureKind::Stm32g4 => "Stm32g4"@,
            ArchitectureKind::Stm32h5 => "Stm32h5"@,
            ArchitectureKind::Stm32u5 => "Stm32u5"@,
        }
    }

    pub fn variant_name(self) -> (res: &'static str)
        ensures
            res@ == self.debug_name(),
    {
        match self {
            ArchitectureKind::Stm32 => "Stm32",
            ArchitectureKind::Stm32g4 => "Stm32g4",
            ArchitectureKind::Stm32h5 => "Stm32h5",
            ArchitectureKind::Stm32u5 => "Stm32u5",
        }
    }
}

// ---------------------------------------------------------------------------
// Devices
// ---------------------------------------------------------------------------

/// The registers that some ADCs share.
#[derive(Clone, Copy, Debug, PartialEq, Eq, Structural)]
pub enum AdcCommon {
    Own,
    Adc12,
    Adc345,
}

/// What a declaration attaches to the emulated processor.
#[derive(Clone, Copy, Debug, PartialEq, Eq, Structural)]
pub enum Device {
    /// Nothing: the device is behavioural only.
    Behavioral,
    NeoM9n,
    /// At the second of its two addresses, or the first.
    Ltc2990 { second: bool },
    /// One of the sensors that share a bus model.
    FlightSensor,
    Adc { address: u64, common: AdcCommon },
    SdCard,
}

#[derive(Clone, Copy, Debug, PartialEq, Eq, Structural)]
pub enum DeviceError {
    Unpaired,
    Unsupported,
}

pub open spec fn device_on(
    architecture: ArchitectureKind,
    model: Seq<char>,
    bus: Seq<char>,
) -> Option<Device> {
    match architecture {
        ArchitectureKind::Stm32 => None,
        ArchitectureKind::Stm32g4 => if model == "neo_m9n"@ && bus == "spi1"@ {
            Some(Device::NeoM9n)
        } else if model == "ltc2990"@ && bus == "i2c2@0x4c"@ {
            Some(Device::Ltc2990 { second: false })
        } else if model == "ltc2990"@ && bus == "i2c2@0x4d"@ {
            Some(Device::Ltc2990 { second: true })
        } else if model == "stm32_adc"@ && bus == "adc1"@ {
            Some(Device::Adc { address: 0x5000_0000, common: AdcCommon::Adc12 })
        } else if model == "stm32_adc"@ && bus == "adc2"@ {
            Some(Device::Adc { address: 0x5000_0100, common: AdcCommon::Adc12 })
        } else if model == "stm32_adc"@ && bus == "adc3"@ {
            Some(Device::Adc { address: 0x5000_0400, common: AdcCommon::Adc345 })
        } else {
            None
        },
        ArchitectureKind::Stm32h5 => if (model == "bmi088"@ || model == "bmp390"@) && bus
            == "spi1"@ {
            Some(Device::FlightSensor)
        } else if model == "stm32_adc"@ && bus == "adc1"@ {
            Some(Device::Adc { address: 0x4222_8000, common: AdcCommon::Own })
        } else if model == "sd_card"@ && bus == "sdmmc1"@ {
            Some(Device::SdCard)
        } else {
            None
        },
        ArchitectureKind::Stm32u5 => if model == "stm32_adc"@ && bus == "adc1"@ {
            Some(Device::Adc { address: 0x4202_8000, common: AdcCommon::Own })
        } else if model == "stm32_adc"@ && bus == "adc4"@ {
            Some(Device::Adc { address: 0x4602_1000, common: AdcCommon::Own })
        } else if model == "sd_card"@ && bus == "sdmmc1"@ {
            Some(Device::SdCard)
        } else {
            None
        },
    }
}

pub open spec fn device_of(architecture: ArchitectureKind, spec: PeripheralSpec) -> Result<
    Device,
    DeviceError,
> {
    match (spec.model, spec.bus) {
        (None, None) => Ok(Device::Behavioral),
        (Some(model), Some(bus)) => match device_on(architecture, model@, bus@) {
            Some(device) => Ok(device),
            None => Err(DeviceError::Unsupported),
        },
        _ => Err(DeviceError::Unpaired),
    }
}

fn select_on(architecture: ArchitectureKind, model: &str, bus: &str) -> (res: Option<Device>)
    ensures
        res == device_on(architecture, model@, bus@),
{
    let adc = same_text(model, "stm32_adc");
    match architecture {
        ArchitectureKind::Stm32 => None,
        ArchitectureKind::Stm32g4 => if same_text(model, "neo_m9n") && same_text(bus, "spi1") {
            Some(Device::NeoM9n)
        } else if same_text(model, "ltc2990") && same_text(bus, "i2c2@0x4c") {
            Some(Device::Ltc2990 { second: false })
        } else if same_text(model, "ltc2990") && same_text(bus, "i2c2@0x4d") {
            Some(Device::Ltc2990 { second: true })
        } else if adc && same_text(bus, "adc1") {
            Some(Device::Adc { address: 0x5000_0000, common: AdcCommon::Adc12 })
        } else if adc && same_text(bus, "adc2") {
            Some(Device::Adc { address: 0x5000_0100, common: AdcCommon::Adc12 })
        } else if adc && same_text(bus, "adc3") {
            Some(Device::Adc { address: 0x5000_0400, common: AdcCommon::Adc345 })
        } else {
            None
        },
        ArchitectureKind::Stm32h5 => if (same_text(model, "bmi088") || same_text(model, "bmp390"))
            && same_text(bus, "spi1") {
            Some(Device::FlightSensor)
        } else if adc && same_text(bus, "adc1") {
            Some(Device::Adc { address: 0x4222_8000, common: AdcCommon::Own })
        } else if same_text(model, "sd_card") && same_text(bus, "sdmmc1") {
            Some(Device::SdCard)
        } else {
            None
        },
        ArchitectureKind::Stm32u5 => if adc && same_text(bus, "adc1") {
            Some(Device::Adc { address: 0x4202_8000, common: AdcCommon::Own })
        } else if adc && same_text(bus, "adc4") {
            Some(Device::Adc { address: 0x4602_1000, common: AdcCommon::Own })
        } else if same_text(model, "sd_card") && same_text(bus, "sdmmc1") {
            Some(Device::SdCard)
        } else {
            None
        },
    }
}

pub fn select_device(architecture: ArchitectureKind, spec: &PeripheralSpec) -> (res: Result<
    Device,
    DeviceError,
>)
    ensures
        res == device_of(architecture, *spec),
{
    match (&spec.model, &spec.bus) {
        (None, None) => Ok(Device::Behavioral),
        (Some(model), Some(bus)) => match select_on(architecture, model.as_str(), bus.as_str()) {
            Some(device) => Ok(device),
            None => Err(DeviceError::Unsupported),
        },
        _ => Err(DeviceError::Unpaired),
    }
}

// ---------------------------------------------------------------------------
// Memory and wires
// ---------------------------------------------------------------------------

pub open spec fn memory_text(layout: BoardLayout, source_root: Seq<char>) -> Seq<char> {
    "flashBacking: Memory.MappedMemory @ sysbus 0x"@ + hex8(layout.memory.flash_base as nat)
        + "\n    size: 0x"@ + hex(layout.memory.flash_size as nat)
        + "\nphysicalFlash: MTD.SedsStm32FlashController @ sysbus 0x40022000\n    flash: flashBacking\n    mcu: \""@
        + layout.mcu@ + "\"\n    eraseSize: "@ + dec(layout.memory.erase_size as nat)
        + "\n    writeAlignment: "@ + dec(layout.memory.write_alignment as nat)
        + "\n    flashBase: 0x"@ + hex8(layout.memory.flash_base as nat)
        + "\n    preinit:\n        include @"@ + source_root + "/SedsStm32Flash.cs\n"@
}

pub open spec fn ram_text(regions: Seq<MemoryRegion>, end: int) -> Seq<char>
    decreases end,
{
    if end <= 0 {
        ""@
    } else {
        ram_text(regions, end - 1) + "physicalRam"@ + dec((end - 1) as nat)
            + ": Memory.MappedMemory @ sysbus 0x"@ + hex8(regions[end - 1].base as nat)
            + "\n    size: 0x"@ + hex(regions[end - 1].size as nat) + "\n"@
    }
}

/// A wire from an output, which may name one of several behind a dot.
pub open spec fn wire_text(source: Seq<char>, target: Seq<char>) -> Seq<char> {
    let dot = char_index(source, '.', 0);
    if dot < source.len() {
        source.take(dot) + ":\n    "@ + source.skip(dot + 1) + " -> "@ + target + "\n"@
    } else {
        source + ":\n    -> "@ + target + "\n"@
    }
}

pub fn render_wire(source: &str, target: &str) -> (res: String)
    ensures
        res@ == wire_text(source@, target@),
{
    let chars = chars_of(source);
    let length: usize = chars.len();
    let dot: usize = find_char(chars.as_slice(), '.', 0);
    let start = Text::new("");
    proof {
        reveal_strlit("");
    }
    if dot < length {
        let head = slice_subrange(chars.as_slice(), 0, dot);
        let rest = slice_subrange(chars.as_slice(), dot + 1, length);
        assert(head@ =~= source@.take(dot as int));
        assert(rest@ =~= source@.skip(dot + 1));
        let started = start.chars(head);
        assert(started@ =~= head@);
        started.str(":\n    ").chars(rest).str(" -> ").str(target).str("\n").done()
    } else {
        let started = start.str(source);
        assert(started@ =~= source@);
        started.str(":\n    -> ").str(target).str("\n").done()
    }
}

pub open spec fn inverter_name(index: int) -> Seq<char> {
    "layoutSignalInverter"@ + dec(index as nat) + "@0"@
}

pub open spec fn connection_text(
    connection: ConnectionConfig,
    index: int,
    source_root: Seq<char>,
) -> Seq<char> {
    if connection.active_low {
        "layoutSignalInverter"@ + dec(index as nat)
            + ": Miscellaneous.SedsSignalInverter\n    preinit:\n        include @"@ + source_root
            + "/SedsSignalInverter.cs\n    Output -> "@ + connection.to@ + "\n"@ + wire_text(
            connection.from@,
            inverter_name(index),
        )
    } else {
        wire_text(connection.from@, connection.to@)
    }
}

pub open spec fn connections_text(
    connections: Seq<ConnectionConfig>,
    source_root: Seq<char>,
    end: int,
) -> Seq<char>
    decreases end,
{
    if end <= 0 {
        ""@
    } else {
        connections_text(connections, source_root, end - 1) + connection_text(
            connections[end - 1],
            end - 1,
            source_root,
        )
    }
}

pub open spec fn dma_target(route: DmaRoute) -> Seq<char> {
    ""@ + route.controller@ + "@"@ + dec(route.channel as nat)
}

pub open spec fn routes_text(routes: Seq<DmaRoute>, end: int) -> Seq<char>
    decreases end,
{
    if end <= 0 {
        ""@
    } else {
        routes_text(routes, end - 1) + wire_text(
            routes[end - 1].request@,
            dma_target(routes[end - 1]),
        )
    }
}

fn render_memory(layout: &BoardLayout, source_root: &str) -> (res: String)
    ensures
        res@ == memory_text(*layout, source_root@),
{
    Text::new("flashBacking: Memory.MappedMemory @ sysbus 0x").hex8(layout.memory.flash_base).str(
        "\n    size: 0x",
    ).hex(layout.memory.flash_size).str(
        "\nphysicalFlash: MTD.SedsStm32FlashController @ sysbus 0x40022000\n    flash: flashBacking\n    mcu: \"",
    ).str(layout.mcu.as_str()).str("\"\n    eraseSize: ").dec(layout.memory.erase_size).str(
        "\n    writeAlignment: ",
    ).dec(layout.memory.write_alignment).str("\n    flashBase: 0x").hex8(
        layout.memory.flash_base,
    ).str("\n    preinit:\n        include @").str(source_root).str("/SedsStm32Flash.cs\n").done()
}

fn render_ram(regions: &[MemoryRegion]) -> (res: String)
    ensures
        res@ == ram_text(regions@, regions@.len() as int),
{
    let mut text = Text::new("");
    let mut i: usize = 0;
    while i < regions.len()
        invariant
            i <= regions@.len(),
            text@ == ram_text(regions@, i as int),
        decreases regions@.len() - i,
    {
        text =
        text.str("physicalRam").dec(i as u64).str(": Memory.MappedMemory @ sysbus 0x").hex8(
            regions[i].base,
        ).str("\n    size: 0x").hex(regions[i].size).str("\n");
        i = i + 1;
    }
    text.done()
}

fn render_connection(connection: &ConnectionConfig, index: usize, source_root: &str) -> (res:
    String)
    ensures
        res@ == connection_text(*connection, index as int, source_root@),
{
    if connection.active_low {
        let inverter = Text::new("layoutSignalInverter").dec(index as u64).str("@0").done();
        let wire = render_wire(connection.from.as_str(), inverter.as_str());
        Text::new("layoutSignalInverter").dec(index as u64).str(
            ": Miscellaneous.SedsSignalInverter\n    preinit:\n        include @",
        ).str(source_root).str("/SedsSignalInverter.cs\n    Output -> ").str(
            connection.to.as_str(),
        ).str("\n").str(wire.as_str()).done()
    } else {
        render_wire(connection.from.as_str(), connection.to.as_str())
    }
}

fn render_connections(connections: &[ConnectionConfig], source_root: &str) -> (res: String)
    ensures
        res@ == connections_text(connections@, source_root@, connections@.len() as int),
{
    let mut text = Text::new("");
    let mut i: usize = 0;
    while i < connections.len()
        invariant
            i <= connections@.len(),
            text@ == connections_text(connections@, source_root@, i as int),
        decreases connections@.len() - i,
    {
        let connection = render_connection(&connections[i], i, source_root);
        text = text.str(connection.as_str());
        i = i + 1;
    }
    text.done()
}

fn render_routes(routes: &[DmaRoute]) -> (res: String)
    ensures
        res@ == routes_text(routes@, routes@.len() as int),
{
    let mut text = Text::new("");
    let mut i: usize = 0;
    while i < routes.len()
        invariant
            i <= routes@.len(),
            text@ == routes_text(routes@, i as int),
        decreases routes@.len() - i,
    {
        let target = Text::new("").str(routes[i].controller.as_str()).str("@").dec(
            routes[i].channel as u64,
        ).done();
        let wire = render_wire(routes[i].request.as_str(), target.as_str());
        text = text.str(wire.as_str());
        i = i + 1;
    }
    text.done()
}

// ---------------------------------------------------------------------------
// Device descriptions
// ---------------------------------------------------------------------------

/// A device's schedule of faults, as its model takes it.
pub open spec fn failure_every(spec: PeripheralSpec) -> u64 {
    match spec.failure_every {
        Some(period) => period,
        None => 0,
    }
}

pub open spec fn disconnect_after(spec: PeripheralSpec) -> u64 {
    match spec.disconnect_after {
        Some(limit) => limit,
        None => u64::MAX,
    }
}

pub open spec fn fault_lines(spec: PeripheralSpec) -> Seq<char> {
    "    failureEvery: "@ + dec(failure_every(spec) as nat) + "\n    disconnectAfter: "@ + dec(
        disconnect_after(spec) as nat,
    ) + "\n    preinit:\n        include @"@
}

pub open spec fn adc_text(
    spec: PeripheralSpec,
    index: int,
    address: u64,
    source_root: Seq<char>,
) -> Seq<char> {
    "layoutAdc"@ + dec(index as nat) + ": Sensors.SedsStm32Adc @ sysbus 0x"@ + hex8(address as nat)
        + "\n    bits: "@ + dec(spec.adc_bits() as nat) + "\n    channels: "@ + dec(
        spec.adc_channels() as nat,
    ) + "\n    samples: \""@ + join(decimals(spec.channel_samples@), ","@) + "\"\n    noiseLsb: "@
        + dec(
        (match spec.noise_lsb {
            Some(noise) => noise,
            None => 0,
        }) as nat,
    ) + "\n"@ + fault_lines(spec) + source_root + "/SedsStm32Adc.cs\n"@
}

pub open spec fn common_text(common: AdcCommon, source_root: Seq<char>) -> Seq<char> {
    match common {
        AdcCommon::Own => ""@,
        AdcCommon::Adc12 =>
            "layoutAdc12Common: Sensors.SedsStm32Adc @ sysbus 0x50000300\n    preinit:\n        include @"@
            + source_root + "/SedsStm32Adc.cs\n"@,
        AdcCommon::Adc345 =>
            "layoutAdc345Common: Sensors.SedsStm32Adc @ sysbus 0x50000700\n    preinit:\n        include @"@
            + source_root + "/SedsStm32Adc.cs\n"@,
    }
}

/// A device, without what it shares with others.
pub open spec fn device_text(
    device: Device,
    architecture: ArchitectureKind,
    spec: PeripheralSpec,
    index: int,
    source_root: Seq<char>,
) -> Seq<char> {
    match device {
        Device::Behavioral => ""@,
        Device::NeoM9n => "layoutDevice"@ + dec(index as nat) + ": Sensors.SedsNeoM9N @ spi1\n"@
            + fault_lines(spec) + source_root + "/SedsSpiSensors.cs\n"@,
        Device::Ltc2990 { second } => "layoutDevice"@ + dec(index as nat)
            + ": Sensors.SedsLtc2990 @ i2c2 "@ + (if second {
            "0x4d"@
        } else {
            "0x4c"@
        }) + "\n"@ + fault_lines(spec) + source_root + "/SedsLtc2990.cs\n"@,
        Device::FlightSensor => "layoutFlightSensors: Sensors.SedsFlightSensorBus @ spi1\n"@
            + fault_lines(spec) + source_root + "/SedsSpiSensors.cs\n"@,
        Device::Adc { address, .. } => adc_text(spec, index, address, source_root),
        Device::SdCard => ""@ + (if architecture == ArchitectureKind::Stm32h5 {
            "sdmmc"@
        } else {
            "sdmmc1"@
        }) + ":\n    CardCapacityBytes: "@ + dec(
            (match spec.capacity_bytes {
                Some(bytes) => bytes,
                None => 4194304,
            }) as nat,
        ) + "\n    FailureEvery: "@ + dec(failure_every(spec) as nat)
            + "\n    DisconnectAfter: "@ + dec(disconnect_after(spec) as nat) + "\n"@,
    }
}

fn render_faults(spec: &PeripheralSpec) -> (res: String)
    ensures
        res@ == fault_lines(*spec),
{
    let every: u64 = match spec.failure_every {
        Some(period) => period,
        None => 0,
    };
    let after: u64 = match spec.disconnect_after {
        Some(limit) => limit,
        None => u64::MAX,
    };
    Text::new("    failureEvery: ").dec(every).str("\n    disconnectAfter: ").dec(after).str(
        "\n    preinit:\n        include @",
    ).done()
}

fn render_adc(spec: &PeripheralSpec, index: usize, address: u64, source_root: &str) -> (res: String)
    ensures
        res@ == adc_text(*spec, index as int, address, source_root@),
{
    let bits: u8 = match spec.bits {
        Some(bits) => bits,
        None => 12,
    };
    let channels: u8 = match spec.channels {
        Some(channels) => channels,
        None => 1,
    };
    let noise: u32 = match spec.noise_lsb {
        Some(noise) => noise,
        None => 0,
    };
    let parts = decimal_texts(spec.channel_samples.as_slice());
    let samples = join_texts(parts.as_slice(), ",");
    let faults = render_faults(spec);
    Text::new("layoutAdc").dec(index as u64).str(": Sensors.SedsStm32Adc @ sysbus 0x").hex8(
        address,
    ).str("\n    bits: ").dec(bits as u64).str("\n    channels: ").dec(channels as u64).str(
        "\n    samples: \"",
    ).str(samples.as_str()).str("\"\n    noiseLsb: ").dec(noise as u64).str("\n").str(
        faults.as_str(),
    ).str(source_root).str("/SedsStm32Adc.cs\n").done()
}

fn render_common(common: AdcCommon, source_root: &str) -> (res: String)
    ensures
        res@ == common_text(common, source_root@),
{
    match common {
        AdcCommon::Own => "".to_owned(),
        AdcCommon::Adc12 => Text::new(
            "layoutAdc12Common: Sensors.SedsStm32Adc @ sysbus 0x50000300\n    preinit:\n        include @",
        ).str(source_root).str("/SedsStm32Adc.cs\n").done(),
        AdcCommon::Adc345 => Text::new(
            "layoutAdc345Common: Sensors.SedsStm32Adc @ sysbus 0x50000700\n    preinit:\n        include @",
        ).str(source_root).str("/SedsStm32Adc.cs\n").done(),
    }
}

fn render_device(
    device: Device,
    architecture: ArchitectureKind,
    spec: &PeripheralSpec,
    index: usize,
    source_root: &str,
) -> (res: String)
    ensures
        res@ == device_text(device, architecture, *spec, index as int, source_root@),
{
    let faults = render_faults(spec);
    match device {
        Device::Behavioral => "".to_owned(),
        Device::NeoM9n => Text::new("layoutDevice").dec(index as u64).str(
            ": Sensors.SedsNeoM9N @ spi1\n",
        ).str(faults.as_str()).str(source_root).str("/SedsSpiSensors.cs\n").done(),
        Device::Ltc2990 { second } => {
            let address = if second {
                "0x4d"
            } else {
                "0x4c"
            };
            Text::new("layoutDevice").dec(index as u64).str(
                ": Sensors.SedsLtc2990 @ i2c2 ",
            ).str(address).str("\n").str(faults.as_str()).str(source_root).str(
                "/SedsLtc2990.cs\n",
            ).done()
        },
        Device::FlightSensor => Text::new(
            "layoutFlightSensors: Sensors.SedsFlightSensorBus @ spi1\n",
        ).str(faults.as_str()).str(source_root).str("/SedsSpiSensors.cs\n").done(),
        Device::Adc { address, .. } => render_adc(spec, index, address, source_root),
        Device::SdCard => {
            let controller = if architecture == ArchitectureKind::Stm32h5 {
                "sdmmc"
            } else {
                "sdmmc1"
            };
            let capacity: u64 = match spec.capacity_bytes {
                Some(bytes) => bytes,
                None => 4194304,
            };
            let every: u64 = match spec.failure_every {
                Some(period) => period,
                None => 0,
            };
            let after: u64 = match spec.disconnect_after {
                Some(limit) => limit,
                None => u64::MAX,
            };
            Text::new("").str(controller).str(":\n    CardCapacityBytes: ").dec(capacity).str(
                "\n    FailureEvery: ",
            ).dec(every).str("\n    DisconnectAfter: ").dec(after).str("\n").done()
        },
    }
}

// ---------------------------------------------------------------------------
// The overlay
// ---------------------------------------------------------------------------

#[derive(Clone, Copy, Debug, PartialEq, Eq, Structural)]
pub enum OverlayError {
    /// Each of these two names a peripheral.
    Unpaired(usize),
    Unsupported(usize),
    FlightFaults,
}

impl BoardLayout {
    pub open spec fn device_at(&self, index: int) -> Result<Device, DeviceError> {
        device_of(self.architecture, self.peripherals@[index])
    }

    pub open spec fn is_flight_sensor(&self, index: int) -> bool {
        self.device_at(index) == Ok::<Device, DeviceError>(Device::FlightSensor)
    }

    pub open spec fn faults_at(&self, index: int) -> (Option<u64>, Option<u64>) {
        (self.peripherals@[index].failure_every, self.peripherals@[index].disconnect_after)
    }

    /// The schedule of the last flight sensor before `index`.
    pub open spec fn flight_before(&self, index: int) -> Option<(Option<u64>, Option<u64>)>
        decreases index,
    {
        if index <= 0 {
            None
        } else if self.is_flight_sensor(index - 1) {
            Some(self.faults_at(index - 1))
        } else {
            self.flight_before(index - 1)
        }
    }

    pub open spec fn has_common(&self, index: int, common: AdcCommon) -> bool {
        self.device_at(index) matches Ok(Device::Adc { common: own, .. }) && own == common
    }

    /// An ADC before `index` has the same shared registers.
    pub open spec fn common_before(&self, common: AdcCommon, index: int) -> bool
        decreases index,
    {
        index > 0 && (self.has_common(index - 1, common) || self.common_before(common, index - 1))
    }

    pub open spec fn overlay_error_at(&self, index: int) -> Option<OverlayError> {
        match self.device_at(index) {
            Err(DeviceError::Unpaired) => Some(OverlayError::Unpaired(index as usize)),
            Err(DeviceError::Unsupported) => Some(OverlayError::Unsupported(index as usize)),
            Ok(Device::FlightSensor) => match self.flight_before(index) {
                Some(faults) if faults != self.faults_at(index) => Some(OverlayError::FlightFaults),
                _ => None,
            },
            Ok(_) => None,
        }
    }

    pub open spec fn overlay_error(&self, index: int) -> Option<OverlayError>
        decreases self.peripherals@.len() - index,
    {
        if index < 0 || index >= self.peripherals@.len() {
            None
        } else {
            match self.overlay_error_at(index) {
                Some(error) => Some(error),
                None => self.overlay_error(index + 1),
            }
        }
    }

    /// What one declaration adds to the overlay. What it shares with an earlier
    /// one is there already.
    pub open spec fn device_part(&self, index: int, source_root: Seq<char>) -> Seq<char> {
        let device = self.device_at(index)->Ok_0;
        let text = device_text(
            device,
            self.architecture,
            self.peripherals@[index],
            index,
            source_root,
        );
        match device {
            Device::FlightSensor => if self.flight_before(index) is Some {
                ""@
            } else {
                text
            },
            Device::Adc { common, .. } => if self.common_before(common, index) {
                text
            } else {
                text + common_text(common, source_root)
            },
            _ => text,
        }
    }

    pub open spec fn devices_text(&self, source_root: Seq<char>, end: int) -> Seq<char>
        decreases end,
    {
        if end <= 0 {
            ""@
        } else {
            self.devices_text(source_root, end - 1) + self.device_part(end - 1, source_root)
        }
    }

    pub open spec fn overlay_text(&self, source_root: Seq<char>) -> Seq<char> {
        memory_text(*self, source_root) + ram_text(
            self.memory.ram_regions@,
            self.memory.ram_regions@.len() as int,
        ) + connections_text(
            self.board.connections@,
            source_root,
            self.board.connections@.len() as int,
        ) + routes_text(self.board.dma_routes@, self.board.dma_routes@.len() as int)
            + self.devices_text(source_root, self.peripherals@.len() as int)
    }
}

/// Renders the overlay. The device models lie in the directory `source_root`.
pub fn render_peripheral_overlay(layout: &BoardLayout, source_root: &str) -> (res: Result<
    String,
    OverlayError,
>)
    ensures
        match layout.overlay_error(0) {
            Some(error) => res == Err::<String, OverlayError>(error) && (match error {
                OverlayError::Unpaired(index) => index < layout.peripherals@.len(),
                OverlayError::Unsupported(index) => index < layout.peripherals@.len(),
                OverlayError::FlightFaults => true,
            }),
            None => res matches Ok(text) && text@ == layout.overlay_text(source_root@),
        },
{
    let mut devices = Text::new("");
    let mut flight: Option<(Option<u64>, Option<u64>)> = None;
    let mut adc12 = false;
    let mut adc345 = false;
    let mut index: usize = 0;
    while index < layout.peripherals.len()
        invariant
            index <= layout.peripherals@.len(),
            layout.overlay_error(0) == layout.overlay_error(index as int),
            devices@ == layout.devices_text(source_root@, index as int),
            flight == layout.flight_before(index as int),
            adc12 == layout.common_before(AdcCommon::Adc12, index as int),
            adc345 == layout.common_before(AdcCommon::Adc345, index as int),
        decreases layout.peripherals@.len() - index,
    {
        let spec = &layout.peripherals[index];
        let device = match select_device(layout.architecture, spec) {
            Ok(device) => device,
            Err(DeviceError::Unpaired) => {
                return Err(OverlayError::Unpaired(index));
            },
            Err(DeviceError::Unsupported) => {
                return Err(OverlayError::Unsupported(index));
            },
        };
        let text = render_device(device, layout.architecture, spec, index, source_root);
        match device {
            Device::FlightSensor => {
                match flight {
                    Some((every, after)) => {
                        if every != spec.failure_every || after != spec.disconnect_after {
                            return Err(OverlayError::FlightFaults);
                        }
                        devices = devices.str("");
                    },
                    None => {
                        devices = devices.str(text.as_str());
                    },
                }
                flight = Some((spec.failure_every, spec.disconnect_after));
            },
            Device::Adc { common, .. } => {
                let present = match common {
                    AdcCommon::Own => false,
                    AdcCommon::Adc12 => adc12,
                    AdcCommon::Adc345 => adc345,
                };
                let ghost before = devices@;
                devices = devices.str(text.as_str());
                if !present {
                    let shared = render_common(common, source_root);
                    devices = devices.str(shared.as_str());
                    assert(devices@ =~= before + (text@ + shared@));
                    proof {
                        reveal_strlit("");
                        if common == AdcCommon::Own {
                            assert(text@ + shared@ =~= text@);
                        }
                    }
                }
                match common {
                    AdcCommon::Own => {},
                    AdcCommon::Adc12 => {
                        adc12 = true;
                    },
                    AdcCommon::Adc345 => {
                        adc345 = true;
                    },
                }
            },
            _ => {
                devices = devices.str(text.as_str());
            },
        }
        index = index + 1;
    }
    let attached = devices.done();
    let memory = render_memory(layout, source_root);
    let ram = render_ram(layout.memory.ram_regions.as_slice());
    let wires = render_connections(layout.board.connections.as_slice(), source_root);
    let routes = render_routes(layout.board.dma_routes.as_slice());
    Ok(
        Text { inner: memory }.str(ram.as_str()).str(wires.as_str()).str(routes.as_str()).str(
            attached.as_str(),
        ).done(),
    )
}

impl OverlayError {
    pub open spec fn text(self, layout: BoardLayout) -> Seq<char> {
        match self {
            OverlayError::Unpaired(index) => "peripheral "@ + layout.peripherals@[index as int].name@
                + " must specify model and bus together"@,
            OverlayError::Unsupported(index) => {
                let spec = layout.peripherals@[index as int];
                "peripheral "@ + spec.name@ + " selects unsupported model/bus "@ + (match spec.model {
                    Some(model) => model@,
                    None => ""@,
                }) + "/"@ + (match spec.bus {
                    Some(bus) => bus@,
                    None => ""@,
                }) + " on "@ + layout.architecture.debug_name()
            },
            OverlayError::FlightFaults =>
                "H5 SPI1 flight sensors share one physical bus model and must use identical fault schedules"@,
        }
    }

    pub fn message(self, layout: &BoardLayout) -> (res: String)
        requires
            match self {
                OverlayError::Unpaired(index) => index < layout.peripherals@.len(),
                OverlayError::Unsupported(index) => index < layout.peripherals@.len(),
                OverlayError::FlightFaults => true,
            },
        ensures
            res@ == self.text(*layout),
    {
        match self {
            OverlayError::Unpaired(index) => Text::new("peripheral ").str(
                layout.peripherals[index].name.as_str(),
            ).str(" must specify model and bus together").done(),
            OverlayError::Unsupported(index) => {
                let spec = &layout.peripherals[index];
                let model = match &spec.model {
                    Some(model) => model.as_str(),
                    None => "",
                };
                let bus = match &spec.bus {
                    Some(bus) => bus.as_str(),
                    None => "",
                };
                Text::new("peripheral ").str(spec.name.as_str()).str(
                    " selects unsupported model/bus ",
                ).str(model).str("/").str(bus).str(" on ").str(
                    layout.architecture.variant_name(),
                ).done()
            },
            OverlayError::FlightFaults => Text::new(
                "H5 SPI1 flight sensors share one physical bus model and must use identical fault schedules",
            ).done(),
        }
    }
}

// ---------------------------------------------------------------------------
// What an overlay holds
// ---------------------------------------------------------------------------

/// A device that is behavioural only adds nothing to the platform.
pub proof fn law_behavioral_devices_add_nothing(
    layout: BoardLayout,
    index: int,
    source_root: Seq<char>,
)
    requires
        layout.peripherals@[index].model is None,
        layout.peripherals@[index].bus is None,
    ensures
        layout.device_part(index, source_root) == ""@,
{
}

proof fn lemma_flight_before(layout: BoardLayout, first: int, index: int)
    requires
        0 <= first < index,
        layout.is_flight_sensor(first),
    ensures
        layout.flight_before(index) is Some,
    decreases index - first,
{
    if first < index - 1 {
        lemma_flight_before(layout, first, index - 1);
    }
}

/// All flight sensors of a board share one bus model: only the first of them
/// adds it.
pub proof fn law_flight_sensors_share_one_bus(
    layout: BoardLayout,
    first: int,
    second: int,
    source_root: Seq<char>,
)
    requires
        0 <= first < second,
        layout.is_flight_sensor(first),
        layout.is_flight_sensor(second),
    ensures
        layout.device_part(second, source_root) == ""@,
{
    lemma_flight_before(layout, first, second);
}

proof fn lemma_overlay_error(layout: BoardLayout, from: int, index: int)
    requires
        0 <= from <= index < layout.peripherals@.len(),
        layout.overlay_error(from) is None,
    ensures
        layout.overlay_error_at(index) is None,
    decreases index - from,
{
    if from < index {
        lemma_overlay_error(layout, from + 1, index);
    }
}

proof fn lemma_flight_schedule(layout: BoardLayout, first: int, index: int)
    requires
        layout.overlay_error(0) is None,
        0 <= first < index <= layout.peripherals@.len(),
        layout.is_flight_sensor(first),
    ensures
        layout.flight_before(index) == Some(layout.faults_at(first)),
    decreases index - first,
{
    if first < index - 1 {
        lemma_flight_schedule(layout, first, index - 1);
        lemma_overlay_error(layout, 0, index - 1);
    }
}

/// The flight sensors of an accepted board have one schedule of faults.
pub proof fn law_flight_sensors_share_one_schedule(layout: BoardLayout, first: int, second: int)
    requires
        layout.overlay_error(0) is None,
        0 <= first < second < layout.peripherals@.len(),
        layout.is_flight_sensor(first),
        layout.is_flight_sensor(second),
    ensures
        layout.faults_at(first) == layout.faults_at(second),
{
    lemma_flight_schedule(layout, first, second);
    lemma_overlay_error(layout, 0, second);
}

// ---------------------------------------------------------------------------
// Where everything sits
// ---------------------------------------------------------------------------

/// An ADC at this address.
pub open spec fn adc_at(address: u64, common: AdcCommon) -> Device {
    Device::Adc { address, common }
}

/// The devices that have a model, each with its architecture, the name of its
/// model and its place on a bus.
pub open spec fn catalogue() -> Seq<(ArchitectureKind, Seq<char>, Seq<char>, Device)> {
    seq![
        (ArchitectureKind::Stm32g4, "neo_m9n"@, "spi1"@, Device::NeoM9n),
        (ArchitectureKind::Stm32g4, "ltc2990"@, "i2c2@0x4c"@, Device::Ltc2990 { second: false }),
        (ArchitectureKind::Stm32g4, "ltc2990"@, "i2c2@0x4d"@, Device::Ltc2990 { second: true }),
        (ArchitectureKind::Stm32g4, "stm32_adc"@, "adc1"@, adc_at(0x5000_0000, AdcCommon::Adc12)),
        (ArchitectureKind::Stm32g4, "stm32_adc"@, "adc2"@, adc_at(0x5000_0100, AdcCommon::Adc12)),
        (ArchitectureKind::Stm32g4, "stm32_adc"@, "adc3"@, adc_at(0x5000_0400, AdcCommon::Adc345)),
        (ArchitectureKind::Stm32h5, "bmi088"@, "spi1"@, Device::FlightSensor),
        (ArchitectureKind::Stm32h5, "bmp390"@, "spi1"@, Device::FlightSensor),
        (ArchitectureKind::Stm32h5, "stm32_adc"@, "adc1"@, adc_at(0x4222_8000, AdcCommon::Own)),
        (ArchitectureKind::Stm32h5, "sd_card"@, "sdmmc1"@, Device::SdCard),
        (ArchitectureKind::Stm32u5, "stm32_adc"@, "adc1"@, adc_at(0x4202_8000, AdcCommon::Own)),
        (ArchitectureKind::Stm32u5, "stm32_adc"@, "adc4"@, adc_at(0x4602_1000, AdcCommon::Own)),
        (ArchitectureKind::Stm32u5, "sd_card"@, "sdmmc1"@, Device::SdCard),
    ]
}

proof fn lemma_models_differ()
    ensures
        "neo_m9n"@ != "ltc2990"@,
        "neo_m9n"@ != "stm32_adc"@,
        "ltc2990"@ != "stm32_adc"@,
        "bmi088"@ != "stm32_adc"@,
        "bmp390"@ != "stm32_adc"@,
        "bmi088"@ != "sd_card"@,
        "bmp390"@ != "sd_card"@,
        "sd_card"@ != "stm32_adc"@,
        "i2c2@0x4c"@ != "i2c2@0x4d"@,
        "adc1"@ != "adc2"@,
        "adc1"@ != "adc3"@,
        "adc1"@ != "adc4"@,
        "adc2"@ != "adc3"@,
{
    reveal_strlit("neo_m9n");
    reveal_strlit("ltc2990");
    reveal_strlit("stm32_adc");
    reveal_strlit("bmi088");
    reveal_strlit("bmp390");
    reveal_strlit("sd_card");
    reveal_strlit("i2c2@0x4c");
    reveal_strlit("i2c2@0x4d");
    reveal_strlit("adc1");
    reveal_strlit("adc2");
    reveal_strlit("adc3");
    reveal_strlit("adc4");
    assert("neo_m9n"@[0] != "ltc2990"@[0]);
    assert("i2c2@0x4c"@[8] != "i2c2@0x4d"@[8]);
    assert("adc1"@[3] != "adc2"@[3] && "adc1"@[3] != "adc3"@[3] && "adc1"@[3] != "adc4"@[3]
        && "adc2"@[3] != "adc3"@[3]);
    assert("bmi088"@.len() == 6 && "bmp390"@.len() == 6 && "sd_card"@.len() == 7
        && "stm32_adc"@.len() == 9 && "neo_m9n"@.len() == 7 && "ltc2990"@.len() == 7);
}

/// A device has a model exactly where the catalogue holds it, on its
/// architecture and at its place.
#[verifier::rlimit(40)]
pub proof fn law_modelled_devices_are_in_the_catalogue(
    architecture: ArchitectureKind,
    model: Seq<char>,
    bus: Seq<char>,
    device: Device,
)
    ensures
        device_on(architecture, model, bus) == Some(device) <==> catalogue().contains(
            (architecture, model, bus, device),
        ),
{
    lemma_models_differ();
    let all = catalogue();
    let wanted = (architecture, model, bus, device);
    assert(all.len() == 13);
    if all.contains(wanted) {
        let i = choose|i: int| 0 <= i < all.len() && all[i] == wanted;
        assert(i == 0 || i == 1 || i == 2 || i == 3 || i == 4 || i == 5 || i == 6 || i == 7 || i
            == 8 || i == 9 || i == 10 || i == 11 || i == 12);
    }
    if device_on(architecture, model, bus) == Some(device) {
        assert(wanted == all[0] || wanted == all[1] || wanted == all[2] || wanted == all[3]
            || wanted == all[4] || wanted == all[5] || wanted == all[6] || wanted == all[7]
            || wanted == all[8] || wanted == all[9] || wanted == all[10] || wanted == all[11]
            || wanted == all[12]);
    }
}

proof fn lemma_flight_known(layout: BoardLayout, index: int)
    requires
        0 <= index,
    ensures
        match layout.flight_before(index) {
            Some(faults) => exists|first: int|
                0 <= first < index && #[trigger] layout.is_flight_sensor(first) && faults
                    == layout.faults_at(first),
            None => forall|first: int|
                0 <= first < index ==> !#[trigger] layout.is_flight_sensor(first),
        },
    decreases index,
{
    if index > 0 {
        lemma_flight_known(layout, index - 1);
        if layout.is_flight_sensor(index - 1) {
            assert(layout.flight_before(index) == Some(layout.faults_at(index - 1)));
        }
    }
}

proof fn lemma_no_overlay_error(layout: BoardLayout, from: int)
    requires
        0 <= from,
        forall|i: int|
            0 <= i < layout.peripherals@.len() ==> #[trigger] layout.overlay_error_at(i) is None,
    ensures
        layout.overlay_error(from) is None,
    decreases layout.peripherals@.len() - from,
{
    if from < layout.peripherals@.len() {
        assert(layout.overlay_error_at(from) is None);
        lemma_no_overlay_error(layout, from + 1);
    }
}

/// The device is behavioural only, or in the catalogue.
pub open spec fn device_known(layout: BoardLayout, index: int) -> bool {
    let spec = layout.peripherals@[index];
    ||| spec.model is None && spec.bus is None
    ||| spec.model is Some && spec.bus is Some && exists|device: Device| #[trigger]
        catalogue().contains(
            (layout.architecture, (spec.model->0)@, (spec.bus->0)@, device),
        )
}

proof fn lemma_device_known(layout: BoardLayout, index: int)
    ensures
        layout.device_at(index) is Ok <==> device_known(layout, index),
{
    let spec = layout.peripherals@[index];
    if spec.model is Some && spec.bus is Some {
        let model = (spec.model->0)@;
        let bus = (spec.bus->0)@;
        match device_on(layout.architecture, model, bus) {
            Some(device) => {
                law_modelled_devices_are_in_the_catalogue(layout.architecture, model, bus, device);
            },
            None => {
                assert forall|device: Device| !#[trigger]
                    catalogue().contains((layout.architecture, model, bus, device)) by {
                    law_modelled_devices_are_in_the_catalogue(
                        layout.architecture,
                        model,
                        bus,
                        device,
                    );
                }
            },
        }
    }
}

/// An overlay can be drawn exactly where every device is behavioural only or
/// in the catalogue, and all flight sensors fail on one schedule.
pub proof fn law_which_overlays_are_drawn(layout: BoardLayout)
    ensures
        layout.overlay_error(0) is None <==> {
            &&& forall|i: int|
                0 <= i < layout.peripherals@.len() ==> #[trigger] device_known(layout, i)
            &&& forall|i: int, j: int|
                0 <= i < j < layout.peripherals@.len() && #[trigger] layout.is_flight_sensor(i)
                    && #[trigger] layout.is_flight_sensor(j) ==> layout.peripherals@[i].failure_every
                    == layout.peripherals@[j].failure_every
                    && layout.peripherals@[i].disconnect_after
                    == layout.peripherals@[j].disconnect_after
        },
{
    let count = layout.peripherals@.len() as int;
    if layout.overlay_error(0) is None {
        assert forall|i: int| 0 <= i < count implies #[trigger] device_known(layout, i) by {
            lemma_overlay_error(layout, 0, i);
            lemma_device_known(layout, i);
        }
        assert forall|i: int, j: int|
            0 <= i < j < count && #[trigger] layout.is_flight_sensor(i)
                && #[trigger] layout.is_flight_sensor(j) implies layout.peripherals@[i].failure_every
            == layout.peripherals@[j].failure_every && layout.peripherals@[i].disconnect_after
            == layout.peripherals@[j].disconnect_after by {
            law_flight_sensors_share_one_schedule(layout, i, j);
        }
    }
    if (forall|i: int| 0 <= i < count ==> #[trigger] device_known(layout, i)) && (forall|
        i: int,
        j: int,
    |
        0 <= i < j < count && #[trigger] layout.is_flight_sensor(i)
            && #[trigger] layout.is_flight_sensor(j) ==> layout.peripherals@[i].failure_every
            == layout.peripherals@[j].failure_every && layout.peripherals@[i].disconnect_after
            == layout.peripherals@[j].disconnect_after) {
        assert forall|i: int| 0 <= i < count implies #[trigger] layout.overlay_error_at(
            i,
        ) is None by {
            assert(device_known(layout, i));
            lemma_device_known(layout, i);
            lemma_flight_known(layout, i);
            if layout.is_flight_sensor(i) && layout.flight_before(i) is Some {
                let first = choose|first: int|
                    0 <= first < i && #[trigger] layout.is_flight_sensor(first)
                        && layout.flight_before(i) == Some(layout.faults_at(first));
                assert(layout.faults_at(first) == layout.faults_at(i));
            }
        }
        lemma_no_overlay_error(layout, 0);
    }
}

/// A wire goes from an output of a peripheral, which is named behind a dot, or
/// from its only one.
pub proof fn law_wires_leave_by_their_output(
    peripheral: Seq<char>,
    output: Seq<char>,
    target: Seq<char>,
)
    requires
        !peripheral.contains('.'),
    ensures
        wire_text(peripheral + "."@ + output, target) == peripheral + ":\n    "@ + output + " -> "@
            + target + "\n"@,
        wire_text(peripheral, target) == peripheral + ":\n    -> "@ + target + "\n"@,
{
    reveal_strlit(".");
    let whole = peripheral + "."@ + output;
    lemma_char_index(whole, '.', 0);
    lemma_char_index(peripheral, '.', 0);
    let dot = char_index(whole, '.', 0);
    assert(whole[peripheral.len() as int] == '.');
    if dot < peripheral.len() {
        assert(peripheral[dot] == '.');
    }
    if char_index(peripheral, '.', 0) < peripheral.len() {
        assert(peripheral.contains(peripheral[char_index(peripheral, '.', 0)]));
    }
    assert(whole.take(dot) =~= peripheral);
    assert(whole.skip(dot + 1) =~= output);
}

/// The declaration of a RAM bank.
pub open spec fn bank_text(index: nat, base: nat, size: nat) -> Seq<char> {
    "physicalRam"@ + (dec(index) + (": Memory.MappedMemory @ sysbus 0x"@ + (hex8(base) + (
    "\n    size: 0x"@ + (hex(size) + "\n"@)))))
}

proof fn lemma_bank(regions: Seq<MemoryRegion>, end: int, i: int)
    requires
        0 <= i < end <= regions.len(),
    ensures
        contains(
            ram_text(regions, end),
            bank_text(i as nat, regions[i].base as nat, regions[i].size as nat),
        ),
    decreases end,
{
    let piece = bank_text(i as nat, regions[i].base as nat, regions[i].size as nat);
    lemma_pieces_are_kept(piece);
    if i < end - 1 {
        lemma_bank(regions, end - 1, i);
    } else {
        let before = ram_text(regions, end - 1);
        let name = "physicalRam"@;
        let number = dec(i as nat);
        let at = ": Memory.MappedMemory @ sysbus 0x"@;
        let base = hex8(regions[i].base as nat);
        let of = "\n    size: 0x"@;
        let size = hex(regions[i].size as nat);
        lemma_grouped(before + name + number + at + base + of, size, "\n"@);
        lemma_grouped(before + name + number + at + base, of, size + "\n"@);
        lemma_grouped(before + name + number + at, base, of + (size + "\n"@));
        lemma_grouped(before + name + number, at, base + (of + (size + "\n"@)));
        lemma_grouped(before + name, number, at + (base + (of + (size + "\n"@))));
        lemma_grouped(before, name, number + (at + (base + (of + (size + "\n"@)))));
        assert(ram_text(regions, end) == before + piece);
    }
}

/// Every RAM bank is declared, where it lies and with its size.
pub proof fn law_every_bank_is_declared(layout: BoardLayout, source_root: Seq<char>, i: int)
    requires
        0 <= i < layout.memory.ram_regions@.len(),
    ensures
        ({
            let region = layout.memory.ram_regions@[i];
            contains(
                layout.overlay_text(source_root),
                bank_text(i as nat, region.base as nat, region.size as nat),
            )
        }),
{
    let regions = layout.memory.ram_regions@;
    lemma_pieces_are_kept(
        bank_text(i as nat, regions[i].base as nat, regions[i].size as nat),
    );
    lemma_bank(regions, regions.len() as int, i);
}

/// The declaration of the flash.
pub open spec fn flash_text(base: nat, size: nat) -> Seq<char> {
    "flashBacking: Memory.MappedMemory @ sysbus 0x"@ + (hex8(base) + ("\n    size: 0x"@ + hex(size)))
}

/// What the flash controller is told of the units of the flash.
pub open spec fn units_text(erase_size: nat, write_alignment: nat, base: nat) -> Seq<char> {
    "\"\n    eraseSize: "@ + (dec(erase_size) + ("\n    writeAlignment: "@ + (dec(write_alignment) + (
    "\n    flashBase: 0x"@ + hex8(base)))))
}

/// The flash is declared where it lies, with its size and its units.
pub proof fn law_the_flash_is_declared(layout: BoardLayout, source_root: Seq<char>)
    ensures
        ({
            let memory = layout.memory;
            let text = layout.overlay_text(source_root);
            &&& contains(text, flash_text(memory.flash_base as nat, memory.flash_size as nat))
            &&& contains(
                text,
                units_text(
                    memory.erase_size as nat,
                    memory.write_alignment as nat,
                    memory.flash_base as nat,
                ),
            )
        }),
{
    let memory = layout.memory;
    let open = "flashBacking: Memory.MappedMemory @ sysbus 0x"@;
    let base = hex8(memory.flash_base as nat);
    let of = "\n    size: 0x"@;
    let size = hex(memory.flash_size as nat);
    let flash = flash_text(memory.flash_base as nat, memory.flash_size as nat);
    lemma_grouped(open + base, of, size);
    lemma_grouped(open, base, of + size);
    lemma_pieces_are_kept(flash);
    assert(contains(memory_text(layout, source_root), flash));
    assert(contains(layout.overlay_text(source_root), flash));
    let erase = dec(memory.erase_size as nat);
    let align = dec(memory.write_alignment as nat);
    let units = units_text(
        memory.erase_size as nat,
        memory.write_alignment as nat,
        memory.flash_base as nat,
    );
    let before = flash
        + "\nphysicalFlash: MTD.SedsStm32FlashController @ sysbus 0x40022000\n    flash: flashBacking\n    mcu: \""@
        + layout.mcu@;
    let a = "\"\n    eraseSize: "@;
    let b = "\n    writeAlignment: "@;
    let c = "\n    flashBase: 0x"@;
    lemma_grouped(before + a + erase + b + align, c, base);
    lemma_grouped(before + a + erase + b, align, c + base);
    lemma_grouped(before + a + erase, b, align + (c + base));
    lemma_grouped(before + a, erase, b + (align + (c + base)));
    lemma_grouped(before, a, erase + (b + (align + (c + base))));
    lemma_pieces_are_kept(units);
    assert(contains(memory_text(layout, source_root), units));
}

proof fn lemma_connected(
    connections: Seq<ConnectionConfig>,
    source_root: Seq<char>,
    end: int,
    i: int,
    piece: Seq<char>,
)
    requires
        0 <= i < end <= connections.len(),
        contains(connection_text(connections[i], i, source_root), piece),
    ensures
        contains(connections_text(connections, source_root, end), piece),
    decreases end,
{
    lemma_pieces_are_kept(piece);
    if i < end - 1 {
        lemma_connected(connections, source_root, end - 1, i, piece);
    }
}

/// Every connection is wired: straight, or, where it is active low, through an
/// inverter of its own.
pub proof fn law_every_connection_is_wired(layout: BoardLayout, source_root: Seq<char>, i: int)
    requires
        0 <= i < layout.board.connections@.len(),
    ensures
        ({
            let connection = layout.board.connections@[i];
            let text = layout.overlay_text(source_root);
            if connection.active_low {
                &&& contains(
                    text,
                    wire_text(
                        connection.from@,
                        "layoutSignalInverter"@ + dec(i as nat) + "@0"@,
                    ),
                )
                &&& contains(
                    text,
                    "/SedsSignalInverter.cs\n    Output -> "@ + (connection.to@ + "\n"@),
                )
            } else {
                contains(text, wire_text(connection.from@, connection.to@))
            }
        }),
{
    let connections = layout.board.connections@;
    let connection = connections[i];
    let end = connections.len() as int;
    if connection.active_low {
        let wire = wire_text(connection.from@, inverter_name(i));
        lemma_pieces_are_kept(wire);
        lemma_connected(connections, source_root, end, i, wire);
        assert(contains(layout.overlay_text(source_root), wire));
        let before = "layoutSignalInverter"@ + dec(i as nat)
            + ": Miscellaneous.SedsSignalInverter\n    preinit:\n        include @"@ + source_root;
        let open = "/SedsSignalInverter.cs\n    Output -> "@;
        let output = open + (connection.to@ + "\n"@);
        lemma_grouped(before + open, connection.to@, "\n"@);
        lemma_grouped(before, open, connection.to@ + "\n"@);
        lemma_pieces_are_kept(output);
        assert(contains(connection_text(connection, i, source_root), output));
        lemma_connected(connections, source_root, end, i, output);
    } else {
        let wire = wire_text(connection.from@, connection.to@);
        lemma_pieces_are_kept(wire);
        lemma_connected(connections, source_root, end, i, wire);
    }
}

proof fn lemma_routed(routes: Seq<DmaRoute>, end: int, i: int)
    requires
        0 <= i < end <= routes.len(),
    ensures
        contains(routes_text(routes, end), wire_text(routes[i].request@, dma_target(routes[i]))),
    decreases end,
{
    lemma_pieces_are_kept(wire_text(routes[i].request@, dma_target(routes[i])));
    if i < end - 1 {
        lemma_routed(routes, end - 1, i);
    }
}

/// Every DMA request is wired to its channel of its controller.
pub proof fn law_every_request_is_routed(layout: BoardLayout, source_root: Seq<char>, i: int)
    requires
        0 <= i < layout.board.dma_routes@.len(),
    ensures
        ({
            let route = layout.board.dma_routes@[i];
            contains(
                layout.overlay_text(source_root),
                wire_text(route.request@, route.controller@ + "@"@ + dec(route.channel as nat)),
            )
        }),
{
    let routes = layout.board.dma_routes@;
    let route = routes[i];
    reveal_strlit("");
    assert(""@ + route.controller@ =~= route.controller@);
    lemma_pieces_are_kept(wire_text(route.request@, dma_target(route)));
    lemma_routed(routes, routes.len() as int, i);
}

proof fn lemma_device_part(layout: BoardLayout, source_root: Seq<char>, end: int, i: int, piece: Seq<char>)
    requires
        0 <= i < end,
        contains(layout.device_part(i, source_root), piece),
    ensures
        contains(layout.devices_text(source_root, end), piece),
    decreases end,
{
    lemma_pieces_are_kept(piece);
    if i < end - 1 {
        lemma_device_part(layout, source_root, end - 1, i, piece);
    }
}

/// When a model fails and when it goes away.
pub open spec fn schedule_text(every: nat, after: nat) -> Seq<char> {
    "    failureEvery: "@ + (dec(every) + ("\n    disconnectAfter: "@ + dec(after)))
}

/// A device whose model is its own fails on its own schedule: never, and never
/// goes away, unless it says otherwise.
pub proof fn law_devices_fail_on_their_schedule(
    layout: BoardLayout,
    source_root: Seq<char>,
    i: int,
)
    requires
        0 <= i < layout.peripherals@.len(),
        layout.device_at(i) matches Ok(device) && (device is NeoM9n || device is Ltc2990
            || device is Adc),
    ensures
        ({
            let spec = layout.peripherals@[i];
            contains(
                layout.overlay_text(source_root),
                schedule_text(
                    if spec.failure_every is Some {
                        spec.failure_every->0 as nat
                    } else {
                        0
                    },
                    if spec.disconnect_after is Some {
                        spec.disconnect_after->0 as nat
                    } else {
                        0xffff_ffff_ffff_ffff
                    },
                ),
            )
        }),
{
    let spec = layout.peripherals@[i];
    let every = dec(failure_every(spec) as nat);
    let after = dec(disconnect_after(spec) as nat);
    let piece = schedule_text(failure_every(spec) as nat, disconnect_after(spec) as nat);
    lemma_grouped("    failureEvery: "@ + every, "\n    disconnectAfter: "@, after);
    lemma_grouped("    failureEvery: "@, every, "\n    disconnectAfter: "@ + after);
    lemma_pieces_are_kept(piece);
    assert(contains(fault_lines(spec), piece));
    assert(contains(layout.device_part(i, source_root), piece));
    lemma_device_part(layout, source_root, layout.peripherals@.len() as int, i, piece);
}

/// The settings of an ADC: its place, resolution, channels, samples and noise.
pub open spec fn adc_settings(
    index: nat,
    address: nat,
    bits: nat,
    channels: nat,
    samples: Seq<u32>,
    noise: nat,
) -> Seq<char> {
    "layoutAdc"@ + (dec(index) + (": Sensors.SedsStm32Adc @ sysbus 0x"@ + (hex8(address) + (
    "\n    bits: "@ + (dec(bits) + ("\n    channels: "@ + (dec(channels) + ("\n    samples: \""@ + (
    join(decimals(samples), ","@) + ("\"\n    noiseLsb: "@ + dec(noise)))))))))))
}

/// An ADC is declared where it lies and with what it measures: twelve bits, one
/// channel and no noise, unless it says otherwise.
pub proof fn law_every_adc_is_declared(
    layout: BoardLayout,
    source_root: Seq<char>,
    i: int,
    address: u64,
    common: AdcCommon,
)
    requires
        0 <= i < layout.peripherals@.len(),
        layout.device_at(i) == Ok::<Device, DeviceError>(adc_at(address, common)),
    ensures
        ({
            let spec = layout.peripherals@[i];
            contains(
                layout.overlay_text(source_root),
                adc_settings(
                    i as nat,
                    address as nat,
                    if spec.bits is Some {
                        spec.bits->0 as nat
                    } else {
                        12
                    },
                    if spec.channels is Some {
                        spec.channels->0 as nat
                    } else {
                        1
                    },
                    spec.channel_samples@,
                    if spec.noise_lsb is Some {
                        spec.noise_lsb->0 as nat
                    } else {
                        0
                    },
                ),
            )
        }),
{
    let spec = layout.peripherals@[i];
    let noise: u32 = match spec.noise_lsb {
        Some(noise) => noise,
        None => 0,
    };
    let piece = adc_settings(
        i as nat,
        address as nat,
        spec.adc_bits() as nat,
        spec.adc_channels() as nat,
        spec.channel_samples@,
        noise as nat,
    );
    let (a, b) = ("layoutAdc"@, dec(i as nat));
    let (c, d) = (": Sensors.SedsStm32Adc @ sysbus 0x"@, hex8(address as nat));
    let (e, f) = ("\n    bits: "@, dec(spec.adc_bits() as nat));
    let (g, h) = ("\n    channels: "@, dec(spec.adc_channels() as nat));
    let (j, k) = ("\n    samples: \""@, join(decimals(spec.channel_samples@), ","@));
    let (l, m) = ("\"\n    noiseLsb: "@, dec(noise as nat));
    lemma_grouped(a + b + c + d + e + f + g + h + j + k, l, m);
    lemma_grouped(a + b + c + d + e + f + g + h + j, k, l + m);
    lemma_grouped(a + b + c + d + e + f + g + h, j, k + (l + m));
    lemma_grouped(a + b + c + d + e + f + g, h, j + (k + (l + m)));
    lemma_grouped(a + b + c + d + e + f, g, h + (j + (k + (l + m))));
    lemma_grouped(a + b + c + d + e, f, g + (h + (j + (k + (l + m)))));
    lemma_grouped(a + b + c + d, e, f + (g + (h + (j + (k + (l + m))))));
    lemma_grouped(a + b + c, d, e + (f + (g + (h + (j + (k + (l + m)))))));
    lemma_grouped(a + b, c, d + (e + (f + (g + (h + (j + (k + (l + m))))))));
    lemma_grouped(a, b, c + (d + (e + (f + (g + (h + (j + (k + (l + m)))))))));
    lemma_pieces_are_kept(piece);
    assert(contains(adc_text(spec, i, address, source_root), piece));
    assert(contains(layout.device_part(i, source_root), piece));
    lemma_device_part(layout, source_root, layout.peripherals@.len() as int, i, piece);
}

proof fn lemma_common_before(layout: BoardLayout, common: AdcCommon, index: int)
    requires
        0 <= index,
    ensures
        layout.common_before(common, index) <==> exists|i: int|
            0 <= i < index && #[trigger] layout.has_common(i, common),
    decreases index,
{
    if index > 0 {
        lemma_common_before(layout, common, index - 1);
        if layout.common_before(common, index - 1) {
            let i = choose|i: int| 0 <= i < index - 1 && #[trigger] layout.has_common(i, common);
            assert(0 <= i < index);
        }
        if layout.has_common(index - 1, common) {
            assert(0 <= index - 1 < index);
        }
    }
}

/// The registers that several ADCs share are declared with the first of them,
/// and with no other.
pub proof fn law_shared_registers_are_declared_once(
    layout: BoardLayout,
    source_root: Seq<char>,
    i: int,
    address: u64,
    common: AdcCommon,
)
    requires
        0 <= i,
        layout.device_at(i) == Ok::<Device, DeviceError>(adc_at(address, common)),
    ensures
        ({
            let own = adc_text(layout.peripherals@[i], i, address, source_root);
            let base = "\n    preinit:\n        include @"@ + source_root + "/SedsStm32Adc.cs\n"@;
            let part = layout.device_part(i, source_root);
            let earlier = exists|k: int| 0 <= k < i && #[trigger] layout.has_common(k, common);
            &&& earlier ==> part == own
            &&& !earlier && common == AdcCommon::Own ==> part == own
            &&& !earlier && common == AdcCommon::Adc12 ==> part == own
                + ("layoutAdc12Common: Sensors.SedsStm32Adc @ sysbus 0x50000300"@ + base)
            &&& !earlier && common == AdcCommon::Adc345 ==> part == own
                + ("layoutAdc345Common: Sensors.SedsStm32Adc @ sysbus 0x50000700"@ + base)
        }),
{
    reveal_strlit("");
    lemma_common_before(layout, common, i);
    let own = adc_text(layout.peripherals@[i], i, address, source_root);
    assert(own + ""@ =~= own);
    let from = "\n    preinit:\n        include @"@;
    let file = "/SedsStm32Adc.cs\n"@;
    let a = "layoutAdc12Common: Sensors.SedsStm32Adc @ sysbus 0x50000300"@;
    let b = "layoutAdc345Common: Sensors.SedsStm32Adc @ sysbus 0x50000700"@;
    assert("layoutAdc12Common: Sensors.SedsStm32Adc @ sysbus 0x50000300\n    preinit:\n        include @"@
        == a + from) by {
        reveal_strlit(
            "layoutAdc12Common: Sensors.SedsStm32Adc @ sysbus 0x50000300\n    preinit:\n        include @",
        );
        reveal_strlit("layoutAdc12Common: Sensors.SedsStm32Adc @ sysbus 0x50000300");
        reveal_strlit("\n    preinit:\n        include @");
        assert("layoutAdc12Common: Sensors.SedsStm32Adc @ sysbus 0x50000300\n    preinit:\n        include @"@
            =~= a + from);
    }
    assert("layoutAdc345Common: Sensors.SedsStm32Adc @ sysbus 0x50000700\n    preinit:\n        include @"@
        == b + from) by {
        reveal_strlit(
            "layoutAdc345Common: Sensors.SedsStm32Adc @ sysbus 0x50000700\n    preinit:\n        include @",
        );
        reveal_strlit("layoutAdc345Common: Sensors.SedsStm32Adc @ sysbus 0x50000700");
        reveal_strlit("\n    preinit:\n        include @");
        assert("layoutAdc345Common: Sensors.SedsStm32Adc @ sysbus 0x50000700\n    preinit:\n        include @"@
            =~= b + from);
    }
    lemma_grouped(a, from, source_root);
    lemma_grouped(a, from + source_root, file);
    lemma_grouped(b, from, source_root);
    lemma_grouped(b, from + source_root, file);
}

/// A card holds what it says, four MiB unless it says otherwise, and fails on
/// its own schedule.
pub proof fn law_every_card_has_its_capacity(layout: BoardLayout, source_root: Seq<char>, i: int)
    requires
        0 <= i < layout.peripherals@.len(),
        layout.device_at(i) == Ok::<Device, DeviceError>(Device::SdCard),
    ensures
        ({
            let spec = layout.peripherals@[i];
            let capacity = if spec.capacity_bytes is Some {
                spec.capacity_bytes->0 as nat
            } else {
                0x40_0000
            };
            let every = if spec.failure_every is Some {
                spec.failure_every->0 as nat
            } else {
                0
            };
            let after = if spec.disconnect_after is Some {
                spec.disconnect_after->0 as nat
            } else {
                0xffff_ffff_ffff_ffff
            };
            contains(
                layout.overlay_text(source_root),
                ":\n    CardCapacityBytes: "@ + (dec(capacity) + ("\n    FailureEvery: "@ + (dec(every)
                    + ("\n    DisconnectAfter: "@ + dec(after))))),
            )
        }),
{
    let spec = layout.peripherals@[i];
    let capacity: u64 = match spec.capacity_bytes {
        Some(bytes) => bytes,
        None => 4194304,
    };
    let (b, c) = (":\n    CardCapacityBytes: "@, dec(capacity as nat));
    let (d, e) = ("\n    FailureEvery: "@, dec(failure_every(spec) as nat));
    let (f, g) = ("\n    DisconnectAfter: "@, dec(disconnect_after(spec) as nat));
    let a = ""@ + (if layout.architecture == ArchitectureKind::Stm32h5 {
        "sdmmc"@
    } else {
        "sdmmc1"@
    });
    let piece = b + (c + (d + (e + (f + g))));
    lemma_grouped(a + b + c + d + e, f, g);
    lemma_grouped(a + b + c + d, e, f + g);
    lemma_grouped(a + b + c, d, e + (f + g));
    lemma_grouped(a + b, c, d + (e + (f + g)));
    lemma_grouped(a, b, c + (d + (e + (f + g))));
    lemma_pieces_are_kept(piece);
    assert(contains(layout.device_part(i, source_root), piece));
    lemma_device_part(layout, source_root, layout.peripherals@.len() as int, i, piece);
}

proof fn lemma_overlay_fault(layout: BoardLayout, from: int)
    requires
        0 <= from,
        layout.peripherals@.len() <= usize::MAX,
    ensures
        match layout.overlay_error(from) {
            None => true,
            Some(OverlayError::Unpaired(i)) => i < layout.peripherals@.len()
                && layout.device_at(i as int) == Err::<Device, DeviceError>(DeviceError::Unpaired),
            Some(OverlayError::Unsupported(i)) => i < layout.peripherals@.len()
                && layout.device_at(i as int) == Err::<Device, DeviceError>(
                DeviceError::Unsupported,
            ),
            Some(OverlayError::FlightFaults) => exists|i: int, j: int|
                0 <= i < j < layout.peripherals@.len() && #[trigger] layout.is_flight_sensor(i)
                    && #[trigger] layout.is_flight_sensor(j) && layout.faults_at(i)
                    != layout.faults_at(j),
        },
    decreases layout.peripherals@.len() - from,
{
    if from < layout.peripherals@.len() {
        lemma_overlay_fault(layout, from + 1);
        lemma_flight_known(layout, from);
        if layout.overlay_error_at(from) == Some(OverlayError::FlightFaults) {
            let first = choose|first: int|
                0 <= first < from && #[trigger] layout.is_flight_sensor(first)
                    && layout.flight_before(from) == Some(layout.faults_at(first));
            assert(layout.is_flight_sensor(first) && layout.is_flight_sensor(from));
        }
    }
}

/// What an overlay is refused for is wrong with a device: it has a model
/// without a bus or a bus without a model, there is no such model there, or two
/// flight sensors fail on different schedules.
pub proof fn law_overlays_are_refused_for_what_is_wrong(layout: BoardLayout)
    requires
        layout.peripherals@.len() <= usize::MAX,
    ensures
        match layout.overlay_error(0) {
            None => true,
            Some(OverlayError::Unpaired(i)) => {
                let spec = layout.peripherals@[i as int];
                i < layout.peripherals@.len() && spec.model is Some != spec.bus is Some
            },
            Some(OverlayError::Unsupported(i)) => {
                let spec = layout.peripherals@[i as int];
                i < layout.peripherals@.len() && spec.model is Some && spec.bus is Some
                    && !device_known(layout, i as int)
            },
            Some(OverlayError::FlightFaults) => exists|i: int, j: int|
                0 <= i < j < layout.peripherals@.len() && #[trigger] layout.is_flight_sensor(i)
                    && #[trigger] layout.is_flight_sensor(j) && (
                layout.peripherals@[i].failure_every != layout.peripherals@[j].failure_every
                    || layout.peripherals@[i].disconnect_after
                    != layout.peripherals@[j].disconnect_after),
        },
{
    lemma_overlay_fault(layout, 0);
    match layout.overlay_error(0) {
        Some(OverlayError::Unsupported(i)) => {
            lemma_device_known(layout, i as int);
        },
        Some(OverlayError::FlightFaults) => {
            let (i, j): (int, int) = choose|i: int, j: int|
                0 <= i < j < layout.peripherals@.len() && #[trigger] layout.is_flight_sensor(i)
                    && #[trigger] layout.is_flight_sensor(j) && layout.faults_at(i)
                    != layout.faults_at(j);
            assert(layout.is_flight_sensor(i) && layout.is_flight_sensor(j));
        },
        _ => {},
    }
}

} // verus!
