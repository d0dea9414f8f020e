//! Board layouts: the memory map, the artifacts and the execution, update and
//! board settings that one firmware repository declares.

use vstd::prelude::*;

use crate::architecture::{
    descriptor_index, law_parts_are_found_by_name, ArchitectureKind, DescriptorError, McuDescriptor,
    McuKind,
};
use crate::peripherals::PeripheralSpec;
use crate::text::{
    chars_of, contains, has_text, occurs_at, opt_text, same_text, strip_suffix, without_suffix, Text,
};
use crate::traffic::TrafficConfig;

verus! {

// ---------------------------------------------------------------------------
// Declarations
// ---------------------------------------------------------------------------

#[derive(Debug)]
pub struct BoardLayout {
    pub name: String,
    pub architecture: ArchitectureKind,
    pub mcu: McuKind,
    /// Optional exact silicon descriptor. This lets a firmware repository add
    /// a part and its platform without rebuilding the simulator image.
    pub mcu_descriptor: Option<McuDescriptor>,
    pub memory: MemoryLayout,
    pub artifacts: Artifacts,
    pub execution: ExecutionConfig,
    pub traffic: TrafficConfig,
    pub ota: OtaConfig,
    pub board: BoardConfig,
    pub peripherals: Vec<PeripheralSpec>,
}

#[derive(Debug)]
pub struct MemoryLayout {
    pub flash_base: u64,
    pub flash_size: u64,
    pub ram_regions: Vec<MemoryRegion>,
    pub bootloader_size: u64,
    pub slot_a_base: u64,
    pub slot_a_size: u64,
    pub slot_b_base: Option<u64>,
    pub slot_b_size: Option<u64>,
    pub delta_base: Option<u64>,
    pub delta_size: Option<u64>,
    pub persistent_data_base: Option<u64>,
    pub persistent_data_size: Option<u64>,
    pub erase_size: u64,
    pub write_alignment: u64,
    pub sedsnet_pool: usize,
}

#[derive(Debug)]
pub struct MemoryRegion {
    pub name: String,
    pub base: u64,
    pub size: u64,
}

impl Clone for MemoryRegion {
    fn clone(&self) -> (res: Self)
        ensures
            res == *self,
    {
        MemoryRegion { name: self.name.clone(), base: self.base, size: self.size }
    }
}

/// Paths of the artifacts, relative to the firmware root.
#[derive(Debug)]
pub struct Artifacts {
    pub elf: String,
    pub bootloader_elf: String,
    pub firmware: String,
    pub bootloader: String,
    pub factory: String,
    pub updated_firmware: Option<String>,
    pub ota: Option<String>,
}

#[derive(Debug)]
pub struct ExecutionConfig {
    pub virtual_time_ms: u64,
    pub trace: bool,
    pub boot_success_symbol: String,
    pub factory_boot_success_symbol: String,
    pub sample_count: usize,
    pub memory_probe_warmup_samples: usize,
    pub require_stack_probe: bool,
    pub hal_tick_address: Option<u64>,
    pub hal_tick_step: u32,
    pub memory_probes: Vec<MemoryProbe>,
    /// Whether CAN transmissions receive a physical-layer ACK.
    pub can_acknowledged: bool,
}

#[derive(Debug)]
pub struct MemoryProbe {
    pub name: String,
    pub symbol: String,
    pub minimum: Option<u32>,
    pub maximum: Option<u32>,
    pub max_end_drop: Option<u32>,
}

#[derive(Debug)]
pub struct OtaConfig {
    pub chunk_size: usize,
    pub firmware_driven: bool,
    pub transport: Option<OtaTransport>,
    pub start_after_ms: u64,
    pub inter_byte_us: u64,
    pub outcomes: Vec<BootOutcome>,
    pub power_cuts: PowerCutConfig,
}

#[derive(Debug)]
pub struct OtaTransport {
    pub kind: OtaTransportKind,
    pub peripheral: String,
    pub can_id: Option<u32>,
    pub mtu: Option<usize>,
    pub endpoint: Option<u8>,
}

#[derive(Clone, Copy, Debug, PartialEq, Eq, Structural)]
pub enum OtaTransportKind {
    Uart,
    Can,
    Usb,
    Sdmmc,
}

#[derive(Debug)]
pub struct BootOutcome {
    pub name: String,
    pub symbol: String,
    pub image: BootImage,
}

#[derive(Clone, Copy, Debug, PartialEq, Eq, Structural)]
pub enum BootImage {
    Old,
    New,
    Recovery,
}

impl Default for BootImage {
    fn default() -> (res: Self)
        ensures
            res == BootImage::Recovery,
    {
        BootImage::Recovery
    }
}

#[derive(Debug)]
pub struct PowerCutConfig {
    pub every_flash_operation: bool,
    pub events: Vec<FlashEventKind>,
    pub reboot_time_ms: u64,
}

#[derive(Clone, Copy, Debug, PartialEq, Eq, Structural)]
pub enum FlashEventKind {
    EraseStart,
    EraseComplete,
    ProgramUnit,
    OptionCommit,
}

#[derive(Debug)]
pub struct BoardConfig {
    pub strict_mmio: bool,
    pub clocks: Vec<ClockConfig>,
    pub connections: Vec<ConnectionConfig>,
    pub pins: Vec<PinConfig>,
    pub dma_routes: Vec<DmaRoute>,
    pub security: SecurityConfig,
}

#[derive(Debug)]
pub struct PinConfig {
    pub gpio: String,
    pub pin: u32,
    pub initial: PinState,
}

#[derive(Clone, Copy, Debug, PartialEq, Eq, Structural)]
pub enum PinState {
    Low,
    High,
    Floating,
}

#[derive(Debug)]
pub struct ClockConfig {
    pub peripheral: String,
    pub frequency_hz: u64,
}

#[derive(Debug)]
pub struct ConnectionConfig {
    pub from: String,
    pub to: String,
    pub active_low: bool,
}

#[derive(Debug)]
pub struct DmaRoute {
    pub request: String,
    pub controller: String,
    pub channel: u32,
}

#[derive(Debug)]
pub struct SecurityConfig {
    pub trustzone: bool,
    pub secure_regions: Vec<MemoryRegion>,
}

// ---------------------------------------------------------------------------
// Defaults
// ---------------------------------------------------------------------------

pub fn default_boot_symbol() -> (res: String)
    ensures
        res@ == "_tx_thread_schedule"@,
{
    "_tx_thread_schedule".to_owned()
}

pub fn default_factory_boot_symbol() -> (res: String)
    ensures
        res@ == "main"@,
{
    "main".to_owned()
}

pub fn default_virtual_time_ms() -> (res: u64)
    ensures
        res == 250,
{
    250
}

pub fn default_sample_count() -> (res: usize)
    ensures
        res == 1,
{
    1
}

pub fn default_hal_tick_step() -> (res: u32)
    ensures
        res == 1,
{
    1
}

pub fn default_true() -> (res: bool)
    ensures
        res,
{
    true
}

pub fn default_chunk() -> (res: usize)
    ensures
        res == 512,
{
    512
}

pub fn default_inter_byte_us() -> (res: u64)
    ensures
        res == 100,
{
    100
}

pub fn default_reboot_time_ms() -> (res: u64)
    ensures
        res == 500,
{
    500
}

impl Default for ExecutionConfig {
    fn default() -> (res: Self)
        ensures
            res.virtual_time_ms == 250,
            !res.trace,
            res.boot_success_symbol@ == "_tx_thread_schedule"@,
            res.factory_boot_success_symbol@ == "main"@,
            res.sample_count == 1,
            res.memory_probe_warmup_samples == 0,
            !res.require_stack_probe,
            res.hal_tick_address is None,
            res.hal_tick_step == 1,
            res.memory_probes@.len() == 0,
            res.can_acknowledged,
    {
        ExecutionConfig {
            virtual_time_ms: default_virtual_time_ms(),
            trace: false,
            boot_success_symbol: default_boot_symbol(),
            factory_boot_success_symbol: default_factory_boot_symbol(),
            sample_count: default_sample_count(),
            memory_probe_warmup_samples: 0,
            require_stack_probe: false,
            hal_tick_address: None,
            hal_tick_step: default_hal_tick_step(),
            memory_probes: Vec::new(),
            can_acknowledged: default_true(),
        }
    }
}

impl Default for PowerCutConfig {
    fn default() -> (res: Self)
        ensures
            !res.every_flash_operation,
            res.events@.len() == 0,
            res.reboot_time_ms == 500,
    {
        PowerCutConfig {
            every_flash_operation: false,
            events: Vec::new(),
            reboot_time_ms: default_reboot_time_ms(),
        }
    }
}

impl Default for OtaConfig {
    fn default() -> (res: Self)
        ensures
            res.chunk_size == 512,
            !res.firmware_driven,
            res.transport is None,
            res.start_after_ms == 0,
            res.inter_byte_us == 100,
            res.outcomes@.len() == 0,
            !res.power_cuts.every_flash_operation,
            res.power_cuts.events@.len() == 0,
            res.power_cuts.reboot_time_ms == 500,
    {
        OtaConfig {
            chunk_size: default_chunk(),
            firmware_driven: false,
            transport: None,
            start_after_ms: 0,
            inter_byte_us: default_inter_byte_us(),
            outcomes: Vec::new(),
            power_cuts: PowerCutConfig::default(),
        }
    }
}

impl Default for SecurityConfig {
    fn default() -> (res: Self)
        ensures
            !res.trustzone,
            res.secure_regions@.len() == 0,
    {
        SecurityConfig { trustzone: false, secure_regions: Vec::new() }
    }
}

impl Default for BoardConfig {
    fn default() -> (res: Self)
        ensures
            !res.strict_mmio,
            res.clocks@.len() == 0,
            res.connections@.len() == 0,
            res.pins@.len() == 0,
            res.dma_routes@.len() == 0,
            !res.security.trustzone,
            res.security.secure_regions@.len() == 0,
    {
        BoardConfig {
            strict_mmio: false,
            clocks: Vec::new(),
            connections: Vec::new(),
            pins: Vec::new(),
            dma_routes: Vec::new(),
            security: SecurityConfig::default(),
        }
    }
}

// ---------------------------------------------------------------------------
// Which part a board carries
// ---------------------------------------------------------------------------

#[derive(Clone, Copy, Debug, PartialEq, Eq, Structural)]
pub enum ResolveError {
    /// The inline descriptor is named otherwise than the board's MCU.
    NameMismatch,
    NotBuiltIn,
    Definition(DescriptorError),
}

impl BoardLayout {
    /// The descriptor of the board's part: the inline one, else the one of
    /// that name in the catalog.
    pub open spec fn descriptor_in(&self, catalog: Seq<McuDescriptor>) -> Result<
        McuDescriptor,
        ResolveError,
    > {
        let found: Result<McuDescriptor, ResolveError> = match self.mcu_descriptor {
            Some(descriptor) => if descriptor.name@ == self.mcu@ {
                Ok(descriptor)
            } else {
                Err(ResolveError::NameMismatch)
            },
            None => match descriptor_index(catalog, self.mcu@, 0) {
                Some(i) => Ok(catalog[i]),
                None => Err(ResolveError::NotBuiltIn),
            },
        };
        match found {
            Ok(descriptor) => match descriptor.definition_error() {
                Some(error) => Err(ResolveError::Definition(error)),
                None => Ok(descriptor),
            },
            Err(error) => Err(error),
        }
    }

    pub fn mcu(&self) -> (res: &McuKind)
        ensures
            *res == self.mcu,
    {
        &self.mcu
    }

    pub fn resolve_mcu_descriptor<'a>(&'a self, catalog: &'a [McuDescriptor]) -> (res: Result<
        &'a McuDescriptor,
        ResolveError,
    >)
        ensures
            match self.descriptor_in(catalog@) {
                Ok(descriptor) => res == Ok::<&McuDescriptor, ResolveError>(&descriptor),
                Err(error) => res == Err::<&McuDescriptor, ResolveError>(error),
            },
    {
        let descriptor = match &self.mcu_descriptor {
            Some(descriptor) => {
                if !same_text(descriptor.name.as_str(), self.mcu.as_str()) {
                    return Err(ResolveError::NameMismatch);
                }
                descriptor
            },
            None => match self.mcu.descriptor(catalog) {
                Some(descriptor) => descriptor,
                None => {
                    return Err(ResolveError::NotBuiltIn);
                },
            },
        };
        match descriptor.validate_definition() {
            Ok(()) => Ok(descriptor),
            Err(error) => Err(ResolveError::Definition(error)),
        }
    }
}

impl ResolveError {
    /// `layout` and `catalog` are those that gave the error.
    pub open spec fn text(self, layout: BoardLayout, catalog: Seq<McuDescriptor>) -> Seq<char> {
        match self {
            ResolveError::NameMismatch => "mcu_descriptor name "@ + layout.inline_name()
                + " does not match mcu "@ + layout.mcu@,
            ResolveError::NotBuiltIn => "MCU "@ + layout.mcu@
                + " is not built in; add an exact mcu_descriptor to the board layout"@,
            ResolveError::Definition(error) => match layout.mcu_descriptor {
                Some(descriptor) => error.text(descriptor),
                None => match descriptor_index(catalog, layout.mcu@, 0) {
                    Some(i) => error.text(catalog[i]),
                    None => ""@,
                },
            },
        }
    }

    pub fn message(self, layout: &BoardLayout, catalog: &[McuDescriptor]) -> (res: String)
        ensures
            res@ == self.text(*layout, catalog@),
    {
        match self {
            ResolveError::NameMismatch => {
                let name = match &layout.mcu_descriptor {
                    Some(descriptor) => descriptor.name.as_str(),
                    None => "",
                };
                Text::new("mcu_descriptor name ").str(name).str(" does not match mcu ").str(
                    layout.mcu.as_str(),
                ).done()
            },
            ResolveError::NotBuiltIn => Text::new("MCU ").str(layout.mcu.as_str()).str(
                " is not built in; add an exact mcu_descriptor to the board layout",
            ).done(),
            ResolveError::Definition(error) => match &layout.mcu_descriptor {
                Some(descriptor) => error.message(descriptor),
                None => match layout.mcu.descriptor(catalog) {
                    Some(descriptor) => error.message(descriptor),
                    None => "".to_owned(),
                },
            },
        }
    }
}

impl BoardLayout {
    pub open spec fn inline_name(&self) -> Seq<char> {
        match self.mcu_descriptor {
            Some(descriptor) => descriptor.name@,
            None => ""@,
        }
    }
}

// ---------------------------------------------------------------------------
// Stack probes
// ---------------------------------------------------------------------------

impl MemoryProbe {
    /// A probe of some task's remaining stack with a positive floor.
    pub open spec fn guards_stack(&self) -> bool {
        &&& contains(self.name@, "stack"@)
        &&& self.minimum matches Some(minimum) && minimum > 0
    }
}

impl ExecutionConfig {
    pub open spec fn stack_probe_satisfied(&self) -> bool {
        self.require_stack_probe ==> exists|i: int|
            0 <= i < self.memory_probes@.len() && (#[trigger] self.memory_probes@[i]).guards_stack()
    }

    pub fn satisfies_stack_probe_requirement(&self) -> (res: bool)
        ensures
            res == self.stack_probe_satisfied(),
    {
        if !self.require_stack_probe {
            return true;
        }
        let mut i: usize = 0;
        while i < self.memory_probes.len()
            invariant
                i <= self.memory_probes@.len(),
                forall|k: int|
                    0 <= k < i ==> !(#[trigger] self.memory_probes@[k]).guards_stack(),
            decreases self.memory_probes@.len() - i,
        {
            let probe = &self.memory_probes[i];
            let chars = chars_of(probe.name.as_str());
            let floor = match probe.minimum {
                Some(minimum) => minimum > 0,
                None => false,
            };
            if has_text(chars.as_slice(), "stack") && floor {
                assert(self.memory_probes@[i as int].guards_stack());
                return true;
            }
            i = i + 1;
        }
        false
    }
}

// ---------------------------------------------------------------------------
// Layouts of the first schema
// ---------------------------------------------------------------------------

/// What completing a layout reads of its `memory` object.
#[derive(Debug)]
pub struct LegacyMemory {
    pub has_ram_regions: bool,
    /// `ram_size`, where it is an unsigned integer.
    pub ram_size: Option<u64>,
}

/// What completing a layout reads of its `artifacts` object.
#[derive(Debug)]
pub struct LegacyArtifacts {
    pub has_elf: bool,
    pub firmware: Option<String>,
    pub has_bootloader_elf: bool,
    pub bootloader: Option<String>,
}

/// What completing a layout reads of one entry of `peripherals`. An entry that
/// is no object has neither a type nor a name.
#[derive(Debug)]
pub struct LegacyPeripheral {
    pub kind: Option<String>,
    pub name: Option<String>,
    pub has_model: bool,
    pub has_bus: bool,
}

/// What completing a layout reads of the document. The first schema selected
/// the only MCU of each architecture implicitly and used one contiguous
/// `ram_size`.
#[derive(Debug)]
pub struct LegacyLayout {
    pub architecture: Option<String>,
    pub has_mcu: bool,
    pub memory: Option<LegacyMemory>,
    pub artifacts: Option<LegacyArtifacts>,
    pub peripherals: Vec<LegacyPeripheral>,
}

/// The fields that a layout of the first schema leaves out.
#[derive(Debug)]
pub struct LegacyDefaults {
    pub mcu: Option<String>,
    /// The only entry of `ram_regions`.
    pub ram_region: Option<MemoryRegion>,
    pub elf: Option<String>,
    pub bootloader_elf: Option<String>,
    /// For each peripheral, the model and the bus of a physical ADC.
    pub adcs: Vec<Option<(String, String)>>,
}

#[derive(Clone, Copy, Debug, PartialEq, Eq, Structural)]
pub enum LegacyError {
    NotAnObject,
    Architecture,
    UnknownArchitecture,
    Memory,
    RamSize,
    RamEmpty,
    Artifacts,
    Firmware,
    Elf,
    Bootloader,
    BootloaderElf,
}

/// The MCU that an architecture stood for.
pub open spec fn legacy_mcu(architecture: Seq<char>) -> Option<Seq<char>> {
    if architecture == "stm32g4"@ {
        Some("stm32g491"@)
    } else if architecture == "stm32h5"@ {
        Some("stm32h523"@)
    } else if architecture == "stm32u5"@ {
        Some("stm32u585"@)
    } else {
        None
    }
}

/// What is left of a packaged image's path when its extension is removed.
pub open spec fn firmware_stem(path: Seq<char>) -> Option<Seq<char>> {
    match without_suffix(path, ".launchcore.img"@) {
        Some(stem) => Some(stem),
        None => without_suffix(path, ".img"@),
    }
}

/// The name of one of the ADCs that every part of the architecture had.
pub open spec fn physical_adc_name(architecture: Seq<char>, name: Seq<char>) -> bool {
    if architecture == "stm32g4"@ {
        name == "adc1"@ || name == "adc2"@ || name == "adc3"@
    } else if architecture == "stm32h5"@ {
        name == "adc1"@
    } else if architecture == "stm32u5"@ {
        name == "adc1"@ || name == "adc4"@
    } else {
        false
    }
}

impl LegacyPeripheral {
    pub open spec fn is_physical_adc(&self, architecture: Seq<char>) -> bool {
        &&& opt_text(self.kind) == Some("adc"@)
        &&& !self.has_model
        &&& !self.has_bus
        &&& self.name matches Some(name) && physical_adc_name(architecture, name@)
    }

    /// `adc` is what completing a layout adds to this entry: a physical ADC
    /// gets its model, and its own name as bus.
    pub open spec fn completed_by(
        &self,
        architecture: Seq<char>,
        adc: Option<(String, String)>,
    ) -> bool {
        match adc {
            Some((model, bus)) => self.is_physical_adc(architecture) && model@ == "stm32_adc"@ && bus@
                == self.name->0@,
            None => !self.is_physical_adc(architecture),
        }
    }
}

impl LegacyMemory {
    pub open spec fn error(&self) -> Option<LegacyError> {
        if self.has_ram_regions {
            None
        } else {
            match self.ram_size {
                None => Some(LegacyError::RamSize),
                Some(size) => if size == 0 {
                    Some(LegacyError::RamEmpty)
                } else {
                    None
                },
            }
        }
    }
}

impl LegacyArtifacts {
    pub open spec fn error(&self) -> Option<LegacyError> {
        let elf = if self.has_elf {
            None
        } else {
            match self.firmware {
                None => Some(LegacyError::Firmware),
                Some(firmware) => if firmware_stem(firmware@) is None {
                    Some(LegacyError::Elf)
                } else {
                    None
                },
            }
        };
        if elf is Some {
            elf
        } else if self.has_bootloader_elf {
            None
        } else {
            match self.bootloader {
                None => Some(LegacyError::Bootloader),
                Some(bootloader) => if without_suffix(bootloader@, ".bin"@) is None {
                    Some(LegacyError::BootloaderElf)
                } else {
                    None
                },
            }
        }
    }
}

impl LegacyLayout {
    pub open spec fn error(&self) -> Option<LegacyError> {
        match self.architecture {
            None => Some(LegacyError::Architecture),
            Some(architecture) => if !self.has_mcu && legacy_mcu(architecture@) is None {
                Some(LegacyError::UnknownArchitecture)
            } else {
                match self.memory {
                    None => Some(LegacyError::Memory),
                    Some(memory) => if memory.error() is Some {
                        memory.error()
                    } else {
                        match self.artifacts {
                            None => Some(LegacyError::Artifacts),
                            Some(artifacts) => artifacts.error(),
                        }
                    },
                }
            },
        }
    }
}

impl LegacyDefaults {
    /// These are exactly the fields that `layout`, free of errors, leaves out.
    pub open spec fn complete(&self, layout: LegacyLayout) -> bool {
        let architecture = layout.architecture->0@;
        let artifacts = layout.artifacts->0;
        &&& opt_text(self.mcu) == if layout.has_mcu {
            None
        } else {
            legacy_mcu(architecture)
        }
        &&& if layout.memory->0.has_ram_regions {
            self.ram_region is None
        } else {
            &&& self.ram_region matches Some(region)
            &&& region.name@ == "sram"@
            &&& region.base == 0x2000_0000
            &&& layout.memory->0.ram_size == Some(region.size)
        }
        &&& opt_text(self.elf) == if artifacts.has_elf {
            None
        } else {
            Some(firmware_stem(artifacts.firmware->0@)->0 + ".elf"@)
        }
        &&& opt_text(self.bootloader_elf) == if artifacts.has_bootloader_elf {
            None
        } else {
            Some(without_suffix(artifacts.bootloader->0@, ".bin"@)->0 + ".elf"@)
        }
        &&& self.adcs@.len() == layout.peripherals@.len()
        &&& forall|i: int|
            0 <= i < layout.peripherals@.len() ==> layout.peripherals@[i].completed_by(
                architecture,
                #[trigger] self.adcs@[i],
            )
    }
}

fn adc_name_is_physical(architecture: &str, name: &str) -> (res: bool)
    ensures
        res == physical_adc_name(architecture@, name@),
{
    if same_text(architecture, "stm32g4") {
        same_text(name, "adc1") || same_text(name, "adc2") || same_text(name, "adc3")
    } else if same_text(architecture, "stm32h5") {
        same_text(name, "adc1")
    } else if same_text(architecture, "stm32u5") {
        same_text(name, "adc1") || same_text(name, "adc4")
    } else {
        false
    }
}

/// The model and the bus that an entry of `peripherals` gets.
pub fn legacy_adc(spec: &LegacyPeripheral, architecture: &str) -> (res: Option<(String, String)>)
    ensures
        match res {
            Some((model, bus)) => spec.is_physical_adc(architecture@) && model@ == "stm32_adc"@ && bus@
                == spec.name->0@,
            None => !spec.is_physical_adc(architecture@),
        },
{
    let adc = match &spec.kind {
        Some(kind) => same_text(kind.as_str(), "adc"),
        None => false,
    };
    if !adc || spec.has_model || spec.has_bus {
        return None;
    }
    match &spec.name {
        Some(name) => if adc_name_is_physical(architecture, name.as_str()) {
            Some(("stm32_adc".to_owned(), name.as_str().to_owned()))
        } else {
            None
        },
        None => None,
    }
}

fn infer_mcu(architecture: &str) -> (res: Option<String>)
    ensures
        opt_text(res) == legacy_mcu(architecture@),
{
    if same_text(architecture, "stm32g4") {
        Some("stm32g491".to_owned())
    } else if same_text(architecture, "stm32h5") {
        Some("stm32h523".to_owned())
    } else if same_text(architecture, "stm32u5") {
        Some("stm32u585".to_owned())
    } else {
        None
    }
}

fn infer_ram(memory: &LegacyMemory) -> (res: Result<Option<MemoryRegion>, LegacyError>)
    ensures
        match memory.error() {
            Some(error) => res == Err::<Option<MemoryRegion>, LegacyError>(error),
            None => res matches Ok(region) && if memory.has_ram_regions {
                region is None
            } else {
                &&& region matches Some(region)
                &&& region.name@ == "sram"@
                &&& region.base == 0x2000_0000
                &&& memory.ram_size == Some(region.size)
            },
        },
{
    if memory.has_ram_regions {
        return Ok(None);
    }
    match memory.ram_size {
        None => Err(LegacyError::RamSize),
        Some(size) => if size == 0 {
            Err(LegacyError::RamEmpty)
        } else {
            Ok(Some(MemoryRegion { name: "sram".to_owned(), base: 0x2000_0000, size }))
        },
    }
}

fn infer_elfs(artifacts: &LegacyArtifacts) -> (res: Result<
    (Option<String>, Option<String>),
    LegacyError,
>)
    ensures
        match artifacts.error() {
            Some(error) => res == Err::<(Option<String>, Option<String>), LegacyError>(error),
            None => {
                &&& res matches Ok(elfs)
                &&& opt_text(elfs.0) == if artifacts.has_elf {
                    None
                } else {
                    Some(firmware_stem(artifacts.firmware->0@)->0 + ".elf"@)
                }
                &&& opt_text(elfs.1) == if artifacts.has_bootloader_elf {
                    None
                } else {
                    Some(without_suffix(artifacts.bootloader->0@, ".bin"@)->0 + ".elf"@)
                }
            },
        },
{
    let elf: Option<String> = if artifacts.has_elf {
        None
    } else {
        match &artifacts.firmware {
            None => {
                return Err(LegacyError::Firmware);
            },
            Some(firmware) => {
                let packaged = strip_suffix(firmware.as_str(), ".launchcore.img");
                let stem = match packaged {
                    Some(stem) => Some(stem),
                    None => strip_suffix(firmware.as_str(), ".img"),
                };
                match stem {
                    None => {
                        return Err(LegacyError::Elf);
                    },
                    Some(stem) => Some(Text { inner: stem }.str(".elf").done()),
                }
            },
        }
    };
    let bootloader_elf: Option<String> = if artifacts.has_bootloader_elf {
        None
    } else {
        match &artifacts.bootloader {
            None => {
                return Err(LegacyError::Bootloader);
            },
            Some(bootloader) => match strip_suffix(bootloader.as_str(), ".bin") {
                None => {
                    return Err(LegacyError::BootloaderElf);
                },
                Some(stem) => Some(Text { inner: stem }.str(".elf").done()),
            },
        }
    };
    Ok((elf, bootloader_elf))
}

/// What has to be added to a layout of the first schema; nothing, where the
/// layout is explicit. `None` stands for a document that is no JSON object.
pub fn normalize_legacy_layout(layout: Option<&LegacyLayout>) -> (res: Result<
    LegacyDefaults,
    LegacyError,
>)
    ensures
        match layout {
            None => res matches Err(error) && error == LegacyError::NotAnObject,
            Some(layout) => match layout.error() {
                Some(error) => res == Err::<LegacyDefaults, LegacyError>(error),
                None => res matches Ok(defaults) && defaults.complete(*layout),
            },
        },
{
    let layout = match layout {
        Some(layout) => layout,
        None => {
            return Err(LegacyError::NotAnObject);
        },
    };
    let architecture = match &layout.architecture {
        Some(architecture) => architecture.as_str(),
        None => {
            return Err(LegacyError::Architecture);
        },
    };
    let mcu: Option<String> = if layout.has_mcu {
        None
    } else {
        match infer_mcu(architecture) {
            Some(mcu) => Some(mcu),
            None => {
                return Err(LegacyError::UnknownArchitecture);
            },
        }
    };
    let ram_region = match &layout.memory {
        None => {
            return Err(LegacyError::Memory);
        },
        Some(memory) => match infer_ram(memory) {
            Ok(region) => region,
            Err(error) => {
                return Err(error);
            },
        },
    };
    let (elf, bootloader_elf) = match &layout.artifacts {
        None => {
            return Err(LegacyError::Artifacts);
        },
        Some(artifacts) => match infer_elfs(artifacts) {
            Ok(elfs) => elfs,
            Err(error) => {
                return Err(error);
            },
        },
    };
    let mut adcs: Vec<Option<(String, String)>> = Vec::new();
    let mut i: usize = 0;
    while i < layout.peripherals.len()
        invariant
            i <= layout.peripherals@.len(),
            adcs@.len() == i,
            forall|k: int|
                0 <= k < i ==> layout.peripherals@[k].completed_by(
                    architecture@,
                    #[trigger] adcs@[k],
                ),
        decreases layout.peripherals@.len() - i,
    {
        adcs.push(legacy_adc(&layout.peripherals[i], architecture));
        i = i + 1;
    }
    Ok(LegacyDefaults { mcu, ram_region, elf, bootloader_elf, adcs })
}

impl LegacyError {
    /// `architecture` is the layout's, where it has one.
    pub open spec fn text(self, architecture: Seq<char>) -> Seq<char> {
        match self {
            LegacyError::NotAnObject => "board layout must be a JSON object"@,
            LegacyError::Architecture => "missing string field `architecture`"@,
            LegacyError::UnknownArchitecture => "cannot infer an MCU for legacy architecture "@
                + architecture,
            LegacyError::Memory => "missing object field `memory`"@,
            LegacyError::RamSize => "missing `ram_regions` (legacy layouts may provide `ram_size`)"@,
            LegacyError::RamEmpty => "legacy ram_size must be positive"@,
            LegacyError::Artifacts => "missing object field `artifacts`"@,
            LegacyError::Firmware => "missing string field `artifacts.firmware`"@,
            LegacyError::Elf => "cannot infer artifacts.elf from legacy firmware path"@,
            LegacyError::Bootloader => "missing string field `artifacts.bootloader`"@,
            LegacyError::BootloaderElf =>
                "cannot infer artifacts.bootloader_elf from legacy bootloader path"@,
        }
    }

    pub fn message(self, architecture: &str) -> (res: String)
        ensures
            res@ == self.text(architecture@),
    {
        match self {
            LegacyError::NotAnObject => Text::new("board layout must be a JSON object").done(),
            LegacyError::Architecture => Text::new("missing string field `architecture`").done(),
            LegacyError::UnknownArchitecture => Text::new(
                "cannot infer an MCU for legacy architecture ",
            ).str(architecture).done(),
            LegacyError::Memory => Text::new("missing object field `memory`").done(),
            LegacyError::RamSize => Text::new(
                "missing `ram_regions` (legacy layouts may provide `ram_size`)",
            ).done(),
            LegacyError::RamEmpty => Text::new("legacy ram_size must be positive").done(),
            LegacyError::Artifacts => Text::new("missing object field `artifacts`").done(),
            LegacyError::Firmware => Text::new("missing string field `artifacts.firmware`").done(),
            LegacyError::Elf => Text::new(
                "cannot infer artifacts.elf from legacy firmware path",
            ).done(),
            LegacyError::Bootloader => Text::new(
                "missing string field `artifacts.bootloader`",
            ).done(),
            LegacyError::BootloaderElf => Text::new(
                "cannot infer artifacts.bootloader_elf from legacy bootloader path",
            ).done(),
        }
    }
}

/// `after` is `before` with the missing fields filled in.
pub open spec fn filled_in(before: LegacyLayout, after: LegacyLayout) -> bool {
    &&& after.architecture == before.architecture
    &&& after.has_mcu
    &&& after.memory is Some && after.memory->0.has_ram_regions
    &&& after.artifacts is Some && after.artifacts->0.has_elf
        && after.artifacts->0.has_bootloader_elf
    &&& after.peripherals@.len() == before.peripherals@.len()
    &&& forall|i: int|
        0 <= i < before.peripherals@.len() ==> {
            let was = before.peripherals@[i];
            let now = #[trigger] after.peripherals@[i];
            let added = was.is_physical_adc(before.architecture->0@);
            &&& now.kind == was.kind
            &&& now.name == was.name
            &&& now.has_model == (was.has_model || added)
            &&& now.has_bus == (was.has_bus || added)
        }
}

/// Completing a layout is done once: a completed layout is accepted and
/// nothing is added to it.
pub proof fn law_completing_is_idempotent(
    before: LegacyLayout,
    after: LegacyLayout,
    defaults: LegacyDefaults,
)
    requires
        before.error() is None,
        filled_in(before, after),
        defaults.complete(after),
    ensures
        after.error() is None,
        defaults.mcu is None,
        defaults.ram_region is None,
        defaults.elf is None,
        defaults.bootloader_elf is None,
        forall|i: int| 0 <= i < defaults.adcs@.len() ==> (#[trigger] defaults.adcs@[i]) is None,
{
    assert forall|i: int| 0 <= i < defaults.adcs@.len() implies (
    #[trigger] defaults.adcs@[i]) is None by {
        let now = after.peripherals@[i];
        assert(!now.is_physical_adc(after.architecture->0@));
    }
}

/// An explicit layout of the current schema is left as it is, whatever its
/// architecture.
pub proof fn law_explicit_layouts_are_untouched(layout: LegacyLayout, defaults: LegacyDefaults)
    requires
        layout.architecture is Some,
        layout.has_mcu,
        layout.memory is Some && layout.memory->0.has_ram_regions,
        layout.artifacts is Some && layout.artifacts->0.has_elf
            && layout.artifacts->0.has_bootloader_elf,
        defaults.complete(layout),
    ensures
        layout.error() is None,
        defaults.mcu is None,
        defaults.ram_region is None,
        defaults.elf is None,
        defaults.bootloader_elf is None,
        forall|i: int|
            0 <= i < layout.peripherals@.len() && (layout.peripherals@[i].has_model
                || layout.peripherals@[i].has_bus) ==> (#[trigger] defaults.adcs@[i]) is None,
{
}

/// A board's part is the inline descriptor, which must bear the name of the
/// board's MCU, else the first of that name in the catalog; only a descriptor
/// that is sound in itself is one.
pub proof fn law_the_part_bears_the_boards_name(layout: BoardLayout, catalog: Seq<McuDescriptor>)
    ensures
        match layout.descriptor_in(catalog) {
            Ok(part) => {
                &&& part.name@ == layout.mcu@
                &&& part.definition_error() is None
                &&& layout.mcu_descriptor is Some ==> part == layout.mcu_descriptor->0
                &&& layout.mcu_descriptor is None ==> catalog.contains(part)
            },
            Err(ResolveError::NameMismatch) => layout.mcu_descriptor is Some
                && (layout.mcu_descriptor->0).name@ != layout.mcu@,
            Err(ResolveError::NotBuiltIn) => layout.mcu_descriptor is None && forall|i: int|
                0 <= i < catalog.len() ==> (#[trigger] catalog[i]).name@ != layout.mcu@,
            Err(ResolveError::Definition(error)) => exists|part: McuDescriptor|
                part.name@ == layout.mcu@ && #[trigger] part.definition_error() == Some(error),
        },
        layout.mcu_descriptor is Some && (layout.mcu_descriptor->0).name@ == layout.mcu@ && (
        layout.mcu_descriptor->0).definition_error() is None ==> layout.descriptor_in(catalog)
            == Ok::<McuDescriptor, ResolveError>(layout.mcu_descriptor->0),
{
    law_parts_are_found_by_name(catalog, layout.mcu@);
    match descriptor_index(catalog, layout.mcu@, 0) {
        Some(i) => {
            assert(catalog[i].name@ == layout.mcu@);
            assert(catalog.contains(catalog[i]));
        },
        None => {},
    }
}

/// A probe guards a stack where `stack` is a part of its name and it has a
/// positive minimum.
pub proof fn law_stacks_are_guarded_from_below(probe: MemoryProbe)
    ensures
        probe.guards_stack() <==> (exists|at: int|
            0 <= at && at + 5 <= probe.name@.len() && #[trigger] probe.name@.subrange(at, at + 5)
                == "stack"@) && probe.minimum is Some && probe.minimum->0 > 0,
{
    reveal_strlit("stack");
    if contains(probe.name@, "stack"@) {
        let at = choose|at: int| occurs_at(probe.name@, "stack"@, at);
        assert(probe.name@.subrange(at, at + 5) == "stack"@);
    }
    if exists|at: int|
        0 <= at && at + 5 <= probe.name@.len() && #[trigger] probe.name@.subrange(at, at + 5)
            == "stack"@ {
        let at = choose|at: int|
            0 <= at && at + 5 <= probe.name@.len() && #[trigger] probe.name@.subrange(at, at + 5)
                == "stack"@;
        assert(occurs_at(probe.name@, "stack"@, at));
    }
}

/// Each of three architectures stood for one part, and for the ADCs of it.
pub proof fn law_what_an_architecture_stood_for(architecture: Seq<char>, name: Seq<char>)
    ensures
        architecture == "stm32g4"@ ==> legacy_mcu(architecture) == Some("stm32g491"@),
        architecture == "stm32h5"@ ==> legacy_mcu(architecture) == Some("stm32h523"@),
        architecture == "stm32u5"@ ==> legacy_mcu(architecture) == Some("stm32u585"@),
        architecture != "stm32g4"@ && architecture != "stm32h5"@ && architecture != "stm32u5"@
            ==> legacy_mcu(architecture) is None,
        physical_adc_name(architecture, name) <==> {
            ||| name == "adc1"@ && legacy_mcu(architecture) is Some
            ||| architecture == "stm32g4"@ && (name == "adc2"@ || name == "adc3"@)
            ||| architecture == "stm32u5"@ && name == "adc4"@
        },
{
    reveal_strlit("stm32g4");
    reveal_strlit("stm32h5");
    reveal_strlit("stm32u5");
    assert("stm32g4"@[5] != "stm32h5"@[5] && "stm32g4"@[5] != "stm32u5"@[5] && "stm32h5"@[5]
        != "stm32u5"@[5]);
}

proof fn lemma_suffix(stem: Seq<char>, suffix: Seq<char>)
    ensures
        without_suffix(stem + suffix, suffix) == Some(stem),
{
    let path = stem + suffix;
    assert(path.subrange(path.len() - suffix.len(), path.len() as int) =~= suffix);
    assert(path.take(path.len() - suffix.len()) =~= stem);
}

proof fn lemma_no_suffix(path: Seq<char>, suffix: Seq<char>)
    ensures
        match without_suffix(path, suffix) {
            Some(stem) => path == stem + suffix,
            None => forall|stem: Seq<char>| path != #[trigger] (stem + suffix),
        },
{
    match without_suffix(path, suffix) {
        Some(stem) => {
            assert(path =~= stem + suffix);
        },
        None => {
            assert forall|stem: Seq<char>| path != #[trigger] (stem + suffix) by {
                lemma_suffix(stem, suffix);
            }
        },
    }
}

/// A packaged image is named `.launchcore.img` or `.img` behind its stem, and
/// the longer ending counts where both fit.
pub proof fn law_stems_of_packaged_images(stem: Seq<char>, path: Seq<char>)
    ensures
        firmware_stem(stem + ".launchcore.img"@) == Some(stem),
        (forall|shorter: Seq<char>| stem != #[trigger] (shorter + ".launchcore"@)) ==> firmware_stem(
            stem + ".img"@,
        ) == Some(stem),
        match firmware_stem(path) {
            Some(found) => path == found + ".launchcore.img"@ || path == found + ".img"@,
            None => forall|s: Seq<char>| path != #[trigger] (s + ".img"@),
        },
{
    let long = ".launchcore.img"@;
    lemma_suffix(stem, long);
    lemma_suffix(stem, ".img"@);
    assert(long == ".launchcore"@ + ".img"@) by {
        reveal_strlit(".launchcore.img");
        reveal_strlit(".launchcore");
        reveal_strlit(".img");
        assert(long =~= ".launchcore"@ + ".img"@);
    }
    if forall|shorter: Seq<char>| stem != #[trigger] (shorter + ".launchcore"@) {
        lemma_no_suffix(stem + ".img"@, long);
        match without_suffix(stem + ".img"@, long) {
            Some(shorter) => {
                assert(shorter + long =~= (shorter + ".launchcore"@) + ".img"@);
                lemma_suffix(shorter + ".launchcore"@, ".img"@);
                assert(stem == shorter + ".launchcore"@);
            },
            None => {},
        }
    }
    lemma_no_suffix(path, long);
    lemma_no_suffix(path, ".img"@);
}

/// A layout of the first schema can be completed exactly where it names an
/// architecture, one of the three if it names no part, describes its RAM by
/// regions or by a positive size, and names its ELF files or images from whose
/// paths they follow.
pub proof fn law_which_layouts_can_be_completed(layout: LegacyLayout)
    ensures
        layout.error() is None <==> {
            &&& layout.architecture is Some
            &&& layout.has_mcu || legacy_mcu((layout.architecture->0)@) is Some
            &&& layout.memory is Some
            &&& (layout.memory->0).has_ram_regions || ((layout.memory->0).ram_size is Some && (
            layout.memory->0).ram_size->0 > 0)
            &&& layout.artifacts is Some
            &&& (layout.artifacts->0).has_elf || ((layout.artifacts->0).firmware is Some && exists|
                stem: Seq<char>,
            |
                ((layout.artifacts->0).firmware->0)@ == #[trigger] (stem + ".img"@))
            &&& (layout.artifacts->0).has_bootloader_elf || ((
            layout.artifacts->0).bootloader is Some && exists|stem: Seq<char>|
                ((layout.artifacts->0).bootloader->0)@ == #[trigger] (stem + ".bin"@))
        },
{
    if layout.artifacts is Some {
        let artifacts = layout.artifacts->0;
        if artifacts.firmware is Some {
            let path = (artifacts.firmware->0)@;
            law_stems_of_packaged_images(path, path);
            match firmware_stem(path) {
                Some(found) => {
                    if path == found + ".launchcore.img"@ {
                        assert(".launchcore.img"@ == ".launchcore"@ + ".img"@) by {
                            reveal_strlit(".launchcore.img");
                            reveal_strlit(".launchcore");
                            reveal_strlit(".img");
                            assert(".launchcore.img"@ =~= ".launchcore"@ + ".img"@);
                        }
                        let stem = found + ".launchcore"@;
                        assert(path =~= stem + ".img"@);
                    }
                },
                None => {},
            }
        }
        if artifacts.bootloader is Some {
            lemma_no_suffix((artifacts.bootloader->0)@, ".bin"@);
        }
    }
}

/// What is filled in follows from what is there: the part from the
/// architecture, one bank from the size of the RAM, each ELF file from the
/// path of its image, and the place of a physical ADC from its name.
pub proof fn law_what_is_filled_in(layout: LegacyLayout, defaults: LegacyDefaults, i: int)
    requires
        layout.error() is None,
        defaults.complete(layout),
        0 <= i < layout.peripherals@.len(),
    ensures
        defaults.mcu is None <==> layout.has_mcu,
        defaults.mcu is Some ==> legacy_mcu((layout.architecture->0)@) == Some((defaults.mcu->0)@),
        defaults.ram_region is None <==> (layout.memory->0).has_ram_regions,
        defaults.ram_region is Some ==> {
            let region = defaults.ram_region->0;
            region.name@ == "sram"@ && region.base == 0x2000_0000 && Some(region.size) == (
            layout.memory->0).ram_size
        },
        defaults.elf is None <==> (layout.artifacts->0).has_elf,
        defaults.elf is Some ==> exists|stem: Seq<char>|
            (defaults.elf->0)@ == #[trigger] (stem + ".elf"@) && firmware_stem(
                ((layout.artifacts->0).firmware->0)@,
            ) == Some(stem),
        defaults.bootloader_elf is None <==> (layout.artifacts->0).has_bootloader_elf,
        defaults.bootloader_elf is Some ==> exists|stem: Seq<char>|
            (defaults.bootloader_elf->0)@ == #[trigger] (stem + ".elf"@) && ((
            layout.artifacts->0).bootloader->0)@ == stem + ".bin"@,
        ({
            let entry = layout.peripherals@[i];
            let adc = entry.kind is Some && (entry.kind->0)@ == "adc"@ && !entry.has_model
                && !entry.has_bus && entry.name is Some && physical_adc_name(
                (layout.architecture->0)@,
                (entry.name->0)@,
            );
            &&& defaults.adcs@[i] is Some <==> adc
            &&& adc ==> (defaults.adcs@[i]->0).0@ == "stm32_adc"@ && (defaults.adcs@[i]->0).1@ == (
            entry.name->0)@
        }),
{
    assert(layout.peripherals@[i].completed_by((layout.architecture->0)@, defaults.adcs@[i]));
    let artifacts = layout.artifacts->0;
    if !artifacts.has_elf {
        let stem = firmware_stem((artifacts.firmware->0)@)->0;
        assert((defaults.elf->0)@ == stem + ".elf"@);
    }
    if !artifacts.has_bootloader_elf {
        lemma_no_suffix((artifacts.bootloader->0)@, ".bin"@);
        let stem = without_suffix((artifacts.bootloader->0)@, ".bin"@)->0;
        assert((defaults.bootloader_elf->0)@ == stem + ".elf"@);
    }
}

/// The part that an architecture stood for bears its name.
pub proof fn law_parts_bear_their_architecture(architecture: Seq<char>)
    ensures
        legacy_mcu(architecture) matches Some(mcu) ==> mcu.len() == architecture.len() + 2
            && mcu.take(architecture.len() as int) == architecture,
{
    reveal_strlit("stm32g4");
    reveal_strlit("stm32g491");
    reveal_strlit("stm32h5");
    reveal_strlit("stm32h523");
    reveal_strlit("stm32u5");
    reveal_strlit("stm32u585");
    assert("stm32g491"@.take(7) =~= "stm32g4"@);
    assert("stm32h523"@.take(7) =~= "stm32h5"@);
    assert("stm32u585"@.take(7) =~= "stm32u5"@);
}

/// What a layout of the first schema is refused for is missing from it.
pub proof fn law_layouts_are_refused_for_what_is_missing(layout: LegacyLayout)
    ensures
        ({
            let artifacts = layout.artifacts->0;
            match layout.error() {
                None => true,
                Some(LegacyError::Architecture) => layout.architecture is None,
                Some(LegacyError::UnknownArchitecture) => !layout.has_mcu && legacy_mcu(
                    (layout.architecture->0)@,
                ) is None,
                Some(LegacyError::Memory) => layout.memory is None,
                Some(LegacyError::RamSize) => !(layout.memory->0).has_ram_regions && (
                layout.memory->0).ram_size is None,
                Some(LegacyError::RamEmpty) => !(layout.memory->0).has_ram_regions && (
                layout.memory->0).ram_size == Some(0u64),
                Some(LegacyError::Artifacts) => layout.artifacts is None,
                Some(LegacyError::Firmware) => !artifacts.has_elf && artifacts.firmware is None,
                Some(LegacyError::Elf) => !artifacts.has_elf && artifacts.firmware is Some
                    && firmware_stem((artifacts.firmware->0)@) is None,
                Some(LegacyError::Bootloader) => !artifacts.has_bootloader_elf
                    && artifacts.bootloader is None,
                Some(LegacyError::BootloaderElf) => !artifacts.has_bootloader_elf
                    && artifacts.bootloader is Some && forall|stem: Seq<char>|
                    (artifacts.bootloader->0)@ != #[trigger] (stem + ".bin"@),
                Some(LegacyError::NotAnObject) => false,
            }
        }),
{
    if layout.artifacts is Some && (layout.artifacts->0).bootloader is Some {
        lemma_no_suffix(((layout.artifacts->0).bootloader->0)@, ".bin"@);
    }
}

} // verus!
