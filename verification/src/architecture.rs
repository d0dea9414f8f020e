//! Architectures, exact silicon descriptors, and what a memory layout must
//! meet to be placed on them.

use vstd::arithmetic::power2::is_pow2;
use vstd::prelude::*;

use crate::arith::{aligned, is_aligned, is_power_of_two};
use crate::layout::{MemoryLayout, MemoryRegion};
use crate::text::{
    begins_with, char_index, chars_of, dec, hex8, is_made_of, lemma_char_index, lower, lower_chars,
    made_of, same_text, split, starts_with, text_of, Text,
};

verus! {

/// The name of a silicon line, in lower case.
#[derive(Debug, PartialEq, Eq)]
pub struct McuKind {
    name: String,
}

impl View for McuKind {
    type V = Seq<char>;

    closed spec fn view(&self) -> Seq<char> {
        self.name@
    }
}

impl Clone for McuKind {
    fn clone(&self) -> (res: Self)
        ensures
            res@ == self@,
    {
        McuKind { name: self.name.clone() }
    }
}

#[derive(Debug)]
pub struct McuDescriptor {
    pub name: String,
    pub architecture: ArchitectureKind,
    pub core_model: String,
    pub platform_file: String,
    pub platform_from_firmware: bool,
    pub flash_profile: String,
    pub flash_base: u64,
    pub flash_size: u64,
    pub ram_base: u64,
    pub ram_size: u64,
    pub erase_size: u64,
    pub write_alignment: u64,
    pub trustzone_capable: bool,
    pub uart_ota: Vec<String>,
    pub can_ota: Vec<String>,
    pub usb_ota: Vec<String>,
    pub sdmmc_ota: Vec<String>,
    pub board_validated: bool,
}

#[derive(Clone, Copy, Debug, PartialEq, Eq, Structural)]
pub enum ArchitectureKind {
    /// Runtime-supplied exact STM32 platform (any supported Cortex-M model).
    Stm32,
    Stm32g4,
    Stm32h5,
    Stm32u5,
}

impl ArchitectureKind {
    pub open spec fn spec_name(self) -> Seq<char> {
        match self {
            ArchitectureKind::Stm32 => "stm32"@,
            ArchitectureKind::Stm32g4 => "stm32g4"@,
            ArchitectureKind::Stm32h5 => "stm32h5"@,
            ArchitectureKind::Stm32u5 => "stm32u5"@,
        }
    }

    pub fn name(self) -> (res: &'static str)
        ensures
            res@ == self.spec_name(),
    {
        match self {
            ArchitectureKind::Stm32 => "stm32",
            ArchitectureKind::Stm32g4 => "stm32g4",
            ArchitectureKind::Stm32h5 => "stm32h5",
            ArchitectureKind::Stm32u5 => "stm32u5",
        }
    }
}

#[derive(Clone, Copy, Debug)]
pub struct Architecture {
    pub kind: ArchitectureKind,
    pub vector_alignment: u64,
    pub default_flash_size: u64,
    pub default_ram_size: u64,
}

// ---------------------------------------------------------------------------
// Silicon lines
// ---------------------------------------------------------------------------

/// The position, from `from` on, of the first descriptor with this name.
pub open spec fn descriptor_index(
    catalog: Seq<McuDescriptor>,
    name: Seq<char>,
    from: int,
) -> Option<int>
    decreases catalog.len() - from,
{
    if from < 0 || from >= catalog.len() {
        None
    } else if catalog[from].name@ == name {
        Some(from)
    } else {
        descriptor_index(catalog, name, from + 1)
    }
}

impl McuKind {
    pub fn new(name: &str) -> (res: Self)
        ensures
            res@ == lower(name@),
    {
        let chars = chars_of(name);
        let lowered = lower_chars(chars.as_slice());
        McuKind { name: text_of(lowered.as_slice()) }
    }

    /// The name as a layout file writes it, letters in their own case.
    pub fn named(name: String) -> (res: Self)
        ensures
            res@ == name@,
    {
        McuKind { name }
    }

    pub fn descriptor<'a>(&self, catalog: &'a [McuDescriptor]) -> (res: Option<&'a McuDescriptor>)
        ensures
            match descriptor_index(catalog@, self@, 0) {
                Some(i) => res == Some(&catalog@[i]),
                None => res is None,
            },
    {
        let mut i: usize = 0;
        while i < catalog.len()
            invariant
                i <= catalog.len(),
                descriptor_index(catalog@, self@, 0) == descriptor_index(catalog@, self@, i as int),
            decreases catalog.len() - i,
        {
            if same_text(catalog[i].name.as_str(), self.name.as_str()) {
                return Some(&catalog[i]);
            }
            i = i + 1;
        }
        None
    }

    pub fn as_str(&self) -> (res: &str)
        ensures
            res@ == self@,
    {
        self.name.as_str()
    }
}

#[derive(Clone, Copy, Debug, PartialEq, Eq, Structural)]
pub enum DescriptorError {
    EmptyName,
    CoreModel,
    PlatformFile,
    FlashProfile,
    Geometry,
}

impl DescriptorError {
    pub open spec fn text(self, mcu: McuDescriptor) -> Seq<char> {
        match self {
            DescriptorError::EmptyName => "MCU descriptor name cannot be empty"@,
            DescriptorError::CoreModel => "MCU "@ + mcu.name@
                + " has an invalid Cortex-M core model"@,
            DescriptorError::PlatformFile => "MCU "@ + mcu.name@
                + " platform_file must be a nonempty relative path"@,
            DescriptorError::FlashProfile => "MCU "@ + mcu.name@ + " uses unsupported flash_profile "@
                + mcu.flash_profile@,
            DescriptorError::Geometry => "MCU "@ + mcu.name@
                + " has invalid memory or flash geometry"@,
        }
    }

    pub fn message(self, mcu: &McuDescriptor) -> (res: String)
        ensures
            res@ == self.text(*mcu),
    {
        let name = mcu.name.as_str();
        match self {
            DescriptorError::EmptyName => Text::new("MCU descriptor name cannot be empty").done(),
            DescriptorError::CoreModel => Text::new("MCU ").str(name).str(
                " has an invalid Cortex-M core model",
            ).done(),
            DescriptorError::PlatformFile => Text::new("MCU ").str(name).str(
                " platform_file must be a nonempty relative path",
            ).done(),
            DescriptorError::FlashProfile => Text::new("MCU ").str(name).str(
                " uses unsupported flash_profile ",
            ).str(mcu.flash_profile.as_str()).done(),
            DescriptorError::Geometry => Text::new("MCU ").str(name).str(
                " has invalid memory or flash geometry",
            ).done(),
        }
    }
}

/// Some `/`-separated part of `path` is `..`.
pub open spec fn has_parent_part(path: Seq<char>) -> bool {
    exists|i: int| #[trigger] parent_part_at(path, i)
}

pub open spec fn parent_part_at(path: Seq<char>, i: int) -> bool {
    &&& 0 <= i
    &&& i + 2 <= path.len()
    &&& path[i] == '.'
    &&& path[i + 1] == '.'
    &&& (i == 0 || path[i - 1] == '/')
    &&& (i + 2 == path.len() || path[i + 2] == '/')
}

/// A nonempty path that stays below the directory it is joined to.
pub open spec fn relative_path(path: Seq<char>) -> bool {
    path.len() > 0 && path[0] != '/' && !has_parent_part(path)
}

fn is_relative_path(path: &str) -> (res: bool)
    ensures
        res == relative_path(path@),
{
    let chars = chars_of(path);
    if chars.len() == 0 || chars[0] == '/' {
        return false;
    }
    let mut i: usize = 0;
    while chars.len() - i >= 2
        invariant
            chars@ == path@,
            i <= chars.len(),
            forall|k: int| 0 <= k < i ==> !#[trigger] parent_part_at(path@, k),
        decreases chars.len() - i,
    {
        if chars[i] == '.' && chars[i + 1] == '.' && (i == 0 || chars[i - 1] == '/') && (i + 2
            == chars.len() || chars[i + 2] == '/') {
            assert(parent_part_at(path@, i as int));
            return false;
        }
        i = i + 1;
    }
    true
}

pub open spec fn known_flash_profile(profile: Seq<char>) -> bool {
    profile == "stm32g4"@ || profile == "stm32h5"@ || profile == "stm32u5"@
}

impl McuDescriptor {
    /// What is wrong with this descriptor, taken by itself.
    pub open spec fn definition_error(&self) -> Option<DescriptorError> {
        if self.name@.len() == 0 {
            Some(DescriptorError::EmptyName)
        } else if !starts_with(self.core_model@, "cortex-m"@) {
            Some(DescriptorError::CoreModel)
        } else if !relative_path(self.platform_file@) {
            Some(DescriptorError::PlatformFile)
        } else if !known_flash_profile(self.flash_profile@) {
            Some(DescriptorError::FlashProfile)
        } else if !(self.flash_size > 0 && self.ram_size > 0 && is_pow2(self.erase_size as int)
            && is_pow2(self.write_alignment as int)) {
            Some(DescriptorError::Geometry)
        } else {
            None
        }
    }

    pub fn validate_definition(&self) -> (res: Result<(), DescriptorError>)
        ensures
            match self.definition_error() {
                Some(error) => res == Err::<(), DescriptorError>(error),
                None => res is Ok,
            },
    {
        if self.name.as_str().is_empty() {
            return Err(DescriptorError::EmptyName);
        }
        let core_model = chars_of(self.core_model.as_str());
        if !begins_with(core_model.as_slice(), "cortex-m") {
            return Err(DescriptorError::CoreModel);
        }
        if !is_relative_path(self.platform_file.as_str()) {
            return Err(DescriptorError::PlatformFile);
        }
        let profile = self.flash_profile.as_str();
        if !(same_text(profile, "stm32g4") || same_text(profile, "stm32h5") || same_text(
            profile,
            "stm32u5",
        )) {
            return Err(DescriptorError::FlashProfile);
        }
        if !(self.flash_size > 0 && self.ram_size > 0 && is_power_of_two(self.erase_size)
            && is_power_of_two(self.write_alignment)) {
            return Err(DescriptorError::Geometry);
        }
        Ok(())
    }
}

// ---------------------------------------------------------------------------
// Memory layouts
// ---------------------------------------------------------------------------

#[derive(Clone, Copy, Debug, PartialEq, Eq, Structural)]
pub enum MemoryError {
    FlashPartitions,
    EraseSize,
    WriteAlignment,
    SlotUnaligned,
    SlotOverlapsBootloader,
    FlashOverflow,
    SlotOverflow,
    SlotExceedsFlash,
    DeltaArea,
    SlotB,
    PersistentPair,
    PersistentOverflow,
    PersistentArea,
    PersistentOverlap,
    PoolEmpty,
    NoRam,
    /// Each of these four names a position in `ram_regions`.
    RamName(usize),
    RamEmpty(usize),
    RamOverflow(usize),
    RamOverlap(usize),
    TotalRamOverflow,
    PoolExceedsRam,
}

impl MemoryError {
    pub open spec fn text(self, memory: MemoryLayout) -> Seq<char> {
        match self {
            MemoryError::FlashPartitions => "flash partitions must be positive"@,
            MemoryError::EraseSize => "erase_size must be a power of two"@,
            MemoryError::WriteAlignment => "write_alignment must be a power of two"@,
            MemoryError::SlotUnaligned => "slot A is not vector aligned"@,
            MemoryError::SlotOverlapsBootloader => "slot A overlaps bootloader"@,
            MemoryError::FlashOverflow => "flash range overflow"@,
            MemoryError::SlotOverflow => "slot range overflow"@,
            MemoryError::SlotExceedsFlash => "slot A exceeds flash"@,
            MemoryError::DeltaArea => "invalid delta area"@,
            MemoryError::SlotB => "invalid slot B"@,
            MemoryError::PersistentPair => "persistent_data_base and persistent_data_size must be provided together"@,
            MemoryError::PersistentOverflow => "persistent-data range overflow"@,
            MemoryError::PersistentArea => "invalid persistent-data area"@,
            MemoryError::PersistentOverlap => "persistent-data area overlaps a firmware/update partition"@,
            MemoryError::PoolEmpty => "sedsnet_pool must be positive"@,
            MemoryError::NoRam => "ram_regions must describe the physical MCU RAM banks"@,
            MemoryError::TotalRamOverflow => "total RAM size overflows"@,
            MemoryError::PoolExceedsRam => "sedsnet_pool exceeds total physical RAM"@,
            MemoryError::RamName(i) => "invalid RAM region name "@ + memory.ram_regions@[i as int].name@,
            MemoryError::RamEmpty(i) => "RAM region "@ + memory.ram_regions@[i as int].name@ + " must be positive"@,
            MemoryError::RamOverflow(i) => "RAM region "@ + memory.ram_regions@[i as int].name@ + " overflows"@,
            MemoryError::RamOverlap(i) => "RAM region "@ + memory.ram_regions@[i as int].name@ + " overlaps another physical region"@,
        }
    }

    /// The region this speaks of, where it speaks of one, is there.
    pub open spec fn of(self, memory: MemoryLayout) -> bool {
        match self {
            MemoryError::RamName(i) | MemoryError::RamEmpty(i) | MemoryError::RamOverflow(i)
            | MemoryError::RamOverlap(i) => i < memory.ram_regions@.len(),
            _ => true,
        }
    }

    pub fn message(self, memory: &MemoryLayout) -> (res: String)
        requires
            self.of(*memory),
        ensures
            res@ == self.text(*memory),
    {
        match self {
            MemoryError::FlashPartitions => Text::new("flash partitions must be positive").done(),
            MemoryError::EraseSize => Text::new("erase_size must be a power of two").done(),
            MemoryError::WriteAlignment => Text::new("write_alignment must be a power of two").done(),
            MemoryError::SlotUnaligned => Text::new("slot A is not vector aligned").done(),
            MemoryError::SlotOverlapsBootloader => Text::new("slot A overlaps bootloader").done(),
            MemoryError::FlashOverflow => Text::new("flash range overflow").done(),
            MemoryError::SlotOverflow => Text::new("slot range overflow").done(),
            MemoryError::SlotExceedsFlash => Text::new("slot A exceeds flash").done(),
            MemoryError::DeltaArea => Text::new("invalid delta area").done(),
            MemoryError::SlotB => Text::new("invalid slot B").done(),
            MemoryError::PersistentPair => Text::new("persistent_data_base and persistent_data_size must be provided together").done(),
            MemoryError::PersistentOverflow => Text::new("persistent-data range overflow").done(),
            MemoryError::PersistentArea => Text::new("invalid persistent-data area").done(),
            MemoryError::PersistentOverlap => Text::new("persistent-data area overlaps a firmware/update partition").done(),
            MemoryError::PoolEmpty => Text::new("sedsnet_pool must be positive").done(),
            MemoryError::NoRam => Text::new("ram_regions must describe the physical MCU RAM banks").done(),
            MemoryError::TotalRamOverflow => Text::new("total RAM size overflows").done(),
            MemoryError::PoolExceedsRam => Text::new("sedsnet_pool exceeds total physical RAM").done(),
            MemoryError::RamName(i) => Text::new("invalid RAM region name ").str(memory.ram_regions[i].name.as_str()).done(),
            MemoryError::RamEmpty(i) => Text::new("RAM region ").str(memory.ram_regions[i].name.as_str()).str(" must be positive").done(),
            MemoryError::RamOverflow(i) => Text::new("RAM region ").str(memory.ram_regions[i].name.as_str()).str(" overflows").done(),
            MemoryError::RamOverlap(i) => Text::new("RAM region ").str(memory.ram_regions[i].name.as_str()).str(" overlaps another physical region").done(),
        }
    }
}

/// `[a, a_end)` and `[b, b_end)` have an address in common.
pub open spec fn ranges_overlap(a: int, a_end: int, b: int, b_end: int) -> bool {
    a < b_end && b < a_end
}

/// The combined size of the regions before `end`.
pub open spec fn total_size(regions: Seq<MemoryRegion>, end: int) -> int
    decreases end,
{
    if end <= 0 {
        0
    } else {
        total_size(regions, end - 1) + regions[end - 1].size
    }
}

pub open spec fn overlaps_earlier(regions: Seq<MemoryRegion>, i: int) -> bool {
    exists|j: int| 0 <= j < i && #[trigger] regions_overlap(regions, j, i)
}

pub open spec fn regions_overlap(regions: Seq<MemoryRegion>, j: int, i: int) -> bool {
    ranges_overlap(
        regions[i].base as int,
        regions[i].base + regions[i].size,
        regions[j].base as int,
        regions[j].base + regions[j].size,
    )
}

pub open spec fn ram_region_error(regions: Seq<MemoryRegion>, i: int) -> Option<MemoryError> {
    let region = regions[i];
    if region.name@.len() == 0 || !made_of(region.name@, "_"@) {
        Some(MemoryError::RamName(i as usize))
    } else if region.size == 0 {
        Some(MemoryError::RamEmpty(i as usize))
    } else if region.base + region.size > u64::MAX {
        Some(MemoryError::RamOverflow(i as usize))
    } else if overlaps_earlier(regions, i) {
        Some(MemoryError::RamOverlap(i as usize))
    } else if total_size(regions, i + 1) > u64::MAX {
        Some(MemoryError::TotalRamOverflow)
    } else {
        None
    }
}

/// The first thing wrong with the regions from `i` on.
pub open spec fn ram_error(regions: Seq<MemoryRegion>, i: int) -> Option<MemoryError>
    decreases regions.len() - i,
{
    if i < 0 || i >= regions.len() {
        None
    } else {
        match ram_region_error(regions, i) {
            Some(error) => Some(error),
            None => ram_error(regions, i + 1),
        }
    }
}

impl MemoryLayout {
    pub open spec fn flash_end(&self) -> int {
        self.flash_base + self.flash_size
    }

    pub open spec fn bootloader_end(&self) -> int {
        self.flash_base + self.bootloader_size
    }

    pub open spec fn slot_a_end(&self) -> int {
        self.slot_a_base + self.slot_a_size
    }

    /// A declared area that is empty, starts before the end of slot A or
    /// leaves flash.
    pub open spec fn misplaced(&self, base: Option<u64>, size: Option<u64>) -> bool {
        match (base, size) {
            (Some(base), Some(size)) => !(size > 0 && base >= self.slot_a_end() && base + size
                <= self.flash_end()),
            _ => false,
        }
    }

    /// `[base, end)` meets a declared area.
    pub open spec fn meets(&self, base: int, end: int, other: Option<u64>, size: Option<u64>) -> bool {
        match (other, size) {
            (Some(other), Some(size)) => ranges_overlap(base, end, other as int, other + size),
            _ => false,
        }
    }

    pub open spec fn persistent_error(&self) -> Option<MemoryError> {
        match (self.persistent_data_base, self.persistent_data_size) {
            (Some(base), Some(size)) => if base + size > u64::MAX {
                Some(MemoryError::PersistentOverflow)
            } else if !(size >= 2 * self.erase_size && base as int % self.erase_size as int == 0
                && size as int % self.erase_size as int == 0 && base >= self.slot_a_end() && base
                + size <= self.flash_end()) {
                Some(MemoryError::PersistentArea)
            } else if ranges_overlap(
                base as int,
                base + size,
                self.flash_base as int,
                self.bootloader_end(),
            ) || ranges_overlap(
                base as int,
                base + size,
                self.slot_a_base as int,
                self.slot_a_end(),
            ) || self.meets(base as int, base + size, self.delta_base, self.delta_size)
                || self.meets(base as int, base + size, self.slot_b_base, self.slot_b_size) {
                Some(MemoryError::PersistentOverlap)
            } else {
                None
            },
            (None, None) => None,
            _ => Some(MemoryError::PersistentPair),
        }
    }

    /// What is wrong with this layout on a part whose vector table needs
    /// `vector_alignment`, the first thing found.
    pub open spec fn error(&self, vector_alignment: int) -> Option<MemoryError> {
        if !(self.flash_size > 0 && self.bootloader_size > 0 && self.slot_a_size > 0) {
            Some(MemoryError::FlashPartitions)
        } else if !is_pow2(self.erase_size as int) {
            Some(MemoryError::EraseSize)
        } else if !is_pow2(self.write_alignment as int) {
            Some(MemoryError::WriteAlignment)
        } else if !aligned(self.slot_a_base as int, vector_alignment) {
            Some(MemoryError::SlotUnaligned)
        } else if self.slot_a_base < self.bootloader_end() {
            Some(MemoryError::SlotOverlapsBootloader)
        } else if self.flash_end() > u64::MAX {
            Some(MemoryError::FlashOverflow)
        } else if self.slot_a_end() > u64::MAX {
            Some(MemoryError::SlotOverflow)
        } else if self.slot_a_end() > self.flash_end() {
            Some(MemoryError::SlotExceedsFlash)
        } else if self.misplaced(self.delta_base, self.delta_size) {
            Some(MemoryError::DeltaArea)
        } else if self.misplaced(self.slot_b_base, self.slot_b_size) {
            Some(MemoryError::SlotB)
        } else if self.persistent_error() is Some {
            self.persistent_error()
        } else if self.sedsnet_pool == 0 {
            Some(MemoryError::PoolEmpty)
        } else if self.ram_regions@.len() == 0 {
            Some(MemoryError::NoRam)
        } else if ram_error(self.ram_regions@, 0) is Some {
            ram_error(self.ram_regions@, 0)
        } else if self.sedsnet_pool > total_size(
            self.ram_regions@,
            self.ram_regions@.len() as int,
        ) {
            Some(MemoryError::PoolExceedsRam)
        } else {
            None
        }
    }
}

fn area_is_misplaced(
    base: Option<u64>,
    size: Option<u64>,
    slot_end: u64,
    flash_end: u64,
) -> (res: bool)
    ensures
        res == match (base, size) {
            (Some(base), Some(size)) => !(size > 0 && base >= slot_end && base + size
                <= flash_end),
            _ => false,
        },
{
    match (base, size) {
        (Some(base), Some(size)) => {
            let fits = match base.checked_add(size) {
                Some(end) => end <= flash_end,
                None => false,
            };
            !(size > 0 && base >= slot_end && fits)
        },
        _ => false,
    }
}

fn area_meets(base: u64, end: u64, other: Option<u64>, size: Option<u64>) -> (res: bool)
    ensures
        res == match (other, size) {
            (Some(other), Some(size)) => ranges_overlap(
                base as int,
                end as int,
                other as int,
                other + size,
            ),
            _ => false,
        },
{
    match (other, size) {
        (Some(other), Some(size)) => {
            let below = match other.checked_add(size) {
                Some(other_end) => base < other_end,
                None => true,
            };
            below && other < end
        },
        _ => false,
    }
}

fn region_overlaps_earlier(regions: &[MemoryRegion], i: usize, end: u64) -> (res: bool)
    requires
        i < regions@.len(),
        end == regions@[i as int].base + regions@[i as int].size,
        forall|k: int| 0 <= k < i ==> (#[trigger] regions@[k]).base + regions@[k].size <= u64::MAX,
    ensures
        res == overlaps_earlier(regions@, i as int),
{
    let mut j: usize = 0;
    while j < i
        invariant
            j <= i,
            i < regions@.len(),
            end == regions@[i as int].base + regions@[i as int].size,
            forall|k: int|
                0 <= k < i ==> (#[trigger] regions@[k]).base + regions@[k].size <= u64::MAX,
            forall|k: int| 0 <= k < j ==> !#[trigger] regions_overlap(regions@, k, i as int),
        decreases i - j,
    {
        let prior_end: u64 = regions[j].base + regions[j].size;
        if regions[i].base < prior_end && end > regions[j].base {
            assert(regions_overlap(regions@, j as int, i as int));
            return true;
        }
        j = j + 1;
    }
    false
}

/// Checks every RAM bank and returns their combined size.
fn check_ram(regions: &[MemoryRegion]) -> (res: Result<u64, MemoryError>)
    ensures
        match ram_error(regions@, 0) {
            Some(error) => {
                &&& res == Err::<u64, MemoryError>(error)
                &&& (error matches MemoryError::RamName(i) ==> i < regions@.len())
                &&& (error matches MemoryError::RamEmpty(i) ==> i < regions@.len())
                &&& (error matches MemoryError::RamOverflow(i) ==> i < regions@.len())
                &&& (error matches MemoryError::RamOverlap(i) ==> i < regions@.len())
            },
            None => res matches Ok(total) && total == total_size(
                regions@,
                regions@.len() as int,
            ),
        },
{
    let mut total: u64 = 0;
    let mut i: usize = 0;
    while i < regions.len()
        invariant
            i <= regions@.len(),
            ram_error(regions@, 0) == ram_error(regions@, i as int),
            total == total_size(regions@, i as int),
            forall|k: int|
                0 <= k < i ==> (#[trigger] regions@[k]).base + regions@[k].size <= u64::MAX,
        decreases regions@.len() - i,
    {
        let region = &regions[i];
        if region.name.as_str().is_empty() || !is_made_of(region.name.as_str(), "_") {
            return Err(MemoryError::RamName(i));
        }
        if region.size == 0 {
            return Err(MemoryError::RamEmpty(i));
        }
        let end: u64 = match region.base.checked_add(region.size) {
            Some(end) => end,
            None => {
                return Err(MemoryError::RamOverflow(i));
            },
        };
        if region_overlaps_earlier(regions, i, end) {
            return Err(MemoryError::RamOverlap(i));
        }
        total =
        match total.checked_add(region.size) {
            Some(total) => total,
            None => {
                return Err(MemoryError::TotalRamOverflow);
            },
        };
        i = i + 1;
    }
    Ok(total)
}

fn check_persistent(memory: &MemoryLayout, slot_end: u64, flash_end: u64) -> (res: Result<
    (),
    MemoryError,
>)
    requires
        slot_end == memory.slot_a_end(),
        flash_end == memory.flash_end(),
        slot_end <= flash_end,
        memory.bootloader_end() <= memory.slot_a_base,
        memory.erase_size > 0,
    ensures
        match memory.persistent_error() {
            Some(error) => res == Err::<(), MemoryError>(error),
            None => res is Ok,
        },
{
    match (memory.persistent_data_base, memory.persistent_data_size) {
        (Some(base), Some(size)) => {
            let end: u64 = match base.checked_add(size) {
                Some(end) => end,
                None => {
                    return Err(MemoryError::PersistentOverflow);
                },
            };
            let two_units = match memory.erase_size.checked_mul(2) {
                Some(least) => size >= least,
                None => false,
            };
            if !(two_units && base % memory.erase_size == 0 && size % memory.erase_size == 0
                && base >= slot_end && end <= flash_end) {
                return Err(MemoryError::PersistentArea);
            }
            if area_meets(base, end, Some(memory.flash_base), Some(memory.bootloader_size))
                || area_meets(base, end, Some(memory.slot_a_base), Some(memory.slot_a_size))
                || area_meets(base, end, memory.delta_base, memory.delta_size) || area_meets(
                base,
                end,
                memory.slot_b_base,
                memory.slot_b_size,
            ) {
                return Err(MemoryError::PersistentOverlap);
            }
            Ok(())
        },
        (None, None) => Ok(()),
        _ => Err(MemoryError::PersistentPair),
    }
}

// ---------------------------------------------------------------------------
// Architectures
// ---------------------------------------------------------------------------

#[derive(Clone, Copy, Debug, PartialEq, Eq, Structural)]
pub enum McuError {
    Definition(DescriptorError),
    Architecture,
    Memory(MemoryError),
    FlashCapacity,
    FlashBase,
    /// A position in `ram_regions`.
    RamOutside(usize),
    RamCapacity,
    Geometry,
}

impl McuError {
    pub open spec fn text(self, mcu: McuDescriptor, kind: ArchitectureKind, memory: MemoryLayout) -> Seq<char> {
        match self {
            McuError::Definition(error) => error.text(mcu),
            McuError::Architecture => "MCU "@ + mcu.name@ + " does not belong to architecture "@
                + kind.spec_name(),
            McuError::Memory(error) => error.text(memory),
            McuError::FlashCapacity => "configured flash exceeds "@ + mcu.name@ + " physical flash"@,
            McuError::FlashBase => ""@ + mcu.name@ + " physical flash must start at 0x"@ + hex8(
                mcu.flash_base as nat,
            ),
            McuError::RamOutside(i) => "RAM region "@ + memory.ram_regions@[i as int].name@
                + " is outside "@ + mcu.name@ + " physical SRAM"@,
            McuError::RamCapacity => "configured RAM exceeds "@ + mcu.name@ + " physical RAM"@,
            McuError::Geometry => ""@ + mcu.name@ + " flash geometry requires erase_size "@ + dec(
                mcu.erase_size as nat,
            ) + " and write_alignment "@ + dec(mcu.write_alignment as nat),
        }
    }

    /// The region this speaks of, where it speaks of one, is there.
    pub open spec fn of(self, memory: MemoryLayout) -> bool {
        match self {
            McuError::Memory(error) => error.of(memory),
            McuError::RamOutside(i) => i < memory.ram_regions@.len(),
            _ => true,
        }
    }

    pub fn message(self, mcu: &McuDescriptor, kind: ArchitectureKind, memory: &MemoryLayout) -> (res:
        String)
        requires
            self.of(*memory),
        ensures
            res@ == self.text(*mcu, kind, *memory),
    {
        let name = mcu.name.as_str();
        match self {
            McuError::Definition(error) => error.message(mcu),
            McuError::Architecture => Text::new("MCU ").str(name).str(
                " does not belong to architecture ",
            ).str(kind.name()).done(),
            McuError::Memory(error) => error.message(memory),
            McuError::FlashCapacity => Text::new("configured flash exceeds ").str(name).str(
                " physical flash",
            ).done(),
            McuError::FlashBase => Text::new("").str(name).str(
                " physical flash must start at 0x",
            ).hex8(mcu.flash_base).done(),
            McuError::RamOutside(i) => Text::new("RAM region ").str(
                memory.ram_regions[i].name.as_str(),
            ).str(" is outside ").str(name).str(" physical SRAM").done(),
            McuError::RamCapacity => Text::new("configured RAM exceeds ").str(name).str(
                " physical RAM",
            ).done(),
            McuError::Geometry => Text::new("").str(name).str(
                " flash geometry requires erase_size ",
            ).dec(mcu.erase_size).str(" and write_alignment ").dec(mcu.write_alignment).done(),
        }
    }
}

/// The first region from `i` on that leaves the physical SRAM window.
pub open spec fn outside_ram(regions: Seq<MemoryRegion>, base: int, end: int, i: int) -> Option<int>
    decreases regions.len() - i,
{
    if i < 0 || i >= regions.len() {
        None
    } else if regions[i].base < base || regions[i].base + regions[i].size > end {
        Some(i)
    } else {
        outside_ram(regions, base, end, i + 1)
    }
}

fn first_outside(regions: &[MemoryRegion], base: u64, size: u64) -> (res: Option<usize>)
    ensures
        match outside_ram(regions@, base as int, base + size, 0) {
            Some(i) => res matches Some(found) && found == i && found < regions@.len(),
            None => res is None,
        },
{
    let end: u128 = base as u128 + size as u128;
    let mut i: usize = 0;
    while i < regions.len()
        invariant
            i <= regions@.len(),
            end == base + size,
            outside_ram(regions@, base as int, end as int, 0) == outside_ram(
                regions@,
                base as int,
                end as int,
                i as int,
            ),
        decreases regions@.len() - i,
    {
        let last: u128 = regions[i].base as u128 + regions[i].size as u128;
        if regions[i].base < base || last > end {
            return Some(i);
        }
        i = i + 1;
    }
    None
}

impl Architecture {
    pub open spec fn mcu_error(&self, mcu: McuDescriptor, memory: MemoryLayout) -> Option<
        McuError,
    > {
        let regions = memory.ram_regions@;
        if mcu.definition_error() is Some {
            Some(McuError::Definition(mcu.definition_error()->0))
        } else if mcu.architecture != self.kind {
            Some(McuError::Architecture)
        } else if memory.error(self.vector_alignment as int) is Some {
            Some(McuError::Memory(memory.error(self.vector_alignment as int)->0))
        } else if memory.flash_size > mcu.flash_size {
            Some(McuError::FlashCapacity)
        } else if memory.flash_base != mcu.flash_base {
            Some(McuError::FlashBase)
        } else {
            match outside_ram(regions, mcu.ram_base as int, mcu.ram_base + mcu.ram_size, 0) {
                Some(i) => Some(McuError::RamOutside(i as usize)),
                None => if total_size(regions, regions.len() as int) > mcu.ram_size {
                    Some(McuError::RamCapacity)
                } else if memory.erase_size != mcu.erase_size || memory.write_alignment
                    != mcu.write_alignment {
                    Some(McuError::Geometry)
                } else {
                    None
                },
            }
        }
    }

    pub fn for_kind(kind: ArchitectureKind) -> (res: Self)
        ensures
            res.kind == kind,
            res.vector_alignment == 0x200,
            res.default_flash_size == (match kind {
                ArchitectureKind::Stm32u5 => 2048 * 1024int,
                _ => 512 * 1024int,
            }),
            res.default_ram_size == (match kind {
                ArchitectureKind::Stm32 => 128 * 1024int,
                ArchitectureKind::Stm32g4 => 112 * 1024int,
                ArchitectureKind::Stm32h5 => 272 * 1024int,
                ArchitectureKind::Stm32u5 => 768 * 1024int,
            }),
    {
        let (flash, ram): (u64, u64) = match kind {
            ArchitectureKind::Stm32 => (512, 128),
            ArchitectureKind::Stm32g4 => (512, 112),
            ArchitectureKind::Stm32h5 => (512, 272),
            ArchitectureKind::Stm32u5 => (2048, 768),
        };
        Architecture {
            kind,
            vector_alignment: 0x200,
            default_flash_size: flash * 1024,
            default_ram_size: ram * 1024,
        }
    }

    fn check(&self, memory: &MemoryLayout) -> (res: Result<u64, MemoryError>)
        requires
            self.vector_alignment > 0,
        ensures
            match memory.error(self.vector_alignment as int) {
                Some(error) => res == Err::<u64, MemoryError>(error) && error.of(*memory),
                None => res matches Ok(total) && total == total_size(
                    memory.ram_regions@,
                    memory.ram_regions@.len() as int,
                ),
            },
    {
        if !(memory.flash_size > 0 && memory.bootloader_size > 0 && memory.slot_a_size > 0) {
            return Err(MemoryError::FlashPartitions);
        }
        if !is_power_of_two(memory.erase_size) {
            return Err(MemoryError::EraseSize);
        }
        if !is_power_of_two(memory.write_alignment) {
            return Err(MemoryError::WriteAlignment);
        }
        if !is_aligned(memory.slot_a_base, self.vector_alignment) {
            return Err(MemoryError::SlotUnaligned);
        }
        let clear_of_bootloader = match memory.flash_base.checked_add(memory.bootloader_size) {
            Some(end) => memory.slot_a_base >= end,
            None => false,
        };
        if !clear_of_bootloader {
            return Err(MemoryError::SlotOverlapsBootloader);
        }
        let flash_end: u64 = match memory.flash_base.checked_add(memory.flash_size) {
            Some(end) => end,
            None => {
                return Err(MemoryError::FlashOverflow);
            },
        };
        let slot_end: u64 = match memory.slot_a_base.checked_add(memory.slot_a_size) {
            Some(end) => end,
            None => {
                return Err(MemoryError::SlotOverflow);
            },
        };
        if slot_end > flash_end {
            return Err(MemoryError::SlotExceedsFlash);
        }
        if area_is_misplaced(memory.delta_base, memory.delta_size, slot_end, flash_end) {
            return Err(MemoryError::DeltaArea);
        }
        if area_is_misplaced(memory.slot_b_base, memory.slot_b_size, slot_end, flash_end) {
            return Err(MemoryError::SlotB);
        }
        assert(memory.erase_size > 0) by {
            reveal(is_pow2);
        }
        match check_persistent(memory, slot_end, flash_end) {
            Ok(()) => {},
            Err(error) => {
                return Err(error);
            },
        }
        if memory.sedsnet_pool == 0 {
            return Err(MemoryError::PoolEmpty);
        }
        if memory.ram_regions.len() == 0 {
            return Err(MemoryError::NoRam);
        }
        match check_ram(memory.ram_regions.as_slice()) {
            Ok(total) => {
                if memory.sedsnet_pool as u64 > total {
                    return Err(MemoryError::PoolExceedsRam);
                }
                Ok(total)
            },
            Err(error) => Err(error),
        }
    }

    pub fn validate(&self, memory: &MemoryLayout) -> (res: Result<(), MemoryError>)
        requires
            self.vector_alignment > 0,
        ensures
            match memory.error(self.vector_alignment as int) {
                Some(error) => res == Err::<(), MemoryError>(error) && error.of(*memory),
                None => res is Ok,
            },
    {
        match self.check(memory) {
            Ok(_) => Ok(()),
            Err(error) => Err(error),
        }
    }

    pub fn validate_mcu(&self, mcu: &McuDescriptor, memory: &MemoryLayout) -> (res: Result<
        (),
        McuError,
    >)
        requires
            self.vector_alignment > 0,
        ensures
            match self.mcu_error(*mcu, *memory) {
                Some(error) => res == Err::<(), McuError>(error) && error.of(*memory),
                None => res is Ok,
            },
    {
        match mcu.validate_definition() {
            Ok(()) => {},
            Err(error) => {
                return Err(McuError::Definition(error));
            },
        }
        if mcu.architecture != self.kind {
            return Err(McuError::Architecture);
        }
        let total: u64 = match self.check(memory) {
            Ok(total) => total,
            Err(error) => {
                return Err(McuError::Memory(error));
            },
        };
        if memory.flash_size > mcu.flash_size {
            return Err(McuError::FlashCapacity);
        }
        if memory.flash_base != mcu.flash_base {
            return Err(McuError::FlashBase);
        }
        match first_outside(memory.ram_regions.as_slice(), mcu.ram_base, mcu.ram_size) {
            Some(i) => {
                return Err(McuError::RamOutside(i));
            },
            None => {},
        }
        if total > mcu.ram_size {
            return Err(McuError::RamCapacity);
        }
        if memory.erase_size != mcu.erase_size || memory.write_alignment != mcu.write_alignment {
            return Err(McuError::Geometry);
        }
        Ok(())
    }
}

// ---------------------------------------------------------------------------
// What an accepted layout gives
// ---------------------------------------------------------------------------

proof fn lemma_ram_error(regions: Seq<MemoryRegion>, from: int, k: int)
    requires
        0 <= from <= k < regions.len(),
        ram_error(regions, from) is None,
    ensures
        ram_region_error(regions, k) is None,
    decreases k - from,
{
    if from < k {
        lemma_ram_error(regions, from + 1, k);
    }
}

/// In an accepted layout the bootloader, slot A and whichever of the delta
/// area, slot B and the persistent area are declared lie inside flash, and the
/// persistent area, made of whole erase units, is disjoint from all the
/// others.
pub proof fn law_partitions_in_flash(memory: MemoryLayout, vector_alignment: int)
    requires
        memory.error(vector_alignment) is None,
    ensures
        memory.flash_base < memory.bootloader_end() <= memory.slot_a_base < memory.slot_a_end()
            <= memory.flash_end() <= u64::MAX,
        (memory.delta_base is Some && memory.delta_size is Some) ==> memory.slot_a_end()
            <= memory.delta_base->0 < memory.delta_base->0 + memory.delta_size->0
            <= memory.flash_end(),
        (memory.slot_b_base is Some && memory.slot_b_size is Some) ==> memory.slot_a_end()
            <= memory.slot_b_base->0 < memory.slot_b_base->0 + memory.slot_b_size->0
            <= memory.flash_end(),
        memory.persistent_data_base is Some <==> memory.persistent_data_size is Some,
        memory.persistent_data_base matches Some(base) ==> {
            let size = memory.persistent_data_size->0;
            &&& memory.slot_a_end() <= base < base + size <= memory.flash_end()
            &&& base as int % memory.erase_size as int == 0
            &&& size as int % memory.erase_size as int == 0
            &&& size >= 2 * memory.erase_size
            &&& !memory.meets(base as int, base + size, memory.delta_base, memory.delta_size)
            &&& !memory.meets(base as int, base + size, memory.slot_b_base, memory.slot_b_size)
        },
{
    reveal(is_pow2);
}

pub proof fn lemma_geometry_is_positive(memory: MemoryLayout, vector_alignment: int)
    requires
        memory.error(vector_alignment) is None,
    ensures
        memory.erase_size > 0,
        memory.write_alignment > 0,
{
    reveal(is_pow2);
}

/// In an accepted layout the RAM banks are nonempty and pairwise disjoint, and
/// the packet pool fits into them.
pub proof fn law_ram_banks_are_disjoint(memory: MemoryLayout, vector_alignment: int)
    requires
        memory.error(vector_alignment) is None,
    ensures
        forall|k: int|
            0 <= k < memory.ram_regions@.len() ==> (#[trigger] memory.ram_regions@[k]).size > 0
                && memory.ram_regions@[k].base + memory.ram_regions@[k].size <= u64::MAX,
        forall|j: int, k: int|
            0 <= j < k < memory.ram_regions@.len() ==> !#[trigger] regions_overlap(
                memory.ram_regions@,
                j,
                k,
            ),
        0 < memory.sedsnet_pool <= total_size(
            memory.ram_regions@,
            memory.ram_regions@.len() as int,
        ) <= u64::MAX,
{
    let regions = memory.ram_regions@;
    assert forall|k: int| 0 <= k < regions.len() implies ram_region_error(
        regions,
        k,
    ) is None by {
        lemma_ram_error(regions, 0, k);
    }
    assert forall|k: int| 0 <= k < regions.len() implies (#[trigger] regions[k]).size > 0
        && regions[k].base + regions[k].size <= u64::MAX by {
        assert(ram_region_error(regions, k) is None);
    }
    assert forall|j: int, k: int| 0 <= j < k < regions.len() implies !#[trigger] regions_overlap(
        regions,
        j,
        k,
    ) by {
        assert(ram_region_error(regions, k) is None);
    }
    assert(ram_region_error(regions, regions.len() - 1) is None);
}

proof fn lemma_outside_ram(regions: Seq<MemoryRegion>, base: int, end: int, from: int, k: int)
    requires
        0 <= from <= k < regions.len(),
        outside_ram(regions, base, end, from) is None,
    ensures
        base <= regions[k].base && regions[k].base + regions[k].size <= end,
    decreases k - from,
{
    if from < k {
        lemma_outside_ram(regions, base, end, from + 1, k);
    }
}

/// A layout accepted for an exact part stays inside that part: its flash
/// starts where the part's does and is no larger, every RAM bank lies in the
/// SRAM window, all of them together are no more than the part has, and the
/// flash geometry is the part's.
pub proof fn law_accepted_part_bounds_the_layout(
    architecture: Architecture,
    mcu: McuDescriptor,
    memory: MemoryLayout,
)
    requires
        architecture.mcu_error(mcu, memory) is None,
    ensures
        mcu.definition_error() is None,
        mcu.architecture == architecture.kind,
        memory.error(architecture.vector_alignment as int) is None,
        memory.flash_base == mcu.flash_base,
        memory.flash_size <= mcu.flash_size,
        forall|k: int|
            0 <= k < memory.ram_regions@.len() ==> mcu.ram_base
                <= (#[trigger] memory.ram_regions@[k]).base && memory.ram_regions@[k].base
                + memory.ram_regions@[k].size <= mcu.ram_base + mcu.ram_size,
        total_size(memory.ram_regions@, memory.ram_regions@.len() as int) <= mcu.ram_size,
        memory.erase_size == mcu.erase_size,
        memory.write_alignment == mcu.write_alignment,
{
    let regions = memory.ram_regions@;
    assert forall|k: int| 0 <= k < regions.len() implies mcu.ram_base <= (
    #[trigger] regions[k]).base && regions[k].base + regions[k].size <= mcu.ram_base
        + mcu.ram_size by {
        lemma_outside_ram(regions, mcu.ram_base as int, mcu.ram_base + mcu.ram_size, 0, k);
    }
}

/// Making a silicon line's name again changes nothing.
pub proof fn law_lowering_a_name_is_idempotent(name: Seq<char>)
    ensures
        lower(lower(name)) == lower(name),
{
    assert(lower(lower(name)) =~= lower(name));
}

// ---------------------------------------------------------------------------
// Which layouts and parts are accepted
// ---------------------------------------------------------------------------

/// The sum of the numbers.
pub open spec fn sum_of(sizes: Seq<int>) -> int
    decreases sizes.len(),
{
    if sizes.len() == 0 {
        0
    } else {
        sizes[0] + sum_of(sizes.skip(1))
    }
}

pub open spec fn sizes_of(regions: Seq<MemoryRegion>) -> Seq<int> {
    Seq::new(regions.len(), |i: int| regions[i].size as int)
}

proof fn lemma_sum_push(sizes: Seq<int>, size: int)
    ensures
        sum_of(sizes.push(size)) == sum_of(sizes) + size,
    decreases sizes.len(),
{
    if sizes.len() == 0 {
        reveal_with_fuel(sum_of, 2);
        assert(sizes.push(size).skip(1) =~= Seq::<int>::empty());
    } else {
        lemma_sum_push(sizes.skip(1), size);
        assert(sizes.push(size).skip(1) =~= sizes.skip(1).push(size));
    }
}

pub proof fn lemma_total(regions: Seq<MemoryRegion>, end: int)
    requires
        0 <= end <= regions.len(),
    ensures
        total_size(regions, end) == sum_of(sizes_of(regions.take(end))),
    decreases end,
{
    if end > 0 {
        lemma_total(regions, end - 1);
        lemma_sum_push(sizes_of(regions.take(end - 1)), regions[end - 1].size as int);
        assert(sizes_of(regions.take(end)) =~= sizes_of(regions.take(end - 1)).push(
            regions[end - 1].size as int,
        ));
    } else {
        assert(sizes_of(regions.take(0)) =~= Seq::<int>::empty());
    }
}

proof fn lemma_total_grows(regions: Seq<MemoryRegion>, from: int, end: int)
    requires
        0 <= from <= end,
    ensures
        total_size(regions, from) <= total_size(regions, end),
    decreases end - from,
{
    if from < end {
        lemma_total_grows(regions, from, end - 1);
    }
}

proof fn lemma_ram_accepted(regions: Seq<MemoryRegion>, from: int)
    requires
        0 <= from,
        forall|i: int| from <= i < regions.len() ==> #[trigger] ram_region_error(regions, i) is None,
    ensures
        ram_error(regions, from) is None,
    decreases regions.len() - from,
{
    if from < regions.len() {
        assert(ram_region_error(regions, from) is None);
        lemma_ram_accepted(regions, from + 1);
    }
}

/// RAM banks are accepted exactly where each has a name of letters, digits and
/// underscores and a size, all end inside the address space, no two share an
/// address, and together they are a number of this machine.
proof fn lemma_banks(regions: Seq<MemoryRegion>)
    ensures
        ram_error(regions, 0) is None <==> {
            &&& forall|i: int|
                0 <= i < regions.len() ==> (#[trigger] regions[i]).size > 0 && regions[i].base
                    + regions[i].size <= u64::MAX && regions[i].name@.len() > 0 && made_of(
                    regions[i].name@,
                    "_"@,
                )
            &&& forall|i: int, j: int|
                0 <= i < j < regions.len() ==> (#[trigger] regions[i]).base + regions[i].size <= (
                #[trigger] regions[j]).base || regions[j].base + regions[j].size
                    <= regions[i].base
            &&& regions.len() == 0 || sum_of(sizes_of(regions)) <= u64::MAX
        },
{
    lemma_total(regions, regions.len() as int);
    assert(regions.take(regions.len() as int) =~= regions);
    if ram_error(regions, 0) is None {
        assert forall|i: int| 0 <= i < regions.len() implies #[trigger] ram_region_error(
            regions,
            i,
        ) is None by {
            lemma_ram_error(regions, 0, i);
        }
        assert forall|i: int, j: int| 0 <= i < j < regions.len() implies (
        #[trigger] regions[i]).base + regions[i].size <= (#[trigger] regions[j]).base
            || regions[j].base + regions[j].size <= regions[i].base by {
            assert(ram_region_error(regions, i) is None && ram_region_error(regions, j) is None);
            assert(!regions_overlap(regions, i, j));
        }
        assert forall|i: int| 0 <= i < regions.len() implies (#[trigger] regions[i]).size > 0
            && regions[i].base + regions[i].size <= u64::MAX && regions[i].name@.len() > 0
            && made_of(regions[i].name@, "_"@) by {
            assert(ram_region_error(regions, i) is None);
        }
        if regions.len() > 0 {
            assert(ram_region_error(regions, regions.len() - 1) is None);
        }
    } else if (forall|i: int|
        0 <= i < regions.len() ==> (#[trigger] regions[i]).size > 0 && regions[i].base
            + regions[i].size <= u64::MAX && regions[i].name@.len() > 0 && made_of(
            regions[i].name@,
            "_"@,
        )) && (forall|i: int, j: int|
        0 <= i < j < regions.len() ==> (#[trigger] regions[i]).base + regions[i].size <= (
        #[trigger] regions[j]).base || regions[j].base + regions[j].size <= regions[i].base)
        && sum_of(sizes_of(regions)) <= u64::MAX {
        assert forall|i: int| 0 <= i < regions.len() implies #[trigger] ram_region_error(
            regions,
            i,
        ) is None by {
            lemma_total_grows(regions, i + 1, regions.len() as int);
            assert(regions[i].size > 0);
            assert(!overlaps_earlier(regions, i)) by {
                if overlaps_earlier(regions, i) {
                    let j = choose|j: int| 0 <= j < i && #[trigger] regions_overlap(regions, j, i);
                    assert(regions[j].size > 0);
                }
            }
        }
        lemma_ram_accepted(regions, 0);
    }
}

/// A memory layout is accepted exactly where all of this holds: bootloader,
/// slot A and flash have a size; the geometry is in powers of two; slot A
/// starts at a vector boundary behind the bootloader and ends in flash; a delta
/// area or a slot B that is declared lies behind slot A and in flash; a
/// persistent area is declared with base and size or not at all, is made of at
/// least two whole erase units behind slot A and in flash, and shares nothing
/// with the delta area or slot B; the RAM banks are sound, and the pool is a
/// part of them.
pub proof fn law_sound_layouts_are_accepted(memory: MemoryLayout, vector_alignment: u64)
    requires
        is_pow2(vector_alignment as int),
    ensures
        memory.error(vector_alignment as int) is None <==> {
            let flash_end = memory.flash_base + memory.flash_size;
            let slot_end = memory.slot_a_base + memory.slot_a_size;
            let banks = memory.ram_regions@;
            &&& memory.flash_size > 0 && memory.bootloader_size > 0 && memory.slot_a_size > 0
            &&& is_pow2(memory.erase_size as int) && is_pow2(memory.write_alignment as int)
            &&& memory.slot_a_base as int % vector_alignment as int == 0
            &&& memory.flash_base + memory.bootloader_size <= memory.slot_a_base
            &&& slot_end <= flash_end <= u64::MAX
            &&& memory.delta_base is Some && memory.delta_size is Some ==> memory.delta_size->0 > 0
                && slot_end <= memory.delta_base->0 && memory.delta_base->0 + memory.delta_size->0
                <= flash_end
            &&& memory.slot_b_base is Some && memory.slot_b_size is Some ==> memory.slot_b_size->0
                > 0 && slot_end <= memory.slot_b_base->0 && memory.slot_b_base->0
                + memory.slot_b_size->0 <= flash_end
            &&& memory.persistent_data_base is Some <==> memory.persistent_data_size is Some
            &&& memory.persistent_data_base is Some ==> {
                let base = memory.persistent_data_base->0;
                let size = memory.persistent_data_size->0;
                &&& base as int % memory.erase_size as int == 0
                &&& size as int % memory.erase_size as int == 0
                &&& size >= memory.erase_size + memory.erase_size
                &&& slot_end <= base && base + size <= flash_end
                &&& memory.delta_base is Some && memory.delta_size is Some ==> base + size
                    <= memory.delta_base->0 || memory.delta_base->0 + memory.delta_size->0 <= base
                &&& memory.slot_b_base is Some && memory.slot_b_size is Some ==> base + size
                    <= memory.slot_b_base->0 || memory.slot_b_base->0 + memory.slot_b_size->0
                    <= base
            }
            &&& 0 < memory.sedsnet_pool <= sum_of(sizes_of(banks)) <= u64::MAX
            &&& banks.len() > 0
            &&& forall|i: int|
                0 <= i < banks.len() ==> (#[trigger] banks[i]).size > 0 && banks[i].base
                    + banks[i].size <= u64::MAX && banks[i].name@.len() > 0 && made_of(
                    banks[i].name@,
                    "_"@,
                )
            &&& forall|i: int, j: int|
                0 <= i < j < banks.len() ==> (#[trigger] banks[i]).base + banks[i].size <= (
                #[trigger] banks[j]).base || banks[j].base + banks[j].size <= banks[i].base
        },
{
    let banks = memory.ram_regions@;
    reveal(is_pow2);
    lemma_banks(banks);
    lemma_total(banks, banks.len() as int);
    assert(banks.take(banks.len() as int) =~= banks);
    crate::arith::law_alignment_is_divisibility(memory.slot_a_base, vector_alignment);
}

proof fn lemma_outside_first(regions: Seq<MemoryRegion>, base: int, end: int, from: int)
    requires
        0 <= from,
    ensures
        outside_ram(regions, base, end, from) is None <==> forall|k: int|
            from <= k < regions.len() ==> base <= (#[trigger] regions[k]).base && regions[k].base
                + regions[k].size <= end,
    decreases regions.len() - from,
{
    if from < regions.len() {
        lemma_outside_first(regions, base, end, from + 1);
        if regions[from].base < base || regions[from].base + regions[from].size > end {
            assert(!(base <= regions[from].base && regions[from].base + regions[from].size
                <= end));
        }
    }
}

/// A layout is accepted for a part exactly where the part's definition and the
/// layout are sound by themselves, the part belongs to the architecture, flash
/// starts where the part's does and is no larger, every RAM bank lies in the
/// part's SRAM window, all of them together are no more than the part has, and
/// the flash geometry is the part's.
pub proof fn law_parts_take_what_fits_them(
    architecture: Architecture,
    mcu: McuDescriptor,
    memory: MemoryLayout,
)
    ensures
        architecture.mcu_error(mcu, memory) is None <==> {
            let banks = memory.ram_regions@;
            &&& mcu.definition_error() is None
            &&& mcu.architecture == architecture.kind
            &&& memory.error(architecture.vector_alignment as int) is None
            &&& memory.flash_base == mcu.flash_base
            &&& memory.flash_size <= mcu.flash_size
            &&& memory.erase_size == mcu.erase_size
            &&& memory.write_alignment == mcu.write_alignment
            &&& sum_of(sizes_of(banks)) <= mcu.ram_size
            &&& forall|k: int|
                0 <= k < banks.len() ==> mcu.ram_base <= (#[trigger] banks[k]).base
                    && banks[k].base + banks[k].size <= mcu.ram_base + mcu.ram_size
        },
{
    let banks = memory.ram_regions@;
    lemma_total(banks, banks.len() as int);
    assert(banks.take(banks.len() as int) =~= banks);
    lemma_outside_first(banks, mcu.ram_base as int, mcu.ram_base + mcu.ram_size, 0);
}

proof fn lemma_parent_parts(path: Seq<char>)
    ensures
        has_parent_part(path) <==> split(path, '/').contains(seq!['.', '.']),
    decreases path.len(),
{
    let up = seq!['.', '.'];
    lemma_char_index(path, '/', 0);
    let end = char_index(path, '/', 0);
    let parts = split(path, '/');
    if end >= path.len() {
        assert(parts =~= seq![path]);
        if has_parent_part(path) {
            let i = choose|i: int| #[trigger] parent_part_at(path, i);
            assert(path =~= up);
            assert(parts[0] == up);
        }
        if parts.contains(up) {
            assert(path == up);
            assert(parent_part_at(path, 0));
        }
    } else {
        let head = path.take(end);
        let rest = path.skip(end + 1);
        lemma_parent_parts(rest);
        assert(parts =~= seq![head] + split(rest, '/'));
        if has_parent_part(path) {
            let i = choose|i: int| #[trigger] parent_part_at(path, i);
            if i < end {
                assert(head =~= up);
                assert(parts[0] == up);
            } else {
                assert(parent_part_at(rest, i - end - 1));
                let k = choose|k: int| 0 <= k < split(rest, '/').len() && split(rest, '/')[k] == up;
                assert(parts[k + 1] == up);
            }
        }
        if parts.contains(up) {
            let k = choose|k: int| 0 <= k < parts.len() && parts[k] == up;
            if k == 0 {
                assert(head == up);
                assert(path[0] == head[0] && path[1] == head[1]);
                assert(parent_part_at(path, 0));
            } else {
                assert(split(rest, '/')[k - 1] == up);
                let i = choose|i: int| #[trigger] parent_part_at(rest, i);
                assert(parent_part_at(path, i + end + 1));
            }
        }
    }
}

/// A part's definition is accepted exactly where it has a name, a core whose
/// model begins with `cortex-m`, a platform file that is given by a relative
/// path without a step up, a flash profile that there is a model of, flash and
/// RAM of some size, and a geometry in powers of two.
pub proof fn law_sound_parts_are_accepted(mcu: McuDescriptor)
    ensures
        mcu.definition_error() is None <==> {
            let path = mcu.platform_file@;
            &&& mcu.name@.len() > 0
            &&& mcu.core_model@.len() >= 8 && mcu.core_model@.take(8) == "cortex-m"@
            &&& path.len() > 0 && path[0] != '/' && !split(path, '/').contains(seq!['.', '.'])
            &&& mcu.flash_profile@ == "stm32g4"@ || mcu.flash_profile@ == "stm32h5"@
                || mcu.flash_profile@ == "stm32u5"@
            &&& mcu.flash_size > 0 && mcu.ram_size > 0
            &&& is_pow2(mcu.erase_size as int) && is_pow2(mcu.write_alignment as int)
        },
{
    reveal_strlit("cortex-m");
    lemma_parent_parts(mcu.platform_file@);
    let model = mcu.core_model@;
    if model.len() >= 8 {
        assert(model.take(8) =~= model.subrange(0, 8));
    }
}

/// A part is found by its name, the first of that name in the catalog, and
/// only a name that the catalog does not hold has none.
pub proof fn law_parts_are_found_by_name(catalog: Seq<McuDescriptor>, name: Seq<char>)
    ensures
        match descriptor_index(catalog, name, 0) {
            Some(i) => 0 <= i < catalog.len() && catalog[i].name@ == name && forall|k: int|
                0 <= k < i ==> (#[trigger] catalog[k]).name@ != name,
            None => forall|k: int| 0 <= k < catalog.len() ==> (#[trigger] catalog[k]).name@ != name,
        },
{
    lemma_descriptor(catalog, name, 0);
}

proof fn lemma_descriptor(catalog: Seq<McuDescriptor>, name: Seq<char>, from: int)
    requires
        0 <= from,
    ensures
        match descriptor_index(catalog, name, from) {
            Some(i) => from <= i < catalog.len() && catalog[i].name@ == name && forall|k: int|
                from <= k < i ==> (#[trigger] catalog[k]).name@ != name,
            None => forall|k: int|
                from <= k < catalog.len() ==> (#[trigger] catalog[k]).name@ != name,
        },
    decreases catalog.len() - from,
{
    if from < catalog.len() && catalog[from].name@ != name {
        lemma_descriptor(catalog, name, from + 1);
    }
}

proof fn lemma_ram_fault(regions: Seq<MemoryRegion>, from: int)
    requires
        0 <= from,
    ensures
        ram_error(regions, from) matches Some(error) ==> exists|i: int|
            from <= i < regions.len() && #[trigger] ram_region_error(regions, i) == Some(error)
                && forall|k: int|
                from <= k < i ==> #[trigger] ram_region_error(regions, k) is None,
    decreases regions.len() - from,
{
    if from < regions.len() {
        lemma_ram_fault(regions, from + 1);
        if ram_region_error(regions, from) is None && ram_error(regions, from) is Some {
            let error = ram_error(regions, from)->0;
            let i = choose|i: int|
                from + 1 <= i < regions.len() && #[trigger] ram_region_error(regions, i) == Some(
                    error,
                ) && forall|k: int|
                    from + 1 <= k < i ==> #[trigger] ram_region_error(regions, k) is None;
            assert(ram_region_error(regions, i) == Some(error));
        }
    }
}

/// The area is declared, and is empty, begins before the end of slot A or leaves
/// flash.
pub open spec fn area_wrong(memory: MemoryLayout, base: Option<u64>, size: Option<u64>) -> bool {
    base is Some && size is Some && (size->0 == 0 || base->0 < memory.slot_a_base
        + memory.slot_a_size || base->0 + size->0 > memory.flash_base + memory.flash_size)
}

/// What a memory layout is refused for is wrong with it.
pub proof fn law_layouts_are_refused_for_what_is_wrong(memory: MemoryLayout, vector_alignment: u64)
    requires
        is_pow2(vector_alignment as int),
        memory.ram_regions@.len() <= usize::MAX,
    ensures
        ({
            let banks = memory.ram_regions@;
            let flash_end = memory.flash_base + memory.flash_size;
            let slot_end = memory.slot_a_base + memory.slot_a_size;
            match memory.error(vector_alignment as int) {
                None => true,
                Some(MemoryError::FlashPartitions) => memory.flash_size == 0
                    || memory.bootloader_size == 0 || memory.slot_a_size == 0,
                Some(MemoryError::EraseSize) => !is_pow2(memory.erase_size as int),
                Some(MemoryError::WriteAlignment) => !is_pow2(memory.write_alignment as int),
                Some(MemoryError::SlotUnaligned) => memory.slot_a_base as int
                    % vector_alignment as int != 0,
                Some(MemoryError::SlotOverlapsBootloader) => memory.slot_a_base < memory.flash_base
                    + memory.bootloader_size,
                Some(MemoryError::FlashOverflow) => flash_end > u64::MAX,
                Some(MemoryError::SlotOverflow) => slot_end > u64::MAX,
                Some(MemoryError::SlotExceedsFlash) => slot_end > flash_end,
                Some(MemoryError::DeltaArea) => area_wrong(
                    memory,
                    memory.delta_base,
                    memory.delta_size,
                ),
                Some(MemoryError::SlotB) => area_wrong(
                    memory,
                    memory.slot_b_base,
                    memory.slot_b_size,
                ),
                Some(MemoryError::PersistentPair) => memory.persistent_data_base is Some
                    != memory.persistent_data_size is Some,
                Some(MemoryError::PersistentOverflow) => memory.persistent_data_base->0
                    + memory.persistent_data_size->0 > u64::MAX,
                Some(MemoryError::PersistentArea) => {
                    let base = memory.persistent_data_base->0;
                    let size = memory.persistent_data_size->0;
                    ||| size < memory.erase_size + memory.erase_size
                    ||| base as int % memory.erase_size as int != 0
                    ||| size as int % memory.erase_size as int != 0
                    ||| base < slot_end
                    ||| base + size > flash_end
                },
                Some(MemoryError::PersistentOverlap) => memory.persistent_data_base is Some
                    && memory.persistent_data_size is Some,
                Some(MemoryError::PoolEmpty) => memory.sedsnet_pool == 0,
                Some(MemoryError::NoRam) => banks.len() == 0,
                Some(MemoryError::RamName(i)) => i < banks.len() && (banks[i as int].name@.len()
                    == 0 || !made_of(banks[i as int].name@, "_"@)),
                Some(MemoryError::RamEmpty(i)) => i < banks.len() && banks[i as int].size == 0,
                Some(MemoryError::RamOverflow(i)) => i < banks.len() && banks[i as int].base
                    + banks[i as int].size > u64::MAX,
                Some(MemoryError::RamOverlap(i)) => i < banks.len() && exists|j: int|
                    0 <= j < i && (#[trigger] banks[j]).base < banks[i as int].base
                        + banks[i as int].size && banks[i as int].base < banks[j].base
                        + banks[j].size,
                Some(MemoryError::TotalRamOverflow) => sum_of(sizes_of(banks)) > u64::MAX,
                Some(MemoryError::PoolExceedsRam) => memory.sedsnet_pool > sum_of(sizes_of(banks)),
            }
        }),
{
    let banks = memory.ram_regions@;
    reveal(is_pow2);
    lemma_total(banks, banks.len() as int);
    assert(banks.take(banks.len() as int) =~= banks);
    crate::arith::law_alignment_is_divisibility(memory.slot_a_base, vector_alignment);
    lemma_ram_fault(banks, 0);
    if ram_error(banks, 0) is Some {
        let error = ram_error(banks, 0)->0;
        let i = choose|i: int|
            0 <= i < banks.len() && #[trigger] ram_region_error(banks, i) == Some(error);
        lemma_total_grows(banks, i + 1, banks.len() as int);
        if overlaps_earlier(banks, i) {
            let j = choose|j: int| 0 <= j < i && #[trigger] regions_overlap(banks, j, i);
            assert(banks[j].base < banks[i].base + banks[i].size);
        }
    }
}

proof fn lemma_outside_fault(regions: Seq<MemoryRegion>, base: int, end: int, from: int)
    requires
        0 <= from,
    ensures
        outside_ram(regions, base, end, from) matches Some(i) ==> from <= i < regions.len() && (
        regions[i].base < base || regions[i].base + regions[i].size > end),
    decreases regions.len() - from,
{
    if from < regions.len() {
        lemma_outside_fault(regions, base, end, from + 1);
    }
}

/// What a layout is refused for on a part is wrong with it there, and what a
/// part's definition is refused for is wrong with that.
pub proof fn law_parts_are_refused_for_what_is_wrong(
    architecture: Architecture,
    mcu: McuDescriptor,
    memory: MemoryLayout,
)
    requires
        memory.ram_regions@.len() <= usize::MAX,
    ensures
        match architecture.mcu_error(mcu, memory) {
            None => true,
            Some(McuError::Definition(error)) => mcu.definition_error() == Some(error),
            Some(McuError::Architecture) => mcu.architecture != architecture.kind,
            Some(McuError::Memory(error)) => memory.error(architecture.vector_alignment as int)
                == Some(error),
            Some(McuError::FlashCapacity) => memory.flash_size > mcu.flash_size,
            Some(McuError::FlashBase) => memory.flash_base != mcu.flash_base,
            Some(McuError::RamOutside(i)) => {
                let bank = memory.ram_regions@[i as int];
                i < memory.ram_regions@.len() && (bank.base < mcu.ram_base || bank.base + bank.size
                    > mcu.ram_base + mcu.ram_size)
            },
            Some(McuError::RamCapacity) => sum_of(sizes_of(memory.ram_regions@)) > mcu.ram_size,
            Some(McuError::Geometry) => memory.erase_size != mcu.erase_size
                || memory.write_alignment != mcu.write_alignment,
        },
        match mcu.definition_error() {
            None => true,
            Some(DescriptorError::EmptyName) => mcu.name@.len() == 0,
            Some(DescriptorError::CoreModel) => mcu.core_model@.len() < 8 || mcu.core_model@.take(8)
                != "cortex-m"@,
            Some(DescriptorError::PlatformFile) => mcu.platform_file@.len() == 0
                || mcu.platform_file@[0] == '/' || split(mcu.platform_file@, '/').contains(
                seq!['.', '.'],
            ),
            Some(DescriptorError::FlashProfile) => mcu.flash_profile@ != "stm32g4"@
                && mcu.flash_profile@ != "stm32h5"@ && mcu.flash_profile@ != "stm32u5"@,
            Some(DescriptorError::Geometry) => mcu.flash_size == 0 || mcu.ram_size == 0 || !is_pow2(
                mcu.erase_size as int,
            ) || !is_pow2(mcu.write_alignment as int),
        },
{
    let banks = memory.ram_regions@;
    reveal_strlit("cortex-m");
    lemma_parent_parts(mcu.platform_file@);
    let model = mcu.core_model@;
    if model.len() >= 8 {
        assert(model.take(8) =~= model.subrange(0, 8));
    }
    lemma_total(banks, banks.len() as int);
    assert(banks.take(banks.len() as int) =~= banks);
    lemma_outside_fault(banks, mcu.ram_base as int, mcu.ram_base + mcu.ram_size, 0);
}

} // verus!
