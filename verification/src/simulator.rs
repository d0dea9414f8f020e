//! Simulating one board: checking its layout against its images, and bringing
//! what was executed, exercised and interrupted together in one report.

use vstd::arithmetic::power2::is_pow2;
use vstd::prelude::*;

use crate::architecture::{
    lemma_total, sizes_of, sum_of, total_size, Architecture, ArchitectureKind, McuDescriptor,
    McuError, MemoryError,
};
use crate::debug::CrashDiagnostic;
use crate::elf::{
    elf_error, is_stack_top, le32, lemma_number_at, number_at, stack_in, stack_top, validate_elf,
    ElfError,
};
use crate::execution::{factory_vector, ExecutionReport, OtaPowerCutReport};
use crate::layout::{
    BoardLayout, BootImage, BootOutcome, MemoryLayout, MemoryProbe, MemoryRegion, ResolveError,
};
use crate::machine::{validate_machine_config, MachineError};
use crate::peripherals::{exercise_all, specs_error, DeviceReport, PeripheralFault, PeripheralSpec};
use crate::text::{chars_of, contains, dec, has_text, hex8, same_text, texts, Text};
use crate::traffic::{TrafficConfig, TrafficError, TrafficReport};
use crate::update::{
    digest_text, interruption_matrix, update_error, Update, UpdateError, UpdateReport,
};

verus! {

#[derive(Debug)]
pub struct SimulationReport {
    pub board: String,
    pub architecture: ArchitectureKind,
    pub firmware_bytes: usize,
    pub bootloader_bytes: usize,
    pub factory_bytes: usize,
    pub ota_bytes: Option<usize>,
    pub physical_flash_bytes: u64,
    pub physical_ram_bytes: u64,
    pub physical_ram_regions: Vec<MemoryRegion>,
    pub devices: Vec<DeviceReport>,
    pub traffic: TrafficReport,
    pub update: UpdateReport,
    pub execution: ExecutionReport,
    pub fidelity: HardwareFidelityReport,
}

#[derive(Debug)]
pub struct HardwareFidelityReport {
    pub exact_mcu: String,
    pub arm_instructions_executed: bool,
    pub factory_vectors_used_for_reset: bool,
    pub instruction_coupled_faults: bool,
    pub all_flash_operation_boundaries_modeled: bool,
    pub updater_and_reboot_executed_at_each_cut: bool,
    pub dynamic_rcc_clock_tree: bool,
    pub strict_unknown_mmio: bool,
    pub dma_data_path: bool,
    pub trustzone_attribution: bool,
    pub trustzone_core_enabled: bool,
    pub usb_sdmmc_ota_adapters: bool,
    pub gpio_pull_and_open_drain_behavior: bool,
    pub limitations: Vec<String>,
}

/// What the artifacts of a layout hold.
#[derive(Debug)]
pub struct Images {
    pub firmware_elf: Vec<u8>,
    pub bootloader_elf: Vec<u8>,
    pub firmware: Vec<u8>,
    pub bootloader: Vec<u8>,
    pub factory: Vec<u8>,
    pub ota: Option<Vec<u8>>,
    pub updated_firmware: Option<Vec<u8>>,
}

// ---------------------------------------------------------------------------
// Validation
// ---------------------------------------------------------------------------

#[derive(Clone, Copy, Debug, PartialEq, Eq, Structural)]
pub enum ValidationError {
    Name,
    Resolve(ResolveError),
    Mcu(McuError),
    FirmwareElf(ElfError),
    BootloaderElf(ElfError),
    BootloaderSize,
    BootloaderEmpty,
    FirmwareEmpty,
    FirmwareSize,
    FactorySize,
    FactoryPersistent,
    FactoryVector,
    FactoryStack(u32),
    FactoryReset(u32),
    PackageEmpty,
    UpdatedEmpty,
    UpdatedSize,
    Machine(MachineError),
    StackProbe,
}

impl ValidationError {
    /// `layout` and `catalog` are those that gave the error.
    pub open spec fn text(self, layout: BoardLayout, catalog: Seq<McuDescriptor>) -> Seq<char> {
        match self {
            ValidationError::Name => "board name cannot be empty"@,
            ValidationError::Resolve(error) => error.text(layout, catalog),
            ValidationError::Mcu(error) => match layout.descriptor_in(catalog) {
                Ok(mcu) => error.text(mcu, layout.architecture, layout.memory),
                Err(error) => error.text(layout, catalog),
            },
            ValidationError::FirmwareElf(error) => error.text("firmware"@),
            ValidationError::BootloaderElf(error) => error.text("bootloader"@),
            ValidationError::BootloaderSize => "bootloader exceeds partition"@,
            ValidationError::BootloaderEmpty => "bootloader image is empty"@,
            ValidationError::FirmwareEmpty => "firmware image is empty"@,
            ValidationError::FirmwareSize => "firmware exceeds slot A"@,
            ValidationError::FactorySize => "factory image exceeds flash"@,
            ValidationError::FactoryPersistent =>
                "factory image extends into the persistent data area"@,
            ValidationError::FactoryVector => "factory image has no reset vector"@,
            ValidationError::FactoryStack(stack) => "factory initial MSP 0x"@ + hex8(stack as nat)
                + " is outside physical RAM"@,
            ValidationError::FactoryReset(reset) => "factory reset handler 0x"@ + hex8(
                reset as nat,
            ) + " is not Thumb code in physical flash"@,
            ValidationError::PackageEmpty => "OTA package is empty"@,
            ValidationError::UpdatedEmpty => "updated firmware image is empty"@,
            ValidationError::UpdatedSize => "updated firmware exceeds slot A"@,
            ValidationError::Machine(error) => error.text(layout),
            ValidationError::StackProbe =>
                "execution requires a stack probe with a positive minimum"@,
        }
    }

    /// What this speaks of is there.
    pub open spec fn of(self, layout: BoardLayout) -> bool {
        match self {
            ValidationError::Mcu(error) => error.of(layout.memory),
            ValidationError::Machine(error) => error.of(layout),
            _ => true,
        }
    }

    pub fn message(self, layout: &BoardLayout, catalog: &[McuDescriptor]) -> (res: String)
        requires
            self.of(*layout),
        ensures
            res@ == self.text(*layout, catalog@),
    {
        match self {
            ValidationError::Name => Text::new("board name cannot be empty").done(),
            ValidationError::Resolve(error) => error.message(layout, catalog),
            ValidationError::Mcu(error) => match layout.resolve_mcu_descriptor(catalog) {
                Ok(mcu) => error.message(mcu, layout.architecture, &layout.memory),
                Err(error) => error.message(layout, catalog),
            },
            ValidationError::FirmwareElf(error) => error.message("firmware"),
            ValidationError::BootloaderElf(error) => error.message("bootloader"),
            ValidationError::BootloaderSize => Text::new("bootloader exceeds partition").done(),
            ValidationError::BootloaderEmpty => Text::new("bootloader image is empty").done(),
            ValidationError::FirmwareEmpty => Text::new("firmware image is empty").done(),
            ValidationError::FirmwareSize => Text::new("firmware exceeds slot A").done(),
            ValidationError::FactorySize => Text::new("factory image exceeds flash").done(),
            ValidationError::FactoryPersistent => Text::new(
                "factory image extends into the persistent data area",
            ).done(),
            ValidationError::FactoryVector => Text::new(
                "factory image has no reset vector",
            ).done(),
            ValidationError::FactoryStack(stack) => Text::new("factory initial MSP 0x").hex8(
                stack as u64,
            ).str(" is outside physical RAM").done(),
            ValidationError::FactoryReset(reset) => Text::new("factory reset handler 0x").hex8(
                reset as u64,
            ).str(" is not Thumb code in physical flash").done(),
            ValidationError::PackageEmpty => Text::new("OTA package is empty").done(),
            ValidationError::UpdatedEmpty => Text::new("updated firmware image is empty").done(),
            ValidationError::UpdatedSize => Text::new("updated firmware exceeds slot A").done(),
            ValidationError::Machine(error) => error.message(layout),
            ValidationError::StackProbe => Text::new(
                "execution requires a stack probe with a positive minimum",
            ).done(),
        }
    }
}

pub open spec fn vector_alignment() -> int {
    0x200
}

impl BoardLayout {
    /// Why the layout is not placed on the part that it names.
    pub open spec fn part_error(&self, catalog: Seq<McuDescriptor>) -> Option<ValidationError> {
        if self.name@.len() == 0 {
            Some(ValidationError::Name)
        } else {
            match self.descriptor_in(catalog) {
                Err(error) => Some(ValidationError::Resolve(error)),
                Ok(mcu) => match part_mcu_error(mcu, self.architecture, self.memory) {
                    Some(error) => Some(ValidationError::Mcu(error)),
                    None => None,
                },
            }
        }
    }
}

/// Why a memory layout does not fit a part.
pub open spec fn part_mcu_error(
    mcu: McuDescriptor,
    kind: ArchitectureKind,
    memory: MemoryLayout,
) -> Option<McuError> {
    (Architecture {
        kind,
        vector_alignment: vector_alignment() as u64,
        default_flash_size: 0,
        default_ram_size: 0,
    }).mcu_error(mcu, memory)
}

/// The factory image reaches into the settings that a reflash keeps.
pub open spec fn reaches_settings(memory: MemoryLayout, factory: int) -> bool {
    memory.persistent_data_base matches Some(base) && memory.flash_base + factory > base
}

impl Images {
    /// Why these images are not those of a board with this memory, the first
    /// reason found.
    pub open spec fn error(&self, memory: MemoryLayout) -> Option<ValidationError> {
        let stack = le32(self.factory@, 0);
        let reset = le32(self.factory@, 4);
        if elf_error(self.firmware_elf@, memory) is Some {
            Some(ValidationError::FirmwareElf(elf_error(self.firmware_elf@, memory)->0))
        } else if elf_error(self.bootloader_elf@, memory) is Some {
            Some(ValidationError::BootloaderElf(elf_error(self.bootloader_elf@, memory)->0))
        } else if self.bootloader@.len() > memory.bootloader_size {
            Some(ValidationError::BootloaderSize)
        } else if self.bootloader@.len() == 0 {
            Some(ValidationError::BootloaderEmpty)
        } else if self.firmware@.len() == 0 {
            Some(ValidationError::FirmwareEmpty)
        } else if self.firmware@.len() > memory.slot_a_size {
            Some(ValidationError::FirmwareSize)
        } else if self.factory@.len() > memory.flash_size {
            Some(ValidationError::FactorySize)
        } else if reaches_settings(memory, self.factory@.len() as int) {
            Some(ValidationError::FactoryPersistent)
        } else if self.factory@.len() < 8 {
            Some(ValidationError::FactoryVector)
        } else if !stack_top(stack, memory) {
            Some(ValidationError::FactoryStack(stack as u32))
        } else if !(reset % 2 == 1 && memory.flash_base <= reset < memory.flash_base
            + memory.flash_size) {
            Some(ValidationError::FactoryReset(reset as u32))
        } else if self.ota matches Some(ota) && ota@.len() == 0 {
            Some(ValidationError::PackageEmpty)
        } else if self.updated_firmware matches Some(updated) && updated@.len() == 0 {
            Some(ValidationError::UpdatedEmpty)
        } else if self.updated_firmware matches Some(updated) && updated@.len()
            > memory.slot_a_size {
            Some(ValidationError::UpdatedSize)
        } else {
            None
        }
    }
}

/// Why a board is not simulated, the first reason found.
pub open spec fn validation_error(
    layout: BoardLayout,
    catalog: Seq<McuDescriptor>,
    images: Images,
) -> Option<ValidationError> {
    if layout.part_error(catalog) is Some {
        layout.part_error(catalog)
    } else if images.error(layout.memory) is Some {
        images.error(layout.memory)
    } else {
        match layout.machine_error(layout.descriptor_in(catalog)->Ok_0) {
            Some(error) => Some(ValidationError::Machine(error)),
            None => if !layout.execution.stack_probe_satisfied() {
                Some(ValidationError::StackProbe)
            } else {
                None
            },
        }
    }
}

/// Checks that the layout is placed on the part that it names, before any of
/// its images is read.
pub fn validate_part<'a>(layout: &'a BoardLayout, catalog: &'a [McuDescriptor]) -> (res: Result<
    &'a McuDescriptor,
    ValidationError,
>)
    ensures
        match layout.part_error(catalog@) {
            Some(error) => res == Err::<&McuDescriptor, ValidationError>(error) && error.of(
                *layout,
            ),
            None => res matches Ok(mcu) && layout.descriptor_in(catalog@) == Ok::<
                McuDescriptor,
                ResolveError,
            >(*mcu),
        },
{
    if layout.name.as_str().is_empty() {
        return Err(ValidationError::Name);
    }
    let mcu = match layout.resolve_mcu_descriptor(catalog) {
        Ok(mcu) => mcu,
        Err(error) => {
            return Err(ValidationError::Resolve(error));
        },
    };
    match Architecture::for_kind(layout.architecture).validate_mcu(mcu, &layout.memory) {
        Ok(()) => Ok(mcu),
        Err(error) => Err(ValidationError::Mcu(error)),
    }
}

proof fn lemma_part_fits(layout: BoardLayout, catalog: Seq<McuDescriptor>)
    requires
        layout.part_error(catalog) is None,
    ensures
        layout.memory.error(vector_alignment()) is None,
        layout.memory.ranges_fit(),
        layout.memory.erase_size > 0,
        layout.memory.write_alignment > 0,
        total_size(layout.memory.ram_regions@, layout.memory.ram_regions@.len() as int)
            <= u64::MAX,
{
    crate::architecture::law_partitions_in_flash(layout.memory, vector_alignment());
    crate::architecture::law_ram_banks_are_disjoint(layout.memory, vector_alignment());
    crate::architecture::lemma_geometry_is_positive(layout.memory, vector_alignment());
}

fn check_factory(factory: &[u8], memory: &MemoryLayout) -> (res: Result<(), ValidationError>)
    requires
        memory.flash_base + memory.flash_size <= u64::MAX,
    ensures
        ({
            let stack = le32(factory@, 0);
            let reset = le32(factory@, 4);
            let error = if factory@.len() > memory.flash_size {
                Some(ValidationError::FactorySize)
            } else if reaches_settings(*memory, factory@.len() as int) {
                Some(ValidationError::FactoryPersistent)
            } else if factory@.len() < 8 {
                Some(ValidationError::FactoryVector)
            } else if !stack_top(stack, *memory) {
                Some(ValidationError::FactoryStack(stack as u32))
            } else if !(reset % 2 == 1 && memory.flash_base <= reset < memory.flash_base
                + memory.flash_size) {
                Some(ValidationError::FactoryReset(reset as u32))
            } else {
                None
            };
            match error {
                Some(error) => res == Err::<(), ValidationError>(error),
                None => res is Ok,
            }
        }),
{
    if factory.len() as u64 > memory.flash_size {
        return Err(ValidationError::FactorySize);
    }
    if let Some(base) = memory.persistent_data_base {
        if memory.flash_base + factory.len() as u64 > base {
            return Err(ValidationError::FactoryPersistent);
        }
    }
    let (stack, reset): (u32, u32) = match factory_vector(factory) {
        Some(vector) => vector,
        None => {
            return Err(ValidationError::FactoryVector);
        },
    };
    if !is_stack_top(stack, memory) {
        return Err(ValidationError::FactoryStack(stack));
    }
    let handler: u64 = reset as u64;
    if !(handler % 2 == 1 && handler >= memory.flash_base && handler < memory.flash_base
        + memory.flash_size) {
        return Err(ValidationError::FactoryReset(reset));
    }
    Ok(())
}

impl Images {
    /// Holds the images to the memory of the board.
    pub fn check(&self, memory: &MemoryLayout) -> (res: Result<(), ValidationError>)
        requires
            memory.flash_base + memory.flash_size <= u64::MAX,
        ensures
            match self.error(*memory) {
                Some(error) => res == Err::<(), ValidationError>(error) && !(error is Mcu)
                    && !(error is Machine),
                None => res is Ok,
            },
    {
        match validate_elf(self.firmware_elf.as_slice(), memory) {
            Ok(()) => {},
            Err(error) => {
                return Err(ValidationError::FirmwareElf(error));
            },
        }
        match validate_elf(self.bootloader_elf.as_slice(), memory) {
            Ok(()) => {},
            Err(error) => {
                return Err(ValidationError::BootloaderElf(error));
            },
        }
        if self.bootloader.len() as u64 > memory.bootloader_size {
            return Err(ValidationError::BootloaderSize);
        }
        if self.bootloader.len() == 0 {
            return Err(ValidationError::BootloaderEmpty);
        }
        if self.firmware.len() == 0 {
            return Err(ValidationError::FirmwareEmpty);
        }
        if self.firmware.len() as u64 > memory.slot_a_size {
            return Err(ValidationError::FirmwareSize);
        }
        match check_factory(self.factory.as_slice(), memory) {
            Ok(()) => {},
            Err(error) => {
                return Err(error);
            },
        }
        if let Some(ota) = &self.ota {
            if ota.len() == 0 {
                return Err(ValidationError::PackageEmpty);
            }
        }
        if let Some(updated) = &self.updated_firmware {
            if updated.len() == 0 {
                return Err(ValidationError::UpdatedEmpty);
            }
            if updated.len() as u64 > memory.slot_a_size {
                return Err(ValidationError::UpdatedSize);
            }
        }
        Ok(())
    }
}

/// Checks a layout and its images.
pub fn validate(layout: &BoardLayout, catalog: &[McuDescriptor], images: &Images) -> (res: Result<
    (),
    ValidationError,
>)
    ensures
        match validation_error(*layout, catalog@, *images) {
            Some(error) => res == Err::<(), ValidationError>(error) && error.of(*layout),
            None => res is Ok,
        },
{
    let mcu = match validate_part(layout, catalog) {
        Ok(mcu) => mcu,
        Err(error) => {
            return Err(error);
        },
    };
    proof {
        lemma_part_fits(*layout, catalog@);
    }
    match images.check(&layout.memory) {
        Ok(()) => {},
        Err(error) => {
            return Err(error);
        },
    }
    match validate_machine_config(layout, mcu) {
        Ok(()) => {},
        Err(error) => {
            return Err(ValidationError::Machine(error));
        },
    }
    if !layout.execution.satisfies_stack_probe_requirement() {
        return Err(ValidationError::StackProbe);
    }
    Ok(())
}

/// Accepted images keep to their partitions: the bootloader to its own, both
/// applications to slot A, and the factory image to flash before the settings.
/// The factory image starts as Thumb code in flash with a stack in RAM, and
/// both ELF files are placed in the board's memory.
pub proof fn law_accepted_images_keep_to_their_partitions(
    layout: BoardLayout,
    catalog: Seq<McuDescriptor>,
    images: Images,
)
    requires
        validation_error(layout, catalog, images) is None,
    ensures
        0 < images.bootloader@.len() <= layout.memory.bootloader_size,
        0 < images.firmware@.len() <= layout.memory.slot_a_size,
        images.updated_firmware matches Some(updated) ==> 0 < updated@.len()
            <= layout.memory.slot_a_size,
        images.ota matches Some(ota) ==> ota@.len() > 0,
        8 <= images.factory@.len() <= layout.memory.flash_size,
        layout.memory.persistent_data_base matches Some(base) ==> layout.memory.flash_base
            + images.factory@.len() <= base,
        stack_top(le32(images.factory@, 0), layout.memory),
        layout.memory.flash_base <= le32(images.factory@, 4) < layout.memory.flash_end(),
        le32(images.factory@, 4) % 2 == 1,
        elf_error(images.firmware_elf@, layout.memory) is None,
        elf_error(images.bootloader_elf@, layout.memory) is None,
{
}

// ---------------------------------------------------------------------------
// Updates
// ---------------------------------------------------------------------------

/// `image` with one bit changed in its middle.
pub open spec fn mutated(image: Seq<u8>) -> Seq<u8> {
    image.update(image.len() as int / 2, image[image.len() as int / 2] ^ 1)
}

impl Images {
    /// The next application: the real one, or the installed one with one bit
    /// changed.
    pub open spec fn next_image(&self) -> Seq<u8> {
        match self.updated_firmware {
            Some(updated) => updated@,
            None => mutated(self.firmware@),
        }
    }

    /// What is sent to the board.
    pub open spec fn transfer(&self) -> Seq<u8> {
        match self.ota {
            Some(ota) => ota@,
            None => self.next_image(),
        }
    }
}

/// The mutated image differs from the installed one, in one bit.
pub proof fn law_mutated_image_differs(image: Seq<u8>)
    requires
        image.len() > 0,
    ensures
        mutated(image) != image,
        mutated(image).len() == image.len(),
        forall|i: int|
            0 <= i < image.len() && i != image.len() as int / 2 ==> #[trigger] mutated(image)[i]
                == image[i],
{
    let byte = image[image.len() as int / 2];
    assert(byte ^ 1 != byte) by (bit_vector);
    assert(mutated(image)[image.len() as int / 2] == byte ^ 1);
}

fn mutate(image: &[u8]) -> (res: Vec<u8>)
    requires
        image@.len() > 0,
    ensures
        res@ == mutated(image@),
{
    let mut copy: Vec<u8> = vstd::slice::slice_to_vec(image);
    let middle: usize = image.len() / 2;
    let byte: u8 = copy[middle];
    copy.set(middle, byte ^ 1);
    assert(copy@ =~= mutated(image@));
    copy
}

/// Interrupts the update of these images at every flash operation.
pub fn interrupt_update(layout: &BoardLayout, images: &Images) -> (res: Result<
    UpdateReport,
    UpdateError,
>)
    requires
        layout.memory.erase_size > 0,
        layout.memory.write_alignment > 0,
        images.firmware@.len() > 0,
        images.transfer().len() + 2 * images.next_image().len() < usize::MAX,
    ensures
        match update_error(
            images.firmware@,
            images.next_image(),
            images.transfer(),
            layout.memory,
            layout.ota.chunk_size as int,
        ) {
            Some(error) => res == Err::<UpdateReport, UpdateError>(error),
            None => {
                &&& res matches Ok(report)
                &&& (UpdateReport { updated_image_from_artifact: false, ..report }).of(
                    Update::of(
                        images.firmware@,
                        images.next_image(),
                        images.transfer(),
                        layout.memory,
                        layout.ota.chunk_size as int,
                    ),
                )
                &&& report.updated_image_from_artifact == images.updated_firmware is Some
            },
        },
{
    let fallback: Vec<u8> = mutate(images.firmware.as_slice());
    let updated: &[u8] = match &images.updated_firmware {
        Some(updated) => updated.as_slice(),
        None => fallback.as_slice(),
    };
    let transfer: &[u8] = match &images.ota {
        Some(ota) => ota.as_slice(),
        None => updated,
    };
    match interruption_matrix(
        images.firmware.as_slice(),
        updated,
        transfer,
        &layout.memory,
        layout.ota.chunk_size,
    ) {
        Ok(report) => {
            let mut report = report;
            report.updated_image_from_artifact = images.updated_firmware.is_some();
            Ok(report)
        },
        Err(error) => Err(error),
    }
}

// ---------------------------------------------------------------------------
// Power cuts of the firmware's own update
// ---------------------------------------------------------------------------

#[derive(Clone, Copy, Debug, PartialEq, Eq, Structural)]
pub enum TallyError {
    NoOperations,
    Untested { tested: usize, operations: u64 },
    UnknownOutcome,
}

impl TallyError {
    pub open spec fn text(self) -> Seq<char> {
        match self {
            TallyError::NoOperations => "firmware OTA did not report flash operations"@,
            TallyError::Untested { tested, operations } => "firmware OTA tested "@ + dec(
                tested as nat,
            ) + " of "@ + dec(operations as nat) + " flash cut points"@,
            TallyError::UnknownOutcome => "power-cut report references an unknown outcome"@,
        }
    }

    pub fn message(self) -> (res: String)
        ensures
            res@ == self.text(),
    {
        match self {
            TallyError::NoOperations => Text::new(
                "firmware OTA did not report flash operations",
            ).done(),
            TallyError::Untested { tested, operations } => Text::new("firmware OTA tested ").dec(
                tested as u64,
            ).str(" of ").dec(operations).str(" flash cut points").done(),
            TallyError::UnknownOutcome => Text::new(
                "power-cut report references an unknown outcome",
            ).done(),
        }
    }
}

/// The image behind the first outcome of this name, from `from` on.
pub open spec fn outcome_image(outcomes: Seq<BootOutcome>, name: Seq<char>, from: int) -> Option<
    BootImage,
>
    decreases outcomes.len() - from,
{
    if from < 0 || from >= outcomes.len() {
        None
    } else if outcomes[from].name@ == name {
        Some(outcomes[from].image)
    } else {
        outcome_image(outcomes, name, from + 1)
    }
}

/// How many of the first `end` cuts booted `image`.
pub open spec fn cut_points(
    outcomes: Seq<BootOutcome>,
    cuts: Seq<OtaPowerCutReport>,
    end: int,
    image: BootImage,
) -> int
    decreases end,
{
    if end <= 0 {
        0
    } else {
        cut_points(outcomes, cuts, end - 1, image) + if outcome_image(
            outcomes,
            cuts[end - 1].outcome@,
            0,
        ) == Some(image) {
            1int
        } else {
            0
        }
    }
}

/// Every cut took hold and was followed by a reboot.
pub open spec fn all_rebooted(cuts: Seq<OtaPowerCutReport>) -> bool {
    forall|i: int| 0 <= i < cuts.len() ==> rebooted(#[trigger] cuts[i])
}

pub open spec fn rebooted(cut: OtaPowerCutReport) -> bool {
    cut.power_cut_triggered && cut.reboot_executed
}

/// Some cut, from `from` on, ended in an outcome that is not configured.
pub open spec fn has_unknown(
    outcomes: Seq<BootOutcome>,
    cuts: Seq<OtaPowerCutReport>,
    from: int,
) -> bool
    decreases cuts.len() - from,
{
    if from < 0 || from >= cuts.len() {
        false
    } else {
        outcome_image(outcomes, cuts[from].outcome@, 0) is None || has_unknown(
            outcomes,
            cuts,
            from + 1,
        )
    }
}

pub open spec fn tally_error(layout: BoardLayout, execution: ExecutionReport) -> Option<
    TallyError,
> {
    let cuts = execution.ota_power_cuts@;
    match execution.flash_operations_observed {
        None => Some(TallyError::NoOperations),
        Some(operations) => if layout.ota.power_cuts.every_flash_operation && cuts.len()
            != operations {
            Some(TallyError::Untested { tested: cuts.len() as usize, operations })
        } else if has_unknown(layout.ota.outcomes@, cuts, 0) {
            Some(TallyError::UnknownOutcome)
        } else {
            None
        },
    }
}

impl BoardLayout {
    /// The firmware's own update is repeated with power cuts.
    pub open spec fn cuts_power(&self) -> bool {
        self.ota.firmware_driven && self.ota.power_cuts.requested()
    }

    pub fn needs_power_cuts(&self) -> (res: bool)
        ensures
            res == self.cuts_power(),
    {
        self.ota.firmware_driven && (self.ota.power_cuts.every_flash_operation
            || self.ota.power_cuts.events.len() > 0)
    }
}

/// The boundaries that booted `image`: one for each cut, and one for the
/// update that ran through.
pub open spec fn boot_points(
    layout: BoardLayout,
    execution: ExecutionReport,
    image: BootImage,
) -> int {
    let outcomes = layout.ota.outcomes@;
    let completed = match execution.ota_outcome {
        Some(name) => outcome_image(outcomes, name@, 0),
        None => None,
    };
    cut_points(
        outcomes,
        execution.ota_power_cuts@,
        execution.ota_power_cuts@.len() as int,
        image,
    ) + if completed == Some(image) {
        1int
    } else {
        0
    }
}

impl UpdateReport {
    /// `before`, with what the executed power cuts showed in place of what the
    /// flash model predicts.
    pub open spec fn tallied(
        self,
        before: UpdateReport,
        layout: BoardLayout,
        execution: ExecutionReport,
    ) -> bool {
        &&& self.strategy == before.strategy
        &&& self.chunks == before.chunks
        &&& self.original_sha256 == before.original_sha256
        &&& self.updated_sha256 == before.updated_sha256
        &&& self.updated_image_from_artifact == before.updated_image_from_artifact
        &&& self.interruption_points_tested == execution.ota_power_cuts@.len() + 1
        &&& self.old_image_boot_points == boot_points(layout, execution, BootImage::Old)
        &&& self.new_image_boot_points == boot_points(layout, execution, BootImage::New)
        &&& self.recovery_required_points == boot_points(layout, execution, BootImage::Recovery)
        &&& self.cpu_reboots_executed == all_rebooted(execution.ota_power_cuts@)
        &&& self.all_flash_operation_boundaries_tested == (
        layout.ota.power_cuts.every_flash_operation && self.cpu_reboots_executed)
    }
}

fn find_outcome_image(outcomes: &[BootOutcome], name: &str) -> (res: Option<BootImage>)
    ensures
        res == outcome_image(outcomes@, name@, 0),
{
    let mut i: usize = 0;
    while i < outcomes.len()
        invariant
            i <= outcomes@.len(),
            outcome_image(outcomes@, name@, 0) == outcome_image(outcomes@, name@, i as int),
        decreases outcomes@.len() - i,
    {
        if same_text(outcomes[i].name.as_str(), name) {
            return Some(outcomes[i].image);
        }
        i = i + 1;
    }
    None
}

struct Points {
    old: usize,
    new: usize,
    recovery: usize,
}

impl Points {
    spec fn of(self, outcomes: Seq<BootOutcome>, cuts: Seq<OtaPowerCutReport>, end: int) -> bool {
        &&& self.old == cut_points(outcomes, cuts, end, BootImage::Old)
        &&& self.new == cut_points(outcomes, cuts, end, BootImage::New)
        &&& self.recovery == cut_points(outcomes, cuts, end, BootImage::Recovery)
    }

    fn count(self, image: BootImage) -> (res: Points)
        requires
            self.old < usize::MAX,
            self.new < usize::MAX,
            self.recovery < usize::MAX,
        ensures
            res.old == self.old + if image == BootImage::Old {
                1int
            } else {
                0
            },
            res.new == self.new + if image == BootImage::New {
                1int
            } else {
                0
            },
            res.recovery == self.recovery + if image == BootImage::Recovery {
                1int
            } else {
                0
            },
    {
        match image {
            BootImage::Old => Points { old: self.old + 1, ..self },
            BootImage::New => Points { new: self.new + 1, ..self },
            BootImage::Recovery => Points { recovery: self.recovery + 1, ..self },
        }
    }
}

proof fn lemma_cut_points(
    outcomes: Seq<BootOutcome>,
    cuts: Seq<OtaPowerCutReport>,
    end: int,
    image: BootImage,
)
    requires
        0 <= end,
    ensures
        0 <= cut_points(outcomes, cuts, end, image) <= end,
    decreases end,
{
    if end > 0 {
        lemma_cut_points(outcomes, cuts, end - 1, image);
    }
}

/// Puts what the executed power cuts showed in place of what the flash model
/// predicts.
pub fn tally_power_cuts(
    layout: &BoardLayout,
    execution: &ExecutionReport,
    update: UpdateReport,
) -> (res: Result<UpdateReport, TallyError>)
    requires
        execution.ota_power_cuts@.len() < usize::MAX,
    ensures
        if !layout.cuts_power() {
            res == Ok::<UpdateReport, TallyError>(update)
        } else {
            match tally_error(*layout, *execution) {
                Some(error) => res == Err::<UpdateReport, TallyError>(error),
                None => res matches Ok(report) && report.tallied(update, *layout, *execution),
            }
        },
{
    let every = layout.ota.power_cuts.every_flash_operation;
    if !layout.needs_power_cuts() {
        return Ok(update);
    }
    let outcomes = layout.ota.outcomes.as_slice();
    let cuts = execution.ota_power_cuts.as_slice();
    let operations: u64 = match execution.flash_operations_observed {
        Some(operations) => operations,
        None => {
            return Err(TallyError::NoOperations);
        },
    };
    if every && cuts.len() as u64 != operations {
        return Err(TallyError::Untested { tested: cuts.len(), operations });
    }
    let mut points = Points { old: 0, new: 0, recovery: 0 };
    let mut reboots = true;
    let mut i: usize = 0;
    while i < cuts.len()
        invariant
            i <= cuts@.len() < usize::MAX,
            layout.cuts_power(),
            outcomes@ == layout.ota.outcomes@,
            cuts@ == execution.ota_power_cuts@,
            execution.flash_operations_observed == Some(operations),
            layout.ota.power_cuts.every_flash_operation ==> cuts@.len() == operations,
            points.of(outcomes@, cuts@, i as int),
            reboots == forall|k: int| 0 <= k < i ==> rebooted(#[trigger] cuts@[k]),
            has_unknown(outcomes@, cuts@, 0) == has_unknown(outcomes@, cuts@, i as int),
        decreases cuts@.len() - i,
    {
        let cut = &cuts[i];
        proof {
            lemma_cut_points(outcomes@, cuts@, i as int, BootImage::Old);
            lemma_cut_points(outcomes@, cuts@, i as int, BootImage::New);
            lemma_cut_points(outcomes@, cuts@, i as int, BootImage::Recovery);
        }
        match find_outcome_image(outcomes, cut.outcome.as_str()) {
            Some(image) => {
                points = points.count(image);
            },
            None => {
                return Err(TallyError::UnknownOutcome);
            },
        }
        let ghost before = reboots;
        reboots = reboots && cut.power_cut_triggered && cut.reboot_executed;
        i = i + 1;
        proof {
            if before && !reboots {
                assert(!rebooted(cuts@[i - 1]));
            }
        }
    }
    proof {
        lemma_cut_points(outcomes@, cuts@, i as int, BootImage::Old);
        lemma_cut_points(outcomes@, cuts@, i as int, BootImage::New);
        lemma_cut_points(outcomes@, cuts@, i as int, BootImage::Recovery);
    }
    if let Some(name) = &execution.ota_outcome {
        if let Some(image) = find_outcome_image(outcomes, name.as_str()) {
            points = points.count(image);
        }
    }
    let mut report = update;
    report.interruption_points_tested = cuts.len() + 1;
    report.old_image_boot_points = points.old;
    report.new_image_boot_points = points.new;
    report.recovery_required_points = points.recovery;
    report.cpu_reboots_executed = reboots;
    report.all_flash_operation_boundaries_tested = every && reboots;
    Ok(report)
}

proof fn lemma_known_cuts(
    outcomes: Seq<BootOutcome>,
    cuts: Seq<OtaPowerCutReport>,
    from: int,
    end: int,
)
    requires
        0 <= from <= end <= cuts.len(),
        !has_unknown(outcomes, cuts, from),
    ensures
        forall|i: int|
            from <= i < end ==> outcome_image(outcomes, (#[trigger] cuts[i]).outcome@, 0) is Some,
    decreases end - from,
{
    if from < end {
        lemma_known_cuts(outcomes, cuts, from + 1, end);
    }
}

proof fn lemma_cuts_add_up(outcomes: Seq<BootOutcome>, cuts: Seq<OtaPowerCutReport>, end: int)
    requires
        0 <= end <= cuts.len(),
        forall|i: int|
            0 <= i < end ==> outcome_image(outcomes, (#[trigger] cuts[i]).outcome@, 0) is Some,
    ensures
        cut_points(outcomes, cuts, end, BootImage::Old) + cut_points(
            outcomes,
            cuts,
            end,
            BootImage::New,
        ) + cut_points(outcomes, cuts, end, BootImage::Recovery) == end,
    decreases end,
{
    if end > 0 {
        lemma_cuts_add_up(outcomes, cuts, end - 1);
        match outcome_image(outcomes, cuts[end - 1].outcome@, 0)->0 {
            BootImage::Old => {},
            BootImage::New => {},
            BootImage::Recovery => {},
        }
    }
}

/// Where the update ran through to a configured outcome, every tested boundary
/// is counted once: the three counts add up to the points tested.
pub proof fn law_every_cut_is_tallied(
    report: UpdateReport,
    before: UpdateReport,
    layout: BoardLayout,
    execution: ExecutionReport,
)
    requires
        report.tallied(before, layout, execution),
        tally_error(layout, execution) is None,
        execution.ota_outcome matches Some(name) && outcome_image(
            layout.ota.outcomes@,
            name@,
            0,
        ) is Some,
    ensures
        report.old_image_boot_points + report.new_image_boot_points
            + report.recovery_required_points == report.interruption_points_tested,
        layout.ota.power_cuts.every_flash_operation ==> report.interruption_points_tested
            == execution.flash_operations_observed->0 + 1,
{
    let cuts = execution.ota_power_cuts@;
    lemma_known_cuts(layout.ota.outcomes@, cuts, 0, cuts.len() as int);
    lemma_cuts_add_up(layout.ota.outcomes@, cuts, cuts.len() as int);
    match outcome_image(layout.ota.outcomes@, execution.ota_outcome->0@, 0)->0 {
        BootImage::Old => {},
        BootImage::New => {},
        BootImage::Recovery => {},
    }
}

// ---------------------------------------------------------------------------
// What the simulation covers
// ---------------------------------------------------------------------------

impl PeripheralSpec {
    /// The firmware itself meets this device's faults.
    pub open spec fn couples_faults(&self) -> bool {
        self.model is Some && (self.failure_every is Some || self.disconnect_after is Some)
    }
}

pub open spec fn any_coupled_faults(specs: Seq<PeripheralSpec>) -> bool {
    exists|i: int| 0 <= i < specs.len() && (#[trigger] specs[i]).couples_faults()
}

/// What the simulation does not show, whatever the board.
pub open spec fn standing_limitations() -> Seq<Seq<char>> {
    seq![
        "RCC ready/status behavior is deterministic; runtime PLL changes do not propagate through the full clock tree"@,
        "GPIO pull/open-drain behavior and configured ADC samples are modeled digitally; voltage ramps, impedance, metastability, EMI, and propagation timing require hardware tests"@,
        "H5/U5 cache maintenance is firmware-visible but does not simulate cache timing or stale-line coherency"@,
        "Cortex-M33 SAU attribution protects configured flash/RAM regions; STM32 GTZC peripheral/MPC register programming is not a complete model"@,
        "strict MMIO rejects unmapped addresses; implemented peripheral models may still return reset values for unsupported register offsets"@,
    ]
}

pub open spec fn limitations(rerun: bool) -> Seq<Seq<char>> {
    if rerun {
        standing_limitations()
    } else {
        standing_limitations().push(
            "the real updater and bootloader were not rerun at every flash operation; enable firmware_driven OTA and every_flash_operation to perform that matrix"@,
        )
    }
}

impl HardwareFidelityReport {
    pub open spec fn of(self, layout: BoardLayout, rerun: bool) -> bool {
        &&& self.exact_mcu@ == layout.mcu@
        &&& self.arm_instructions_executed
        &&& self.factory_vectors_used_for_reset
        &&& self.instruction_coupled_faults == any_coupled_faults(layout.peripherals@)
        &&& self.all_flash_operation_boundaries_modeled
        &&& self.updater_and_reboot_executed_at_each_cut == rerun
        &&& !self.dynamic_rcc_clock_tree
        &&& self.strict_unknown_mmio == layout.board.strict_mmio
        &&& self.dma_data_path == (layout.board.dma_routes@.len() > 0)
        &&& self.trustzone_attribution == (layout.board.security.trustzone
            && layout.board.security.secure_regions@.len() > 0)
        &&& self.trustzone_core_enabled == layout.board.security.trustzone
        &&& self.usb_sdmmc_ota_adapters
        &&& self.gpio_pull_and_open_drain_behavior
        &&& texts(self.limitations@) == limitations(rerun)
    }
}

fn has_coupled_faults(specs: &[PeripheralSpec]) -> (res: bool)
    ensures
        res == any_coupled_faults(specs@),
{
    let mut i: usize = 0;
    while i < specs.len()
        invariant
            i <= specs@.len(),
            forall|k: int| 0 <= k < i ==> !(#[trigger] specs@[k]).couples_faults(),
        decreases specs@.len() - i,
    {
        let spec = &specs[i];
        if spec.model.is_some() && (spec.failure_every.is_some()
            || spec.disconnect_after.is_some()) {
            assert(specs@[i as int].couples_faults());
            return true;
        }
        i = i + 1;
    }
    false
}

fn list_limitations(rerun: bool) -> (res: Vec<String>)
    ensures
        texts(res@) == limitations(rerun),
{
    let mut values: Vec<String> = Vec::new();
    values.push(
        "RCC ready/status behavior is deterministic; runtime PLL changes do not propagate through the full clock tree".to_owned(),
    );
    values.push(
        "GPIO pull/open-drain behavior and configured ADC samples are modeled digitally; voltage ramps, impedance, metastability, EMI, and propagation timing require hardware tests".to_owned(),
    );
    values.push(
        "H5/U5 cache maintenance is firmware-visible but does not simulate cache timing or stale-line coherency".to_owned(),
    );
    values.push(
        "Cortex-M33 SAU attribution protects configured flash/RAM regions; STM32 GTZC peripheral/MPC register programming is not a complete model".to_owned(),
    );
    values.push(
        "strict MMIO rejects unmapped addresses; implemented peripheral models may still return reset values for unsupported register offsets".to_owned(),
    );
    assert(texts(values@) =~= standing_limitations());
    if !rerun {
        let ghost before = values@;
        values.push(
            "the real updater and bootloader were not rerun at every flash operation; enable firmware_driven OTA and every_flash_operation to perform that matrix".to_owned(),
        );
        assert(texts(values@) =~= limitations(rerun)) by {
            assert forall|i: int| 0 <= i < before.len() implies texts(values@)[i]
                == #[trigger] texts(before)[i] by {}
        }
    }
    values
}

/// What the simulation of this board covers.
pub fn fidelity(layout: &BoardLayout, rerun: bool) -> (res: HardwareFidelityReport)
    ensures
        res.of(*layout, rerun),
{
    HardwareFidelityReport {
        exact_mcu: layout.mcu.as_str().to_owned(),
        arm_instructions_executed: true,
        factory_vectors_used_for_reset: true,
        instruction_coupled_faults: has_coupled_faults(layout.peripherals.as_slice()),
        all_flash_operation_boundaries_modeled: true,
        updater_and_reboot_executed_at_each_cut: rerun,
        dynamic_rcc_clock_tree: false,
        strict_unknown_mmio: layout.board.strict_mmio,
        dma_data_path: layout.board.dma_routes.len() > 0,
        trustzone_attribution: layout.board.security.trustzone
            && layout.board.security.secure_regions.len() > 0,
        trustzone_core_enabled: layout.board.security.trustzone,
        usb_sdmmc_ota_adapters: true,
        gpio_pull_and_open_drain_behavior: true,
        limitations: list_limitations(rerun),
    }
}

// ---------------------------------------------------------------------------
// The whole simulation
// ---------------------------------------------------------------------------

/// The phase behind the instruction execution that failed, and how.
#[derive(Clone, Copy, Debug, PartialEq, Eq, Structural)]
pub enum SimulationError {
    Peripheral(PeripheralFault),
    Traffic(TrafficError),
    Update(UpdateError),
    Tally(TallyError),
}

impl SimulationError {
    pub open spec fn text(self, layout: BoardLayout) -> Seq<char> {
        match self {
            SimulationError::Peripheral(fault) => "peripheral_execution: "@ + fault.error.text(
                layout.peripherals@[fault.index as int],
            ),
            SimulationError::Traffic(error) => "sedsnet_traffic: "@ + error.text(),
            SimulationError::Update(error) => "ota_recovery: "@ + error.text(),
            SimulationError::Tally(error) => error.text(),
        }
    }

    /// What this speaks of is there.
    pub open spec fn of(self, layout: BoardLayout) -> bool {
        self matches SimulationError::Peripheral(fault) ==> fault.index < layout.peripherals@.len()
    }

    pub fn message(self, layout: &BoardLayout) -> (res: String)
        requires
            self.of(*layout),
        ensures
            res@ == self.text(*layout),
    {
        match self {
            SimulationError::Peripheral(fault) => {
                let reason = fault.error.message(&layout.peripherals[fault.index]);
                Text::new("peripheral_execution: ").str(reason.as_str()).done()
            },
            SimulationError::Traffic(error) => {
                let reason = error.message();
                Text::new("sedsnet_traffic: ").str(reason.as_str()).done()
            },
            SimulationError::Update(error) => {
                let reason = error.message();
                Text::new("ota_recovery: ").str(reason.as_str()).done()
            },
            SimulationError::Tally(error) => error.message(),
        }
    }
}

pub open spec fn update_model(layout: BoardLayout, images: Images) -> Update {
    Update::of(
        images.firmware@,
        images.next_image(),
        images.transfer(),
        layout.memory,
        layout.ota.chunk_size as int,
    )
}

/// Why a simulation fails after its instructions were executed, the first
/// reason found.
pub open spec fn simulation_error(
    layout: BoardLayout,
    images: Images,
    execution: ExecutionReport,
) -> Option<SimulationError> {
    let update = update_error(
        images.firmware@,
        images.next_image(),
        images.transfer(),
        layout.memory,
        layout.ota.chunk_size as int,
    );
    if specs_error(layout.peripherals@, 0) is Some {
        Some(SimulationError::Peripheral(specs_error(layout.peripherals@, 0)->0))
    } else if crate::traffic::config_error(layout.traffic) is Some {
        Some(SimulationError::Traffic(crate::traffic::config_error(layout.traffic)->0))
    } else if update is Some {
        Some(SimulationError::Update(update->0))
    } else if layout.cuts_power() && tally_error(layout, execution) is Some {
        Some(SimulationError::Tally(tally_error(layout, execution)->0))
    } else {
        None
    }
}

impl UpdateReport {
    /// The report on the board's update: where the firmware's own update was
    /// repeated with power cuts the points are those, else the flash model's.
    pub open spec fn simulated(
        self,
        layout: BoardLayout,
        images: Images,
        execution: ExecutionReport,
    ) -> bool {
        let model = update_model(layout, images);
        &&& self.strategy == model.strategy
        &&& self.chunks == crate::arith::div_ceil(model.transfer.len() as int, model.chunk)
        &&& self.original_sha256@ == digest_text(model.original)
        &&& self.updated_sha256@ == digest_text(model.updated)
        &&& self.updated_image_from_artifact == images.updated_firmware is Some
        &&& if layout.cuts_power() {
            self.tallied(self, layout, execution)
        } else {
            (UpdateReport { updated_image_from_artifact: false, ..self }).of(model)
        }
    }
}

impl SimulationReport {
    pub open spec fn of(
        self,
        layout: BoardLayout,
        images: Images,
        execution: ExecutionReport,
        seed: u64,
    ) -> bool {
        &&& self.board@ == layout.name@
        &&& self.architecture == layout.architecture
        &&& self.firmware_bytes == images.firmware@.len()
        &&& self.bootloader_bytes == images.bootloader@.len()
        &&& self.factory_bytes == images.factory@.len()
        &&& match images.ota {
            Some(ota) => self.ota_bytes matches Some(bytes) && bytes == ota@.len(),
            None => self.ota_bytes is None,
        }
        &&& self.physical_flash_bytes == layout.memory.flash_size
        &&& self.physical_ram_bytes == total_size(
            layout.memory.ram_regions@,
            layout.memory.ram_regions@.len() as int,
        )
        &&& self.physical_ram_regions@ == layout.memory.ram_regions@
        &&& self.devices@.len() == layout.peripherals@.len()
        &&& forall|i: int|
            0 <= i < layout.peripherals@.len() ==> (#[trigger] self.devices@[i]).of(
                layout.peripherals@[i],
                1_000,
            )
        &&& self.traffic.of(layout.traffic, layout.memory.sedsnet_pool, seed)
        &&& self.update.simulated(layout, images, execution)
        &&& self.execution == execution
        &&& self.fidelity.of(layout, layout.cuts_power() && self.update.cpu_reboots_executed)
    }
}

fn ram_bytes(regions: &[MemoryRegion]) -> (res: u64)
    requires
        total_size(regions@, regions@.len() as int) <= u64::MAX,
    ensures
        res == total_size(regions@, regions@.len() as int),
{
    let mut total: u64 = 0;
    let mut i: usize = 0;
    while i < regions.len()
        invariant
            i <= regions@.len(),
            total_size(regions@, regions@.len() as int) <= u64::MAX,
            total == total_size(regions@, i as int),
        decreases regions@.len() - i,
    {
        proof {
            lemma_total_grows(regions@, i + 1, regions@.len() as int);
        }
        total = total + regions[i].size;
        i = i + 1;
    }
    total
}

proof fn lemma_total_grows(regions: Seq<MemoryRegion>, i: int, end: int)
    requires
        0 <= i <= end,
    ensures
        total_size(regions, i) <= total_size(regions, end),
    decreases end - i,
{
    if i < end {
        lemma_total_grows(regions, i, end - 1);
    }
}

/// Everything after the instructions were executed: exercises the devices,
/// loads the packet pool, interrupts the update and draws the report.
pub fn run(layout: &BoardLayout, images: &Images, execution: ExecutionReport, seed: u64) -> (res:
    Result<SimulationReport, SimulationError>)
    requires
        layout.memory.erase_size > 0,
        layout.memory.write_alignment > 0,
        total_size(layout.memory.ram_regions@, layout.memory.ram_regions@.len() as int)
            <= u64::MAX,
        images.firmware@.len() > 0,
        images.transfer().len() + 2 * images.next_image().len() < usize::MAX,
        layout.peripherals@.len() * 0x9e37_79b9 <= u64::MAX,
        crate::traffic::sizes_fit(layout.traffic),
        execution.ota_power_cuts@.len() < usize::MAX,
    ensures
        match simulation_error(*layout, *images, execution) {
            Some(error) => res == Err::<SimulationReport, SimulationError>(error) && error.of(
                *layout,
            ),
            None => res matches Ok(report) && report.of(*layout, *images, execution, seed),
        },
{
    let devices = match exercise_all(layout.peripherals.as_slice(), 1_000, seed) {
        Ok(devices) => devices,
        Err(fault) => {
            return Err(SimulationError::Peripheral(fault));
        },
    };
    let traffic = match crate::traffic::run(&layout.traffic, layout.memory.sedsnet_pool, seed) {
        Ok(traffic) => traffic,
        Err(error) => {
            return Err(SimulationError::Traffic(error));
        },
    };
    let modeled = match interrupt_update(layout, images) {
        Ok(update) => update,
        Err(error) => {
            return Err(SimulationError::Update(error));
        },
    };
    let update = match tally_power_cuts(layout, &execution, modeled) {
        Ok(update) => update,
        Err(error) => {
            return Err(SimulationError::Tally(error));
        },
    };
    let rerun = layout.needs_power_cuts() && update.cpu_reboots_executed;
    let regions = layout.memory.ram_regions.clone();
    assert(regions@ =~= layout.memory.ram_regions@);
    Ok(
        SimulationReport {
            board: layout.name.clone(),
            architecture: layout.architecture,
            firmware_bytes: images.firmware.len(),
            bootloader_bytes: images.bootloader.len(),
            factory_bytes: images.factory.len(),
            ota_bytes: match &images.ota {
                Some(ota) => Some(ota.len()),
                None => None,
            },
            physical_flash_bytes: layout.memory.flash_size,
            physical_ram_bytes: ram_bytes(layout.memory.ram_regions.as_slice()),
            physical_ram_regions: regions,
            devices,
            traffic,
            update,
            execution,
            fidelity: fidelity(layout, rerun),
        },
    )
}

// ---------------------------------------------------------------------------
// Diagnosis
// ---------------------------------------------------------------------------

/// The first phase that the reason names.
pub open spec fn failed_phase(reason: Seq<char>) -> Seq<char> {
    if contains(reason, "artifact_validation"@) {
        "artifact_validation"@
    } else if contains(reason, "artifact_mapping"@) {
        "artifact_mapping"@
    } else if contains(reason, "instruction_execution"@) {
        "instruction_execution"@
    } else if contains(reason, "peripheral_execution"@) {
        "peripheral_execution"@
    } else if contains(reason, "sedsnet_traffic"@) {
        "sedsnet_traffic"@
    } else if contains(reason, "ota_recovery"@) {
        "ota_recovery"@
    } else {
        "simulation"@
    }
}

/// What is known of a simulation that failed for `reason`.
pub fn diagnose(layout: &BoardLayout, seed: u64, reason: String) -> (res: CrashDiagnostic)
    ensures
        res.board@ == layout.name@,
        res.architecture == layout.architecture,
        res.simulated_phase@ == failed_phase(reason@),
        res.reason == reason,
        res.registers is None,
        res.fault_registers is None,
        texts(res.recent_events@) == seq![
            "layout_loaded"@,
            "artifacts_mapped"@,
            failed_phase(reason@),
        ],
        res.note@
            == "No CPU snapshot was captured for this phase; synthetic register values are never emitted."@,
{
    let chars = chars_of(reason.as_str());
    let text = chars.as_slice();
    let phase = if has_text(text, "artifact_validation") {
        "artifact_validation"
    } else if has_text(text, "artifact_mapping") {
        "artifact_mapping"
    } else if has_text(text, "instruction_execution") {
        "instruction_execution"
    } else if has_text(text, "peripheral_execution") {
        "peripheral_execution"
    } else if has_text(text, "sedsnet_traffic") {
        "sedsnet_traffic"
    } else if has_text(text, "ota_recovery") {
        "ota_recovery"
    } else {
        "simulation"
    };
    CrashDiagnostic::capture(layout, seed, phase, reason)
}

// ---------------------------------------------------------------------------
// Isolated CAN controllers
// ---------------------------------------------------------------------------

/// What a probe asks for where nothing acknowledges CAN frames. A controller
/// keeps retrying such a frame and reports its enqueueing as a success, so a
/// failed transmission proves nothing; that the firmware transmits is asked
/// for instead.
pub open spec fn unacknowledged(probe: MemoryProbe, now: MemoryProbe) -> bool {
    let failures = probe.name@ == "fdcan_tx_fail"@;
    let successes = probe.name@ == "fdcan_tx_ok"@;
    &&& now.name == probe.name
    &&& now.symbol == probe.symbol
    &&& now.max_end_drop == probe.max_end_drop
    &&& now.minimum == if successes {
        Some(1u32)
    } else if failures {
        None
    } else {
        probe.minimum
    }
    &&& now.maximum == if failures {
        None
    } else {
        probe.maximum
    }
}

pub fn configure_unacknowledged_can_probes(probes: &mut Vec<MemoryProbe>)
    ensures
        final(probes)@.len() == old(probes)@.len(),
        forall|i: int|
            0 <= i < old(probes)@.len() ==> unacknowledged(
                old(probes)@[i],
                #[trigger] final(probes)@[i],
            ),
{
    let ghost before = probes@;
    let mut i: usize = 0;
    while i < probes.len()
        invariant
            i <= probes@.len(),
            probes@.len() == before.len(),
            forall|k: int| 0 <= k < i ==> unacknowledged(before[k], #[trigger] probes@[k]),
            forall|k: int| i <= k < before.len() ==> #[trigger] probes@[k] == before[k],
        decreases probes@.len() - i,
    {
        let failures = same_text(probes[i].name.as_str(), "fdcan_tx_fail");
        let successes = same_text(probes[i].name.as_str(), "fdcan_tx_ok");
        if failures {
            probes[i].minimum = None;
            probes[i].maximum = None;
        }
        if successes {
            probes[i].minimum = Some(1);
        }
        i = i + 1;
    }
}

pub fn configure_unacknowledged_can(layout: &mut BoardLayout)
    ensures
        *final(layout) == (BoardLayout { execution: final(layout).execution, ..*old(layout) }),
        final(layout).execution == (crate::layout::ExecutionConfig {
            can_acknowledged: false,
            memory_probes: final(layout).execution.memory_probes,
            ..old(layout).execution
        }),
        final(layout).execution.memory_probes@.len() == old(layout).execution.memory_probes@.len(),
        forall|i: int|
            0 <= i < old(layout).execution.memory_probes@.len() ==> unacknowledged(
                old(layout).execution.memory_probes@[i],
                #[trigger] final(layout).execution.memory_probes@[i],
            ),
{
    layout.execution.can_acknowledged = false;
    configure_unacknowledged_can_probes(&mut layout.execution.memory_probes);
}

// ---------------------------------------------------------------------------
// Self-test
// ---------------------------------------------------------------------------

#[derive(Clone, Copy, Debug, PartialEq, Eq, Structural)]
pub enum SelfTestError {
    Memory(MemoryError),
    Traffic(TrafficError),
    Leak,
    Update(UpdateError),
}

impl SelfTestError {
    pub fn message(self) -> (res: String)
        ensures
            match self {
                SelfTestError::Memory(_) => res@ == "self-test layout is invalid"@,
                SelfTestError::Traffic(error) => res@ == error.text(),
                SelfTestError::Leak => res@ == "self-test leaked memory"@,
                SelfTestError::Update(error) => res@ == error.text(),
            },
    {
        match self {
            SelfTestError::Memory(_) => "self-test layout is invalid".to_owned(),
            SelfTestError::Traffic(error) => error.message(),
            SelfTestError::Leak => "self-test leaked memory".to_owned(),
            SelfTestError::Update(error) => error.message(),
        }
    }
}

/// `count` times the same byte.
pub open spec fn filled(byte: u8, count: nat) -> Seq<u8> {
    Seq::new(count, |i: int| byte)
}

fn fill(byte: u8, count: usize) -> (res: Vec<u8>)
    ensures
        res@ == filled(byte, count as nat),
{
    let mut bytes: Vec<u8> = Vec::new();
    while bytes.len() < count
        invariant
            bytes@.len() <= count,
            bytes@ == filled(byte, bytes@.len()),
        decreases count - bytes@.len(),
    {
        bytes.push(byte);
        assert(bytes@ =~= filled(byte, bytes@.len()));
    }
    bytes
}

/// The board that the self-test of an architecture runs on.
spec fn self_test_memory(memory: MemoryLayout, flash: u64, ram: u64) -> bool {
    &&& memory.flash_base == 0x0800_0000
    &&& memory.flash_size == flash
    &&& memory.ram_regions@.len() == 1
    &&& memory.ram_regions@[0].name@ == "sram"@
    &&& memory.ram_regions@[0].base == 0x2000_0000
    &&& memory.ram_regions@[0].size == ram
    &&& memory.bootloader_size == 0x4000
    &&& memory.slot_a_base == 0x0800_4000
    &&& memory.slot_a_size == flash - 0x6000
    &&& memory.slot_b_base is None
    &&& memory.slot_b_size is None
    &&& memory.delta_base == Some((0x0800_0000 + flash - 0x2000) as u64)
    &&& memory.delta_size == Some(0x2000u64)
    &&& memory.persistent_data_base is None
    &&& memory.persistent_data_size is None
    &&& memory.erase_size == 0x800
    &&& memory.write_alignment == 8
    &&& memory.sedsnet_pool == 4096
}

proof fn lemma_self_test_memory(memory: MemoryLayout, flash: u64, ram: u64)
    requires
        self_test_memory(memory, flash, ram),
        flash == 512 * 1024 || flash == 2048 * 1024,
        4096 <= ram <= 768 * 1024,
    ensures
        memory.error(vector_alignment()) is None,
{
    assert(is_pow2(0x800) && is_pow2(8)) by {
        reveal_with_fuel(is_pow2, 13);
    }
    assert(0x0800_4000u64 & 0x1ffu64 == 0) by (bit_vector);
    reveal_strlit("sram");
    reveal_strlit("_");
    let regions = memory.ram_regions@;
    assert(crate::text::made_of("sram"@, "_"@));
    assert(total_size(regions, 0) == 0);
    assert(total_size(regions, 1) == ram);
    assert(crate::architecture::ram_error(regions, 1) is None);
    assert(crate::architecture::ram_region_error(regions, 0) is None);
    assert(crate::architecture::ram_error(regions, 0) is None);
}

proof fn lemma_self_test_update(memory: MemoryLayout, flash: u64, ram: u64)
    requires
        self_test_memory(memory, flash, ram),
        flash == 512 * 1024 || flash == 2048 * 1024,
        memory.error(vector_alignment()) is None,
    ensures
        update_error(filled(0xaa, 2048), filled(0x55, 2048), filled(0x33, 1024), memory, 256)
            == if digest_text(filled(0xaa, 2048)) == digest_text(filled(0x55, 2048)) {
            Some(UpdateError::SameImage)
        } else {
            None
        },
{
    assert(!crate::update::is_delta(filled(0x33, 1024))) by {
        assert(filled(0x33, 1024)[0] == 0x33);
    }
    if digest_text(filled(0xaa, 2048)) != digest_text(filled(0x55, 2048)) {
        crate::update::law_whole_unit_updates_run_through(
            filled(0xaa, 2048),
            filled(0x55, 2048),
            filled(0x33, 1024),
            memory,
            256,
            vector_alignment(),
        );
    }
}

/// Checks the memory rules, the packet pool and the update model of one
/// architecture against each other. It fails only where the two images of its
/// update have the same digest.
pub fn self_test(kind: ArchitectureKind) -> (res: Result<(), SelfTestError>)
    ensures
        res == if digest_text(filled(0xaa, 2048)) == digest_text(filled(0x55, 2048)) {
            Err::<(), SelfTestError>(SelfTestError::Update(UpdateError::SameImage))
        } else {
            Ok::<(), SelfTestError>(())
        },
{
    let arch = Architecture::for_kind(kind);
    let mut ram_regions: Vec<MemoryRegion> = Vec::new();
    ram_regions.push(
        MemoryRegion {
            name: "sram".to_owned(),
            base: 0x2000_0000,
            size: arch.default_ram_size,
        },
    );
    let memory = MemoryLayout {
        flash_base: 0x0800_0000,
        flash_size: arch.default_flash_size,
        ram_regions,
        bootloader_size: 0x4000,
        slot_a_base: 0x0800_4000,
        slot_a_size: arch.default_flash_size - 0x6000,
        slot_b_base: None,
        slot_b_size: None,
        delta_base: Some(0x0800_0000 + arch.default_flash_size - 0x2000),
        delta_size: Some(0x2000),
        persistent_data_base: None,
        persistent_data_size: None,
        erase_size: 0x800,
        write_alignment: 8,
        sedsnet_pool: 4096,
    };
    proof {
        lemma_self_test_memory(memory, arch.default_flash_size, arch.default_ram_size);
        lemma_self_test_update(memory, arch.default_flash_size, arch.default_ram_size);
    }
    match arch.validate(&memory) {
        Ok(()) => {},
        Err(error) => {
            return Err(SelfTestError::Memory(error));
        },
    }
    let config = TrafficConfig::default();
    match crate::traffic::run(&config, memory.sedsnet_pool, 1) {
        Ok(report) => {
            if report.pool.bytes_in_use != 0 {
                return Err(SelfTestError::Leak);
            }
        },
        Err(error) => {
            return Err(SelfTestError::Traffic(error));
        },
    }
    let installed: Vec<u8> = fill(0xaa, 2048);
    let updated: Vec<u8> = fill(0x55, 2048);
    let transfer: Vec<u8> = fill(0x33, 1024);
    match interruption_matrix(
        installed.as_slice(),
        updated.as_slice(),
        transfer.as_slice(),
        &memory,
        256,
    ) {
        Ok(_) => Ok(()),
        Err(error) => Err(SelfTestError::Update(error)),
    }
}

// ---------------------------------------------------------------------------
// Which boards are simulated
// ---------------------------------------------------------------------------

/// The address lies in a RAM bank or right behind it.
pub open spec fn tops_a_bank(address: int, memory: MemoryLayout) -> bool {
    exists|i: int|
        0 <= i < memory.ram_regions@.len() && (#[trigger] memory.ram_regions@[i]).base <= address
            <= memory.ram_regions@[i].base + memory.ram_regions@[i].size
}

/// Images are accepted exactly where both ELF files are, the bootloader and
/// each application are there and fill at most their partitions, a package is
/// not empty, and the factory image fits in flash, stops before the settings
/// and begins with a stack in RAM and with Thumb code in flash.
pub proof fn law_sound_images_are_accepted(images: Images, memory: MemoryLayout)
    ensures
        images.error(memory) is None <==> {
            &&& elf_error(images.firmware_elf@, memory) is None
            &&& elf_error(images.bootloader_elf@, memory) is None
            &&& 0 < images.bootloader@.len() <= memory.bootloader_size
            &&& 0 < images.firmware@.len() <= memory.slot_a_size
            &&& 8 <= images.factory@.len() <= memory.flash_size
            &&& memory.persistent_data_base is Some ==> memory.flash_base + images.factory@.len()
                <= memory.persistent_data_base->0
            &&& tops_a_bank(number_at(images.factory@, 0, 4), memory)
            &&& number_at(images.factory@, 4, 4) % 2 == 1
            &&& memory.flash_base <= number_at(images.factory@, 4, 4)
            &&& number_at(images.factory@, 4, 4) < memory.flash_base + memory.flash_size
            &&& images.ota is Some ==> (images.ota->0)@.len() > 0
            &&& images.updated_firmware is Some ==> 0 < (images.updated_firmware->0)@.len()
                <= memory.slot_a_size
        },
{
    lemma_number_at(images.factory@, 0);
    lemma_number_at(images.factory@, 4);
    let address = le32(images.factory@, 0);
    let banks = memory.ram_regions@;
    if stack_top(address, memory) {
        let i = choose|i: int| 0 <= i < banks.len() && #[trigger] stack_in(address, banks[i]);
        assert(banks[i].base <= address <= banks[i].base + banks[i].size);
    }
    if tops_a_bank(address, memory) {
        let i = choose|i: int|
            0 <= i < banks.len() && (#[trigger] banks[i]).base <= address <= banks[i].base
                + banks[i].size;
        assert(stack_in(address, banks[i]));
    }
}

/// A board is simulated exactly where it has a name and a part that it fits,
/// its images and its machine are accepted, and one of its probes watches a
/// stack where that is asked for.
pub proof fn law_sound_boards_are_simulated(
    layout: BoardLayout,
    catalog: Seq<McuDescriptor>,
    images: Images,
)
    ensures
        validation_error(layout, catalog, images) is None <==> {
            &&& layout.name@.len() > 0
            &&& layout.descriptor_in(catalog) is Ok
            &&& part_mcu_error(
                layout.descriptor_in(catalog)->Ok_0,
                layout.architecture,
                layout.memory,
            ) is None
            &&& images.error(layout.memory) is None
            &&& layout.machine_error(layout.descriptor_in(catalog)->Ok_0) is None
            &&& layout.execution.require_stack_probe ==> exists|i: int|
                0 <= i < layout.execution.memory_probes@.len() && (
                #[trigger] layout.execution.memory_probes@[i]).guards_stack()
        },
{
}

/// What is sent is the package; without one it is the next application, which
/// is the given one, or the installed one with the lowest bit of its middle
/// byte changed.
pub proof fn law_what_is_sent(images: Images)
    requires
        images.firmware@.len() > 0,
    ensures
        images.ota is Some ==> images.transfer() == (images.ota->0)@,
        images.ota is None ==> images.transfer() == images.next_image(),
        images.updated_firmware is Some ==> images.next_image() == (images.updated_firmware->0)@,
        images.updated_firmware is None ==> {
            let old = images.firmware@;
            let new = images.next_image();
            &&& new.len() == old.len()
            &&& forall|i: int|
                0 <= i < old.len() ==> #[trigger] new[i] == if 2 * i == old.len() || 2 * i + 1
                    == old.len() {
                    old[i] ^ 1
                } else {
                    old[i]
                }
        },
{
}

// ---------------------------------------------------------------------------
// What power cuts came to
// ---------------------------------------------------------------------------

/// The first outcome of this name boots `image`.
pub open spec fn boots_to(outcomes: Seq<BootOutcome>, name: Seq<char>, image: BootImage) -> bool {
    exists|i: int|
        0 <= i < outcomes.len() && (#[trigger] outcomes[i]).name@ == name && outcomes[i].image
            == image && forall|j: int| 0 <= j < i ==> (#[trigger] outcomes[j]).name@ != name
}

proof fn lemma_outcome_image(outcomes: Seq<BootOutcome>, name: Seq<char>, from: int)
    requires
        0 <= from <= outcomes.len(),
        forall|j: int| 0 <= j < from ==> (#[trigger] outcomes[j]).name@ != name,
    ensures
        forall|image: BootImage|
            outcome_image(outcomes, name, from) == Some(image) <==> #[trigger] boots_to(
                outcomes,
                name,
                image,
            ),
        outcome_image(outcomes, name, from) is None <==> forall|j: int|
            0 <= j < outcomes.len() ==> (#[trigger] outcomes[j]).name@ != name,
    decreases outcomes.len() - from,
{
    if from < outcomes.len() {
        if outcomes[from].name@ == name {
            assert(boots_to(outcomes, name, outcomes[from].image));
            assert forall|image: BootImage| #[trigger]
                boots_to(outcomes, name, image) implies image == outcomes[from].image by {
                let i = choose|i: int|
                    0 <= i < outcomes.len() && (#[trigger] outcomes[i]).name@ == name
                        && outcomes[i].image == image && forall|j: int|
                        0 <= j < i ==> (#[trigger] outcomes[j]).name@ != name;
                assert(i == from);
            }
        } else {
            lemma_outcome_image(outcomes, name, from + 1);
        }
    }
}

/// The cuts that booted `image`.
pub open spec fn booting(
    outcomes: Seq<BootOutcome>,
    cuts: Seq<OtaPowerCutReport>,
    image: BootImage,
) -> Seq<OtaPowerCutReport> {
    cuts.filter(|cut: OtaPowerCutReport| boots_to(outcomes, cut.outcome@, image))
}

proof fn lemma_booting(
    outcomes: Seq<BootOutcome>,
    cuts: Seq<OtaPowerCutReport>,
    end: int,
    image: BootImage,
)
    requires
        0 <= end <= cuts.len(),
    ensures
        cut_points(outcomes, cuts, end, image) == booting(outcomes, cuts.take(end), image).len(),
    decreases end,
{
    reveal(Seq::filter);
    if end > 0 {
        lemma_booting(outcomes, cuts, end - 1, image);
        assert(cuts.take(end).drop_last() =~= cuts.take(end - 1));
        lemma_outcome_image(outcomes, cuts[end - 1].outcome@, 0);
        assert(boots_to(outcomes, cuts[end - 1].outcome@, image) <==> outcome_image(
            outcomes,
            cuts[end - 1].outcome@,
            0,
        ) == Some(image));
    }
}

proof fn lemma_unknown(outcomes: Seq<BootOutcome>, cuts: Seq<OtaPowerCutReport>, from: int)
    requires
        0 <= from,
    ensures
        has_unknown(outcomes, cuts, from) <==> exists|k: int|
            from <= k < cuts.len() && outcome_image(
                outcomes,
                (#[trigger] cuts[k]).outcome@,
                0,
            ) is None,
    decreases cuts.len() - from,
{
    if from < cuts.len() {
        lemma_unknown(outcomes, cuts, from + 1);
        if outcome_image(outcomes, cuts[from].outcome@, 0) is None {
            assert(has_unknown(outcomes, cuts, from));
        }
        if has_unknown(outcomes, cuts, from + 1) {
            let k = choose|k: int|
                from + 1 <= k < cuts.len() && outcome_image(
                    outcomes,
                    (#[trigger] cuts[k]).outcome@,
                    0,
                ) is None;
            assert(from <= k);
        }
    }
}

/// The cuts are tallied exactly where the flash operations were counted, every
/// one of them was cut if that is asked for, and every cut ended in an outcome
/// that the layout names.
pub proof fn law_which_cuts_are_tallied(layout: BoardLayout, execution: ExecutionReport)
    ensures
        tally_error(layout, execution) is None <==> {
            let cuts = execution.ota_power_cuts@;
            let outcomes = layout.ota.outcomes@;
            &&& execution.flash_operations_observed is Some
            &&& layout.ota.power_cuts.every_flash_operation ==> cuts.len()
                == execution.flash_operations_observed->0
            &&& forall|k: int|
                0 <= k < cuts.len() ==> exists|i: int|
                    0 <= i < outcomes.len() && (#[trigger] outcomes[i]).name@ == (
                    #[trigger] cuts[k]).outcome@
        },
{
    let cuts = execution.ota_power_cuts@;
    let outcomes = layout.ota.outcomes@;
    lemma_unknown(outcomes, cuts, 0);
    assert forall|k: int| 0 <= k < cuts.len() implies (outcome_image(
        outcomes,
        (#[trigger] cuts[k]).outcome@,
        0,
    ) is Some <==> exists|i: int|
        0 <= i < outcomes.len() && (#[trigger] outcomes[i]).name@ == cuts[k].outcome@) by {
        lemma_outcome_image(outcomes, cuts[k].outcome@, 0);
    }
}

/// Each image is counted once for every cut after which it booted, and once
/// more where the update that ran through booted it; all boundaries count as
/// tested where each cut took hold and was followed by a reboot, and every
/// operation was asked for.
pub proof fn law_tallies_count_the_cuts(
    report: UpdateReport,
    before: UpdateReport,
    layout: BoardLayout,
    execution: ExecutionReport,
)
    requires
        report.tallied(before, layout, execution),
    ensures
        ({
            let outcomes = layout.ota.outcomes@;
            let cuts = execution.ota_power_cuts@;
            let ended = |image: BootImage|
                if execution.ota_outcome is Some && boots_to(
                    outcomes,
                    (execution.ota_outcome->0)@,
                    image,
                ) {
                    1int
                } else {
                    0int
                };
            &&& report.interruption_points_tested == cuts.len() + 1
            &&& report.old_image_boot_points == booting(outcomes, cuts, BootImage::Old).len()
                + ended(BootImage::Old)
            &&& report.new_image_boot_points == booting(outcomes, cuts, BootImage::New).len()
                + ended(BootImage::New)
            &&& report.recovery_required_points == booting(
                outcomes,
                cuts,
                BootImage::Recovery,
            ).len() + ended(BootImage::Recovery)
            &&& report.cpu_reboots_executed <==> forall|i: int|
                0 <= i < cuts.len() ==> (#[trigger] cuts[i]).power_cut_triggered
                    && cuts[i].reboot_executed
            &&& report.all_flash_operation_boundaries_tested <==> report.cpu_reboots_executed
                && layout.ota.power_cuts.every_flash_operation
            &&& report.original_sha256 == before.original_sha256
            &&& report.updated_sha256 == before.updated_sha256
        }),
{
    let outcomes = layout.ota.outcomes@;
    let cuts = execution.ota_power_cuts@;
    assert(cuts.take(cuts.len() as int) =~= cuts);
    lemma_booting(outcomes, cuts, cuts.len() as int, BootImage::Old);
    lemma_booting(outcomes, cuts, cuts.len() as int, BootImage::New);
    lemma_booting(outcomes, cuts, cuts.len() as int, BootImage::Recovery);
    if execution.ota_outcome is Some {
        let name = (execution.ota_outcome->0)@;
        lemma_outcome_image(outcomes, name, 0);
        assert(boots_to(outcomes, name, BootImage::Old) <==> outcome_image(outcomes, name, 0)
            == Some(BootImage::Old));
        assert(boots_to(outcomes, name, BootImage::New) <==> outcome_image(outcomes, name, 0)
            == Some(BootImage::New));
        assert(boots_to(outcomes, name, BootImage::Recovery) <==> outcome_image(outcomes, name, 0)
            == Some(BootImage::Recovery));
    }
    assert(all_rebooted(cuts) <==> forall|i: int|
        0 <= i < cuts.len() ==> (#[trigger] cuts[i]).power_cut_triggered
            && cuts[i].reboot_executed) by {
        if all_rebooted(cuts) {
            assert forall|i: int| 0 <= i < cuts.len() implies (
            #[trigger] cuts[i]).power_cut_triggered && cuts[i].reboot_executed by {
                assert(rebooted(cuts[i]));
            }
        }
    }
}

/// What the simulation is said to cover follows from the board: faults that the
/// firmware meets need a modelled device that fails or goes away, attribution
/// needs secure regions and a core that is switched to them, and only a run
/// with executed power cuts leaves the last limitation out.
pub proof fn law_fidelity_follows_the_board(
    report: HardwareFidelityReport,
    layout: BoardLayout,
    rerun: bool,
)
    requires
        report.of(layout, rerun),
    ensures
        report.instruction_coupled_faults <==> exists|i: int|
            0 <= i < layout.peripherals@.len() && (#[trigger] layout.peripherals@[i]).model is Some
                && (layout.peripherals@[i].failure_every is Some
                || layout.peripherals@[i].disconnect_after is Some),
        report.dma_data_path <==> layout.board.dma_routes@.len() > 0,
        report.trustzone_core_enabled == layout.board.security.trustzone,
        report.trustzone_attribution <==> layout.board.security.trustzone
            && layout.board.security.secure_regions@.len() > 0,
        report.strict_unknown_mmio == layout.board.strict_mmio,
        report.updater_and_reboot_executed_at_each_cut == rerun,
        report.limitations@.len() == if rerun {
            5int
        } else {
            6int
        },
{
    let specs = layout.peripherals@;
    assert(texts(report.limitations@).len() == report.limitations@.len());
    if any_coupled_faults(specs) {
        let i = choose|i: int| 0 <= i < specs.len() && (#[trigger] specs[i]).couples_faults();
        assert(specs[i].model is Some);
    }
    if exists|i: int|
        0 <= i < specs.len() && (#[trigger] specs[i]).model is Some && (
        specs[i].failure_every is Some || specs[i].disconnect_after is Some) {
        let i = choose|i: int|
            0 <= i < specs.len() && (#[trigger] specs[i]).model is Some && (
            specs[i].failure_every is Some || specs[i].disconnect_after is Some);
        assert(specs[i].couples_faults());
    }
}

/// A simulation whose instructions were executed succeeds exactly where every
/// device, the traffic and the update are accepted and, if the firmware's own
/// update was cut, the cuts can be tallied.
pub proof fn law_simulations_succeed(
    layout: BoardLayout,
    images: Images,
    execution: ExecutionReport,
)
    ensures
        simulation_error(layout, images, execution) is None <==> {
            &&& specs_error(layout.peripherals@, 0) is None
            &&& crate::traffic::config_error(layout.traffic) is None
            &&& update_error(
                images.firmware@,
                images.next_image(),
                images.transfer(),
                layout.memory,
                layout.ota.chunk_size as int,
            ) is None
            &&& layout.ota.firmware_driven && (layout.ota.power_cuts.every_flash_operation
                || layout.ota.power_cuts.events@.len() > 0) ==> tally_error(
                layout,
                execution,
            ) is None
        },
{
}

/// The phases in which a simulation can fail, in their order.
pub open spec fn phases() -> Seq<Seq<char>> {
    seq![
        "artifact_validation"@,
        "artifact_mapping"@,
        "instruction_execution"@,
        "peripheral_execution"@,
        "sedsnet_traffic"@,
        "ota_recovery"@,
    ]
}

/// A failure belongs to the earliest phase that its reason names.
pub proof fn law_failures_belong_to_their_phase(reason: Seq<char>, i: int)
    ensures
        0 <= i < phases().len() && contains(reason, phases()[i]) && (forall|j: int|
            0 <= j < i ==> !contains(reason, #[trigger] phases()[j])) ==> failed_phase(reason)
            == phases()[i],
        (forall|j: int| 0 <= j < phases().len() ==> !contains(reason, #[trigger] phases()[j]))
            ==> failed_phase(reason) == "simulation"@,
{
    let all = phases();
    assert(all.len() == 6);
    assert(all[0] == "artifact_validation"@ && all[1] == "artifact_mapping"@ && all[2]
        == "instruction_execution"@ && all[3] == "peripheral_execution"@ && all[4]
        == "sedsnet_traffic"@ && all[5] == "ota_recovery"@);
    assert(0 <= i < all.len() ==> i == 0 || i == 1 || i == 2 || i == 3 || i == 4 || i == 5);
}

/// Where nothing acknowledges CAN frames, transmissions must be enqueued, and
/// their failures are not held to anything; other probes stay as they are.
pub proof fn law_only_can_probes_change(probe: MemoryProbe, now: MemoryProbe)
    requires
        unacknowledged(probe, now),
    ensures
        now.name == probe.name && now.symbol == probe.symbol,
        now.max_end_drop == probe.max_end_drop,
        probe.name@ == "fdcan_tx_ok"@ ==> now.minimum == Some(1u32) && now.maximum
            == probe.maximum,
        probe.name@ == "fdcan_tx_fail"@ ==> now.minimum is None && now.maximum is None,
        probe.name@ != "fdcan_tx_ok"@ && probe.name@ != "fdcan_tx_fail"@ ==> now.minimum
            == probe.minimum && now.maximum == probe.maximum,
{
    reveal_strlit("fdcan_tx_ok");
    reveal_strlit("fdcan_tx_fail");
    assert("fdcan_tx_ok"@.len() != "fdcan_tx_fail"@.len());
}

/// A report on a board tells the sizes of its images and of its memory, what
/// each of its devices did in a thousand reads, the traffic with the board's
/// pool and seed, and the execution that it was given.
pub proof fn law_what_a_simulation_reports(
    report: SimulationReport,
    layout: BoardLayout,
    images: Images,
    execution: ExecutionReport,
    seed: u64,
)
    requires
        report.of(layout, images, execution, seed),
    ensures
        report.board@ == layout.name@,
        report.architecture == layout.architecture,
        report.firmware_bytes == images.firmware@.len(),
        report.bootloader_bytes == images.bootloader@.len(),
        report.factory_bytes == images.factory@.len(),
        report.ota_bytes is Some <==> images.ota is Some,
        report.ota_bytes is Some ==> report.ota_bytes->0 == (images.ota->0)@.len(),
        report.physical_flash_bytes == layout.memory.flash_size,
        report.physical_ram_bytes == sum_of(sizes_of(layout.memory.ram_regions@)),
        report.physical_ram_regions@ == layout.memory.ram_regions@,
        report.devices@.len() == layout.peripherals@.len(),
        forall|i: int|
            0 <= i < layout.peripherals@.len() ==> (#[trigger] report.devices@[i]).of(
                layout.peripherals@[i],
                1000,
            ),
        report.traffic.of(layout.traffic, layout.memory.sedsnet_pool, seed),
        report.execution == execution,
        report.fidelity.updater_and_reboot_executed_at_each_cut <==> layout.ota.firmware_driven && (
        layout.ota.power_cuts.every_flash_operation || layout.ota.power_cuts.events@.len() > 0)
            && report.update.cpu_reboots_executed,
        report.update.updated_image_from_artifact <==> images.updated_firmware is Some,
        report.update.original_sha256@ == digest_text(images.firmware@),
        report.update.updated_sha256@ == digest_text(images.next_image()),
        !(layout.ota.firmware_driven && (layout.ota.power_cuts.every_flash_operation
            || layout.ota.power_cuts.events@.len() > 0)) ==> (UpdateReport {
            updated_image_from_artifact: false,
            ..report.update
        }).of(
            Update::of(
                images.firmware@,
                images.next_image(),
                images.transfer(),
                layout.memory,
                layout.ota.chunk_size as int,
            ),
        ),
        layout.ota.firmware_driven && (layout.ota.power_cuts.every_flash_operation
            || layout.ota.power_cuts.events@.len() > 0) ==> report.update.tallied(
            report.update,
            layout,
            execution,
        ),
{
    let banks = layout.memory.ram_regions@;
    lemma_total(banks, banks.len() as int);
    assert(banks.take(banks.len() as int) =~= banks);
}

/// What images are refused for is wrong with them.
pub proof fn law_images_are_refused_for_what_is_wrong(images: Images, memory: MemoryLayout)
    ensures
        match images.error(memory) {
            None => true,
            Some(ValidationError::FirmwareElf(error)) => elf_error(images.firmware_elf@, memory)
                == Some(error),
            Some(ValidationError::BootloaderElf(error)) => elf_error(images.bootloader_elf@, memory)
                == Some(error),
            Some(ValidationError::BootloaderSize) => images.bootloader@.len()
                > memory.bootloader_size,
            Some(ValidationError::BootloaderEmpty) => images.bootloader@.len() == 0,
            Some(ValidationError::FirmwareEmpty) => images.firmware@.len() == 0,
            Some(ValidationError::FirmwareSize) => images.firmware@.len() > memory.slot_a_size,
            Some(ValidationError::FactorySize) => images.factory@.len() > memory.flash_size,
            Some(ValidationError::FactoryPersistent) => memory.persistent_data_base is Some
                && memory.flash_base + images.factory@.len() > memory.persistent_data_base->0,
            Some(ValidationError::FactoryVector) => images.factory@.len() < 8,
            Some(ValidationError::FactoryStack(stack)) => stack == number_at(images.factory@, 0, 4)
                && !tops_a_bank(stack as int, memory),
            Some(ValidationError::FactoryReset(reset)) => reset == number_at(images.factory@, 4, 4)
                && (reset as int % 2 == 0 || reset < memory.flash_base || reset
                >= memory.flash_base + memory.flash_size),
            Some(ValidationError::PackageEmpty) => images.ota is Some && (images.ota->0)@.len()
                == 0,
            Some(ValidationError::UpdatedEmpty) => images.updated_firmware is Some && (
            images.updated_firmware->0)@.len() == 0,
            Some(ValidationError::UpdatedSize) => images.updated_firmware is Some && (
            images.updated_firmware->0)@.len() > memory.slot_a_size,
            Some(_) => false,
        },
{
    lemma_number_at(images.factory@, 0);
    lemma_number_at(images.factory@, 4);
    let address = le32(images.factory@, 0);
    let banks = memory.ram_regions@;
    if tops_a_bank(address, memory) {
        let i = choose|i: int|
            0 <= i < banks.len() && (#[trigger] banks[i]).base <= address <= banks[i].base
                + banks[i].size;
        assert(stack_in(address, banks[i]));
    }
}

/// What a tally is refused for is wrong with the cuts.
pub proof fn law_tallies_are_refused_for_what_is_wrong(
    layout: BoardLayout,
    execution: ExecutionReport,
)
    requires
        execution.ota_power_cuts@.len() <= usize::MAX,
    ensures
        match tally_error(layout, execution) {
            None => true,
            Some(TallyError::NoOperations) => execution.flash_operations_observed is None,
            Some(TallyError::Untested { tested, operations }) => {
                &&& layout.ota.power_cuts.every_flash_operation
                &&& tested == execution.ota_power_cuts@.len()
                &&& execution.flash_operations_observed == Some(operations)
                &&& tested != operations
            },
            Some(TallyError::UnknownOutcome) => exists|k: int|
                0 <= k < execution.ota_power_cuts@.len() && forall|i: int|
                    0 <= i < layout.ota.outcomes@.len() ==> (
                    #[trigger] layout.ota.outcomes@[i]).name@ != (
                    #[trigger] execution.ota_power_cuts@[k]).outcome@,
        },
{
    let cuts = execution.ota_power_cuts@;
    let outcomes = layout.ota.outcomes@;
    lemma_unknown(outcomes, cuts, 0);
    if has_unknown(outcomes, cuts, 0) {
        let k = choose|k: int|
            0 <= k < cuts.len() && outcome_image(outcomes, (#[trigger] cuts[k]).outcome@, 0) is None;
        lemma_outcome_image(outcomes, cuts[k].outcome@, 0);
        assert(forall|i: int|
            0 <= i < outcomes.len() ==> (#[trigger] outcomes[i]).name@ != cuts[k].outcome@);
    }
}

} // verus!
