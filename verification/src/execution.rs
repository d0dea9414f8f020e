//! Judging a run of the emulator: what the layout must say before it starts,
//! and what its output must show when it is over.

use vstd::prelude::*;

use crate::elf::u32_at;
use crate::layout::{
    BoardLayout, BootOutcome, ExecutionConfig, FlashEventKind, MemoryRegion, PowerCutConfig,
};
use crate::output::{
    after_marker, bool_after, events_after, last_lines, marker_bool, marker_csv, marker_lines,
    marker_shown, marker_u64, number_after, observed_marker, opt_int, prefixed_pairs, rest_after,
    tail,
};
use crate::probes::{
    parse_memory_profile, probe_outcome, profile_failure, MemoryProbeReport, ProbeFailure,
};
use crate::text::{
    chars_of, contains, dec, has_text, hex8, is_made_of, join, join_texts, lines, lower,
    lower_chars, made_of, occurs_at, opt_text, same_text, texts, Text,
};

verus! {

#[derive(Debug)]
pub struct ExecutionReport {
    pub backend: &'static str,
    pub elf: String,
    pub virtual_time_ms: u64,
    pub instruction_execution_observed: bool,
    pub firmware_boot_reached: bool,
    pub factory_boot_reached: bool,
    pub register_dump: Vec<String>,
    pub memory_profile: Vec<MemoryProbeReport>,
    pub trace: Option<String>,
    pub firmware_driven_ota: bool,
    pub ota_outcome: Option<String>,
    pub flash_operations_observed: Option<u64>,
    pub flash_event_trace: Vec<String>,
    pub ota_power_cuts: Vec<OtaPowerCutReport>,
}

#[derive(Debug)]
pub struct OtaPowerCutReport {
    pub after_flash_operation: u64,
    pub power_cut_triggered: bool,
    pub reboot_executed: bool,
    pub outcome: String,
}

// ---------------------------------------------------------------------------
// Before a run
// ---------------------------------------------------------------------------

#[derive(Clone, Copy, Debug, PartialEq, Eq, Structural)]
pub enum ConfigError {
    SuccessSymbol,
    FactorySymbol,
    NoSamples,
    TooManySamples,
    Warmup,
    TickStep,
    TickAddress(u64),
    /// Each of these two names a memory probe.
    ProbeName(usize),
    ProbeSymbol(usize),
}

impl ConfigError {
    pub open spec fn text(self, execution: ExecutionConfig) -> Seq<char> {
        match self {
            ConfigError::SuccessSymbol => "invalid execution success symbol"@,
            ConfigError::FactorySymbol => "invalid factory execution success symbol"@,
            ConfigError::NoSamples => "execution sample_count must be positive"@,
            ConfigError::TooManySamples => "execution sample_count cannot exceed virtual_time_ms"@,
            ConfigError::Warmup =>
                "execution memory_probe_warmup_samples must be less than sample_count"@,
            ConfigError::TickStep => "execution hal_tick_step must be positive"@,
            ConfigError::TickAddress(address) => "execution hal_tick_address 0x"@ + hex8(
                address as nat,
            ) + " is outside physical RAM"@,
            ConfigError::ProbeName(i) => "invalid memory probe name "@
                + execution.memory_probes@[i as int].name@,
            ConfigError::ProbeSymbol(i) => "invalid memory probe symbol "@
                + execution.memory_probes@[i as int].symbol@,
        }
    }

    pub open spec fn of(self, execution: ExecutionConfig) -> bool {
        match self {
            ConfigError::ProbeName(i) => i < execution.memory_probes@.len(),
            ConfigError::ProbeSymbol(i) => i < execution.memory_probes@.len(),
            _ => true,
        }
    }

    pub fn message(self, execution: &ExecutionConfig) -> (res: String)
        requires
            self.of(*execution),
        ensures
            res@ == self.text(*execution),
    {
        match self {
            ConfigError::SuccessSymbol => Text::new("invalid execution success symbol").done(),
            ConfigError::FactorySymbol => Text::new(
                "invalid factory execution success symbol",
            ).done(),
            ConfigError::NoSamples => Text::new("execution sample_count must be positive").done(),
            ConfigError::TooManySamples => Text::new(
                "execution sample_count cannot exceed virtual_time_ms",
            ).done(),
            ConfigError::Warmup => Text::new(
                "execution memory_probe_warmup_samples must be less than sample_count",
            ).done(),
            ConfigError::TickStep => Text::new("execution hal_tick_step must be positive").done(),
            ConfigError::TickAddress(address) => Text::new("execution hal_tick_address 0x").hex8(
                address,
            ).str(" is outside physical RAM").done(),
            ConfigError::ProbeName(i) => Text::new("invalid memory probe name ").str(
                execution.memory_probes[i].name.as_str(),
            ).done(),
            ConfigError::ProbeSymbol(i) => Text::new("invalid memory probe symbol ").str(
                execution.memory_probes[i].symbol.as_str(),
            ).done(),
        }
    }
}

/// A word at `address` lies in one RAM bank.
pub open spec fn word_in_ram(regions: Seq<MemoryRegion>, address: int) -> bool {
    exists|i: int| 0 <= i < regions.len() && #[trigger] word_in(regions[i], address)
}

pub open spec fn word_in(region: MemoryRegion, address: int) -> bool {
    region.base <= address && address + 4 <= u64::MAX && address + 4 <= region.base + region.size
}

pub open spec fn probe_name_error(execution: ExecutionConfig, i: int) -> Option<ConfigError>
    decreases execution.memory_probes@.len() - i,
{
    if i < 0 || i >= execution.memory_probes@.len() {
        None
    } else {
        let probe = execution.memory_probes@[i];
        if probe.name@.len() == 0 || !made_of(probe.name@, "_-"@) {
            Some(ConfigError::ProbeName(i as usize))
        } else if probe.symbol@.len() == 0 || !made_of(probe.symbol@, "_"@) {
            Some(ConfigError::ProbeSymbol(i as usize))
        } else {
            probe_name_error(execution, i + 1)
        }
    }
}

pub open spec fn config_error(execution: ExecutionConfig, regions: Seq<MemoryRegion>) -> Option<
    ConfigError,
> {
    if !made_of(execution.boot_success_symbol@, "_"@) {
        Some(ConfigError::SuccessSymbol)
    } else if !made_of(execution.factory_boot_success_symbol@, "_"@) {
        Some(ConfigError::FactorySymbol)
    } else if execution.sample_count == 0 {
        Some(ConfigError::NoSamples)
    } else if execution.sample_count > execution.virtual_time_ms {
        Some(ConfigError::TooManySamples)
    } else if execution.memory_probe_warmup_samples >= execution.sample_count {
        Some(ConfigError::Warmup)
    } else if execution.hal_tick_step == 0 {
        Some(ConfigError::TickStep)
    } else if execution.hal_tick_address matches Some(address) && !word_in_ram(
        regions,
        address as int,
    ) {
        Some(ConfigError::TickAddress(execution.hal_tick_address->0))
    } else {
        probe_name_error(execution, 0)
    }
}

fn is_word_in_ram(regions: &[MemoryRegion], address: u64) -> (res: bool)
    ensures
        res == word_in_ram(regions@, address as int),
{
    let mut i: usize = 0;
    while i < regions.len()
        invariant
            i <= regions@.len(),
            forall|k: int| 0 <= k < i ==> !#[trigger] word_in(regions@[k], address as int),
        decreases regions@.len() - i,
    {
        let fits = match address.checked_add(4) {
            Some(end) => end as u128 <= regions[i].base as u128 + regions[i].size as u128,
            None => false,
        };
        if address >= regions[i].base && fits {
            assert(word_in(regions@[i as int], address as int));
            return true;
        }
        i = i + 1;
    }
    false
}

/// Checks what the layout says of its execution, before anything runs.
pub fn validate_execution(execution: &ExecutionConfig, regions: &[MemoryRegion]) -> (res: Result<
    (),
    ConfigError,
>)
    ensures
        match config_error(*execution, regions@) {
            Some(error) => res == Err::<(), ConfigError>(error) && error.of(*execution),
            None => res is Ok,
        },
{
    if !is_made_of(execution.boot_success_symbol.as_str(), "_") {
        return Err(ConfigError::SuccessSymbol);
    }
    if !is_made_of(execution.factory_boot_success_symbol.as_str(), "_") {
        return Err(ConfigError::FactorySymbol);
    }
    if execution.sample_count == 0 {
        return Err(ConfigError::NoSamples);
    }
    if execution.sample_count as u64 > execution.virtual_time_ms {
        return Err(ConfigError::TooManySamples);
    }
    if execution.memory_probe_warmup_samples >= execution.sample_count {
        return Err(ConfigError::Warmup);
    }
    if execution.hal_tick_step == 0 {
        return Err(ConfigError::TickStep);
    }
    match execution.hal_tick_address {
        Some(address) => {
            if !is_word_in_ram(regions, address) {
                return Err(ConfigError::TickAddress(address));
            }
        },
        None => {},
    }
    let mut i: usize = 0;
    while i < execution.memory_probes.len()
        invariant
            i <= execution.memory_probes@.len(),
            config_error(*execution, regions@) == probe_name_error(*execution, i as int),
        decreases execution.memory_probes@.len() - i,
    {
        let probe = &execution.memory_probes[i];
        if probe.name.as_str().is_empty() || !is_made_of(probe.name.as_str(), "_-") {
            return Err(ConfigError::ProbeName(i));
        }
        if probe.symbol.as_str().is_empty() || !is_made_of(probe.symbol.as_str(), "_") {
            return Err(ConfigError::ProbeSymbol(i));
        }
        i = i + 1;
    }
    Ok(())
}

/// Initial stack pointer and reset handler of a factory image, where it has a
/// reset vector.
pub fn factory_vector(factory: &[u8]) -> (res: Option<(u32, u32)>)
    ensures
        if factory@.len() < 8 {
            res is None
        } else {
            &&& res matches Some(vector)
            &&& vector.0 == crate::elf::le32(factory@, 0)
            &&& vector.1 == crate::elf::le32(factory@, 4)
        },
{
    if factory.len() < 8 {
        return None;
    }
    match (u32_at(factory, 0), u32_at(factory, 4)) {
        (Ok(stack), Ok(reset)) => Some((stack, reset)),
        _ => None,
    }
}

// ---------------------------------------------------------------------------
// After a run
// ---------------------------------------------------------------------------

/// The output says that the emulator refused a command of the script.
pub open spec fn command_error(output: Seq<char>) -> bool {
    let low = lower(output);
    ||| contains(low, "there was an error executing command"@)
    ||| contains(low, "parameters did not match"@)
}

pub fn command_failed(output: &str) -> (res: bool)
    ensures
        res == command_error(output@),
{
    let chars = chars_of(output);
    let low = lower_chars(chars.as_slice());
    let text = low.as_slice();
    has_text(text, "there was an error executing command") || has_text(
        text,
        "parameters did not match",
    )
}

/// The output says that the emulator or the firmware failed.
pub open spec fn faulted(output: Seq<char>) -> bool {
    let low = lower(output);
    ||| contains(low, "fatal error"@)
    ||| contains(low, "cpu abort"@)
    ||| contains(low, "[error]"@)
    ||| command_error(output)
}

pub fn execution_faulted(output: &str) -> (res: bool)
    ensures
        res == faulted(output@),
{
    let chars = chars_of(output);
    let low = lower_chars(chars.as_slice());
    let text = low.as_slice();
    has_text(text, "fatal error") || has_text(text, "cpu abort") || has_text(text, "[error]")
        || command_failed(output)
}

pub open spec fn outcome_marker(outcome: BootOutcome) -> Seq<char> {
    "SEDS_OTA_OUTCOME_"@ + outcome.name@
}

/// The names of those among the first `end` outcomes that the output shows.
pub open spec fn outcomes_shown(outcomes: Seq<BootOutcome>, output: Seq<char>, end: int) -> Seq<
    Seq<char>,
>
    decreases end,
{
    if end <= 0 {
        Seq::empty()
    } else {
        let earlier = outcomes_shown(outcomes, output, end - 1);
        if marker_shown(output, outcome_marker(outcomes[end - 1])) {
            earlier.push(outcomes[end - 1].name@)
        } else {
            earlier
        }
    }
}

pub open spec fn all_outcomes(outcomes: Seq<BootOutcome>, output: Seq<char>) -> Seq<Seq<char>> {
    outcomes_shown(outcomes, output, outcomes.len() as int)
}

/// The only outcome shown; where more than one is, the error names them all.
pub fn unique_ota_outcome(outcomes: &[BootOutcome], output: &str) -> (res: Result<
    Option<String>,
    Vec<String>,
>)
    ensures
        ({
            let shown = all_outcomes(outcomes@, output@);
            match res {
                Err(names) => shown.len() > 1 && texts(names@) == shown,
                Ok(Some(name)) => shown.len() == 1 && name@ == shown[0],
                Ok(None) => shown.len() == 0,
            }
        }),
{
    let mut names: Vec<String> = Vec::new();
    let mut i: usize = 0;
    assert(texts(names@) =~= Seq::<Seq<char>>::empty());
    while i < outcomes.len()
        invariant
            i <= outcomes@.len(),
            texts(names@) == outcomes_shown(outcomes@, output@, i as int),
        decreases outcomes@.len() - i,
    {
        let ghost before = texts(names@);
        let marker = Text::new("SEDS_OTA_OUTCOME_").str(outcomes[i].name.as_str()).done();
        if observed_marker(output, marker.as_str()) {
            names.push(outcomes[i].name.clone());
            assert(texts(names@) =~= before.push(outcomes@[i as int].name@));
        }
        i = i + 1;
    }
    assert(texts(names@).len() == names@.len());
    if names.len() > 1 {
        return Err(names);
    }
    if names.len() == 0 {
        return Ok(None);
    }
    assert(texts(names@)[0] == names@[0]@);
    Ok(Some(names[0].clone()))
}

#[derive(Debug)]
pub enum RunError {
    Probe(ProbeFailure),
    FirmwareBoot,
    FactoryBoot,
    NoRegisters,
    NoTrace,
    /// The outcomes that were all reached.
    Conflict(Vec<String>),
    NoOutcome,
    NoFlashOperation,
}

/// Which check a run failed.
#[derive(Clone, Copy, Debug, PartialEq, Eq, Structural)]
pub enum RunCheck {
    Probe,
    FirmwareBoot,
    FactoryBoot,
    Registers,
    Trace,
    Conflict,
    Outcome,
    FlashOperation,
}

impl RunError {
    pub open spec fn check(self) -> RunCheck {
        match self {
            RunError::Probe(_) => RunCheck::Probe,
            RunError::FirmwareBoot => RunCheck::FirmwareBoot,
            RunError::FactoryBoot => RunCheck::FactoryBoot,
            RunError::NoRegisters => RunCheck::Registers,
            RunError::NoTrace => RunCheck::Trace,
            RunError::Conflict(_) => RunCheck::Conflict,
            RunError::NoOutcome => RunCheck::Outcome,
            RunError::NoFlashOperation => RunCheck::FlashOperation,
        }
    }

    /// The details are those of this run.
    pub open spec fn of(self, layout: BoardLayout, output: Seq<char>) -> bool {
        match self {
            RunError::Probe(failure) => {
                let expected = profile_failure(layout.execution, lines(output), 0)->0;
                &&& failure.of(layout.execution)
                &&& failure.probe == expected.0
                &&& failure.error == expected.1
                &&& failure.samples@ == expected.2
            },
            RunError::Conflict(names) => texts(names@) == all_outcomes(
                layout.ota.outcomes@,
                transfer_output(output),
            ),
            _ => true,
        }
    }
}

/// What a run has shown.
#[derive(Debug)]
pub struct Observations {
    pub registers: Vec<String>,
    pub memory_profile: Vec<MemoryProbeReport>,
    pub ota_outcome: Option<String>,
    pub flash_operations: Option<u64>,
    pub flash_event_trace: Vec<String>,
}

pub open spec fn registers_in(output: Seq<char>) -> Seq<Seq<char>> {
    prefixed_pairs(lines(output), "SEDS_REG "@, lines(output).len() as int)
}

/// The output from the start of the transfer on, where there is one.
pub open spec fn transfer_output(output: Seq<char>) -> Seq<char> {
    match after_marker(output, "SEDS_OTA_TRANSFER_BEGIN"@) {
        Some(rest) => rest,
        None => output,
    }
}

pub open spec fn names_pc(registers: Seq<Seq<char>>) -> bool {
    exists|i: int| 0 <= i < registers.len() && contains(#[trigger] registers[i], "PC"@)
}

/// The first check that a run's output fails. `traced` says whether the
/// instruction trace was written.
pub open spec fn failed_check(layout: BoardLayout, output: Seq<char>, traced: bool) -> Option<
    RunCheck,
> {
    let outcomes = all_outcomes(layout.ota.outcomes@, transfer_output(output));
    if profile_failure(layout.execution, lines(output), 0) is Some {
        Some(RunCheck::Probe)
    } else if !marker_shown(output, "SEDS_FIRMWARE_BOOT_REACHED"@) {
        Some(RunCheck::FirmwareBoot)
    } else if !marker_shown(output, "SEDS_FACTORY_BOOT_REACHED"@) {
        Some(RunCheck::FactoryBoot)
    } else if !names_pc(registers_in(output)) {
        Some(RunCheck::Registers)
    } else if layout.execution.trace && !traced {
        Some(RunCheck::Trace)
    } else if outcomes.len() > 1 {
        Some(RunCheck::Conflict)
    } else if layout.ota.firmware_driven && outcomes.len() == 0 {
        Some(RunCheck::Outcome)
    } else if layout.ota.firmware_driven && !(number_after(
        output,
        "SEDS_FLASH_OPERATIONS"@,
    ) matches Some(count) && count > 0) {
        Some(RunCheck::FlashOperation)
    } else {
        None
    }
}

impl Observations {
    pub open spec fn of(self, layout: BoardLayout, output: Seq<char>) -> bool {
        let outcomes = all_outcomes(layout.ota.outcomes@, transfer_output(output));
        &&& texts(self.registers@) == registers_in(output)
        &&& self.memory_profile@.len() == layout.execution.memory_probes@.len()
        &&& forall|i: int|
            0 <= i < self.memory_profile@.len() ==> (#[trigger] self.memory_profile@[i]).of(
                layout.execution.memory_probes@[i],
                probe_outcome(
                    layout.execution,
                    layout.execution.memory_probes@[i],
                    lines(output),
                )->Ok_0,
                layout.execution.memory_probe_warmup_samples as int,
            )
        &&& opt_text(self.ota_outcome) == if outcomes.len() == 0 {
            None
        } else {
            Some(outcomes[0])
        }
        &&& opt_int(self.flash_operations) == number_after(output, "SEDS_FLASH_OPERATIONS"@)
        &&& texts(self.flash_event_trace@) == events_after(output, "SEDS_FLASH_EVENT_TRACE"@)
    }
}

fn has_pc(registers: &[String]) -> (res: bool)
    ensures
        res == names_pc(texts(registers@)),
{
    let mut i: usize = 0;
    while i < registers.len()
        invariant
            i <= registers@.len(),
            forall|k: int|
                0 <= k < i ==> !contains(#[trigger] texts(registers@)[k], "PC"@),
        decreases registers@.len() - i,
    {
        let chars = chars_of(registers[i].as_str());
        if has_text(chars.as_slice(), "PC") {
            assert(contains(texts(registers@)[i as int], "PC"@));
            return true;
        }
        i = i + 1;
    }
    false
}

/// Holds the output of a run to the layout.
pub fn judge_run(layout: &BoardLayout, output: &str, traced: bool) -> (res: Result<
    Observations,
    RunError,
>)
    requires
        layout.execution.memory_probe_warmup_samples < layout.execution.sample_count,
    ensures
        match failed_check(*layout, output@, traced) {
            Some(check) => {
                &&& res matches Err(error)
                &&& error.check() == check
                &&& error.of(*layout, output@)
            },
            None => res matches Ok(seen) && seen.of(*layout, output@),
        },
{
    let registers = marker_lines(output);
    let memory_profile = match parse_memory_profile(&layout.execution, output) {
        Ok(reports) => reports,
        Err(failure) => {
            return Err(RunError::Probe(failure));
        },
    };
    if !observed_marker(output, "SEDS_FIRMWARE_BOOT_REACHED") {
        return Err(RunError::FirmwareBoot);
    }
    if !observed_marker(output, "SEDS_FACTORY_BOOT_REACHED") {
        return Err(RunError::FactoryBoot);
    }
    if !has_pc(registers.as_slice()) {
        return Err(RunError::NoRegisters);
    }
    if layout.execution.trace && !traced {
        return Err(RunError::NoTrace);
    }
    let transferred = match rest_after(output, "SEDS_OTA_TRANSFER_BEGIN") {
        Some(rest) => rest,
        None => output.to_owned(),
    };
    let ota_outcome = match unique_ota_outcome(
        layout.ota.outcomes.as_slice(),
        transferred.as_str(),
    ) {
        Ok(outcome) => outcome,
        Err(names) => {
            return Err(RunError::Conflict(names));
        },
    };
    let flash_operations = marker_u64(output, "SEDS_FLASH_OPERATIONS");
    let flash_event_trace = marker_csv(output, "SEDS_FLASH_EVENT_TRACE");
    if layout.ota.firmware_driven {
        if ota_outcome.is_none() {
            return Err(RunError::NoOutcome);
        }
        let operated = match flash_operations {
            Some(count) => count > 0,
            None => false,
        };
        if !operated {
            return Err(RunError::NoFlashOperation);
        }
    }
    Ok(Observations { registers, memory_profile, ota_outcome, flash_operations, flash_event_trace })
}

/// A run that passes booted the firmware and the factory image, returned the
/// program counter, kept every probe readable and inside its limits, and ended
/// in at most one outcome; an update that the firmware drives reached one and
/// changed flash.
pub proof fn law_passing_runs_booted(layout: BoardLayout, output: Seq<char>, traced: bool)
    requires
        failed_check(layout, output, traced) is None,
    ensures
        marker_shown(output, "SEDS_FIRMWARE_BOOT_REACHED"@),
        marker_shown(output, "SEDS_FACTORY_BOOT_REACHED"@),
        names_pc(registers_in(output)),
        forall|i: int|
            0 <= i < layout.execution.memory_probes@.len() ==> probe_outcome(
                layout.execution,
                #[trigger] layout.execution.memory_probes@[i],
                lines(output),
            ) is Ok,
        layout.execution.trace ==> traced,
        all_outcomes(layout.ota.outcomes@, transfer_output(output)).len() <= 1,
        layout.ota.firmware_driven ==> {
            &&& all_outcomes(layout.ota.outcomes@, transfer_output(output)).len() == 1
            &&& number_after(output, "SEDS_FLASH_OPERATIONS"@) matches Some(count) && count > 0
        },
{
    assert forall|i: int| 0 <= i < layout.execution.memory_probes@.len() implies probe_outcome(
        layout.execution,
        #[trigger] layout.execution.memory_probes@[i],
        lines(output),
    ) is Ok by {
        lemma_no_profile_failure(layout.execution, lines(output), i, 0);
    }
}

proof fn lemma_no_profile_failure(
    execution: ExecutionConfig,
    all: Seq<Seq<char>>,
    i: int,
    from: int,
)
    requires
        0 <= from <= i < execution.memory_probes@.len(),
        profile_failure(execution, all, from) is None,
    ensures
        probe_outcome(execution, execution.memory_probes@[i], all) is Ok,
    decreases i - from,
{
    if from < i {
        lemma_no_profile_failure(execution, all, i, from + 1);
    }
}

pub open spec fn tail_text(output: Seq<char>) -> Seq<char> {
    join(last_lines(lines(output), 80), "\n"@)
}

impl RunError {
    pub open spec fn text(self, layout: BoardLayout, output: Seq<char>) -> Seq<char> {
        match self {
            RunError::Probe(failure) => crate::probes::failure_text(
                failure.error,
                layout.execution,
                layout.execution.memory_probes@[failure.probe as int],
                failure.samples@,
                lines(output),
            ),
            RunError::FirmwareBoot => "firmware never reached "@
                + layout.execution.boot_success_symbol@ + "; final registers: "@ + join(
                registers_in(output),
                ", "@,
            ) + "\n"@ + tail_text(output),
            RunError::FactoryBoot => "factory boot flow never reached "@
                + layout.execution.factory_boot_success_symbol@ + ":\n"@ + tail_text(output),
            RunError::NoRegisters => "Renode did not return registers:\n"@ + tail_text(output),
            RunError::NoTrace => "Renode did not produce the requested instruction trace"@,
            RunError::Conflict(names) => "OTA run reached conflicting boot outcomes: "@ + join(
                texts(names@),
                ", "@,
            ),
            RunError::NoOutcome =>
                "firmware-driven OTA completed without a configured boot outcome:\n"@ + tail_text(
                output,
            ),
            RunError::NoFlashOperation =>
                "firmware-driven OTA did not perform an emulated flash operation"@,
        }
    }

    /// `layout` and `output` are those that were judged.
    pub fn message(&self, layout: &BoardLayout, output: &str) -> (res: String)
        requires
            self matches RunError::Probe(failure) ==> failure.of(layout.execution),
        ensures
            res@ == self.text(*layout, output@),
    {
        match self {
            RunError::Probe(failure) => failure.message(&layout.execution, output),
            RunError::FirmwareBoot => {
                let registers = marker_lines(output);
                let listed = join_texts(registers.as_slice(), ", ");
                let last = tail(output, 80);
                Text::new("firmware never reached ").str(
                    layout.execution.boot_success_symbol.as_str(),
                ).str("; final registers: ").str(listed.as_str()).str("\n").str(
                    last.as_str(),
                ).done()
            },
            RunError::FactoryBoot => {
                let last = tail(output, 80);
                Text::new("factory boot flow never reached ").str(
                    layout.execution.factory_boot_success_symbol.as_str(),
                ).str(":\n").str(last.as_str()).done()
            },
            RunError::NoRegisters => {
                let last = tail(output, 80);
                Text::new("Renode did not return registers:\n").str(last.as_str()).done()
            },
            RunError::NoTrace => Text::new(
                "Renode did not produce the requested instruction trace",
            ).done(),
            RunError::Conflict(names) => {
                let listed = join_texts(names.as_slice(), ", ");
                Text::new("OTA run reached conflicting boot outcomes: ").str(
                    listed.as_str(),
                ).done()
            },
            RunError::NoOutcome => {
                let last = tail(output, 80);
                Text::new(
                    "firmware-driven OTA completed without a configured boot outcome:\n",
                ).str(last.as_str()).done()
            },
            RunError::NoFlashOperation => Text::new(
                "firmware-driven OTA did not perform an emulated flash operation",
            ).done(),
        }
    }
}

// ---------------------------------------------------------------------------
// Power cuts
// ---------------------------------------------------------------------------

impl PowerCutConfig {
    pub open spec fn requested(&self) -> bool {
        self.every_flash_operation || self.events@.len() > 0
    }

    /// Power is cut after events of this kind.
    pub open spec fn selects(&self, event: Seq<char>) -> bool {
        self.every_flash_operation || exists|i: int|
            0 <= i < self.events@.len() && #[trigger] event_named(self.events@[i], event)
    }
}

pub open spec fn event_named(kind: FlashEventKind, event: Seq<char>) -> bool {
    match kind {
        FlashEventKind::EraseStart => event == "erase_start"@,
        FlashEventKind::EraseComplete => event == "erase_complete"@,
        FlashEventKind::ProgramUnit => event == "program_unit"@,
        FlashEventKind::OptionCommit => false,
    }
}

/// The operations among the first `end` after which power is cut, counted from
/// one.
pub open spec fn cuts(config: PowerCutConfig, events: Seq<Seq<char>>, end: int) -> Seq<u64>
    decreases end,
{
    if end <= 0 {
        Seq::empty()
    } else {
        let earlier = cuts(config, events, end - 1);
        if config.selects(events[end - 1]) {
            earlier.push(end as u64)
        } else {
            earlier
        }
    }
}

#[derive(Clone, Copy, Debug, PartialEq, Eq, Structural)]
pub enum CutError {
    NoCount,
    TraceLength { entries: usize, operations: u64 },
    NoneSelected,
}

impl CutError {
    pub open spec fn text(self) -> Seq<char> {
        match self {
            CutError::NoCount => "missing baseline flash operation count"@,
            CutError::TraceLength { entries, operations } => "flash event trace has "@ + dec(
                entries as nat,
            ) + " entries for "@ + dec(operations as nat) + " operations"@,
            CutError::NoneSelected =>
                "none of the selected power-cut events occurred during firmware OTA"@,
        }
    }

    pub fn message(self) -> (res: String)
        ensures
            res@ == self.text(),
    {
        match self {
            CutError::NoCount => Text::new("missing baseline flash operation count").done(),
            CutError::TraceLength { entries, operations } => Text::new(
                "flash event trace has ",
            ).dec(entries as u64).str(" entries for ").dec(operations).str(" operations").done(),
            CutError::NoneSelected => Text::new(
                "none of the selected power-cut events occurred during firmware OTA",
            ).done(),
        }
    }
}

pub open spec fn cut_error(config: PowerCutConfig, operations: Option<u64>, events: Seq<Seq<char>>) -> Option<
    CutError,
> {
    match operations {
        None => Some(CutError::NoCount),
        Some(operations) => if events.len() != operations {
            Some(CutError::TraceLength { entries: events.len() as usize, operations })
        } else if cuts(config, events, events.len() as int).len() == 0 {
            Some(CutError::NoneSelected)
        } else {
            None
        },
    }
}

fn event_has_name(kind: FlashEventKind, event: &str) -> (res: bool)
    ensures
        res == event_named(kind, event@),
{
    match kind {
        FlashEventKind::EraseStart => same_text(event, "erase_start"),
        FlashEventKind::EraseComplete => same_text(event, "erase_complete"),
        FlashEventKind::ProgramUnit => same_text(event, "program_unit"),
        FlashEventKind::OptionCommit => false,
    }
}

fn is_selected(config: &PowerCutConfig, event: &str) -> (res: bool)
    ensures
        res == config.selects(event@),
{
    if config.every_flash_operation {
        return true;
    }
    let mut i: usize = 0;
    while i < config.events.len()
        invariant
            i <= config.events@.len(),
            !config.every_flash_operation,
            forall|k: int| 0 <= k < i ==> !#[trigger] event_named(config.events@[k], event@),
        decreases config.events@.len() - i,
    {
        if event_has_name(config.events[i], event) {
            assert(event_named(config.events@[i as int], event@));
            return true;
        }
        i = i + 1;
    }
    false
}

/// The flash operations after which the run is repeated with a power cut.
pub fn cut_operations(config: &PowerCutConfig, operations: Option<u64>, events: &[String]) -> (res:
    Result<Vec<u64>, CutError>)
    ensures
        match cut_error(*config, operations, texts(events@)) {
            Some(error) => res == Err::<Vec<u64>, CutError>(error),
            None => res matches Ok(found) && found@ == cuts(
                *config,
                texts(events@),
                events@.len() as int,
            ),
        },
{
    assert(texts(events@).len() == events@.len());
    let operations: u64 = match operations {
        Some(operations) => operations,
        None => {
            return Err(CutError::NoCount);
        },
    };
    if events.len() as u64 != operations {
        return Err(CutError::TraceLength { entries: events.len(), operations });
    }
    let mut found: Vec<u64> = Vec::new();
    let mut i: usize = 0;
    while i < events.len()
        invariant
            i <= events@.len(),
            found@ == cuts(*config, texts(events@), i as int),
        decreases events@.len() - i,
    {
        if is_selected(config, events[i].as_str()) {
            found.push(i as u64 + 1);
        }
        i = i + 1;
    }
    if found.len() == 0 {
        return Err(CutError::NoneSelected);
    }
    Ok(found)
}

proof fn lemma_every_cut(config: PowerCutConfig, events: Seq<Seq<char>>, end: int)
    requires
        config.every_flash_operation,
        0 <= end <= events.len(),
    ensures
        cuts(config, events, end) == Seq::new(end as nat, |i: int| (i + 1) as u64),
    decreases end,
{
    if end > 0 {
        lemma_every_cut(config, events, end - 1);
        assert(cuts(config, events, end) =~= Seq::new(end as nat, |i: int| (i + 1) as u64));
    } else {
        assert(cuts(config, events, end) =~= Seq::new(end as nat, |i: int| (i + 1) as u64));
    }
}

/// Where every flash operation is to be cut, each is, once and in its order.
pub proof fn law_every_operation_is_cut(config: PowerCutConfig, events: Seq<Seq<char>>)
    requires
        config.every_flash_operation,
    ensures
        cuts(config, events, events.len() as int) == Seq::new(
            events.len(),
            |i: int| (i + 1) as u64,
        ),
{
    lemma_every_cut(config, events, events.len() as int);
}

/// Cuts are made after observed operations only, in their order, and exactly
/// after those that are selected.
pub proof fn law_cuts_are_the_selected_operations(
    config: PowerCutConfig,
    events: Seq<Seq<char>>,
    end: int,
)
    requires
        0 <= end <= events.len() <= u64::MAX,
    ensures
        forall|i: int|
            0 <= i < cuts(config, events, end).len() ==> 1 <= #[trigger] cuts(config, events, end)[i]
                <= end && config.selects(events[cuts(config, events, end)[i] - 1]),
        forall|i: int, j: int|
            0 <= i < j < cuts(config, events, end).len() ==> #[trigger] cuts(config, events, end)[i]
                < #[trigger] cuts(config, events, end)[j],
        forall|k: int|
            0 <= k < end && config.selects(#[trigger] events[k]) ==> cuts(
                config,
                events,
                end,
            ).contains((k + 1) as u64),
    decreases end,
{
    if end > 0 {
        law_cuts_are_the_selected_operations(config, events, end - 1);
        let earlier = cuts(config, events, end - 1);
        let now = cuts(config, events, end);
        assert forall|i: int| 0 <= i < now.len() implies 1 <= #[trigger] now[i] <= end
            && config.selects(events[now[i] - 1]) by {
            if i < earlier.len() {
                assert(now[i] == earlier[i]);
            }
        }
        assert forall|i: int, j: int| 0 <= i < j < now.len() implies #[trigger] now[i]
            < #[trigger] now[j] by {
            assert(now[i] == earlier[i]);
            if j < earlier.len() {
                assert(now[j] == earlier[j]);
            }
        }
        assert forall|k: int| 0 <= k < end && config.selects(#[trigger] events[k]) implies now.contains(
            (k + 1) as u64) by {
            if k < end - 1 {
                assert(earlier.contains((k + 1) as u64));
                let at = choose|at: int| 0 <= at < earlier.len() && earlier[at] == (k + 1) as u64;
                assert(now[at] == (k + 1) as u64);
            } else {
                assert(now[now.len() - 1] == end as u64);
            }
        }
    }
}

#[derive(Debug)]
pub enum CutRunError {
    NoReboot,
    Conflict(Vec<String>),
    NoOutcome,
    NoLatch,
    NotTriggered,
}

/// Which check a run with a power cut failed.
#[derive(Clone, Copy, Debug, PartialEq, Eq, Structural)]
pub enum CutCheck {
    Reboot,
    Conflict,
    Outcome,
    Latch,
    Triggered,
}

impl CutRunError {
    pub open spec fn check(self) -> CutCheck {
        match self {
            CutRunError::NoReboot => CutCheck::Reboot,
            CutRunError::Conflict(_) => CutCheck::Conflict,
            CutRunError::NoOutcome => CutCheck::Outcome,
            CutRunError::NoLatch => CutCheck::Latch,
            CutRunError::NotTriggered => CutCheck::Triggered,
        }
    }

    pub open spec fn text(self, cut: u64) -> Seq<char> {
        match self {
            CutRunError::NoReboot => "power-cut run did not execute a cold reboot"@,
            CutRunError::Conflict(names) => "OTA run reached conflicting boot outcomes: "@ + join(
                texts(names@),
                ", "@,
            ),
            CutRunError::NoOutcome => "no boot outcome after flash operation "@ + dec(cut as nat),
            CutRunError::NoLatch => "flash model did not report its power-cut latch"@,
            CutRunError::NotTriggered => "flash cut after operation "@ + dec(cut as nat)
                + " was not triggered"@,
        }
    }

    pub fn message(&self, cut: u64) -> (res: String)
        ensures
            res@ == self.text(cut),
    {
        match self {
            CutRunError::NoReboot => Text::new(
                "power-cut run did not execute a cold reboot",
            ).done(),
            CutRunError::Conflict(names) => {
                let listed = join_texts(names.as_slice(), ", ");
                Text::new("OTA run reached conflicting boot outcomes: ").str(
                    listed.as_str(),
                ).done()
            },
            CutRunError::NoOutcome => Text::new("no boot outcome after flash operation ").dec(
                cut,
            ).done(),
            CutRunError::NoLatch => Text::new(
                "flash model did not report its power-cut latch",
            ).done(),
            CutRunError::NotTriggered => Text::new("flash cut after operation ").dec(cut).str(
                " was not triggered",
            ).done(),
        }
    }
}

/// The output from the cold reboot on.
pub open spec fn reboot_output(output: Seq<char>) -> Option<Seq<char>> {
    after_marker(output, "SEDS_POWER_CUT_REBOOT"@)
}

pub open spec fn failed_cut_check(outcomes: Seq<BootOutcome>, output: Seq<char>) -> Option<
    CutCheck,
> {
    match reboot_output(output) {
        None => Some(CutCheck::Reboot),
        Some(rest) => {
            let shown = all_outcomes(outcomes, rest);
            if shown.len() > 1 {
                Some(CutCheck::Conflict)
            } else if shown.len() == 0 {
                Some(CutCheck::Outcome)
            } else {
                match bool_after(output, "SEDS_POWER_CUT_TRIGGERED"@) {
                    None => Some(CutCheck::Latch),
                    Some(false) => Some(CutCheck::Triggered),
                    Some(true) => None,
                }
            }
        },
    }
}

/// Holds the output of a run in which power was cut after operation `cut` to
/// the configured outcomes.
pub fn judge_cut(outcomes: &[BootOutcome], output: &str, cut: u64) -> (res: Result<
    OtaPowerCutReport,
    CutRunError,
>)
    ensures
        match failed_cut_check(outcomes@, output@) {
            Some(check) => {
                &&& res matches Err(error)
                &&& error.check() == check
                &&& error matches CutRunError::Conflict(names) ==> texts(names@) == all_outcomes(
                    outcomes@,
                    reboot_output(output@)->0,
                )
            },
            None => {
                &&& res matches Ok(report)
                &&& report.after_flash_operation == cut
                &&& report.power_cut_triggered
                &&& report.reboot_executed
                &&& report.outcome@ == all_outcomes(outcomes@, reboot_output(output@)->0)[0]
            },
        },
{
    let rest = match rest_after(output, "SEDS_POWER_CUT_REBOOT") {
        Some(rest) => rest,
        None => {
            return Err(CutRunError::NoReboot);
        },
    };
    let outcome = match unique_ota_outcome(outcomes, rest.as_str()) {
        Ok(Some(outcome)) => outcome,
        Ok(None) => {
            return Err(CutRunError::NoOutcome);
        },
        Err(names) => {
            return Err(CutRunError::Conflict(names));
        },
    };
    match marker_bool(output, "SEDS_POWER_CUT_TRIGGERED") {
        None => Err(CutRunError::NoLatch),
        Some(triggered) => if triggered {
            Ok(
                OtaPowerCutReport {
                    after_flash_operation: cut,
                    power_cut_triggered: true,
                    reboot_executed: true,
                    outcome,
                },
            )
        } else {
            Err(CutRunError::NotTriggered)
        },
    }
}

/// The report on a run that passed, with its power cuts.
pub fn report_run(
    layout: &BoardLayout,
    elf: String,
    trace: String,
    seen: Observations,
    ota_power_cuts: Vec<OtaPowerCutReport>,
) -> (res: ExecutionReport)
    ensures
        res.backend@ == "renode"@,
        res.elf == elf,
        res.virtual_time_ms == layout.execution.virtual_time_ms,
        res.instruction_execution_observed,
        res.firmware_boot_reached,
        res.factory_boot_reached,
        res.register_dump == seen.registers,
        res.memory_profile == seen.memory_profile,
        res.trace == if layout.execution.trace {
            Some(trace)
        } else {
            None
        },
        res.firmware_driven_ota == layout.ota.firmware_driven,
        res.ota_outcome == seen.ota_outcome,
        res.flash_operations_observed == seen.flash_operations,
        res.flash_event_trace == seen.flash_event_trace,
        res.ota_power_cuts == ota_power_cuts,
{
    ExecutionReport {
        backend: "renode",
        elf,
        virtual_time_ms: layout.execution.virtual_time_ms,
        instruction_execution_observed: true,
        firmware_boot_reached: true,
        factory_boot_reached: true,
        register_dump: seen.registers,
        memory_profile: seen.memory_profile,
        trace: if layout.execution.trace {
            Some(trace)
        } else {
            None
        },
        firmware_driven_ota: layout.ota.firmware_driven,
        ota_outcome: seen.ota_outcome,
        flash_operations_observed: seen.flash_operations,
        flash_event_trace: seen.flash_event_trace,
        ota_power_cuts,
    }
}

// ---------------------------------------------------------------------------
// What is executed, and what passes
// ---------------------------------------------------------------------------

/// Letters, digits and underscores.
pub open spec fn is_symbol(text: Seq<char>) -> bool {
    forall|i: int|
        0 <= i < text.len() ==> ('a' <= #[trigger] text[i] <= 'z') || ('A' <= text[i] <= 'Z') || (
        '0' <= text[i] <= '9') || text[i] == '_'
}

/// Letters, digits, underscores and hyphens.
pub open spec fn is_label(text: Seq<char>) -> bool {
    forall|i: int|
        0 <= i < text.len() ==> ('a' <= #[trigger] text[i] <= 'z') || ('A' <= text[i] <= 'Z') || (
        '0' <= text[i] <= '9') || text[i] == '_' || text[i] == '-'
}

proof fn lemma_symbol(text: Seq<char>)
    ensures
        made_of(text, "_"@) <==> is_symbol(text),
        made_of(text, "_-"@) <==> is_label(text),
{
    reveal_strlit("_");
    reveal_strlit("_-");
    let one = "_"@;
    let two = "_-"@;
    assert(one.len() == 1 && one[0] == '_');
    assert(two.len() == 2 && two[0] == '_' && two[1] == '-');
    assert forall|c: char| one.contains(c) <==> c == '_' by {}
    assert forall|c: char| two.contains(c) <==> c == '_' || c == '-' by {
        if two.contains(c) {
            let i = choose|i: int| 0 <= i < two.len() && two[i] == c;
            assert(i == 0 || i == 1);
        }
    }
}

proof fn lemma_probe_names(execution: ExecutionConfig, from: int)
    requires
        0 <= from,
    ensures
        probe_name_error(execution, from) is None <==> forall|i: int|
            from <= i < execution.memory_probes@.len() ==> {
                let probe = #[trigger] execution.memory_probes@[i];
                &&& probe.name@.len() > 0 && is_label(probe.name@)
                &&& probe.symbol@.len() > 0 && is_symbol(probe.symbol@)
            },
    decreases execution.memory_probes@.len() - from,
{
    if from < execution.memory_probes@.len() {
        lemma_probe_names(execution, from + 1);
        lemma_symbol(execution.memory_probes@[from].name@);
        lemma_symbol(execution.memory_probes@[from].symbol@);
        if probe_name_error(execution, from) is None {
            assert forall|i: int| from <= i < execution.memory_probes@.len() implies {
                let probe = #[trigger] execution.memory_probes@[i];
                &&& probe.name@.len() > 0 && is_label(probe.name@)
                &&& probe.symbol@.len() > 0 && is_symbol(probe.symbol@)
            } by {
                if i > from {
                    assert(from + 1 <= i);
                }
            }
        }
    }
}

/// A run is accepted exactly where its success symbols can be symbols, it takes
/// at least one sample and at most one a millisecond, does not spend them all
/// on the warm-up, its tick advances a word that lies in one RAM bank, and
/// every probe has a name and a symbol that scripts can hold.
pub proof fn law_sound_runs_are_accepted(execution: ExecutionConfig, regions: Seq<MemoryRegion>)
    ensures
        config_error(execution, regions) is None <==> {
            &&& is_symbol(execution.boot_success_symbol@)
            &&& is_symbol(execution.factory_boot_success_symbol@)
            &&& 1 <= execution.sample_count <= execution.virtual_time_ms
            &&& execution.memory_probe_warmup_samples < execution.sample_count
            &&& execution.hal_tick_step > 0
            &&& execution.hal_tick_address is Some ==> exists|i: int|
                0 <= i < regions.len() && (#[trigger] regions[i]).base
                    <= execution.hal_tick_address->0 && execution.hal_tick_address->0 + 4
                    <= regions[i].base + regions[i].size && execution.hal_tick_address->0 + 4
                    <= u64::MAX
            &&& forall|i: int|
                0 <= i < execution.memory_probes@.len() ==> {
                    let probe = #[trigger] execution.memory_probes@[i];
                    &&& probe.name@.len() > 0 && is_label(probe.name@)
                    &&& probe.symbol@.len() > 0 && is_symbol(probe.symbol@)
                }
        },
{
    lemma_symbol(execution.boot_success_symbol@);
    lemma_symbol(execution.factory_boot_success_symbol@);
    lemma_probe_names(execution, 0);
    if execution.hal_tick_address is Some {
        let address = execution.hal_tick_address->0;
        if word_in_ram(regions, address as int) {
            let i = choose|i: int|
                0 <= i < regions.len() && #[trigger] word_in(regions[i], address as int);
            assert(regions[i].base <= address);
        }
        assert forall|i: int|
            0 <= i < regions.len() && (#[trigger] regions[i]).base <= address && address + 4
                <= regions[i].base + regions[i].size && address + 4 <= u64::MAX implies word_in(
            regions[i],
            address as int,
        ) by {}
    }
}

/// What the emulator says, in any case of letters, where it or the firmware
/// fails; the last two are said of the script itself.
pub open spec fn fault_phrases() -> Seq<Seq<char>> {
    seq![
        "fatal error"@,
        "cpu abort"@,
        "[error]"@,
        "there was an error executing command"@,
        "parameters did not match"@,
    ]
}

/// The output says this, in any case of letters.
pub open spec fn says(output: Seq<char>, phrase: Seq<char>) -> bool {
    exists|at: int|
        0 <= at && at + phrase.len() <= output.len() && #[trigger] lower(output).subrange(
            at,
            at + phrase.len(),
        ) == phrase
}

proof fn lemma_says(output: Seq<char>, phrase: Seq<char>)
    ensures
        says(output, phrase) <==> contains(lower(output), phrase),
{
    let low = lower(output);
    if contains(low, phrase) {
        let at = choose|at: int| occurs_at(low, phrase, at);
        assert(low.subrange(at, at + phrase.len()) == phrase);
    }
    if says(output, phrase) {
        let at = choose|at: int|
            0 <= at && at + phrase.len() <= output.len() && #[trigger] low.subrange(
                at,
                at + phrase.len(),
            ) == phrase;
        assert(occurs_at(low, phrase, at));
    }
}

/// A run has faulted exactly where its output holds one of the phrases, and a
/// command was refused exactly where it holds one of the last two.
pub proof fn law_faults_are_told_by_phrases(output: Seq<char>)
    ensures
        faulted(output) <==> exists|i: int|
            0 <= i < 5 && says(output, #[trigger] fault_phrases()[i]),
        command_error(output) <==> exists|i: int|
            3 <= i < 5 && says(output, #[trigger] fault_phrases()[i]),
{
    let all = fault_phrases();
    assert(all.len() == 5);
    assert(all[0] == "fatal error"@ && all[1] == "cpu abort"@ && all[2] == "[error]"@ && all[3]
        == "there was an error executing command"@ && all[4] == "parameters did not match"@);
    assert forall|i: int| 0 <= i < 5 implies (says(output, #[trigger] all[i]) <==> contains(
        lower(output),
        all[i],
    )) by {
        lemma_says(output, all[i]);
    }
    if faulted(output) {
        assert(says(output, all[0]) || says(output, all[1]) || says(output, all[2]) || says(
            output,
            all[3],
        ) || says(output, all[4]));
    }
    if command_error(output) {
        assert(says(output, all[3]) || says(output, all[4]));
    }
    if exists|i: int| 0 <= i < 5 && says(output, #[trigger] all[i]) {
        let i = choose|i: int| 0 <= i < 5 && says(output, #[trigger] all[i]);
        assert(i == 0 || i == 1 || i == 2 || i == 3 || i == 4);
    }
    if exists|i: int| 3 <= i < 5 && says(output, #[trigger] all[i]) {
        let i = choose|i: int| 3 <= i < 5 && says(output, #[trigger] all[i]);
        assert(i == 3 || i == 4);
    }
}

/// The outcomes whose markers the output shows.
pub open spec fn reached(outcomes: Seq<BootOutcome>, output: Seq<char>) -> Seq<BootOutcome> {
    outcomes.filter(
        |outcome: BootOutcome| marker_shown(output, "SEDS_OTA_OUTCOME_"@ + outcome.name@),
    )
}

proof fn lemma_outcomes_shown(outcomes: Seq<BootOutcome>, output: Seq<char>, end: int)
    requires
        0 <= end <= outcomes.len(),
    ensures
        outcomes_shown(outcomes, output, end) == reached(
            outcomes.take(end),
            output,
        ).map_values(|outcome: BootOutcome| outcome.name@),
    decreases end,
{
    reveal(Seq::filter);
    let name = |outcome: BootOutcome| outcome.name@;
    if end > 0 {
        lemma_outcomes_shown(outcomes, output, end - 1);
        assert(outcomes.take(end).drop_last() =~= outcomes.take(end - 1));
        assert(outcomes.take(end).last() == outcomes[end - 1]);
    }
    assert(outcomes_shown(outcomes, output, end) =~= reached(
        outcomes.take(end),
        output,
    ).map_values(name));
}

/// The outcomes of an update are those whose markers its output shows, in the
/// order in which the layout declares them.
pub proof fn law_outcomes_are_those_reached(outcomes: Seq<BootOutcome>, output: Seq<char>)
    ensures
        all_outcomes(outcomes, output).len() == reached(outcomes, output).len(),
        forall|i: int|
            0 <= i < reached(outcomes, output).len() ==> #[trigger] all_outcomes(
                outcomes,
                output,
            )[i] == reached(outcomes, output)[i].name@,
{
    lemma_outcomes_shown(outcomes, output, outcomes.len() as int);
    assert(outcomes.take(outcomes.len() as int) =~= outcomes);
}

/// A run passes exactly where its probes do, the markers of both boots are
/// printed, a register dump names the program counter, the trace that was
/// asked for is there, at most one outcome was reached and, where the firmware
/// drives the update, one was, after at least one flash operation.
pub proof fn law_sound_runs_pass(layout: BoardLayout, output: Seq<char>, traced: bool)
    ensures
        failed_check(layout, output, traced) is None <==> {
            let transfer = after_marker(output, "SEDS_OTA_TRANSFER_BEGIN"@);
            let shown = reached(
                layout.ota.outcomes@,
                if transfer is Some {
                    transfer->0
                } else {
                    output
                },
            ).len();
            let dump = prefixed_pairs(lines(output), "SEDS_REG "@, lines(output).len() as int);
            let operations = number_after(output, "SEDS_FLASH_OPERATIONS"@);
            &&& profile_failure(layout.execution, lines(output), 0) is None
            &&& marker_shown(output, "SEDS_FIRMWARE_BOOT_REACHED"@)
            &&& marker_shown(output, "SEDS_FACTORY_BOOT_REACHED"@)
            &&& exists|i: int| 0 <= i < dump.len() && contains(#[trigger] dump[i], "PC"@)
            &&& layout.execution.trace ==> traced
            &&& shown <= 1
            &&& layout.ota.firmware_driven ==> shown == 1 && operations is Some && operations->0 > 0
        },
{
    law_outcomes_are_those_reached(layout.ota.outcomes@, transfer_output(output));
}

/// Power is cut after an event where every operation is to be cut, or the
/// event's kind is selected; option commits show no event of their own.
pub proof fn law_events_are_selected_by_kind(config: PowerCutConfig, event: Seq<char>)
    ensures
        config.selects(event) <==> {
            ||| config.every_flash_operation
            ||| event == "erase_start"@ && config.events@.contains(FlashEventKind::EraseStart)
            ||| event == "erase_complete"@ && config.events@.contains(FlashEventKind::EraseComplete)
            ||| event == "program_unit"@ && config.events@.contains(FlashEventKind::ProgramUnit)
        },
        config.requested() <==> config.every_flash_operation || config.events@.len() > 0,
{
    reveal_strlit("erase_start");
    reveal_strlit("erase_complete");
    reveal_strlit("program_unit");
    let events = config.events@;
    if !config.every_flash_operation && config.selects(event) {
        let i = choose|i: int| 0 <= i < events.len() && #[trigger] event_named(events[i], event);
        assert(events.contains(events[i]));
    }
    if event == "erase_start"@ && events.contains(FlashEventKind::EraseStart) {
        let i = choose|i: int| 0 <= i < events.len() && events[i] == FlashEventKind::EraseStart;
        assert(event_named(events[i], event));
    }
    if event == "erase_complete"@ && events.contains(FlashEventKind::EraseComplete) {
        let i = choose|i: int| 0 <= i < events.len() && events[i] == FlashEventKind::EraseComplete;
        assert(event_named(events[i], event));
    }
    if event == "program_unit"@ && events.contains(FlashEventKind::ProgramUnit) {
        let i = choose|i: int| 0 <= i < events.len() && events[i] == FlashEventKind::ProgramUnit;
        assert(event_named(events[i], event));
    }
}

/// There are cuts to make exactly where the operations were counted, each left
/// an event, and at least one of these is selected.
pub proof fn law_when_power_is_cut(
    config: PowerCutConfig,
    operations: Option<u64>,
    events: Seq<Seq<char>>,
)
    requires
        events.len() <= u64::MAX,
    ensures
        cut_error(config, operations, events) is None <==> {
            &&& operations is Some
            &&& events.len() == operations->0
            &&& exists|k: int| 0 <= k < events.len() && config.selects(#[trigger] events[k])
        },
{
    let end = events.len() as int;
    law_cuts_are_the_selected_operations(config, events, end);
    let found = cuts(config, events, end);
    if found.len() > 0 {
        assert(config.selects(events[found[0] - 1]));
    }
    if exists|k: int| 0 <= k < events.len() && config.selects(#[trigger] events[k]) {
        let k = choose|k: int| 0 <= k < events.len() && config.selects(#[trigger] events[k]);
        assert(found.contains((k + 1) as u64));
    }
}

/// A run with a power cut passes exactly where it rebooted, reached one outcome
/// and no other after that, and the flash model says that the cut took hold.
pub proof fn law_sound_cuts_pass(outcomes: Seq<BootOutcome>, output: Seq<char>)
    ensures
        failed_cut_check(outcomes, output) is None <==> {
            let rest = after_marker(output, "SEDS_POWER_CUT_REBOOT"@);
            &&& rest is Some
            &&& reached(outcomes, rest->0).len() == 1
            &&& bool_after(output, "SEDS_POWER_CUT_TRIGGERED"@) == Some(true)
        },
{
    let rest = after_marker(output, "SEDS_POWER_CUT_REBOOT"@);
    if rest is Some {
        law_outcomes_are_those_reached(outcomes, rest->0);
    }
}

/// What a run is said to have shown is what stands in its output: the marked
/// registers, the reports on its probes, the one outcome behind the start of
/// the transfer, and the flash operations that were counted and traced.
pub proof fn law_observations_follow_the_output(
    seen: Observations,
    layout: BoardLayout,
    output: Seq<char>,
    traced: bool,
)
    requires
        failed_check(layout, output, traced) is None,
        seen.of(layout, output),
    ensures
        texts(seen.registers@) == prefixed_pairs(
            lines(output),
            "SEDS_REG "@,
            lines(output).len() as int,
        ),
        seen.memory_profile@.len() == layout.execution.memory_probes@.len(),
        ({
            let transfer = after_marker(output, "SEDS_OTA_TRANSFER_BEGIN"@);
            let shown = reached(
                layout.ota.outcomes@,
                if transfer is Some {
                    transfer->0
                } else {
                    output
                },
            );
            &&& seen.ota_outcome is Some <==> shown.len() > 0
            &&& seen.ota_outcome is Some ==> (seen.ota_outcome->0)@ == shown[0].name@
        }),
        seen.flash_operations is Some <==> number_after(output, "SEDS_FLASH_OPERATIONS"@) is Some,
        seen.flash_operations is Some ==> number_after(output, "SEDS_FLASH_OPERATIONS"@) == Some(
            seen.flash_operations->0 as int,
        ),
        texts(seen.flash_event_trace@) == events_after(output, "SEDS_FLASH_EVENT_TRACE"@),
{
    law_outcomes_are_those_reached(layout.ota.outcomes@, transfer_output(output));
}

proof fn lemma_probe_fault(execution: ExecutionConfig, from: int)
    requires
        0 <= from,
        execution.memory_probes@.len() <= usize::MAX,
    ensures
        match probe_name_error(execution, from) {
            None => true,
            Some(ConfigError::ProbeName(i)) => i < execution.memory_probes@.len() && (
            execution.memory_probes@[i as int].name@.len() == 0 || !is_label(
                execution.memory_probes@[i as int].name@,
            )),
            Some(ConfigError::ProbeSymbol(i)) => i < execution.memory_probes@.len() && (
            execution.memory_probes@[i as int].symbol@.len() == 0 || !is_symbol(
                execution.memory_probes@[i as int].symbol@,
            )),
            Some(_) => false,
        },
    decreases execution.memory_probes@.len() - from,
{
    if from < execution.memory_probes@.len() {
        lemma_symbol(execution.memory_probes@[from].name@);
        lemma_symbol(execution.memory_probes@[from].symbol@);
        lemma_probe_fault(execution, from + 1);
    }
}

/// What a run is refused for is wrong with it.
pub proof fn law_runs_are_refused_for_what_is_wrong(
    execution: ExecutionConfig,
    regions: Seq<MemoryRegion>,
)
    requires
        execution.memory_probes@.len() <= usize::MAX,
    ensures
        match config_error(execution, regions) {
            None => true,
            Some(ConfigError::SuccessSymbol) => !is_symbol(execution.boot_success_symbol@),
            Some(ConfigError::FactorySymbol) => !is_symbol(execution.factory_boot_success_symbol@),
            Some(ConfigError::NoSamples) => execution.sample_count == 0,
            Some(ConfigError::TooManySamples) => execution.sample_count > execution.virtual_time_ms,
            Some(ConfigError::Warmup) => execution.memory_probe_warmup_samples
                >= execution.sample_count,
            Some(ConfigError::TickStep) => execution.hal_tick_step == 0,
            Some(ConfigError::TickAddress(address)) => {
                &&& execution.hal_tick_address == Some(address)
                &&& forall|i: int|
                    0 <= i < regions.len() ==> address < (#[trigger] regions[i]).base || address + 4
                        > regions[i].base + regions[i].size || address + 4 > u64::MAX
            },
            Some(ConfigError::ProbeName(i)) => i < execution.memory_probes@.len() && (
            execution.memory_probes@[i as int].name@.len() == 0 || !is_label(
                execution.memory_probes@[i as int].name@,
            )),
            Some(ConfigError::ProbeSymbol(i)) => i < execution.memory_probes@.len() && (
            execution.memory_probes@[i as int].symbol@.len() == 0 || !is_symbol(
                execution.memory_probes@[i as int].symbol@,
            )),
        },
{
    lemma_symbol(execution.boot_success_symbol@);
    lemma_symbol(execution.factory_boot_success_symbol@);
    lemma_probe_fault(execution, 0);
    if execution.hal_tick_address is Some {
        let address = execution.hal_tick_address->0;
        if !word_in_ram(regions, address as int) {
            assert forall|i: int| 0 <= i < regions.len() implies address < (#[trigger] regions[i]).base
                || address + 4 > regions[i].base + regions[i].size || address + 4 > u64::MAX by {
                assert(!word_in(regions[i], address as int));
            }
        }
    }
}

/// What a run fails for is what its output does not show.
pub proof fn law_runs_fail_for_what_is_missing(layout: BoardLayout, output: Seq<char>, traced: bool)
    ensures
        ({
            let transfer = after_marker(output, "SEDS_OTA_TRANSFER_BEGIN"@);
            let shown = reached(
                layout.ota.outcomes@,
                if transfer is Some {
                    transfer->0
                } else {
                    output
                },
            ).len();
            let dump = prefixed_pairs(lines(output), "SEDS_REG "@, lines(output).len() as int);
            let operations = number_after(output, "SEDS_FLASH_OPERATIONS"@);
            match failed_check(layout, output, traced) {
                None => true,
                Some(RunCheck::Probe) => profile_failure(layout.execution, lines(output), 0) is Some,
                Some(RunCheck::FirmwareBoot) => !marker_shown(
                    output,
                    "SEDS_FIRMWARE_BOOT_REACHED"@,
                ),
                Some(RunCheck::FactoryBoot) => !marker_shown(output, "SEDS_FACTORY_BOOT_REACHED"@),
                Some(RunCheck::Registers) => forall|i: int|
                    0 <= i < dump.len() ==> !contains(#[trigger] dump[i], "PC"@),
                Some(RunCheck::Trace) => layout.execution.trace && !traced,
                Some(RunCheck::Conflict) => shown > 1,
                Some(RunCheck::Outcome) => layout.ota.firmware_driven && shown == 0,
                Some(RunCheck::FlashOperation) => layout.ota.firmware_driven && (operations is None
                    || operations->0 <= 0),
            }
        }),
{
    law_outcomes_are_those_reached(layout.ota.outcomes@, transfer_output(output));
}

/// What a run with a power cut fails for is what its output does not show.
pub proof fn law_cuts_fail_for_what_is_missing(
    outcomes: Seq<BootOutcome>,
    output: Seq<char>,
    config: PowerCutConfig,
    operations: Option<u64>,
    events: Seq<Seq<char>>,
)
    ensures
        ({
            let rest = after_marker(output, "SEDS_POWER_CUT_REBOOT"@);
            match failed_cut_check(outcomes, output) {
                None => true,
                Some(CutCheck::Reboot) => rest is None,
                Some(CutCheck::Conflict) => reached(outcomes, rest->0).len() > 1,
                Some(CutCheck::Outcome) => reached(outcomes, rest->0).len() == 0,
                Some(CutCheck::Latch) => bool_after(output, "SEDS_POWER_CUT_TRIGGERED"@) is None,
                Some(CutCheck::Triggered) => bool_after(output, "SEDS_POWER_CUT_TRIGGERED"@)
                    == Some(false),
            }
        }),
        match cut_error(config, operations, events) {
            None => true,
            Some(CutError::NoCount) => operations is None,
            Some(CutError::TraceLength { entries, operations: counted }) => operations == Some(
                counted,
            ) && events.len() != counted && (events.len() <= usize::MAX ==> entries
                == events.len()),
            Some(CutError::NoneSelected) => operations is Some && events.len() == operations->0,
        },
{
    let rest = after_marker(output, "SEDS_POWER_CUT_REBOOT"@);
    if rest is Some {
        law_outcomes_are_those_reached(outcomes, rest->0);
    }
}

} // verus!
