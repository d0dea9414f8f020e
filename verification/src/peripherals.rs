//! Behavioural device models: which declarations make sense, and what a
//! deterministic schedule of faults and disconnections makes of a run of
//! reads.

use vstd::prelude::*;

use crate::text::{opt_text, same_text, Text};

verus! {

#[derive(Debug)]
pub struct PeripheralSpec {
    pub kind: String,
    pub name: String,
    pub model: Option<String>,
    pub bus: Option<String>,
    pub failure_every: Option<u64>,
    pub disconnect_after: Option<u64>,
    pub bits: Option<u8>,
    pub channels: Option<u8>,
    /// The bits of a double-precision number.
    pub max_psi: Option<u64>,
    pub channel_samples: Vec<u32>,
    pub noise_lsb: Option<u32>,
    pub capacity_bytes: Option<u64>,
}

#[derive(Debug)]
pub struct DeviceReport {
    pub name: String,
    pub kind: String,
    pub model: Option<String>,
    pub bus: Option<String>,
    pub instruction_coupled: bool,
    /// The counts below are those of the behavioral model, not the driver's.
    pub behavioral_counts_only: bool,
    pub successful_reads: u64,
    pub injected_errors: u64,
    pub disconnected_reads: u64,
    pub faults_configured: bool,
    pub expected_injected_errors: u64,
    pub expected_disconnected_reads: u64,
    pub fault_test_passed: bool,
}

#[derive(Clone, Copy, Debug, PartialEq, Eq, Structural)]
pub enum PeripheralError {
    EmptyName,
    ModelAndBus,
    UnsupportedModel,
    AdcBits,
    AdcChannels,
    MaxPsi,
    Capacity,
    UnsupportedType,
}

/// What is wrong with which of several declarations.
#[derive(Clone, Copy, Debug, PartialEq, Eq, Structural)]
pub struct PeripheralFault {
    pub index: usize,
    pub error: PeripheralError,
}

impl PeripheralError {
    pub open spec fn text(self, spec: PeripheralSpec) -> Seq<char> {
        match self {
            PeripheralError::EmptyName => "peripheral name cannot be empty"@,
            PeripheralError::ModelAndBus => "peripheral model and bus must be specified together"@,
            PeripheralError::UnsupportedModel => "unsupported "@ + spec.kind@ + " model "@
                + match spec.model {
                Some(model) => model@,
                None => ""@,
            },
            PeripheralError::AdcBits => "ADC bits must be 1..=16"@,
            PeripheralError::AdcChannels => "ADC needs a channel"@,
            PeripheralError::MaxPsi => "max_psi must be positive"@,
            PeripheralError::Capacity => "storage capacity_bytes must be a multiple of 512"@,
            PeripheralError::UnsupportedType => "unsupported peripheral type "@ + spec.kind@,
        }
    }

    pub fn message(self, spec: &PeripheralSpec) -> (res: String)
        ensures
            res@ == self.text(*spec),
    {
        match self {
            PeripheralError::EmptyName => Text::new("peripheral name cannot be empty").done(),
            PeripheralError::ModelAndBus => Text::new(
                "peripheral model and bus must be specified together",
            ).done(),
            PeripheralError::UnsupportedModel => {
                let model = match &spec.model {
                    Some(model) => model.as_str(),
                    None => "",
                };
                Text::new("unsupported ").str(spec.kind.as_str()).str(" model ").str(model).done()
            },
            PeripheralError::AdcBits => Text::new("ADC bits must be 1..=16").done(),
            PeripheralError::AdcChannels => Text::new("ADC needs a channel").done(),
            PeripheralError::MaxPsi => Text::new("max_psi must be positive").done(),
            PeripheralError::Capacity => Text::new(
                "storage capacity_bytes must be a multiple of 512",
            ).done(),
            PeripheralError::UnsupportedType => Text::new("unsupported peripheral type ").str(
                spec.kind.as_str(),
            ).done(),
        }
    }
}

// ---------------------------------------------------------------------------
// Declarations
// ---------------------------------------------------------------------------

/// There is a register or wire model of this name for this type of device.
pub open spec fn model_supported(kind: Seq<char>, model: Seq<char>) -> bool {
    ||| kind == "gps"@ && model == "neo_m9n"@
    ||| kind == "imu"@ && model == "bmi088"@
    ||| kind == "barometer"@ && model == "bmp390"@
    ||| kind == "adc"@ && (model == "ltc2990"@ || model == "stm32_adc"@)
    ||| kind == "pressure_transducer"@ && model == "stm32_adc"@
    ||| kind == "storage"@ && model == "sd_card"@
}

/// The double-precision number with these bits is greater than zero.
pub open spec fn positive_double(bits: u64) -> bool {
    1 <= bits <= 0x7ff0_0000_0000_0000
}

impl PeripheralSpec {
    pub open spec fn adc_bits(&self) -> int {
        match self.bits {
            Some(bits) => bits as int,
            None => 12,
        }
    }

    pub open spec fn adc_channels(&self) -> int {
        match self.channels {
            Some(channels) => channels as int,
            None => 1,
        }
    }

    pub open spec fn kind_error(&self) -> Option<PeripheralError> {
        let kind = self.kind@;
        if kind == "imu"@ || kind == "barometer"@ || kind == "gps"@ {
            None
        } else if kind == "adc"@ {
            if !(1 <= self.adc_bits() <= 16) {
                Some(PeripheralError::AdcBits)
            } else if self.adc_channels() == 0 {
                Some(PeripheralError::AdcChannels)
            } else {
                None
            }
        } else if kind == "pressure_transducer"@ {
            match self.max_psi {
                Some(bits) if !positive_double(bits) => Some(PeripheralError::MaxPsi),
                _ => None,
            }
        } else if kind == "storage"@ {
            match self.capacity_bytes {
                Some(bytes) if bytes % 512 != 0 => Some(PeripheralError::Capacity),
                _ => None,
            }
        } else {
            Some(PeripheralError::UnsupportedType)
        }
    }

    pub open spec fn error(&self) -> Option<PeripheralError> {
        if self.name@.len() == 0 {
            Some(PeripheralError::EmptyName)
        } else if self.model is Some != self.bus is Some {
            Some(PeripheralError::ModelAndBus)
        } else if self.model matches Some(model) && !model_supported(self.kind@, model@) {
            Some(PeripheralError::UnsupportedModel)
        } else {
            self.kind_error()
        }
    }
}

fn supports_model(kind: &str, model: &str) -> (res: bool)
    ensures
        res == model_supported(kind@, model@),
{
    same_text(kind, "gps") && same_text(model, "neo_m9n") || same_text(kind, "imu") && same_text(
        model,
        "bmi088",
    ) || same_text(kind, "barometer") && same_text(model, "bmp390") || same_text(kind, "adc") && (
    same_text(model, "ltc2990") || same_text(model, "stm32_adc")) || same_text(
        kind,
        "pressure_transducer",
    ) && same_text(model, "stm32_adc") || same_text(kind, "storage") && same_text(model, "sd_card")
}

fn validate_kind(spec: &PeripheralSpec) -> (res: Result<(), PeripheralError>)
    ensures
        match spec.kind_error() {
            Some(error) => res == Err::<(), PeripheralError>(error),
            None => res is Ok,
        },
{
    let kind = spec.kind.as_str();
    if same_text(kind, "imu") || same_text(kind, "barometer") || same_text(kind, "gps") {
        Ok(())
    } else if same_text(kind, "adc") {
        let bits: u8 = match spec.bits {
            Some(bits) => bits,
            None => 12,
        };
        let channels: u8 = match spec.channels {
            Some(channels) => channels,
            None => 1,
        };
        if !(1 <= bits && bits <= 16) {
            Err(PeripheralError::AdcBits)
        } else if channels == 0 {
            Err(PeripheralError::AdcChannels)
        } else {
            Ok(())
        }
    } else if same_text(kind, "pressure_transducer") {
        match spec.max_psi {
            Some(bits) => if bits >= 1 && bits <= 0x7ff0_0000_0000_0000 {
                Ok(())
            } else {
                Err(PeripheralError::MaxPsi)
            },
            None => Ok(()),
        }
    } else if same_text(kind, "storage") {
        match spec.capacity_bytes {
            Some(bytes) => if bytes % 512 == 0 {
                Ok(())
            } else {
                Err(PeripheralError::Capacity)
            },
            None => Ok(()),
        }
    } else {
        Err(PeripheralError::UnsupportedType)
    }
}

pub fn validate(spec: &PeripheralSpec) -> (res: Result<(), PeripheralError>)
    ensures
        match spec.error() {
            Some(error) => res == Err::<(), PeripheralError>(error),
            None => res is Ok,
        },
{
    if spec.name.as_str().is_empty() {
        return Err(PeripheralError::EmptyName);
    }
    if spec.model.is_some() != spec.bus.is_some() {
        return Err(PeripheralError::ModelAndBus);
    }
    match &spec.model {
        Some(model) => {
            if !supports_model(spec.kind.as_str(), model.as_str()) {
                return Err(PeripheralError::UnsupportedModel);
            }
        },
        None => {},
    }
    validate_kind(spec)
}

// ---------------------------------------------------------------------------
// Samples
// ---------------------------------------------------------------------------

/// The generator that deterministic samples are drawn from.
#[derive(Debug)]
pub struct Lcg {
    pub state: u64,
}

pub open spec fn lcg_next(state: u64) -> u64 {
    state.wrapping_mul(6364136223846793005).wrapping_add(1442695040888963407)
}

/// The generator's state after some draws.
pub open spec fn lcg_after(state: u64, draws: int) -> u64
    decreases draws,
{
    if draws <= 0 {
        state
    } else {
        lcg_next(lcg_after(state, draws - 1))
    }
}

impl Lcg {
    pub fn next(&mut self) -> (res: u32)
        ensures
            final(self).state == lcg_next(old(self).state),
            res == final(self).state >> 32,
    {
        self.state = self.state.wrapping_mul(6364136223846793005).wrapping_add(
            1442695040888963407,
        );
        let state: u64 = self.state;
        let high: u64 = state >> 32;
        assert(high <= 0xffff_ffff) by (bit_vector)
            requires
                high == state >> 32,
        ;
        high as u32
    }
}

impl PeripheralSpec {
    /// How many numbers one read of the device draws.
    pub open spec fn draws(&self) -> int {
        let kind = self.kind@;
        if kind == "imu"@ {
            3
        } else if kind == "barometer"@ || kind == "pressure_transducer"@ {
            1
        } else if kind == "gps"@ {
            2
        } else if kind == "adc"@ {
            self.adc_channels()
        } else {
            0
        }
    }
}

/// One read of the device.
fn sample(spec: &PeripheralSpec, rng: &mut Lcg)
    ensures
        final(rng).state == lcg_after(old(rng).state, spec.draws()),
{
    let kind = spec.kind.as_str();
    let draws: u8 = if same_text(kind, "imu") {
        3
    } else if same_text(kind, "barometer") || same_text(kind, "pressure_transducer") {
        1
    } else if same_text(kind, "gps") {
        2
    } else if same_text(kind, "adc") {
        match spec.channels {
            Some(channels) => channels,
            None => 1,
        }
    } else {
        0
    };
    let mut drawn: u8 = 0;
    while drawn < draws
        invariant
            drawn <= draws,
            rng.state == lcg_after(old(rng).state, drawn as int),
        decreases draws - drawn,
    {
        rng.next();
        drawn = drawn + 1;
    }
}

// ---------------------------------------------------------------------------
// Schedules
// ---------------------------------------------------------------------------

impl PeripheralSpec {
    /// How many of the first `reads` reads reach the device.
    pub open spec fn connected_reads(&self, reads: int) -> int {
        match self.disconnect_after {
            Some(limit) => if reads < limit {
                reads
            } else {
                limit as int
            },
            None => reads,
        }
    }

    /// How many of the first `reads` reads fail by schedule.
    pub open spec fn failed_reads(&self, reads: int) -> int {
        match self.failure_every {
            Some(period) => if period > 0 {
                self.connected_reads(reads) / period as int
            } else {
                0
            },
            None => 0,
        }
    }

    pub open spec fn has_faults(&self) -> bool {
        self.failure_every is Some || self.disconnect_after is Some
    }
}

impl DeviceReport {
    /// The report on `reads` reads of the device that `spec` declares.
    pub open spec fn of(self, spec: PeripheralSpec, reads: int) -> bool {
        let connected = spec.connected_reads(reads);
        let failed = spec.failed_reads(reads);
        &&& self.name@ == spec.name@
        &&& self.kind@ == spec.kind@
        &&& opt_text(self.model) == opt_text(spec.model)
        &&& opt_text(self.bus) == opt_text(spec.bus)
        &&& self.instruction_coupled == (spec.model is Some && spec.bus is Some)
        &&& self.behavioral_counts_only
        &&& self.successful_reads == connected - failed
        &&& self.injected_errors == failed
        &&& self.disconnected_reads == reads - connected
        &&& self.faults_configured == spec.has_faults()
        &&& self.expected_injected_errors == failed
        &&& self.expected_disconnected_reads == reads - connected
        &&& self.fault_test_passed
    }
}

/// One more read completes a period, or does not.
proof fn lemma_period(reads: int, period: int)
    requires
        reads >= 0,
        period > 0,
    ensures
        (reads + 1) / period == reads / period + if (reads + 1) % period == 0 {
            1int
        } else {
            0
        },
        0 <= reads / period <= reads,
{
    vstd::arithmetic::div_mod::lemma_fundamental_div_mod(reads, period);
    vstd::arithmetic::div_mod::lemma_mod_bound(reads, period);
    vstd::arithmetic::div_mod::lemma_div_pos_is_pos(reads, period);
    let q = reads / period;
    let r = reads % period;
    assert(period * q == q * period) by (nonlinear_arith);
    assert(q <= reads) by (nonlinear_arith)
        requires
            reads == q * period + r,
            period >= 1,
            r >= 0,
            q >= 0,
    ;
    if r + 1 < period {
        vstd::arithmetic::div_mod::lemma_fundamental_div_mod_converse(
            reads + 1,
            period,
            q,
            r + 1,
        );
    } else {
        assert((q + 1) * period == q * period + period) by (nonlinear_arith);
        assert((q + 1) * period == period * (q + 1)) by (nonlinear_arith);
        vstd::arithmetic::div_mod::lemma_fundamental_div_mod_converse(
            reads + 1,
            period,
            q + 1,
            0,
        );
    }
}

fn copy_option(text: &Option<String>) -> (res: Option<String>)
    ensures
        opt_text(res) == opt_text(*text),
{
    match text {
        Some(text) => Some(text.clone()),
        None => None,
    }
}

pub fn exercise(spec: &PeripheralSpec, iterations: u64, seed: u64) -> (res: Result<
    DeviceReport,
    PeripheralError,
>)
    ensures
        match spec.error() {
            Some(error) => res == Err::<DeviceReport, PeripheralError>(error),
            None => res matches Ok(report) && report.of(*spec, iterations as int),
        },
{
    match validate(spec) {
        Ok(()) => {},
        Err(error) => {
            return Err(error);
        },
    }
    let mut rng = Lcg {
        state: if seed == 0 {
            1
        } else {
            seed
        },
    };
    let mut successful: u64 = 0;
    let mut failed: u64 = 0;
    let mut disconnected: u64 = 0;
    let mut done: u64 = 0;
    proof {
        if let Some(period) = spec.failure_every {
            if period > 0 {
                lemma_period(0, period as int);
            }
        }
    }
    while done < iterations
        invariant
            done <= iterations,
            disconnected == done - spec.connected_reads(done as int),
            failed == spec.failed_reads(done as int),
            successful == spec.connected_reads(done as int) - failed,
        decreases iterations - done,
    {
        let attempt: u64 = done + 1;
        let gone = match spec.disconnect_after {
            Some(limit) => attempt > limit,
            None => false,
        };
        let fails = match spec.failure_every {
            Some(period) => period > 0 && attempt % period == 0,
            None => false,
        };
        proof {
            if let Some(period) = spec.failure_every {
                if period > 0 {
                    lemma_period(done as int, period as int);
                }
            }
        }
        if gone {
            disconnected = disconnected + 1;
        } else if fails {
            failed = failed + 1;
        } else {
            sample(spec, &mut rng);
            successful = successful + 1;
        }
        done = attempt;
    }
    let connected: u64 = match spec.disconnect_after {
        Some(limit) => if iterations < limit {
            iterations
        } else {
            limit
        },
        None => iterations,
    };
    let expected_failed: u64 = match spec.failure_every {
        Some(period) => if period > 0 {
            connected / period
        } else {
            0
        },
        None => 0,
    };
    let expected_disconnected: u64 = iterations - connected;
    Ok(
        DeviceReport {
            name: spec.name.clone(),
            kind: spec.kind.clone(),
            model: copy_option(&spec.model),
            bus: copy_option(&spec.bus),
            instruction_coupled: spec.model.is_some() && spec.bus.is_some(),
            behavioral_counts_only: true,
            successful_reads: successful,
            injected_errors: failed,
            disconnected_reads: disconnected,
            faults_configured: spec.failure_every.is_some() || spec.disconnect_after.is_some(),
            expected_injected_errors: expected_failed,
            expected_disconnected_reads: expected_disconnected,
            fault_test_passed: failed == expected_failed && disconnected == expected_disconnected,
        },
    )
}

/// The first faulty declaration from `index` on.
pub open spec fn specs_error(specs: Seq<PeripheralSpec>, index: int) -> Option<PeripheralFault>
    decreases specs.len() - index,
{
    if index < 0 || index >= specs.len() {
        None
    } else {
        match specs[index].error() {
            Some(error) => Some(PeripheralFault { index: index as usize, error }),
            None => specs_error(specs, index + 1),
        }
    }
}

pub fn exercise_all(specs: &[PeripheralSpec], iterations: u64, seed: u64) -> (res: Result<
    Vec<DeviceReport>,
    PeripheralFault,
>)
    requires
        specs@.len() * 0x9e37_79b9 <= u64::MAX,
    ensures
        match specs_error(specs@, 0) {
            Some(fault) => res == Err::<Vec<DeviceReport>, PeripheralFault>(fault) && fault.index
                < specs@.len(),
            None => res matches Ok(reports) && reports@.len() == specs@.len() && forall|i: int|
                0 <= i < specs@.len() ==> (#[trigger] reports@[i]).of(specs@[i], iterations as int),
        },
{
    let mut reports: Vec<DeviceReport> = Vec::new();
    let mut index: usize = 0;
    while index < specs.len()
        invariant
            index <= specs@.len(),
            specs@.len() * 0x9e37_79b9 <= u64::MAX,
            specs_error(specs@, 0) == specs_error(specs@, index as int),
            reports@.len() == index,
            forall|i: int|
                0 <= i < index ==> (#[trigger] reports@[i]).of(specs@[i], iterations as int),
        decreases specs@.len() - index,
    {
        let device_seed: u64 = seed ^ ((index as u64 + 1) * 0x9e37_79b9);
        match exercise(&specs[index], iterations, device_seed) {
            Ok(report) => {
                reports.push(report);
            },
            Err(error) => {
                return Err(PeripheralFault { index, error });
            },
        }
        index = index + 1;
    }
    Ok(reports)
}

/// Every read succeeds, fails by schedule or finds the device gone.
pub proof fn law_every_read_is_counted(report: DeviceReport, spec: PeripheralSpec, reads: int)
    requires
        reads >= 0,
        report.of(spec, reads),
    ensures
        report.successful_reads + report.injected_errors + report.disconnected_reads == reads,
{
}

/// A device without a schedule never fails, and one with a schedule fails by
/// it exactly: its fault test passes.
pub proof fn law_faults_follow_the_schedule(report: DeviceReport, spec: PeripheralSpec, reads: int)
    requires
        reads >= 0,
        report.of(spec, reads),
    ensures
        !report.faults_configured ==> report.successful_reads == reads,
        report.injected_errors == report.expected_injected_errors,
        report.disconnected_reads == report.expected_disconnected_reads,
        report.fault_test_passed,
{
}

/// Only a device with both a model and a bus counts as coupled to the
/// instructions that drive it, and an accepted one has both or neither.
pub proof fn law_coupling_needs_model_and_bus(
    report: DeviceReport,
    spec: PeripheralSpec,
    reads: int,
)
    requires
        spec.error() is None,
        report.of(spec, reads),
    ensures
        report.instruction_coupled <==> spec.model is Some,
        report.instruction_coupled <==> spec.bus is Some,
{
}

// ---------------------------------------------------------------------------
// Which devices there are
// ---------------------------------------------------------------------------

/// The literals are different texts.
proof fn lemma_names_differ()
    ensures
        "gps"@ != "imu"@,
        "gps"@ != "barometer"@,
        "gps"@ != "adc"@,
        "gps"@ != "pressure_transducer"@,
        "gps"@ != "storage"@,
        "imu"@ != "barometer"@,
        "imu"@ != "adc"@,
        "imu"@ != "pressure_transducer"@,
        "imu"@ != "storage"@,
        "barometer"@ != "adc"@,
        "barometer"@ != "pressure_transducer"@,
        "barometer"@ != "storage"@,
        "adc"@ != "pressure_transducer"@,
        "adc"@ != "storage"@,
        "pressure_transducer"@ != "storage"@,
        "neo_m9n"@ != "bmi088"@,
        "neo_m9n"@ != "bmp390"@,
        "neo_m9n"@ != "ltc2990"@,
        "neo_m9n"@ != "stm32_adc"@,
        "neo_m9n"@ != "sd_card"@,
        "bmi088"@ != "bmp390"@,
        "bmi088"@ != "ltc2990"@,
        "bmi088"@ != "stm32_adc"@,
        "bmi088"@ != "sd_card"@,
        "bmp390"@ != "ltc2990"@,
        "bmp390"@ != "stm32_adc"@,
        "bmp390"@ != "sd_card"@,
        "ltc2990"@ != "stm32_adc"@,
        "ltc2990"@ != "sd_card"@,
        "stm32_adc"@ != "sd_card"@,
{
    reveal_strlit("gps");
    reveal_strlit("imu");
    reveal_strlit("barometer");
    reveal_strlit("adc");
    reveal_strlit("pressure_transducer");
    reveal_strlit("storage");
    reveal_strlit("neo_m9n");
    reveal_strlit("bmi088");
    reveal_strlit("bmp390");
    reveal_strlit("ltc2990");
    reveal_strlit("stm32_adc");
    reveal_strlit("sd_card");
    assert("gps"@[0] == 'g' && "imu"@[0] == 'i' && "barometer"@[0] == 'b' && "adc"@[0] == 'a'
        && "pressure_transducer"@[0] == 'p' && "storage"@[0] == 's');
    assert("neo_m9n"@[0] == 'n' && "bmi088"@[2] == 'i' && "bmp390"@[2] == 'p' && "ltc2990"@[0]
        == 'l' && "stm32_adc"@[1] == 't' && "sd_card"@[1] == 'd');
    assert("bmi088"@[0] == 'b' && "bmp390"@[0] == 'b' && "stm32_adc"@[0] == 's' && "sd_card"@[0]
        == 's');
}

/// Every register or wire model belongs to the devices that carry the part: a
/// named device with a bus and otherwise default settings is accepted with it,
/// and a device of any other type is refused with it.
pub proof fn law_models_belong_to_their_devices(spec: PeripheralSpec)
    requires
        spec.name@.len() > 0,
        spec.model is Some,
        spec.bus is Some,
        spec.bits is None,
        spec.channels is None,
        spec.max_psi is None,
        spec.capacity_bytes is None,
    ensures
        ({
            let kind = spec.kind@;
            let model = spec.model->0@;
            &&& model == "neo_m9n"@ ==> (spec.error() is None <==> kind == "gps"@)
            &&& model == "bmi088"@ ==> (spec.error() is None <==> kind == "imu"@)
            &&& model == "bmp390"@ ==> (spec.error() is None <==> kind == "barometer"@)
            &&& model == "ltc2990"@ ==> (spec.error() is None <==> kind == "adc"@)
            &&& model == "stm32_adc"@ ==> (spec.error() is None <==> (kind == "adc"@ || kind
                == "pressure_transducer"@))
            &&& model == "sd_card"@ ==> (spec.error() is None <==> kind == "storage"@)
            &&& spec.error() is None || spec.error() == Some(PeripheralError::UnsupportedModel)
            &&& spec.error() is None ==> {
                ||| model == "neo_m9n"@
                ||| model == "bmi088"@
                ||| model == "bmp390"@
                ||| model == "ltc2990"@
                ||| model == "stm32_adc"@
                ||| model == "sd_card"@
            }
        }),
{
    lemma_names_differ();
}

/// A device without a model is accepted by its type and its own settings
/// alone, and so is one with a model that belongs to its type: an ADC of 1 to
/// 16 bits, 12 where it does not say, with at least one channel; a transducer
/// whose range is positive; storage of whole sectors. Nothing else is
/// accepted.
pub proof fn law_settings_make_sense(spec: PeripheralSpec)
    requires
        spec.name@.len() > 0,
        spec.model is None,
        spec.bus is None,
    ensures
        ({
            let kind = spec.kind@;
            &&& kind == "imu"@ || kind == "barometer"@ || kind == "gps"@ ==> spec.error() is None
            &&& kind == "adc"@ ==> (spec.error() is None <==> {
                &&& spec.bits matches Some(bits) ==> 1 <= bits <= 16
                &&& spec.channels != Some(0u8)
            })
            &&& kind == "pressure_transducer"@ ==> (spec.error() is None <==> (
            spec.max_psi matches Some(bits) ==> 0 < bits <= 0x7ff0_0000_0000_0000))
            &&& kind == "storage"@ ==> (spec.error() is None <==> (
            spec.capacity_bytes matches Some(bytes) ==> bytes as int % 512 == 0))
            &&& spec.error() is None ==> {
                ||| kind == "imu"@
                ||| kind == "barometer"@
                ||| kind == "gps"@
                ||| kind == "adc"@
                ||| kind == "pressure_transducer"@
                ||| kind == "storage"@
            }
        }),
{
    lemma_names_differ();
}

/// A model changes nothing about the settings: a device that is accepted with
/// one is accepted without it. A device without a name, or with a model and no
/// bus, or a bus and no model, is refused.
pub proof fn law_a_model_keeps_the_settings(spec: PeripheralSpec, bare: PeripheralSpec)
    requires
        spec.error() is None,
        bare.kind@ == spec.kind@,
        bare.name@ == spec.name@,
        bare.model is None,
        bare.bus is None,
        bare.bits == spec.bits,
        bare.channels == spec.channels,
        bare.max_psi == spec.max_psi,
        bare.capacity_bytes == spec.capacity_bytes,
    ensures
        bare.error() is None,
        spec.name@.len() > 0,
        spec.model is Some <==> spec.bus is Some,
{
}

/// One more read changes one count by one: the device is gone for good once it
/// has been read as often as it may be, every read whose number is a multiple
/// of the period fails, and every other read succeeds.
pub proof fn law_one_read_at_a_time(
    spec: PeripheralSpec,
    before: DeviceReport,
    now: DeviceReport,
    reads: int,
)
    requires
        reads >= 0,
        before.of(spec, reads),
        now.of(spec, reads + 1),
    ensures
        ({
            let attempt = reads + 1;
            let gone = spec.disconnect_after is Some && attempt > spec.disconnect_after->0;
            let fails = spec.failure_every is Some && spec.failure_every->0 > 0 && attempt
                % spec.failure_every->0 as int == 0;
            &&& now.disconnected_reads == before.disconnected_reads + if gone {
                1int
            } else {
                0
            }
            &&& now.injected_errors == before.injected_errors + if !gone && fails {
                1int
            } else {
                0
            }
            &&& now.successful_reads == before.successful_reads + if !gone && !fails {
                1int
            } else {
                0
            }
            &&& reads == 0 ==> before.successful_reads == 0 && before.injected_errors == 0
                && before.disconnected_reads == 0
            &&& now.faults_configured <==> spec.failure_every is Some || spec.disconnect_after is Some
            &&& now.name@ == spec.name@ && now.kind@ == spec.kind@
            &&& now.model is Some <==> spec.model is Some
            &&& now.model is Some ==> now.model->0@ == spec.model->0@
            &&& now.bus is Some <==> spec.bus is Some
            &&& now.bus is Some ==> now.bus->0@ == spec.bus->0@
        }),
{
    if let Some(period) = spec.failure_every {
        if period > 0 {
            lemma_period(reads, period as int);
            lemma_period(0, period as int);
        }
    }
}

/// Of several declarations the first faulty one is named; where none is faulty
/// all are accepted.
pub proof fn law_the_first_faulty_device_is_named(specs: Seq<PeripheralSpec>)
    requires
        specs.len() <= usize::MAX,
    ensures
        match specs_error(specs, 0) {
            Some(fault) => {
                &&& fault.index < specs.len()
                &&& specs[fault.index as int].error() == Some(fault.error)
                &&& forall|i: int| 0 <= i < fault.index ==> (#[trigger] specs[i]).error() is None
            },
            None => forall|i: int| 0 <= i < specs.len() ==> (#[trigger] specs[i]).error() is None,
        },
{
    lemma_first_fault(specs, 0);
}

proof fn lemma_first_fault(specs: Seq<PeripheralSpec>, from: int)
    requires
        0 <= from <= specs.len() <= usize::MAX,
    ensures
        match specs_error(specs, from) {
            Some(fault) => {
                &&& from <= fault.index < specs.len()
                &&& specs[fault.index as int].error() == Some(fault.error)
                &&& forall|i: int| from <= i < fault.index ==> (#[trigger] specs[i]).error() is None
            },
            None => forall|i: int| from <= i < specs.len() ==> (#[trigger] specs[i]).error() is None,
        },
    decreases specs.len() - from,
{
    if from < specs.len() && specs[from].error() is None {
        lemma_first_fault(specs, from + 1);
    }
}

/// The generator multiplies its state and adds to it, modulo two to the 64th,
/// and every number that is drawn takes one step.
pub proof fn law_the_generator_steps(state: u64, drawn: int)
    requires
        0 <= drawn,
    ensures
        lcg_next(state) as int == (state * 6364136223846793005 + 1442695040888963407)
            % 0x1_0000_0000_0000_0000,
        lcg_after(state, 0) == state,
        lcg_after(state, drawn + 1) == lcg_next(lcg_after(state, drawn)),
{
    let product = state * 6364136223846793005;
    vstd::arithmetic::div_mod::lemma_add_mod_noop(
        product,
        1442695040888963407,
        0x1_0000_0000_0000_0000,
    );
}

/// What a declaration is refused for is wrong with it.
pub proof fn law_devices_are_refused_for_what_is_wrong(spec: PeripheralSpec)
    ensures
        ({
            let kind = spec.kind@;
            match spec.error() {
                None => true,
                Some(PeripheralError::EmptyName) => spec.name@.len() == 0,
                Some(PeripheralError::ModelAndBus) => (spec.model is Some && spec.bus is None) || (
                spec.model is None && spec.bus is Some),
                Some(PeripheralError::UnsupportedModel) => spec.model is Some && spec.bus is Some,
                Some(PeripheralError::AdcBits) => kind == "adc"@ && spec.bits is Some && (
                spec.bits->0 == 0 || spec.bits->0 > 16),
                Some(PeripheralError::AdcChannels) => kind == "adc"@ && spec.channels == Some(0u8),
                Some(PeripheralError::MaxPsi) => kind == "pressure_transducer"@
                    && spec.max_psi is Some,
                Some(PeripheralError::Capacity) => kind == "storage"@
                    && spec.capacity_bytes is Some && spec.capacity_bytes->0 as int % 512 != 0,
                Some(PeripheralError::UnsupportedType) => kind != "imu"@ && kind != "barometer"@
                    && kind != "gps"@ && kind != "adc"@ && kind != "pressure_transducer"@ && kind
                    != "storage"@,
            }
        }),
{
    lemma_names_differ();
}

} // verus!
