//! The scripts that drive the emulator: one machine that runs the linked
//! firmware, one that boots the factory image, and the update that is sent to
//! it.

use vstd::prelude::*;

use crate::architecture::ArchitectureKind;
use crate::arith::div_ceil;
use crate::execution::outcome_marker;
use crate::layout::{BoardLayout, BootOutcome, ExecutionConfig, OtaTransport, OtaTransportKind};
use crate::probes::probe_prefix;
use crate::security::{
    pins_text, render_board_initialization_script, render_security_script, security_text,
};
use crate::text::{
    base_chars, char_index, chars_of, contains, dec, digit_value, digits_value, ends_with, hex, hex2,
    hex8, is_digit, join, join_texts, law_padded_numbers_are_read_back, lemma_base_digits,
    lemma_char_index, lemma_grouped, lemma_lacks, lemma_lines_append, lemma_one_line,
    lemma_pieces_are_kept, lemma_split_join, lemma_zero_padded, lines, micros, millis, split,
    starts_with, text_of, texts, Text,
};
use crate::update::{ceil_div, chunk_at, lemma_piece_bounds, piece};

verus! {

// ---------------------------------------------------------------------------
// The update
// ---------------------------------------------------------------------------

/// The bytes in decimal, with commas between them.
pub open spec fn byte_list(bytes: Seq<u8>) -> Seq<char> {
    join(Seq::new(bytes.len(), |i: int| dec(bytes[i] as nat)), ","@)
}

fn render_bytes(bytes: &[u8]) -> (res: String)
    ensures
        res@ == byte_list(bytes@),
{
    let mut parts: Vec<String> = Vec::new();
    let mut i: usize = 0;
    while i < bytes.len()
        invariant
            i <= bytes@.len(),
            parts@.len() == i,
            forall|k: int| 0 <= k < i ==> (#[trigger] parts@[k])@ == dec(bytes@[k] as nat),
        decreases bytes@.len() - i,
    {
        let digits = base_chars(bytes[i] as u64, 10);
        parts.push(text_of(digits.as_slice()));
        i = i + 1;
    }
    assert(texts(parts@) =~= Seq::new(bytes@.len(), |i: int| dec(bytes@[i] as nat)));
    join_texts(parts.as_slice(), ",")
}

/// How many bytes of the update go together.
pub open spec fn transfer_unit(layout: BoardLayout, transport: OtaTransport) -> int {
    match transport.kind {
        OtaTransportKind::Can => match transport.mtu {
            Some(mtu) => mtu as int,
            None => 64,
        },
        _ => layout.ota.chunk_size as int,
    }
}

/// A UART receives byte by byte.
pub open spec fn uart_bytes(peripheral: Seq<char>, bytes: Seq<u8>, end: int) -> Seq<char>
    decreases end,
{
    if end <= 0 {
        ""@
    } else {
        uart_bytes(peripheral, bytes, end - 1) + peripheral + " WriteChar 0x"@ + hex2(
            bytes[end - 1] as nat,
        ) + "\n"@
    }
}

pub open spec fn pause_text(layout: BoardLayout, count: int) -> Seq<char> {
    "emulation RunFor \""@ + micros((layout.ota.inter_byte_us * count) as nat) + "s\"\n"@
}

/// What delivers one unit of the update.
pub open spec fn unit_text(layout: BoardLayout, transport: OtaTransport, bytes: Seq<u8>) -> Seq<
    char,
> {
    let pause = pause_text(layout, bytes.len() as int);
    match transport.kind {
        OtaTransportKind::Uart => uart_bytes(transport.peripheral@, bytes, bytes.len() as int)
            + pause,
        OtaTransportKind::Can =>
            "python \"from Antmicro.Renode.Core.CAN import CANMessageFrame; monitor.Machine['sysbus."@
            + transport.peripheral@ + "'].OnFrameReceived(CANMessageFrame(0x"@ + hex(
            (match transport.can_id {
                Some(id) => id,
                None => 0,
            }) as nat,
        ) + ", System.Array[System.Byte](["@ + byte_list(bytes) + "])))\"\n"@ + pause,
        OtaTransportKind::Usb => "python \"monitor.Machine['sysbus."@ + transport.peripheral@
            + "'].InjectPacket(System.Array[System.Byte](["@ + byte_list(bytes) + "]), "@ + dec(
            (match transport.endpoint {
                Some(endpoint) => endpoint,
                None => 1,
            }) as nat,
        ) + ")\"\n"@ + pause,
        OtaTransportKind::Sdmmc => "python \"monitor.Machine['sysbus."@ + transport.peripheral@
            + "'].AppendCardBytes(System.Array[System.Byte](["@ + byte_list(bytes) + "]))\"\n"@,
    }
}

/// What delivers the first `end` units.
pub open spec fn units_text(
    layout: BoardLayout,
    transport: OtaTransport,
    payload: Seq<u8>,
    end: int,
) -> Seq<char>
    decreases end,
{
    if end <= 0 {
        ""@
    } else {
        units_text(layout, transport, payload, end - 1) + unit_text(
            layout,
            transport,
            piece(payload, transfer_unit(layout, transport), end - 1),
        )
    }
}

/// A card is mounted when all of it has been written.
pub open spec fn card_text(transport: OtaTransport, method: Seq<char>) -> Seq<char> {
    "python \"monitor.Machine['sysbus."@ + transport.peripheral@ + "']."@ + method + "()\"\n"@
}

pub open spec fn delivery_text(
    layout: BoardLayout,
    transport: OtaTransport,
    payload: Seq<u8>,
) -> Seq<char> {
    let units = units_text(
        layout,
        transport,
        payload,
        div_ceil(payload.len() as int, transfer_unit(layout, transport)),
    );
    match transport.kind {
        OtaTransportKind::Sdmmc => card_text(transport, "BeginCardImage"@) + units + card_text(
            transport,
            "MountCardImage"@,
        ),
        _ => units,
    }
}

/// Power comes back: everything but flash is reset, and the processor starts
/// from the vectors at the start of flash.
pub open spec fn reboot_text(layout: BoardLayout) -> Seq<char> {
    "echo \"SEDS_POWER_CUT_TRIGGERED\"\nphysicalFlash GetPowerCutTriggered\necho \"SEDS_POWER_CUT_REBOOT\"\n"@
        + "python \"[(e.Peripheral.Reset() if hasattr(e.Peripheral, 'Reset') else None) for e in monitor.Machine.GetRegisteredPeripherals() if e.Name not in ('sysbus', 'flashBacking')]\"\n"@
        + "physicalFlash DisarmPowerCut\n"@ + "cpu SetRegister 13 `sysbus ReadDoubleWord 0x"@ + hex8(
        layout.memory.flash_base as nat,
    ) + "`\ncpu PC `sysbus ReadDoubleWord 0x"@ + hex8((layout.memory.flash_base + 4) as nat)
        + "`\n"@ + "emulation RunFor \""@ + millis(layout.ota.power_cuts.reboot_time_ms as nat)
        + "s\"\n"@
}

pub open spec fn ota_text(
    layout: BoardLayout,
    ota: Option<Seq<u8>>,
    power_cut_after: Option<u64>,
) -> Seq<char> {
    if !layout.ota.firmware_driven {
        ""@
    } else {
        "emulation RunFor \""@ + millis(layout.ota.start_after_ms as nat)
            + "s\"\necho \"SEDS_OTA_TRANSFER_BEGIN\"\n"@ + (match power_cut_after {
            Some(operation) => "physicalFlash ArmPowerCut "@ + dec(operation as nat) + "\n"@,
            None => ""@,
        }) + delivery_text(layout, layout.ota.transport->0, ota->0) + "emulation RunFor \""@
            + millis(layout.ota.power_cuts.reboot_time_ms as nat) + "s\"\n"@
            + (match power_cut_after {
            Some(_) => reboot_text(layout),
            None => ""@,
        })
    }
}

/// An update that is driven by the firmware has all it needs, and so has the
/// reboot that follows a power cut.
pub open spec fn ota_ready(
    layout: BoardLayout,
    ota: Option<Seq<u8>>,
    power_cut_after: Option<u64>,
) -> bool {
    layout.ota.firmware_driven ==> {
        &&& layout.ota.transport matches Some(transport)
        &&& ota matches Some(payload)
        &&& transfer_unit(layout, transport) > 0
        &&& transport.kind == OtaTransportKind::Can ==> transport.can_id is Some
        &&& layout.ota.inter_byte_us * (if payload.len() < transfer_unit(layout, transport) {
            payload.len() as int
        } else {
            transfer_unit(layout, transport)
        }) <= u64::MAX
        &&& power_cut_after is Some ==> layout.memory.flash_base + 4 <= u64::MAX
    }
}

fn render_uart_bytes(peripheral: &str, bytes: &[u8]) -> (res: String)
    ensures
        res@ == uart_bytes(peripheral@, bytes@, bytes@.len() as int),
{
    let mut text = Text::new("");
    let mut i: usize = 0;
    while i < bytes.len()
        invariant
            i <= bytes@.len(),
            text@ == uart_bytes(peripheral@, bytes@, i as int),
        decreases bytes@.len() - i,
    {
        text = text.str(peripheral).str(" WriteChar 0x").hex2(bytes[i] as u64).str("\n");
        i = i + 1;
    }
    text.done()
}

fn render_unit(layout: &BoardLayout, transport: &OtaTransport, bytes: &[u8]) -> (res: String)
    requires
        layout.ota.inter_byte_us * bytes@.len() <= u64::MAX,
    ensures
        res@ == unit_text(*layout, *transport, bytes@),
{
    let pause = Text::new("emulation RunFor \"").micros(
        layout.ota.inter_byte_us * bytes.len() as u64,
    ).str("s\"\n").done();
    let list = render_bytes(bytes);
    let peripheral = transport.peripheral.as_str();
    match transport.kind {
        OtaTransportKind::Uart => {
            let written = render_uart_bytes(peripheral, bytes);
            Text { inner: written }.str(pause.as_str()).done()
        },
        OtaTransportKind::Can => {
            let id: u32 = match transport.can_id {
                Some(id) => id,
                None => 0,
            };
            Text::new(
                "python \"from Antmicro.Renode.Core.CAN import CANMessageFrame; monitor.Machine['sysbus.",
            ).str(peripheral).str("'].OnFrameReceived(CANMessageFrame(0x").hex(id as u64).str(
                ", System.Array[System.Byte]([",
            ).str(list.as_str()).str("])))\"\n").str(pause.as_str()).done()
        },
        OtaTransportKind::Usb => {
            let endpoint: u8 = match transport.endpoint {
                Some(endpoint) => endpoint,
                None => 1,
            };
            Text::new("python \"monitor.Machine['sysbus.").str(peripheral).str(
                "'].InjectPacket(System.Array[System.Byte]([",
            ).str(list.as_str()).str("]), ").dec(endpoint as u64).str(")\"\n").str(
                pause.as_str(),
            ).done()
        },
        OtaTransportKind::Sdmmc => Text::new("python \"monitor.Machine['sysbus.").str(
            peripheral,
        ).str("'].AppendCardBytes(System.Array[System.Byte]([").str(list.as_str()).str(
            "]))\"\n",
        ).done(),
    }
}

fn render_units(layout: &BoardLayout, transport: &OtaTransport, payload: &[u8], unit: usize) -> (res:
    String)
    requires
        unit > 0,
        unit == transfer_unit(*layout, *transport),
        layout.ota.inter_byte_us * (if payload@.len() < unit {
            payload@.len() as int
        } else {
            unit as int
        }) <= u64::MAX,
    ensures
        res@ == units_text(
            *layout,
            *transport,
            payload@,
            div_ceil(payload@.len() as int, unit as int),
        ),
{
    let length: usize = payload.len();
    let count: usize = ceil_div(length, unit);
    let mut text = Text::new("");
    let mut start: usize = 0;
    let mut i: usize = 0;
    assert(0 * unit == 0);
    while i < count
        invariant
            unit > 0,
            unit == transfer_unit(*layout, *transport),
            layout.ota.inter_byte_us * (if payload@.len() < unit {
                payload@.len() as int
            } else {
                unit as int
            }) <= u64::MAX,
            length == payload@.len(),
            count == div_ceil(payload@.len() as int, unit as int),
            i <= count,
            i < count ==> start == i * unit,
            text@ == units_text(*layout, *transport, payload@, i as int),
        decreases count - i,
    {
        proof {
            lemma_piece_bounds(payload@.len() as int, unit as int, i as int);
        }
        let bytes = chunk_at(payload, unit, start, Ghost(i as int));
        proof {
            let most = if payload@.len() < unit {
                payload@.len() as int
            } else {
                unit as int
            };
            assert(bytes@.len() <= most);
            assert(layout.ota.inter_byte_us * bytes@.len() <= layout.ota.inter_byte_us * most)
                by (nonlinear_arith)
                requires
                    bytes@.len() <= most,
                    layout.ota.inter_byte_us >= 0,
            ;
        }
        let rendered = render_unit(layout, transport, bytes);
        text = text.str(rendered.as_str());
        i = i + 1;
        if i < count {
            start = start + unit;
        }
    }
    text.done()
}

fn render_card(transport: &OtaTransport, method: &str) -> (res: String)
    ensures
        res@ == card_text(*transport, method@),
{
    Text::new("python \"monitor.Machine['sysbus.").str(transport.peripheral.as_str()).str(
        "'].",
    ).str(method).str("()\"\n").done()
}

fn render_reboot(layout: &BoardLayout) -> (res: String)
    requires
        layout.memory.flash_base + 4 <= u64::MAX,
    ensures
        res@ == reboot_text(*layout),
{
    Text::new(
        "echo \"SEDS_POWER_CUT_TRIGGERED\"\nphysicalFlash GetPowerCutTriggered\necho \"SEDS_POWER_CUT_REBOOT\"\n",
    ).str(
        "python \"[(e.Peripheral.Reset() if hasattr(e.Peripheral, 'Reset') else None) for e in monitor.Machine.GetRegisteredPeripherals() if e.Name not in ('sysbus', 'flashBacking')]\"\n",
    ).str("physicalFlash DisarmPowerCut\n").str(
        "cpu SetRegister 13 `sysbus ReadDoubleWord 0x",
    ).hex8(layout.memory.flash_base).str("`\ncpu PC `sysbus ReadDoubleWord 0x").hex8(
        layout.memory.flash_base + 4,
    ).str("`\n").str("emulation RunFor \"").millis(layout.ota.power_cuts.reboot_time_ms).str(
        "s\"\n",
    ).done()
}

/// Sends the update through the firmware's own receive path, and cuts power
/// after the given flash operation.
pub fn render_ota_script(layout: &BoardLayout, ota: Option<&[u8]>, power_cut_after: Option<u64>) -> (res:
    String)
    requires
        ota_ready(*layout, payload_of(ota), power_cut_after),
    ensures
        res@ == ota_text(*layout, payload_of(ota), power_cut_after),
{
    if !layout.ota.firmware_driven {
        return "".to_owned();
    }
    let (transport, payload) = match (&layout.ota.transport, ota) {
        (Some(transport), Some(payload)) => (transport, payload),
        _ => {
            assert(false);
            return "".to_owned();
        },
    };
    let unit: usize = match transport.kind {
        OtaTransportKind::Can => match transport.mtu {
            Some(mtu) => mtu,
            None => 64,
        },
        _ => layout.ota.chunk_size,
    };
    let armed = match power_cut_after {
        Some(operation) => Text::new("physicalFlash ArmPowerCut ").dec(operation).str("\n").done(),
        None => "".to_owned(),
    };
    let units = render_units(layout, transport, payload, unit);
    let delivery = match transport.kind {
        OtaTransportKind::Sdmmc => {
            let begin = render_card(transport, "BeginCardImage");
            let mount = render_card(transport, "MountCardImage");
            Text { inner: begin }.str(units.as_str()).str(mount.as_str()).done()
        },
        _ => units,
    };
    let reboot = match power_cut_after {
        Some(_) => render_reboot(layout),
        None => "".to_owned(),
    };
    Text::new("emulation RunFor \"").millis(layout.ota.start_after_ms).str(
        "s\"\necho \"SEDS_OTA_TRANSFER_BEGIN\"\n",
    ).str(armed.as_str()).str(delivery.as_str()).str("emulation RunFor \"").millis(
        layout.ota.power_cuts.reboot_time_ms,
    ).str("s\"\n").str(reboot.as_str()).done()
}

pub open spec fn payload_of(ota: Option<&[u8]>) -> Option<Seq<u8>> {
    match ota {
        Some(payload) => Some(payload@),
        None => None,
    }
}

// ---------------------------------------------------------------------------
// Samples
// ---------------------------------------------------------------------------

/// How long the emulator runs before sample `sample` of `count` is taken. What
/// does not divide evenly is spread over the first samples.
pub open spec fn sample_ms(total: int, count: int, sample: int) -> int {
    total / count + if sample < total % count {
        1int
    } else {
        0
    }
}

pub open spec fn sampled_ms(total: int, count: int, samples: int) -> int
    decreases samples,
{
    if samples <= 0 {
        0
    } else {
        sampled_ms(total, count, samples - 1) + sample_ms(total, count, samples - 1)
    }
}

proof fn lemma_sampled(total: int, count: int, samples: int)
    requires
        total >= 0,
        count > 0,
        0 <= samples <= count,
    ensures
        sampled_ms(total, count, samples) == samples * (total / count) + if samples < total
            % count {
            samples
        } else {
            total % count
        },
    decreases samples,
{
    vstd::arithmetic::div_mod::lemma_mod_bound(total, count);
    if samples > 0 {
        lemma_sampled(total, count, samples - 1);
        let share = total / count;
        assert(samples * share == (samples - 1) * share + share) by (nonlinear_arith);
    } else {
        assert(0 * (total / count) == 0);
    }
}

/// The pauses between the samples add up to the whole run, and no two of them
/// differ by more than a millisecond.
pub proof fn law_samples_cover_the_run(total: int, count: int)
    requires
        total >= 0,
        count > 0,
    ensures
        sampled_ms(total, count, count) == total,
        forall|i: int, j: int|
            #![trigger sample_ms(total, count, i), sample_ms(total, count, j)]
            sample_ms(total, count, i) <= sample_ms(total, count, j) + 1,
{
    lemma_sampled(total, count, count);
    vstd::arithmetic::div_mod::lemma_fundamental_div_mod(total, count);
    vstd::arithmetic::div_mod::lemma_mod_bound(total, count);
    assert(count * (total / count) == (total / count) * count) by (nonlinear_arith);
}

pub open spec fn probe_reads(execution: ExecutionConfig, sample: int, end: int) -> Seq<char>
    decreases end,
{
    if end <= 0 {
        ""@
    } else {
        probe_reads(execution, sample, end - 1) + "echo \"SEDS_PROBE "@
            + execution.memory_probes@[end - 1].name@ + " "@ + dec(sample as nat)
            + "\"\nsysbus ReadDoubleWord `sysbus GetSymbolAddress \""@
            + execution.memory_probes@[end - 1].symbol@ + "\"`\n"@
    }
}

pub open spec fn profile_text(execution: ExecutionConfig, end: int) -> Seq<char>
    decreases end,
{
    if end <= 0 {
        ""@
    } else {
        profile_text(execution, end - 1) + "emulation RunFor \""@ + millis(
            sample_ms(
                execution.virtual_time_ms as int,
                execution.sample_count as int,
                end - 1,
            ) as nat,
        ) + "s\"\n"@ + probe_reads(execution, end - 1, execution.memory_probes@.len() as int)
    }
}

fn render_probe_reads(execution: &ExecutionConfig, sample: usize) -> (res: String)
    ensures
        res@ == probe_reads(*execution, sample as int, execution.memory_probes@.len() as int),
{
    let mut text = Text::new("");
    let mut i: usize = 0;
    while i < execution.memory_probes.len()
        invariant
            i <= execution.memory_probes@.len(),
            text@ == probe_reads(*execution, sample as int, i as int),
        decreases execution.memory_probes@.len() - i,
    {
        let probe = &execution.memory_probes[i];
        text =
        text.str("echo \"SEDS_PROBE ").str(probe.name.as_str()).str(" ").dec(sample as u64).str(
            "\"\nsysbus ReadDoubleWord `sysbus GetSymbolAddress \"",
        ).str(probe.symbol.as_str()).str("\"`\n");
        i = i + 1;
    }
    text.done()
}

/// How long to run before one of `count` samples of `total` milliseconds.
pub fn sample_duration(total: u64, count: usize, sample: usize) -> (res: u64)
    requires
        count > 0,
    ensures
        res == sample_ms(total as int, count as int, sample as int),
{
    let divisor: u64 = count as u64;
    let share: u64 = total / divisor;
    if (sample as u64) < total % divisor {
        proof {
            vstd::arithmetic::div_mod::lemma_fundamental_div_mod(total as int, divisor as int);
            assert(share < total) by (nonlinear_arith)
                requires
                    total == divisor * share + total % divisor,
                    total % divisor > 0,
                    divisor >= 1,
                    share >= 0,
            ;
        }
        share + 1
    } else {
        share
    }
}

fn render_profile(execution: &ExecutionConfig) -> (res: String)
    requires
        execution.sample_count > 0,
    ensures
        res@ == profile_text(*execution, execution.sample_count as int),
{
    let mut text = Text::new("");
    let mut sample: usize = 0;
    while sample < execution.sample_count
        invariant
            sample <= execution.sample_count,
            execution.sample_count > 0,
            text@ == profile_text(*execution, sample as int),
        decreases execution.sample_count - sample,
    {
        let duration: u64 = sample_duration(
            execution.virtual_time_ms,
            execution.sample_count,
            sample,
        );
        let reads = render_probe_reads(execution, sample);
        text =
        text.str("emulation RunFor \"").millis(duration).str("s\"\n").str(reads.as_str());
        sample = sample + 1;
    }
    text.done()
}

// ---------------------------------------------------------------------------
// The run
// ---------------------------------------------------------------------------

/// The files that a run loads, by their paths.
#[derive(Clone, Copy, Debug)]
pub struct ExecutionArtifacts<'a> {
    pub elf: &'a str,
    pub bootloader_elf: &'a str,
    pub factory: &'a str,
    pub firmware_image: &'a str,
}

#[derive(Clone, Copy, Debug)]
pub struct ExecutionScenario<'a> {
    /// Initial stack pointer, reset handler and vector table.
    pub firmware_reset: (u32, u32, u32),
    pub factory_reset: (u32, u32),
    pub trace: &'a str,
    pub ota: Option<&'a [u8]>,
    pub power_cut_after: Option<u64>,
}

/// `text` with underscores for the double quotes.
pub open spec fn without_quotes(text: Seq<char>) -> Seq<char> {
    Seq::new(
        text.len(),
        |i: int|
            if text[i] == '"' {
                '_'
            } else {
                text[i]
            },
    )
}

fn replace_quotes(text: &str) -> (res: String)
    ensures
        res@ == without_quotes(text@),
{
    let chars = chars_of(text);
    let mut kept: Vec<char> = Vec::new();
    let mut i: usize = 0;
    while i < chars.len()
        invariant
            i <= chars@.len(),
            kept@.len() == i,
            forall|k: int| 0 <= k < i ==> kept@[k] == without_quotes(chars@)[k],
        decreases chars@.len() - i,
    {
        let c = chars[i];
        kept.push(
            if c == '"' {
                '_'
            } else {
                c
            },
        );
        i = i + 1;
    }
    assert(kept@ =~= without_quotes(text@));
    text_of(kept.as_slice())
}

/// Lets the tick counter advance whenever the firmware reads it.
pub open spec fn tick_text(execution: ExecutionConfig) -> Seq<char> {
    match execution.hal_tick_address {
        None => ""@,
        Some(address) =>
            "set sedsTickHook\n\"\"\"\nbus = machine[\"sysbus\"]\nbus.WriteDoubleWord(0x"@ + hex8(
            address as nat,
        ) + ", (bus.ReadDoubleWord(0x"@ + hex8(address as nat) + ") + "@ + dec(
            execution.hal_tick_step as nat,
        )
            + ") & 0xffffffff)\n\"\"\"\ncpu AddHook `sysbus GetSymbolAddress \"HAL_GetTick\" 0` $sedsTickHook\n"@,
    }
}

pub open spec fn outcome_hooks(outcomes: Seq<BootOutcome>, end: int) -> Seq<char>
    decreases end,
{
    if end <= 0 {
        ""@
    } else {
        outcome_hooks(outcomes, end - 1) + "cpu AddHook `sysbus GetSymbolAddress \""@
            + outcomes[end - 1].symbol@ + "\" 0` 'self.InfoLog(\"SEDS_OTA_OUTCOME_"@
            + outcomes[end - 1].name@ + "\")'\n"@
    }
}

pub open spec fn tracing_text(execution: ExecutionConfig, trace: Seq<char>) -> Seq<char> {
    if execution.trace {
        "cpu CreateExecutionTracing \""@ + trace + "\" BinaryPC\n"@
    } else {
        ""@
    }
}

pub open spec fn strict_text(layout: BoardLayout) -> Seq<char> {
    if layout.board.strict_mmio {
        "sysbus UnhandledAccessBehaviour ThrowException\n"@
    } else {
        ""@
    }
}

/// What every machine of a board starts with.
pub open spec fn machine_text(
    layout: BoardLayout,
    suffix: Seq<char>,
    platform: Seq<char>,
    overlay: Seq<char>,
) -> Seq<char> {
    "mach create \""@ + without_quotes(layout.name@) + suffix
        + "\"\nmachine LoadPlatformDescription @"@ + platform
        + "\nmachine LoadPlatformDescription @"@ + overlay + "\n"@ + strict_text(layout)
        + security_text(layout) + pins_text(layout.board.pins@, layout.board.pins@.len() as int)
}

/// The linked firmware starts from its own vector table, and is sampled.
pub open spec fn firmware_text(
    layout: BoardLayout,
    artifacts: ExecutionArtifacts,
    scenario: ExecutionScenario,
) -> Seq<char> {
    "sysbus LoadSymbolsFrom @"@ + artifacts.elf@ + "\nsysbus LoadBinary @"@
        + artifacts.firmware_image@ + " "@ + dec(layout.memory.flash_base as nat)
        + "\nphysicalFlash EndHostLoading\ncpu SetRegister 13 0x"@ + hex8(
        scenario.firmware_reset.0 as nat,
    ) + "\ncpu PC 0x"@ + hex8(scenario.firmware_reset.1 as nat) + "\ncpu VectorTableOffset 0x"@
        + hex8(scenario.firmware_reset.2 as nat) + "\ncpu AddHook `sysbus GetSymbolAddress \""@
        + layout.execution.boot_success_symbol@
        + "\"` 'self.InfoLog(\"SEDS_FIRMWARE_BOOT_REACHED\")'\n"@ + tick_text(layout.execution)
        + tracing_text(layout.execution, scenario.trace@) + profile_text(
        layout.execution,
        layout.execution.sample_count as int,
    )
        + "echo \"SEDS_REG FIRMWARE_PC\"\ncpu PC\necho \"SEDS_REG FIRMWARE_SP\"\ncpu GetRegister 13\necho \"SEDS_REG FIRMWARE_LR\"\ncpu GetRegister 14\ncpu IsHalted true\n"@
}

/// An H5 needs a second to initialise before it reaches its scheduler.
pub open spec fn factory_ms(architecture: ArchitectureKind) -> nat {
    if architecture == ArchitectureKind::Stm32h5 {
        1000
    } else {
        50
    }
}

/// The factory image is mapped as it is; the ELF files give symbols only.
pub open spec fn factory_text(
    layout: BoardLayout,
    artifacts: ExecutionArtifacts,
    scenario: ExecutionScenario,
) -> Seq<char> {
    "sysbus LoadSymbolsFrom @"@ + artifacts.elf@ + "\nsysbus LoadSymbolsFrom @"@
        + artifacts.bootloader_elf@ + "\nsysbus LoadBinary @"@ + artifacts.factory@ + " "@ + dec(
        layout.memory.flash_base as nat,
    ) + "\nphysicalFlash EndHostLoading\ncpu SetRegister 13 0x"@ + hex8(
        scenario.factory_reset.0 as nat,
    ) + "\ncpu PC 0x"@ + hex8(scenario.factory_reset.1 as nat)
        + "\ncpu AddHook `sysbus GetSymbolAddress \""@
        + layout.execution.factory_boot_success_symbol@
        + "\" 0` 'self.InfoLog(\"SEDS_FACTORY_BOOT_REACHED\")'\n"@ + tick_text(layout.execution)
        + outcome_hooks(layout.ota.outcomes@, layout.ota.outcomes@.len() as int)
        + "emulation RunFor \""@ + millis(factory_ms(layout.architecture)) + "s\"\n"@ + ota_text(
        layout,
        payload_of(scenario.ota),
        scenario.power_cut_after,
    )
        + "echo \"SEDS_FLASH_OPERATIONS\"\nphysicalFlash GetOperationCount\necho \"SEDS_FLASH_EVENT_TRACE\"\nphysicalFlash GetOperationTrace\necho \"SEDS_REG FACTORY_PC\"\ncpu PC\necho \"SEDS_REG FACTORY_SP\"\ncpu GetRegister 13\necho \"SEDS_REG FACTORY_LR\"\ncpu GetRegister 14\necho \"SEDS_EXECUTION_COMPLETE\"\n"@
}

pub open spec fn script_text(
    layout: BoardLayout,
    platform: Seq<char>,
    overlay: Seq<char>,
    artifacts: ExecutionArtifacts,
    scenario: ExecutionScenario,
) -> Seq<char> {
    machine_text(layout, "_firmware"@, platform, overlay) + firmware_text(
        layout,
        artifacts,
        scenario,
    ) + machine_text(layout, "_factory"@, platform, overlay) + factory_text(
        layout,
        artifacts,
        scenario,
    )
}

fn render_tick(execution: &ExecutionConfig) -> (res: String)
    ensures
        res@ == tick_text(*execution),
{
    match execution.hal_tick_address {
        None => "".to_owned(),
        Some(address) => Text::new(
            "set sedsTickHook\n\"\"\"\nbus = machine[\"sysbus\"]\nbus.WriteDoubleWord(0x",
        ).hex8(address).str(", (bus.ReadDoubleWord(0x").hex8(address).str(") + ").dec(
            execution.hal_tick_step as u64,
        ).str(
            ") & 0xffffffff)\n\"\"\"\ncpu AddHook `sysbus GetSymbolAddress \"HAL_GetTick\" 0` $sedsTickHook\n",
        ).done(),
    }
}

fn render_outcome_hooks(outcomes: &[BootOutcome]) -> (res: String)
    ensures
        res@ == outcome_hooks(outcomes@, outcomes@.len() as int),
{
    let mut text = Text::new("");
    let mut i: usize = 0;
    while i < outcomes.len()
        invariant
            i <= outcomes@.len(),
            text@ == outcome_hooks(outcomes@, i as int),
        decreases outcomes@.len() - i,
    {
        text =
        text.str("cpu AddHook `sysbus GetSymbolAddress \"").str(outcomes[i].symbol.as_str()).str(
            "\" 0` 'self.InfoLog(\"SEDS_OTA_OUTCOME_",
        ).str(outcomes[i].name.as_str()).str("\")'\n");
        i = i + 1;
    }
    text.done()
}

fn render_machine(layout: &BoardLayout, suffix: &str, platform: &str, overlay: &str) -> (res: String)
    requires
        layout.addresses_fit(),
    ensures
        res@ == machine_text(*layout, suffix@, platform@, overlay@),
{
    let name = replace_quotes(layout.name.as_str());
    let strict = if layout.board.strict_mmio {
        "sysbus UnhandledAccessBehaviour ThrowException\n"
    } else {
        ""
    };
    let security = render_security_script(layout);
    let pins = render_board_initialization_script(layout);
    Text::new("mach create \"").str(name.as_str()).str(suffix).str(
        "\"\nmachine LoadPlatformDescription @",
    ).str(platform).str("\nmachine LoadPlatformDescription @").str(overlay).str("\n").str(
        strict,
    ).str(security.as_str()).str(pins.as_str()).done()
}

fn render_firmware(layout: &BoardLayout, artifacts: &ExecutionArtifacts, scenario: &ExecutionScenario) -> (res:
    String)
    requires
        layout.execution.sample_count > 0,
    ensures
        res@ == firmware_text(*layout, *artifacts, *scenario),
{
    let tick = render_tick(&layout.execution);
    let tracing = if layout.execution.trace {
        Text::new("cpu CreateExecutionTracing \"").str(scenario.trace).str(
            "\" BinaryPC\n",
        ).done()
    } else {
        "".to_owned()
    };
    let profile = render_profile(&layout.execution);
    Text::new("sysbus LoadSymbolsFrom @").str(artifacts.elf).str("\nsysbus LoadBinary @").str(
        artifacts.firmware_image,
    ).str(" ").dec(layout.memory.flash_base).str(
        "\nphysicalFlash EndHostLoading\ncpu SetRegister 13 0x",
    ).hex8(scenario.firmware_reset.0 as u64).str("\ncpu PC 0x").hex8(
        scenario.firmware_reset.1 as u64,
    ).str("\ncpu VectorTableOffset 0x").hex8(scenario.firmware_reset.2 as u64).str(
        "\ncpu AddHook `sysbus GetSymbolAddress \"",
    ).str(layout.execution.boot_success_symbol.as_str()).str(
        "\"` 'self.InfoLog(\"SEDS_FIRMWARE_BOOT_REACHED\")'\n",
    ).str(tick.as_str()).str(tracing.as_str()).str(profile.as_str()).str(
        "echo \"SEDS_REG FIRMWARE_PC\"\ncpu PC\necho \"SEDS_REG FIRMWARE_SP\"\ncpu GetRegister 13\necho \"SEDS_REG FIRMWARE_LR\"\ncpu GetRegister 14\ncpu IsHalted true\n",
    ).done()
}

fn render_factory(layout: &BoardLayout, artifacts: &ExecutionArtifacts, scenario: &ExecutionScenario) -> (res:
    String)
    requires
        ota_ready(*layout, payload_of(scenario.ota), scenario.power_cut_after),
    ensures
        res@ == factory_text(*layout, *artifacts, *scenario),
{
    let tick = render_tick(&layout.execution);
    let hooks = render_outcome_hooks(layout.ota.outcomes.as_slice());
    let duration: u64 = if layout.architecture == ArchitectureKind::Stm32h5 {
        1000
    } else {
        50
    };
    let ota = render_ota_script(layout, scenario.ota, scenario.power_cut_after);
    Text::new("sysbus LoadSymbolsFrom @").str(artifacts.elf).str(
        "\nsysbus LoadSymbolsFrom @",
    ).str(artifacts.bootloader_elf).str("\nsysbus LoadBinary @").str(artifacts.factory).str(
        " ",
    ).dec(layout.memory.flash_base).str(
        "\nphysicalFlash EndHostLoading\ncpu SetRegister 13 0x",
    ).hex8(scenario.factory_reset.0 as u64).str("\ncpu PC 0x").hex8(
        scenario.factory_reset.1 as u64,
    ).str("\ncpu AddHook `sysbus GetSymbolAddress \"").str(
        layout.execution.factory_boot_success_symbol.as_str(),
    ).str("\" 0` 'self.InfoLog(\"SEDS_FACTORY_BOOT_REACHED\")'\n").str(tick.as_str()).str(
        hooks.as_str(),
    ).str("emulation RunFor \"").millis(duration).str("s\"\n").str(ota.as_str()).str(
        "echo \"SEDS_FLASH_OPERATIONS\"\nphysicalFlash GetOperationCount\necho \"SEDS_FLASH_EVENT_TRACE\"\nphysicalFlash GetOperationTrace\necho \"SEDS_REG FACTORY_PC\"\ncpu PC\necho \"SEDS_REG FACTORY_SP\"\ncpu GetRegister 13\necho \"SEDS_REG FACTORY_LR\"\ncpu GetRegister 14\necho \"SEDS_EXECUTION_COMPLETE\"\n",
    ).done()
}

/// The script of one run. `platform` and `peripheral_overlay` are the files
/// that describe the machine.
pub fn render_script(
    layout: &BoardLayout,
    platform: &str,
    peripheral_overlay: &str,
    artifacts: ExecutionArtifacts,
    scenario: ExecutionScenario,
) -> (res: String)
    requires
        layout.addresses_fit(),
        layout.execution.sample_count > 0,
        ota_ready(*layout, payload_of(scenario.ota), scenario.power_cut_after),
    ensures
        res@ == script_text(*layout, platform@, peripheral_overlay@, artifacts, scenario),
{
    let first = render_machine(layout, "_firmware", platform, peripheral_overlay);
    let firmware = render_firmware(layout, &artifacts, &scenario);
    let second = render_machine(layout, "_factory", platform, peripheral_overlay);
    let factory = render_factory(layout, &artifacts, &scenario);
    Text { inner: first }.str(firmware.as_str()).str(second.as_str()).str(factory.as_str()).done()
}

// ---------------------------------------------------------------------------
// Updates read back from their scripts
// ---------------------------------------------------------------------------

/// A name that a script takes as one word.
pub open spec fn one_word(name: Seq<char>) -> bool {
    !name.contains('\n') && !name.contains(' ') && !name.contains('\r')
}

/// The bytes that the commands among `all` carry, in their order: each line
/// that begins with `command` carries the hexadecimal number behind it.
pub open spec fn bytes_written(all: Seq<Seq<char>>, command: Seq<char>) -> Seq<u8>
    decreases all.len(),
{
    if all.len() == 0 {
        Seq::empty()
    } else {
        let before = bytes_written(all.drop_last(), command);
        let line = all.last();
        if starts_with(line, command) {
            before.push(digits_value(line.skip(command.len() as int), 16) as u8)
        } else {
            before
        }
    }
}

/// The numbers that the commands among `all` carry, in their order: each line
/// that begins with `command` carries the decimal numbers that stand between
/// it and the next bracket, with commas between them.
pub open spec fn bytes_listed(all: Seq<Seq<char>>, command: Seq<char>) -> Seq<u8>
    decreases all.len(),
{
    if all.len() == 0 {
        Seq::empty()
    } else {
        let before = bytes_listed(all.drop_last(), command);
        let line = all.last();
        if starts_with(line, command) {
            before + numbers_in(line.skip(command.len() as int))
        } else {
            before
        }
    }
}

pub open spec fn numbers_in(text: Seq<char>) -> Seq<u8> {
    let parts = split(text.take(char_index(text, ']', 0)), ',');
    Seq::new(parts.len(), |i: int| digits_value(parts[i], 10) as u8)
}

proof fn lemma_written_append(a: Seq<Seq<char>>, b: Seq<Seq<char>>, command: Seq<char>)
    ensures
        bytes_written(a + b, command) == bytes_written(a, command) + bytes_written(b, command),
        bytes_listed(a + b, command) == bytes_listed(a, command) + bytes_listed(b, command),
    decreases b.len(),
{
    if b.len() == 0 {
        assert(a + b =~= a);
        assert(bytes_written(a, command) + bytes_written(b, command) =~= bytes_written(
            a,
            command,
        ));
        assert(bytes_listed(a, command) + bytes_listed(b, command) =~= bytes_listed(a, command));
    } else {
        let init = b.drop_last();
        lemma_written_append(a, init, command);
        assert((a + b).drop_last() =~= a + init);
        assert((a + b).last() == b.last());
        assert(bytes_written(a + b, command) =~= bytes_written(a, command) + bytes_written(
            b,
            command,
        ));
        assert(bytes_listed(a + b, command) =~= bytes_listed(a, command) + bytes_listed(
            b,
            command,
        ));
    }
}

/// A line that does not begin with the command carries nothing, and one that
/// does carries what stands behind it.
proof fn lemma_one_carried(line: Seq<char>, command: Seq<char>)
    ensures
        !starts_with(line, command) ==> bytes_written(seq![line], command) == Seq::<u8>::empty(),
        !starts_with(line, command) ==> bytes_listed(seq![line], command) == Seq::<u8>::empty(),
        starts_with(line, command) ==> bytes_written(seq![line], command) == seq![
            digits_value(line.skip(command.len() as int), 16) as u8,
        ],
        starts_with(line, command) ==> bytes_listed(seq![line], command) == numbers_in(
            line.skip(command.len() as int),
        ),
{
    let one = seq![line];
    assert(one.drop_last() =~= Seq::<Seq<char>>::empty());
    assert(bytes_written(one.drop_last(), command) == Seq::<u8>::empty());
    assert(bytes_listed(one.drop_last(), command) == Seq::<u8>::empty());
    assert(Seq::<u8>::empty() + numbers_in(line.skip(command.len() as int)) =~= numbers_in(
        line.skip(command.len() as int),
    ));
    assert(Seq::<u8>::empty().push(
        digits_value(line.skip(command.len() as int), 16) as u8,
    ) =~= seq![digits_value(line.skip(command.len() as int), 16) as u8]);
}

/// What lies behind the command is what the line goes on with.
proof fn lemma_begins(command: Seq<char>, rest: Seq<char>)
    ensures
        starts_with(command + rest, command),
        (command + rest).skip(command.len() as int) == rest,
{
    let line = command + rest;
    assert(line.subrange(0, command.len() as int) =~= command);
    assert(line.skip(command.len() as int) =~= rest);
}

/// Two texts that differ in a character that both have begin differently.
proof fn lemma_begins_otherwise(line: Seq<char>, command: Seq<char>, at: int)
    requires
        0 <= at < line.len(),
        at < command.len(),
        line[at] != command[at],
    ensures
        !starts_with(line, command),
{
    if starts_with(line, command) {
        assert(line.subrange(0, command.len() as int)[at] == command[at]);
    }
}

/// A line whose second word does not begin with a W writes no byte to a port
/// whose name is one word.
proof fn lemma_writes_nothing(first: Seq<char>, rest: Seq<char>, port: Seq<char>)
    requires
        !first.contains(' '),
        !port.contains(' '),
        rest.len() > 0,
        rest[0] != 'W',
    ensures
        !starts_with(first + " "@ + rest, port + " WriteChar 0x"@),
{
    reveal_strlit(" ");
    reveal_strlit(" WriteChar 0x");
    let line = first + " "@ + rest;
    let command = port + " WriteChar 0x"@;
    assert(line[first.len() as int] == ' ');
    assert(command[port.len() as int] == ' ');
    assert(command[port.len() as int + 1] == 'W');
    assert(line[first.len() as int + 1] == rest[0]);
    if starts_with(line, command) {
        let head = line.subrange(0, command.len() as int);
        assert(head[port.len() as int] == line[port.len() as int]);
        assert(head[port.len() as int + 1] == line[port.len() as int + 1]);
        if port.len() < first.len() {
            assert(first.contains(line[port.len() as int]));
        } else if port.len() > first.len() {
            assert(head[first.len() as int] == line[first.len() as int]);
            assert(command[first.len() as int] == port[first.len() as int]);
            assert(port.contains(port[first.len() as int]));
        }
    }
}

pub open spec fn run_for(duration: Seq<char>) -> Seq<char> {
    "emulation RunFor \""@ + duration + "s\""@
}

/// Telling the emulator to run is a line of its own that carries nothing.
proof fn lemma_run_line(duration: Seq<char>, port: Seq<char>)
    requires
        !duration.contains('\n'),
    ensures
        lines("emulation RunFor \""@ + duration + "s\"\n"@) == seq![run_for(duration)],
        ("emulation RunFor \""@ + duration + "s\"\n"@).last() == '\n',
        !port.contains(' ') ==> bytes_written(
            seq![run_for(duration)],
            port + " WriteChar 0x"@,
        ) == Seq::<u8>::empty(),
        forall|command: Seq<char>|
            command.len() > 0 && command[0] == 'p' ==> #[trigger] bytes_listed(
                seq![run_for(duration)],
                command,
            ) == Seq::<u8>::empty(),
{
    reveal_strlit("emulation RunFor \"");
    reveal_strlit("s\"\n");
    reveal_strlit("s\"");
    reveal_strlit("\n");
    reveal_strlit(" ");
    let line = run_for(duration);
    let text = "emulation RunFor \""@ + duration + "s\"\n"@;
    lemma_lacks("emulation RunFor \""@, duration, '\n');
    lemma_lacks("emulation RunFor \""@ + duration, "s\""@, '\n');
    assert(line.last() == '"');
    assert(text =~= line + "\n"@);
    lemma_one_line(line);
    let first = line.take(9);
    let rest = line.skip(10);
    assert(line =~= first + " "@ + rest);
    assert(line[9] == ' ' && line[10] == 'R');
    assert(first =~= seq!['e', 'm', 'u', 'l', 'a', 't', 'i', 'o', 'n']);
    if !port.contains(' ') {
        lemma_writes_nothing(first, rest, port);
        lemma_one_carried(line, port + " WriteChar 0x"@);
    }
    assert forall|command: Seq<char>| command.len() > 0 && command[0] == 'p' implies #[trigger]
        bytes_listed(seq![line], command) == Seq::<u8>::empty() by {
        lemma_begins_otherwise(line, command, 0);
        lemma_one_carried(line, command);
    }
}

/// The line that writes one byte to a UART.
pub open spec fn write_line(port: Seq<char>, byte: u8) -> Seq<char> {
    port + " WriteChar 0x"@ + hex2(byte as nat)
}

proof fn lemma_hex2_chars(byte: u8)
    ensures
        hex2(byte as nat).len() == 2,
        !hex2(byte as nat).contains('\n'),
        hex2(byte as nat).last() != '\r',
        digits_value(hex2(byte as nat), 16) == byte,
{
    law_padded_numbers_are_read_back(byte as nat);
    lemma_base_digits(byte as nat, 16);
    lemma_zero_padded(hex(byte as nat), 2, 16);
    let digits = hex2(byte as nat);
    assert forall|i: int| 0 <= i < digits.len() implies digits[i] != '\n' && digits[i] != '\r' by {
        assert(digit_value(digits[i]) < 16);
    }
}

proof fn lemma_uart_lines(port: Seq<char>, bytes: Seq<u8>, end: int)
    requires
        one_word(port),
        0 <= end <= bytes.len(),
    ensures
        uart_bytes(port, bytes, end).len() == 0 || uart_bytes(port, bytes, end).last() == '\n',
        lines(uart_bytes(port, bytes, end)) == Seq::new(
            end as nat,
            |i: int| write_line(port, bytes[i]),
        ),
        bytes_written(lines(uart_bytes(port, bytes, end)), port + " WriteChar 0x"@) == bytes.take(
            end,
        ),
    decreases end,
{
    reveal_strlit("");
    reveal_strlit("\n");
    reveal_strlit(" WriteChar 0x");
    let text = uart_bytes(port, bytes, end);
    let command = port + " WriteChar 0x"@;
    if end == 0 {
        assert(text =~= Seq::<char>::empty());
        assert(lines(text) =~= Seq::new(end as nat, |i: int| write_line(port, bytes[i])));
        assert(bytes.take(0) =~= Seq::<u8>::empty());
    } else {
        let before = uart_bytes(port, bytes, end - 1);
        let byte = bytes[end - 1];
        let line = write_line(port, byte);
        lemma_uart_lines(port, bytes, end - 1);
        lemma_hex2_chars(byte);
        lemma_lacks(port, " WriteChar 0x"@, '\n');
        lemma_lacks(command, hex2(byte as nat), '\n');
        assert(line.last() == hex2(byte as nat).last());
        lemma_one_line(line);
        assert(text =~= before + (line + "\n"@));
        lemma_lines_append(before, line + "\n"@);
        assert(lines(text) =~= Seq::new(end as nat, |i: int| write_line(port, bytes[i])));
        lemma_written_append(lines(before), seq![line], command);
        lemma_begins(command, hex2(byte as nat));
        lemma_one_carried(line, command);
        assert(bytes.take(end) =~= bytes.take(end - 1) + seq![byte]);
    }
}

/// The decimal numbers of a list are read back.
proof fn lemma_listed(bytes: Seq<u8>, tail: Seq<char>)
    requires
        bytes.len() > 0,
        tail.len() > 0,
        tail[0] == ']',
    ensures
        numbers_in(byte_list(bytes) + tail) == bytes,
        !byte_list(bytes).contains('\n'),
{
    reveal_strlit(",");
    let parts = Seq::new(bytes.len(), |i: int| dec(bytes[i] as nat));
    let list = byte_list(bytes);
    assert(","@ =~= seq![',']);
    assert forall|i: int| 0 <= i < parts.len() implies !(#[trigger] parts[i]).contains(',')
        && !parts[i].contains(']') && !parts[i].contains('\n') by {
        lemma_base_digits(bytes[i] as nat, 10);
        assert forall|k: int| 0 <= k < parts[i].len() implies parts[i][k] != ',' && parts[i][k]
            != ']' && parts[i][k] != '\n' by {
            assert(is_digit(parts[i][k]));
        }
    }
    lemma_split_join(parts, ',');
    lemma_join_lacks(parts, ']');
    lemma_join_lacks(parts, '\n');
    let text = list + tail;
    lemma_char_index(text, ']', 0);
    let end = char_index(text, ']', 0);
    assert(text[list.len() as int] == ']');
    if end < list.len() {
        assert(list.contains(text[end]));
    }
    assert(text.take(end) =~= list);
    assert forall|i: int| 0 <= i < bytes.len() implies numbers_in(text)[i] == bytes[i] by {
        lemma_base_digits(bytes[i] as nat, 10);
    }
    assert(numbers_in(text) =~= bytes);
}

proof fn lemma_join_lacks(parts: Seq<Seq<char>>, c: char)
    requires
        c != ',',
        forall|i: int| 0 <= i < parts.len() ==> !(#[trigger] parts[i]).contains(c),
    ensures
        !join(parts, ","@).contains(c),
    decreases parts.len(),
{
    reveal_strlit(",");
    if parts.len() > 1 {
        let init = parts.drop_last();
        assert forall|i: int| 0 <= i < init.len() implies !(#[trigger] init[i]).contains(c) by {
            assert(init[i] == parts[i]);
        }
        lemma_join_lacks(init, c);
        assert(!parts[parts.len() - 1].contains(c));
        assert(!","@.contains(c)) by {
            if ","@.contains(c) {
                let k = choose|k: int| 0 <= k < ","@.len() && ","@[k] == c;
            }
        }
        lemma_lacks(join(init, ","@), ","@, c);
        lemma_lacks(join(init, ","@) + ","@, parts.last(), c);
    } else if parts.len() == 1 {
        assert(!parts[0].contains(c));
    }
}

/// The command that hands a device a list of bytes.
pub open spec fn list_command(transport: OtaTransport) -> Seq<char> {
    match transport.kind {
        OtaTransportKind::Can =>
            "python \"from Antmicro.Renode.Core.CAN import CANMessageFrame; monitor.Machine['sysbus."@
            + transport.peripheral@ + "'].OnFrameReceived(CANMessageFrame(0x"@ + hex(
            transport.can_id->0 as nat,
        ) + ", System.Array[System.Byte](["@,
        OtaTransportKind::Usb => "python \"monitor.Machine['sysbus."@ + transport.peripheral@
            + "'].InjectPacket(System.Array[System.Byte](["@,
        _ => "python \"monitor.Machine['sysbus."@ + transport.peripheral@
            + "'].AppendCardBytes(System.Array[System.Byte](["@,
    }
}

/// What a line goes on with behind the list of bytes.
pub open spec fn list_tail(transport: OtaTransport) -> Seq<char> {
    match transport.kind {
        OtaTransportKind::Can => "])))\""@,
        OtaTransportKind::Usb => "]), "@ + dec(
            (match transport.endpoint {
                Some(endpoint) => endpoint,
                None => 1,
            }) as nat,
        ) + ")\""@,
        _ => "]))\""@,
    }
}

proof fn lemma_list_tail(transport: OtaTransport)
    ensures
        list_tail(transport).len() > 0,
        list_tail(transport)[0] == ']',
        list_tail(transport).last() == '"',
        !list_tail(transport).contains('\n'),
{
    reveal_strlit("])))\"");
    reveal_strlit("]), ");
    reveal_strlit(")\"");
    reveal_strlit("]))\"");
    let endpoint = (match transport.endpoint {
        Some(endpoint) => endpoint,
        None => 1,
    }) as nat;
    lemma_base_digits(endpoint, 10);
    assert forall|i: int| 0 <= i < dec(endpoint).len() implies dec(endpoint)[i] != '\n' by {
        assert(is_digit(dec(endpoint)[i]));
    }
    lemma_lacks("]), "@, dec(endpoint), '\n');
    lemma_lacks("]), "@ + dec(endpoint), ")\""@, '\n');
}

proof fn lemma_list_command(transport: OtaTransport)
    requires
        one_word(transport.peripheral@),
        transport.kind == OtaTransportKind::Can ==> transport.can_id is Some,
    ensures
        list_command(transport).len() > 0,
        list_command(transport)[0] == 'p',
        !list_command(transport).contains('\n'),
{
    let port = transport.peripheral@;
    match transport.kind {
        OtaTransportKind::Can => {
            reveal_strlit(
                "python \"from Antmicro.Renode.Core.CAN import CANMessageFrame; monitor.Machine['sysbus.",
            );
            reveal_strlit("'].OnFrameReceived(CANMessageFrame(0x");
            reveal_strlit(", System.Array[System.Byte]([");
            let a =
                "python \"from Antmicro.Renode.Core.CAN import CANMessageFrame; monitor.Machine['sysbus."@;
            let b = "'].OnFrameReceived(CANMessageFrame(0x"@;
            let id = hex(transport.can_id->0 as nat);
            let c = ", System.Array[System.Byte](["@;
            lemma_base_digits(transport.can_id->0 as nat, 16);
            assert forall|i: int| 0 <= i < id.len() implies id[i] != '\n' by {
                assert(digit_value(id[i]) < 16);
            }
            lemma_lacks(a, port, '\n');
            lemma_lacks(a + port, b, '\n');
            lemma_lacks(a + port + b, id, '\n');
            lemma_lacks(a + port + b + id, c, '\n');
        },
        OtaTransportKind::Usb => {
            reveal_strlit("python \"monitor.Machine['sysbus.");
            reveal_strlit("'].InjectPacket(System.Array[System.Byte]([");
            let a = "python \"monitor.Machine['sysbus."@;
            let b = "'].InjectPacket(System.Array[System.Byte](["@;
            lemma_lacks(a, port, '\n');
            lemma_lacks(a + port, b, '\n');
        },
        _ => {
            reveal_strlit("python \"monitor.Machine['sysbus.");
            reveal_strlit("'].AppendCardBytes(System.Array[System.Byte]([");
            let a = "python \"monitor.Machine['sysbus."@;
            let b = "'].AppendCardBytes(System.Array[System.Byte](["@;
            lemma_lacks(a, port, '\n');
            lemma_lacks(a + port, b, '\n');
        },
    }
}

/// The text of a unit is its line, a line feed and the pause.
proof fn lemma_list_text(layout: BoardLayout, transport: OtaTransport, bytes: Seq<u8>)
    requires
        transport.kind != OtaTransportKind::Uart,
        transport.kind == OtaTransportKind::Can ==> transport.can_id is Some,
    ensures
        ({
            let line = list_command(transport) + byte_list(bytes) + list_tail(transport);
            unit_text(layout, transport, bytes) == if transport.kind == OtaTransportKind::Sdmmc {
                line + "\n"@
            } else {
                line + "\n"@ + pause_text(layout, bytes.len() as int)
            }
        }),
{
    let command = list_command(transport);
    let list = byte_list(bytes);
    let listed = command + list;
    let pause = pause_text(layout, bytes.len() as int);
    match transport.kind {
        OtaTransportKind::Can => {
            assert("])))\"\n"@ == "])))\""@ + "\n"@) by {
                reveal_strlit("])))\"\n");
                reveal_strlit("])))\"");
                reveal_strlit("\n");
                assert("])))\"\n"@ =~= "])))\""@ + "\n"@);
            }
            lemma_grouped(listed, "])))\""@, "\n"@);
        },
        OtaTransportKind::Usb => {
            assert(")\"\n"@ == ")\""@ + "\n"@) by {
                reveal_strlit(")\"\n");
                reveal_strlit(")\"");
                reveal_strlit("\n");
                assert(")\"\n"@ =~= ")\""@ + "\n"@);
            }
            let endpoint = dec(
                (match transport.endpoint {
                    Some(endpoint) => endpoint,
                    None => 1,
                }) as nat,
            );
            lemma_grouped(listed + "]), "@, endpoint, ")\"\n"@);
            lemma_grouped(listed, "]), "@, endpoint + ")\"\n"@);
            lemma_grouped("]), "@, endpoint, ")\""@);
            lemma_grouped(listed, "]), "@ + endpoint + ")\""@, "\n"@);
            lemma_grouped("]), "@ + endpoint, ")\""@, "\n"@);
            lemma_grouped("]), "@, endpoint, ")\"\n"@);
        },
        _ => {
            assert("]))\"\n"@ == "]))\""@ + "\n"@) by {
                reveal_strlit("]))\"\n");
                reveal_strlit("]))\"");
                reveal_strlit("\n");
                assert("]))\"\n"@ =~= "]))\""@ + "\n"@);
            }
            lemma_grouped(listed, "]))\""@, "\n"@);
        },
    }
}

/// One list of bytes is one line, and the pause behind it another.
proof fn lemma_list_unit(layout: BoardLayout, transport: OtaTransport, bytes: Seq<u8>)
    requires
        transport.kind != OtaTransportKind::Uart,
        transport.kind == OtaTransportKind::Can ==> transport.can_id is Some,
        one_word(transport.peripheral@),
        bytes.len() > 0,
    ensures
        ({
            let text = unit_text(layout, transport, bytes);
            let line = list_command(transport) + byte_list(bytes) + list_tail(transport);
            let pause = run_for(micros((layout.ota.inter_byte_us * bytes.len()) as nat));
            &&& text.len() > 0
            &&& text.last() == '\n'
            &&& lines(text) == if transport.kind == OtaTransportKind::Sdmmc {
                seq![line]
            } else {
                seq![line, pause]
            }
            &&& bytes_listed(lines(text), list_command(transport)) == bytes
        }),
{
    reveal_strlit("\n");
    let command = list_command(transport);
    let list = byte_list(bytes);
    let tail = list_tail(transport);
    let line = command + list + tail;
    let duration = micros((layout.ota.inter_byte_us * bytes.len()) as nat);
    let pause = pause_text(layout, bytes.len() as int);
    let text = unit_text(layout, transport, bytes);
    lemma_list_tail(transport);
    lemma_list_command(transport);
    lemma_listed(bytes, tail);
    lemma_lacks(command, list, '\n');
    lemma_lacks(command + list, tail, '\n');
    assert(line.last() == '"');
    lemma_one_line(line);
    crate::text::lemma_duration_chars((layout.ota.inter_byte_us * bytes.len()) as nat);
    lemma_run_line(duration, Seq::empty());
    assert(line =~= command + (list + tail));
    lemma_begins(command, list + tail);
    lemma_one_carried(line, command);
    lemma_lines_append(line + "\n"@, pause);
    assert(seq![line] + seq![run_for(duration)] =~= seq![line, run_for(duration)]);
    lemma_written_append(seq![line], seq![run_for(duration)], command);
    assert(bytes_listed(seq![run_for(duration)], command) == Seq::<u8>::empty());
    assert(bytes + Seq::<u8>::empty() =~= bytes);
    lemma_list_text(layout, transport, bytes);
}

/// A unit that a UART receives is one line for each byte, and the pause.
proof fn lemma_uart_unit(layout: BoardLayout, transport: OtaTransport, bytes: Seq<u8>)
    requires
        transport.kind == OtaTransportKind::Uart,
        one_word(transport.peripheral@),
    ensures
        ({
            let text = unit_text(layout, transport, bytes);
            let pause = run_for(micros((layout.ota.inter_byte_us * bytes.len()) as nat));
            &&& text.len() > 0
            &&& text.last() == '\n'
            &&& lines(text) == Seq::new(
                bytes.len(),
                |i: int| write_line(transport.peripheral@, bytes[i]),
            ) + seq![pause]
            &&& bytes_written(lines(text), transport.peripheral@ + " WriteChar 0x"@) == bytes
        }),
{
    let port = transport.peripheral@;
    let duration = micros((layout.ota.inter_byte_us * bytes.len()) as nat);
    let written = uart_bytes(port, bytes, bytes.len() as int);
    let pause = pause_text(layout, bytes.len() as int);
    lemma_uart_lines(port, bytes, bytes.len() as int);
    crate::text::lemma_duration_chars((layout.ota.inter_byte_us * bytes.len()) as nat);
    lemma_run_line(duration, port);
    lemma_lines_append(written, pause);
    lemma_written_append(lines(written), seq![run_for(duration)], port + " WriteChar 0x"@);
    assert(bytes.take(bytes.len() as int) =~= bytes);
    assert(bytes + Seq::<u8>::empty() =~= bytes);
}

proof fn lemma_units_read(
    layout: BoardLayout,
    transport: OtaTransport,
    payload: Seq<u8>,
    end: int,
)
    requires
        transfer_unit(layout, transport) > 0,
        transport.kind == OtaTransportKind::Can ==> transport.can_id is Some,
        one_word(transport.peripheral@),
        0 <= end <= div_ceil(payload.len() as int, transfer_unit(layout, transport)),
    ensures
        ({
            let text = units_text(layout, transport, payload, end);
            let sent = crate::update::pieces(payload, transfer_unit(layout, transport), end);
            &&& text.len() == 0 || text.last() == '\n'
            &&& transport.kind == OtaTransportKind::Uart ==> bytes_written(
                lines(text),
                transport.peripheral@ + " WriteChar 0x"@,
            ) == sent
            &&& transport.kind != OtaTransportKind::Uart ==> bytes_listed(
                lines(text),
                list_command(transport),
            ) == sent
        }),
    decreases end,
{
    reveal_strlit("");
    let unit = transfer_unit(layout, transport);
    let text = units_text(layout, transport, payload, end);
    if end == 0 {
        assert(text =~= Seq::<char>::empty());
    } else {
        let before = units_text(layout, transport, payload, end - 1);
        let bytes = piece(payload, unit, end - 1);
        let added = unit_text(layout, transport, bytes);
        lemma_units_read(layout, transport, payload, end - 1);
        lemma_piece_bounds(payload.len() as int, unit, end - 1);
        lemma_lines_append(before, added);
        if transport.kind == OtaTransportKind::Uart {
            lemma_uart_unit(layout, transport, bytes);
            lemma_written_append(
                lines(before),
                lines(added),
                transport.peripheral@ + " WriteChar 0x"@,
            );
        } else {
            lemma_list_unit(layout, transport, bytes);
            lemma_written_append(lines(before), lines(added), list_command(transport));
        }
    }
}

/// The two lines that an update begins with carry nothing.
proof fn lemma_update_starts(layout: BoardLayout, port: Seq<char>)
    requires
        !port.contains(' '),
    ensures
        ({
            let text = "emulation RunFor \""@ + millis(layout.ota.start_after_ms as nat)
                + "s\"\necho \"SEDS_OTA_TRANSFER_BEGIN\"\n"@;
            &&& text.len() > 0
            &&& text.last() == '\n'
            &&& lines(text) == seq![
                run_for(millis(layout.ota.start_after_ms as nat)),
                "echo \"SEDS_OTA_TRANSFER_BEGIN\""@,
            ]
            &&& bytes_written(lines(text), port + " WriteChar 0x"@) == Seq::<u8>::empty()
            &&& forall|command: Seq<char>|
                command.len() > 0 && command[0] == 'p' ==> #[trigger] bytes_listed(
                    lines(text),
                    command,
                ) == Seq::<u8>::empty()
        }),
{
    reveal_strlit("s\"\necho \"SEDS_OTA_TRANSFER_BEGIN\"\n");
    reveal_strlit("s\"\n");
    reveal_strlit("echo \"SEDS_OTA_TRANSFER_BEGIN\"");
    reveal_strlit("\n");
    reveal_strlit(" ");
    let duration = millis(layout.ota.start_after_ms as nat);
    let first = "emulation RunFor \""@ + duration + "s\"\n"@;
    let echo = "echo \"SEDS_OTA_TRANSFER_BEGIN\""@;
    let text = "emulation RunFor \""@ + duration + "s\"\necho \"SEDS_OTA_TRANSFER_BEGIN\"\n"@;
    crate::text::lemma_duration_chars(layout.ota.start_after_ms as nat);
    lemma_run_line(duration, port);
    assert(echo.last() == '"');
    lemma_one_line(echo);
    assert("s\"\necho \"SEDS_OTA_TRANSFER_BEGIN\"\n"@ =~= "s\"\n"@ + (echo + "\n"@));
    assert(text =~= first + (echo + "\n"@));
    lemma_lines_append(first, echo + "\n"@);
    let word = echo.take(4);
    let rest = echo.skip(5);
    assert(echo =~= word + " "@ + rest);
    assert(word =~= seq!['e', 'c', 'h', 'o']);
    lemma_writes_nothing(word, rest, port);
    lemma_one_carried(echo, port + " WriteChar 0x"@);
    lemma_written_append(seq![run_for(duration)], seq![echo], port + " WriteChar 0x"@);
    assert(seq![run_for(duration)] + seq![echo] =~= seq![run_for(duration), echo]);
    assert forall|command: Seq<char>| command.len() > 0 && command[0] == 'p' implies #[trigger]
        bytes_listed(lines(text), command) == Seq::<u8>::empty() by {
        lemma_begins_otherwise(echo, command, 0);
        lemma_one_carried(echo, command);
        lemma_written_append(seq![run_for(duration)], seq![echo], command);
        assert(bytes_listed(seq![run_for(duration)], command) == Seq::<u8>::empty());
    }
}

/// Beginning or mounting a card is a line that carries nothing.
proof fn lemma_card_line(transport: OtaTransport, method: Seq<char>)
    requires
        one_word(transport.peripheral@),
        method == "BeginCardImage"@ || method == "MountCardImage"@,
        transport.kind == OtaTransportKind::Sdmmc,
    ensures
        card_text(transport, method).len() > 0,
        card_text(transport, method).last() == '\n',
        bytes_listed(lines(card_text(transport, method)), list_command(transport)) == Seq::<
            u8,
        >::empty(),
{
    reveal_strlit("python \"monitor.Machine['sysbus.");
    reveal_strlit("'].");
    reveal_strlit("BeginCardImage");
    reveal_strlit("MountCardImage");
    reveal_strlit("()\"\n");
    reveal_strlit("()\"");
    reveal_strlit("\n");
    reveal_strlit("'].AppendCardBytes(System.Array[System.Byte]([");
    let start = "python \"monitor.Machine['sysbus."@;
    let port = transport.peripheral@;
    let line = start + port + "'].".view() + method + "()\""@;
    let text = card_text(transport, method);
    lemma_lacks(start, port, '\n');
    lemma_lacks(start + port, "'].".view(), '\n');
    lemma_lacks(start + port + "'].".view(), method, '\n');
    lemma_lacks(start + port + "'].".view() + method, "()\""@, '\n');
    assert(line.last() == '"');
    lemma_one_line(line);
    assert("()\"\n"@ =~= "()\""@ + "\n"@);
    assert(text =~= line + "\n"@);
    let at: int = start.len() as int + port.len() + 3;
    let command = list_command(transport);
    assert(command[at] == 'A');
    assert(line[at] == method[0]);
    lemma_begins_otherwise(line, command, at);
    lemma_one_carried(line, command);
}

/// The script of an update carries exactly the payload, byte for byte and in
/// order: the hexadecimal numbers of a UART's commands, or the decimal lists of
/// a CAN controller's, a USB device's or a card's.
pub proof fn law_updates_carry_the_payload(layout: BoardLayout, payload: Seq<u8>)
    requires
        layout.ota.firmware_driven,
        ota_ready(layout, Some(payload), None),
        one_word(layout.ota.transport->0.peripheral@),
    ensures
        ({
            let script = lines(ota_text(layout, Some(payload), None));
            let transport = layout.ota.transport->0;
            let port = transport.peripheral@;
            &&& transport.kind == OtaTransportKind::Uart ==> bytes_written(
                script,
                port + " WriteChar 0x"@,
            ) == payload
            &&& transport.kind == OtaTransportKind::Can ==> bytes_listed(
                script,
                "python \"from Antmicro.Renode.Core.CAN import CANMessageFrame; monitor.Machine['sysbus."@
                    + port + "'].OnFrameReceived(CANMessageFrame(0x"@ + hex(
                    transport.can_id->0 as nat,
                ) + ", System.Array[System.Byte](["@,
            ) == payload
            &&& transport.kind == OtaTransportKind::Usb ==> bytes_listed(
                script,
                "python \"monitor.Machine['sysbus."@ + port
                    + "'].InjectPacket(System.Array[System.Byte](["@,
            ) == payload
            &&& transport.kind == OtaTransportKind::Sdmmc ==> bytes_listed(
                script,
                "python \"monitor.Machine['sysbus."@ + port
                    + "'].AppendCardBytes(System.Array[System.Byte](["@,
            ) == payload
        }),
{
    reveal_strlit("");
    let transport = layout.ota.transport->0;
    let port = transport.peripheral@;
    let unit = transfer_unit(layout, transport);
    let count = div_ceil(payload.len() as int, unit);
    let command = list_command(transport);
    let write = port + " WriteChar 0x"@;
    let start = "emulation RunFor \""@ + millis(layout.ota.start_after_ms as nat)
        + "s\"\necho \"SEDS_OTA_TRANSFER_BEGIN\"\n"@;
    let units = units_text(layout, transport, payload, count);
    let delivery = delivery_text(layout, transport, payload);
    let duration = millis(layout.ota.power_cuts.reboot_time_ms as nat);
    let end = "emulation RunFor \""@ + duration + "s\"\n"@;
    crate::flash::lemma_div_ceil_covers(payload.len() as int, unit);
    crate::update::law_pieces_are_the_whole(payload, unit);
    lemma_units_read(layout, transport, payload, count);
    lemma_update_starts(layout, port);
    crate::text::lemma_duration_chars(layout.ota.power_cuts.reboot_time_ms as nat);
    lemma_run_line(duration, port);
    lemma_list_command(transport);
    if transport.kind == OtaTransportKind::Sdmmc {
        let begin = card_text(transport, "BeginCardImage"@);
        let mount = card_text(transport, "MountCardImage"@);
        lemma_card_line(transport, "BeginCardImage"@);
        lemma_card_line(transport, "MountCardImage"@);
        lemma_lines_append(begin, units);
        lemma_lines_append(begin + units, mount);
        lemma_written_append(lines(begin), lines(units), command);
        lemma_written_append(lines(begin) + lines(units), lines(mount), command);
        assert((begin + units).len() > 0);
        assert(Seq::<u8>::empty() + payload =~= payload);
        assert(payload + Seq::<u8>::empty() =~= payload);
        assert(bytes_listed(lines(delivery), command) == payload);
    }
    let text = ota_text(layout, Some(payload), None);
    assert(text =~= start + delivery + end);
    assert(delivery.len() == 0 || delivery.last() == '\n');
    lemma_lines_append(start, delivery);
    lemma_lines_append(start + delivery, end);
    assert((start + delivery).last() == '\n');
    if transport.kind == OtaTransportKind::Uart {
        lemma_written_append(lines(start), lines(delivery), write);
        lemma_written_append(lines(start) + lines(delivery), seq![run_for(duration)], write);
    } else {
        lemma_written_append(lines(start), lines(delivery), command);
        lemma_written_append(lines(start) + lines(delivery), seq![run_for(duration)], command);
        assert(bytes_listed(lines(start), command) == Seq::<u8>::empty());
        assert(bytes_listed(seq![run_for(duration)], command) == Seq::<u8>::empty());
    }
    assert(Seq::<u8>::empty() + payload + Seq::<u8>::empty() =~= payload);
}

proof fn lemma_units_append(
    layout: BoardLayout,
    transport: OtaTransport,
    a: Seq<u8>,
    b: Seq<u8>,
    end: int,
)
    requires
        transfer_unit(layout, transport) > 0,
        a.len() as int % transfer_unit(layout, transport) == 0,
        0 <= end <= div_ceil(b.len() as int, transfer_unit(layout, transport)),
    ensures
        ({
            let first = a.len() as int / transfer_unit(layout, transport);
            units_text(layout, transport, a + b, first + end) == units_text(
                layout,
                transport,
                a,
                first,
            ) + units_text(layout, transport, b, end)
        }),
    decreases end,
{
    reveal_strlit("");
    let unit = transfer_unit(layout, transport);
    let first = a.len() as int / unit;
    vstd::arithmetic::div_mod::lemma_fundamental_div_mod(a.len() as int, unit);
    assert(unit * first == first * unit) by (nonlinear_arith);
    if end == 0 {
        lemma_units_prefix(layout, transport, a, b, first);
        assert(units_text(layout, transport, a, first) + ""@ =~= units_text(
            layout,
            transport,
            a,
            first,
        ));
    } else {
        lemma_units_append(layout, transport, a, b, end - 1);
        lemma_piece_bounds(b.len() as int, unit, end - 1);
        let k = first + end - 1;
        assert(k * unit == first * unit + (end - 1) * unit) by (nonlinear_arith)
            requires
                k == first + end - 1,
        ;
        vstd::arithmetic::div_mod::lemma_div_pos_is_pos(a.len() as int, unit);
        assert(piece(a + b, unit, k) =~= piece(b, unit, end - 1));
        let before = units_text(layout, transport, a, first);
        let middle = units_text(layout, transport, b, end - 1);
        let last = unit_text(layout, transport, piece(b, unit, end - 1));
        assert((before + middle) + last =~= before + (middle + last));
    }
}

proof fn lemma_units_prefix(
    layout: BoardLayout,
    transport: OtaTransport,
    a: Seq<u8>,
    b: Seq<u8>,
    end: int,
)
    requires
        transfer_unit(layout, transport) > 0,
        a.len() as int % transfer_unit(layout, transport) == 0,
        end <= a.len() as int / transfer_unit(layout, transport),
    ensures
        units_text(layout, transport, a + b, end) == units_text(layout, transport, a, end),
    decreases end,
{
    if end > 0 {
        lemma_units_prefix(layout, transport, a, b, end - 1);
        lemma_first_pieces(a, b, transfer_unit(layout, transport), end - 1);
    }
}

proof fn lemma_first_pieces(a: Seq<u8>, b: Seq<u8>, unit: int, i: int)
    requires
        unit > 0,
        a.len() as int % unit == 0,
        0 <= i < a.len() as int / unit,
    ensures
        piece(a + b, unit, i) == piece(a, unit, i),
{
    lemma_piece_bounds(a.len() as int, unit, i);
    vstd::arithmetic::div_mod::lemma_fundamental_div_mod(a.len() as int, unit);
    let count = a.len() as int / unit;
    assert(unit * count == count * unit) by (nonlinear_arith);
    assert(i * unit + unit <= count * unit) by (nonlinear_arith)
        requires
            i + 1 <= count,
            unit > 0,
    ;
    assert(piece(a + b, unit, i) =~= piece(a, unit, i));
}

/// Units are delivered one after the other: what delivers a payload that
/// begins with whole units is what delivers those, followed by what delivers
/// the rest. No payload, no delivery; and one unit is delivered by its
/// commands, in order, and a pause as long as its bytes take.
pub proof fn law_units_are_delivered_in_turn(
    layout: BoardLayout,
    transport: OtaTransport,
    a: Seq<u8>,
    b: Seq<u8>,
)
    requires
        transfer_unit(layout, transport) > 0,
        one_word(transport.peripheral@),
        transport.kind == OtaTransportKind::Can ==> transport.can_id is Some,
        transport.kind != OtaTransportKind::Sdmmc,
    ensures
        transport.kind == OtaTransportKind::Can ==> transfer_unit(layout, transport) == (
        match transport.mtu {
            Some(mtu) => mtu as int,
            None => 64,
        }),
        transport.kind != OtaTransportKind::Can ==> transfer_unit(layout, transport)
            == layout.ota.chunk_size,
        a.len() as int % transfer_unit(layout, transport) == 0 ==> delivery_text(
            layout,
            transport,
            a + b,
        ) == delivery_text(layout, transport, a) + delivery_text(layout, transport, b),
        delivery_text(layout, transport, Seq::empty()) == Seq::<char>::empty(),
        0 < a.len() <= transfer_unit(layout, transport) ==> lines(
            delivery_text(layout, transport, a),
        ) == (if transport.kind == OtaTransportKind::Uart {
            Seq::new(
                a.len(),
                |i: int| transport.peripheral@ + " WriteChar 0x"@ + hex2(a[i] as nat),
            )
        } else {
            seq![list_command(transport) + byte_list(a) + list_tail(transport)]
        }) + seq![
            "emulation RunFor \""@ + micros((layout.ota.inter_byte_us * a.len()) as nat)
                + "s\""@,
        ],
{
    reveal_strlit("");
    let unit = transfer_unit(layout, transport);
    crate::flash::lemma_div_ceil_covers(b.len() as int, unit);
    crate::flash::lemma_div_ceil_covers(0, unit);
    vstd::arithmetic::div_mod::lemma_small_mod(0, unit as nat);
    vstd::arithmetic::div_mod::lemma_basic_div(0, unit);
    assert(div_ceil(0, unit) == 0);
    assert(""@ =~= Seq::<char>::empty());
    if a.len() as int % unit == 0 {
        lemma_units_append(layout, transport, a, b, div_ceil(b.len() as int, unit));
        lemma_more_pieces(a.len() as int, b.len() as int, unit);
        assert((a + b).len() == a.len() + b.len());
    }
    if 0 < a.len() <= unit {
        lemma_one_unit(layout, transport, a);
    }
}

proof fn lemma_more_pieces(a: int, b: int, unit: int)
    requires
        unit > 0,
        a >= 0,
        b >= 0,
        a % unit == 0,
    ensures
        div_ceil(a + b, unit) == a / unit + div_ceil(b, unit),
        div_ceil(a, unit) == a / unit,
{
    vstd::arithmetic::div_mod::lemma_fundamental_div_mod(a, unit);
    let first = a / unit;
    assert(unit * first == first * unit) by (nonlinear_arith);
    vstd::arithmetic::div_mod::lemma_mod_multiples_vanish(first, b, unit);
    vstd::arithmetic::div_mod::lemma_hoist_over_denominator(b, first, unit as nat);
    assert(a + b == unit * first + b);
}

proof fn lemma_one_unit(layout: BoardLayout, transport: OtaTransport, a: Seq<u8>)
    requires
        0 < a.len() <= transfer_unit(layout, transport),
        one_word(transport.peripheral@),
        transport.kind == OtaTransportKind::Can ==> transport.can_id is Some,
        transport.kind != OtaTransportKind::Sdmmc,
    ensures
        lines(delivery_text(layout, transport, a)) == (if transport.kind
            == OtaTransportKind::Uart {
            Seq::new(
                a.len(),
                |i: int| transport.peripheral@ + " WriteChar 0x"@ + hex2(a[i] as nat),
            )
        } else {
            seq![list_command(transport) + byte_list(a) + list_tail(transport)]
        }) + seq![
            "emulation RunFor \""@ + micros((layout.ota.inter_byte_us * a.len()) as nat)
                + "s\""@,
        ],
{
    reveal_strlit("");
    let unit = transfer_unit(layout, transport);
    crate::flash::lemma_div_ceil_covers(a.len() as int, unit);
    let count = div_ceil(a.len() as int, unit);
    assert(count == 1) by (nonlinear_arith)
        requires
            count * unit >= a.len(),
            count * unit < a.len() + unit,
            0 < a.len() <= unit,
    ;
    assert(0 * unit == 0);
    assert(piece(a, unit, 0) =~= a);
    reveal_with_fuel(units_text, 2);
    assert(""@ + unit_text(layout, transport, a) =~= unit_text(layout, transport, a));
    if transport.kind == OtaTransportKind::Uart {
        lemma_uart_unit(layout, transport, a);
        assert(Seq::new(
            a.len(),
            |i: int| transport.peripheral@ + " WriteChar 0x"@ + hex2(a[i] as nat),
        ) =~= Seq::new(a.len(), |i: int| write_line(transport.peripheral@, a[i])));
    } else {
        lemma_list_unit(layout, transport, a);
        let line = list_command(transport) + byte_list(a) + list_tail(transport);
        let pause = run_for(micros((layout.ota.inter_byte_us * a.len()) as nat));
        assert(seq![line] + seq![pause] =~= seq![line, pause]);
    }
}

/// A power cut changes nothing about the delivery: it is armed after the
/// transfer has begun and before the first byte, and the reboot follows when
/// all has been sent. Without a firmware-driven update there is no script.
pub proof fn law_power_cuts_surround_the_delivery(
    layout: BoardLayout,
    payload: Seq<u8>,
    operation: u64,
)
    requires
        layout.ota.firmware_driven,
        layout.ota.transport is Some,
    ensures
        ({
            let start = "emulation RunFor \""@ + millis(layout.ota.start_after_ms as nat)
                + "s\"\necho \"SEDS_OTA_TRANSFER_BEGIN\"\n"@;
            let plain = ota_text(layout, Some(payload), None);
            let cut = ota_text(layout, Some(payload), Some(operation));
            let arm = "physicalFlash ArmPowerCut "@ + dec(operation as nat) + "\n"@;
            let reset = "cpu SetRegister 13 `sysbus ReadDoubleWord 0x"@ + hex8(
                layout.memory.flash_base as nat,
            ) + "`\ncpu PC `sysbus ReadDoubleWord 0x"@ + hex8(
                (layout.memory.flash_base + 4) as nat,
            ) + "`\n"@;
            &&& starts_with(plain, start)
            &&& starts_with(
                cut,
                start + arm + plain.skip(start.len() as int)
                    + "echo \"SEDS_POWER_CUT_TRIGGERED\"\nphysicalFlash GetPowerCutTriggered\necho \"SEDS_POWER_CUT_REBOOT\"\n"@,
            )
            &&& ends_with(
                cut,
                "physicalFlash DisarmPowerCut\n"@ + reset + "emulation RunFor \""@ + millis(
                    layout.ota.power_cuts.reboot_time_ms as nat,
                ) + "s\"\n"@,
            )
            &&& ends_with(
                plain,
                "emulation RunFor \""@ + millis(layout.ota.power_cuts.reboot_time_ms as nat)
                    + "s\"\n"@,
            )
        }),
{
    reveal_strlit("");
    let start = "emulation RunFor \""@ + millis(layout.ota.start_after_ms as nat)
        + "s\"\necho \"SEDS_OTA_TRANSFER_BEGIN\"\n"@;
    let plain = ota_text(layout, Some(payload), None);
    let cut = ota_text(layout, Some(payload), Some(operation));
    let arm = "physicalFlash ArmPowerCut "@ + dec(operation as nat) + "\n"@;
    let delivery = delivery_text(layout, layout.ota.transport->0, payload);
    let run = "emulation RunFor \""@ + millis(layout.ota.power_cuts.reboot_time_ms as nat)
        + "s\"\n"@;
    let triggered =
        "echo \"SEDS_POWER_CUT_TRIGGERED\"\nphysicalFlash GetPowerCutTriggered\necho \"SEDS_POWER_CUT_REBOOT\"\n"@;
    let peripherals =
        "python \"[(e.Peripheral.Reset() if hasattr(e.Peripheral, 'Reset') else None) for e in monitor.Machine.GetRegisteredPeripherals() if e.Name not in ('sysbus', 'flashBacking')]\"\n"@;
    let reset = "cpu SetRegister 13 `sysbus ReadDoubleWord 0x"@ + hex8(
        layout.memory.flash_base as nat,
    ) + "`\ncpu PC `sysbus ReadDoubleWord 0x"@ + hex8((layout.memory.flash_base + 4) as nat)
        + "`\n"@;
    let last = "physicalFlash DisarmPowerCut\n"@ + reset + "emulation RunFor \""@ + millis(
        layout.ota.power_cuts.reboot_time_ms as nat,
    ) + "s\"\n"@;
    let rest = delivery + run;
    lemma_plain_update(layout, payload);
    lemma_begins(start, rest);
    lemma_cut_update(layout, payload, operation);
    lemma_begins(start + arm + rest + triggered, peripherals + last);
    let before = start + arm + rest + triggered;
    lemma_grouped(before, peripherals, last);
    lemma_finishes(before + peripherals, last);
    lemma_grouped(start, delivery, run);
    lemma_finishes(start + delivery, run);
}

proof fn lemma_finishes(a: Seq<char>, b: Seq<char>)
    ensures
        ends_with(a + b, b),
{
    let whole = a + b;
    assert(whole.subrange(whole.len() - b.len(), whole.len() as int) =~= b);
}

proof fn lemma_nothing_added(a: Seq<char>)
    ensures
        a + ""@ == a,
{
    reveal_strlit("");
    assert(a + ""@ =~= a);
}

/// An update without a power cut: its start, the delivery, and a run.
proof fn lemma_plain_update(layout: BoardLayout, payload: Seq<u8>)
    requires
        layout.ota.firmware_driven,
    ensures
        ota_text(layout, Some(payload), None) == "emulation RunFor \""@ + millis(
            layout.ota.start_after_ms as nat,
        ) + "s\"\necho \"SEDS_OTA_TRANSFER_BEGIN\"\n"@ + (delivery_text(
            layout,
            layout.ota.transport->0,
            payload,
        ) + ("emulation RunFor \""@ + millis(layout.ota.power_cuts.reboot_time_ms as nat)
            + "s\"\n"@)),
{
    let start = "emulation RunFor \""@ + millis(layout.ota.start_after_ms as nat)
        + "s\"\necho \"SEDS_OTA_TRANSFER_BEGIN\"\n"@;
    let delivery = delivery_text(layout, layout.ota.transport->0, payload);
    let (e, m, s) = (
        "emulation RunFor \""@,
        millis(layout.ota.power_cuts.reboot_time_ms as nat),
        "s\"\n"@,
    );
    lemma_nothing_added(start);
    lemma_nothing_added(start + delivery + e + m + s);
    lemma_grouped(start + delivery + e, m, s);
    lemma_grouped(start + delivery, e, m + s);
    lemma_grouped(e, m, s);
    lemma_grouped(start, delivery, e + m + s);
}

proof fn lemma_reboot(layout: BoardLayout)
    ensures
        ({
            let reset = "cpu SetRegister 13 `sysbus ReadDoubleWord 0x"@ + hex8(
                layout.memory.flash_base as nat,
            ) + "`\ncpu PC `sysbus ReadDoubleWord 0x"@ + hex8(
                (layout.memory.flash_base + 4) as nat,
            ) + "`\n"@;
            reboot_text(layout)
                == "echo \"SEDS_POWER_CUT_TRIGGERED\"\nphysicalFlash GetPowerCutTriggered\necho \"SEDS_POWER_CUT_REBOOT\"\n"@
                + ("python \"[(e.Peripheral.Reset() if hasattr(e.Peripheral, 'Reset') else None) for e in monitor.Machine.GetRegisteredPeripherals() if e.Name not in ('sysbus', 'flashBacking')]\"\n"@
                + ("physicalFlash DisarmPowerCut\n"@ + reset + "emulation RunFor \""@ + millis(
                layout.ota.power_cuts.reboot_time_ms as nat,
            ) + "s\"\n"@))
        }),
{
    let t =
        "echo \"SEDS_POWER_CUT_TRIGGERED\"\nphysicalFlash GetPowerCutTriggered\necho \"SEDS_POWER_CUT_REBOOT\"\n"@;
    let p =
        "python \"[(e.Peripheral.Reset() if hasattr(e.Peripheral, 'Reset') else None) for e in monitor.Machine.GetRegisteredPeripherals() if e.Name not in ('sysbus', 'flashBacking')]\"\n"@;
    let d = "physicalFlash DisarmPowerCut\n"@;
    let c = "cpu SetRegister 13 `sysbus ReadDoubleWord 0x"@;
    let h = hex8(layout.memory.flash_base as nat);
    let f = "`\ncpu PC `sysbus ReadDoubleWord 0x"@;
    let g = hex8((layout.memory.flash_base + 4) as nat);
    let n = "`\n"@;
    let e = "emulation RunFor \""@;
    let m = millis(layout.ota.power_cuts.reboot_time_ms as nat);
    let s = "s\"\n"@;
    let tp = t + p;
    let reset = c + h + f + g + n;
    // d is followed by the five pieces of the reset.
    let tpd = tp + d;
    lemma_grouped(tpd, c, h);
    lemma_grouped(tpd, c + h, f);
    lemma_grouped(tpd, c + h + f, g);
    lemma_grouped(tpd, c + h + f + g, n);
    lemma_grouped(tp, d, reset);
    lemma_grouped(tp, d + reset, e);
    lemma_grouped(tp, d + reset + e, m);
    lemma_grouped(tp, d + reset + e + m, s);
    lemma_grouped(t, p, d + reset + e + m + s);
}

/// An update with a power cut is the one without, armed at its start and
/// followed by the reboot.
proof fn lemma_cut_update(layout: BoardLayout, payload: Seq<u8>, operation: u64)
    requires
        layout.ota.firmware_driven,
    ensures
        ({
            let start = "emulation RunFor \""@ + millis(layout.ota.start_after_ms as nat)
                + "s\"\necho \"SEDS_OTA_TRANSFER_BEGIN\"\n"@;
            let arm = "physicalFlash ArmPowerCut "@ + dec(operation as nat) + "\n"@;
            let rest = delivery_text(layout, layout.ota.transport->0, payload) + (
            "emulation RunFor \""@ + millis(layout.ota.power_cuts.reboot_time_ms as nat)
                + "s\"\n"@);
            let reset = "cpu SetRegister 13 `sysbus ReadDoubleWord 0x"@ + hex8(
                layout.memory.flash_base as nat,
            ) + "`\ncpu PC `sysbus ReadDoubleWord 0x"@ + hex8(
                (layout.memory.flash_base + 4) as nat,
            ) + "`\n"@;
            ota_text(layout, Some(payload), Some(operation)) == start + arm + rest
                + "echo \"SEDS_POWER_CUT_TRIGGERED\"\nphysicalFlash GetPowerCutTriggered\necho \"SEDS_POWER_CUT_REBOOT\"\n"@
                + ("python \"[(e.Peripheral.Reset() if hasattr(e.Peripheral, 'Reset') else None) for e in monitor.Machine.GetRegisteredPeripherals() if e.Name not in ('sysbus', 'flashBacking')]\"\n"@
                + ("physicalFlash DisarmPowerCut\n"@ + reset + "emulation RunFor \""@ + millis(
                layout.ota.power_cuts.reboot_time_ms as nat,
            ) + "s\"\n"@))
        }),
{
    lemma_reboot(layout);
    let start = "emulation RunFor \""@ + millis(layout.ota.start_after_ms as nat)
        + "s\"\necho \"SEDS_OTA_TRANSFER_BEGIN\"\n"@;
    let arm = "physicalFlash ArmPowerCut "@ + dec(operation as nat) + "\n"@;
    let delivery = delivery_text(layout, layout.ota.transport->0, payload);
    let (e, m, s) = (
        "emulation RunFor \""@,
        millis(layout.ota.power_cuts.reboot_time_ms as nat),
        "s\"\n"@,
    );
    let armed = start + arm;
    let triggered =
        "echo \"SEDS_POWER_CUT_TRIGGERED\"\nphysicalFlash GetPowerCutTriggered\necho \"SEDS_POWER_CUT_REBOOT\"\n"@;
    let reset = "cpu SetRegister 13 `sysbus ReadDoubleWord 0x"@ + hex8(
        layout.memory.flash_base as nat,
    ) + "`\ncpu PC `sysbus ReadDoubleWord 0x"@ + hex8((layout.memory.flash_base + 4) as nat)
        + "`\n"@;
    let behind =
        "python \"[(e.Peripheral.Reset() if hasattr(e.Peripheral, 'Reset') else None) for e in monitor.Machine.GetRegisteredPeripherals() if e.Name not in ('sysbus', 'flashBacking')]\"\n"@
        + ("physicalFlash DisarmPowerCut\n"@ + reset + e + m + s);
    lemma_grouped(armed + delivery + e, m, s);
    lemma_grouped(armed + delivery, e, m + s);
    lemma_grouped(e, m, s);
    lemma_grouped(armed, delivery, e + m + s);
    lemma_grouped(armed + (delivery + (e + m + s)), triggered, behind);
}

// ---------------------------------------------------------------------------
// What a script asks for
// ---------------------------------------------------------------------------

/// The command that reads a probe, under the mark by which its samples are
/// found.
pub open spec fn read_command(mark: Seq<char>, sample: nat, symbol: Seq<char>) -> Seq<char> {
    "echo \""@ + (mark + (dec(sample) + ("\"\nsysbus ReadDoubleWord `sysbus GetSymbolAddress \""@
        + (symbol + "\"`\n"@))))
}

/// The command that logs a marker where a symbol is reached.
pub open spec fn hook_command(symbol: Seq<char>, optional: Seq<char>, marker: Seq<char>) -> Seq<
    char,
> {
    "cpu AddHook `sysbus GetSymbolAddress \""@ + (symbol + (optional + ("'self.InfoLog(\""@ + (marker
        + "\")'\n"@))))
}

proof fn lemma_probe_read(execution: ExecutionConfig, sample: int, end: int, p: int)
    requires
        0 <= p < end <= execution.memory_probes@.len(),
    ensures
        ({
            let probe = execution.memory_probes@[p];
            contains(
                probe_reads(execution, sample, end),
                read_command(probe_prefix(probe), sample as nat, probe.symbol@),
            )
        }),
    decreases end,
{
    let probe = execution.memory_probes@[p];
    let piece = read_command(probe_prefix(probe), sample as nat, probe.symbol@);
    lemma_pieces_are_kept(piece);
    if p < end - 1 {
        lemma_probe_read(execution, sample, end - 1, p);
    } else {
        let before = probe_reads(execution, sample, end - 1);
        let name = probe.name@;
        let number = dec(sample as nat);
        let read = "\"\nsysbus ReadDoubleWord `sysbus GetSymbolAddress \""@;
        let symbol = probe.symbol@;
        let close = "\"`\n"@;
        assert("echo \"SEDS_PROBE "@ == "echo \""@ + "SEDS_PROBE "@) by {
            reveal_strlit("echo \"SEDS_PROBE ");
            reveal_strlit("echo \"");
            reveal_strlit("SEDS_PROBE ");
            assert("echo \"SEDS_PROBE "@ =~= "echo \""@ + "SEDS_PROBE "@);
        }
        let mark = probe_prefix(probe);
        let first = "echo \"SEDS_PROBE "@ + (name + " "@);
        assert(first == "echo \""@ + mark) by {
            lemma_grouped("echo \""@, "SEDS_PROBE "@, name + " "@);
            lemma_grouped("SEDS_PROBE "@, name, " "@);
        }
        lemma_grouped(before + "echo \"SEDS_PROBE "@, name, " "@);
        lemma_grouped(before, "echo \"SEDS_PROBE "@, name + " "@);
        let tail = symbol + close;
        lemma_grouped(before + first + number + read, symbol, close);
        lemma_grouped(before + first + number, read, tail);
        lemma_grouped(before + first, number, read + tail);
        lemma_grouped(before, first, number + (read + tail));
        lemma_grouped("echo \""@, mark, number + (read + tail));
        assert(probe_reads(execution, sample, end) == before + piece);
    }
}

proof fn lemma_sampled_read(execution: ExecutionConfig, end: int, sample: int, p: int)
    requires
        0 <= p < execution.memory_probes@.len(),
        0 <= sample < end,
    ensures
        ({
            let probe = execution.memory_probes@[p];
            contains(
                profile_text(execution, end),
                read_command(probe_prefix(probe), sample as nat, probe.symbol@),
            )
        }),
    decreases end,
{
    let probe = execution.memory_probes@[p];
    let piece = read_command(probe_prefix(probe), sample as nat, probe.symbol@);
    lemma_pieces_are_kept(piece);
    if sample < end - 1 {
        lemma_sampled_read(execution, end - 1, sample, p);
    } else {
        lemma_probe_read(execution, sample, execution.memory_probes@.len() as int, p);
    }
}

/// Every sample of every probe is read, under the mark by which it is looked
/// for in the output, from the symbol that the probe names.
pub proof fn law_every_probe_is_read(
    layout: BoardLayout,
    platform: Seq<char>,
    overlay: Seq<char>,
    artifacts: ExecutionArtifacts,
    scenario: ExecutionScenario,
    sample: int,
    p: int,
)
    requires
        0 <= sample < layout.execution.sample_count,
        0 <= p < layout.execution.memory_probes@.len(),
    ensures
        ({
            let probe = layout.execution.memory_probes@[p];
            contains(
                script_text(layout, platform, overlay, artifacts, scenario),
                read_command(probe_prefix(probe), sample as nat, probe.symbol@),
            )
        }),
{
    let probe = layout.execution.memory_probes@[p];
    let piece = read_command(probe_prefix(probe), sample as nat, probe.symbol@);
    lemma_pieces_are_kept(piece);
    lemma_sampled_read(layout.execution, layout.execution.sample_count as int, sample, p);
}

proof fn lemma_hooked(outcomes: Seq<BootOutcome>, end: int, i: int)
    requires
        0 <= i < end <= outcomes.len(),
    ensures
        contains(
            outcome_hooks(outcomes, end),
            hook_command(outcomes[i].symbol@, "\" 0` "@, outcome_marker(outcomes[i])),
        ),
    decreases end,
{
    let marker = outcome_marker(outcomes[i]);
    let piece = hook_command(outcomes[i].symbol@, "\" 0` "@, marker);
    lemma_pieces_are_kept(piece);
    if i < end - 1 {
        lemma_hooked(outcomes, end - 1, i);
    } else {
        let before = outcome_hooks(outcomes, end - 1);
        let open = "cpu AddHook `sysbus GetSymbolAddress \""@;
        let symbol = outcomes[i].symbol@;
        let middle = "\" 0` 'self.InfoLog(\"SEDS_OTA_OUTCOME_"@;
        let name = outcomes[i].name@;
        let close = "\")'\n"@;
        let log = "'self.InfoLog(\""@;
        assert(middle == "\" 0` "@ + (log + "SEDS_OTA_OUTCOME_"@)) by {
            reveal_strlit("\" 0` 'self.InfoLog(\"SEDS_OTA_OUTCOME_");
            reveal_strlit("\" 0` ");
            reveal_strlit("'self.InfoLog(\"");
            reveal_strlit("SEDS_OTA_OUTCOME_");
            assert(middle =~= "\" 0` "@ + (log + "SEDS_OTA_OUTCOME_"@));
        }
        lemma_grouped(before + open + symbol + middle, name, close);
        lemma_grouped(before + open + symbol, middle, name + close);
        lemma_grouped(before + open, symbol, middle + (name + close));
        lemma_grouped(before, open, symbol + (middle + (name + close)));
        assert(middle + (name + close) == "\" 0` "@ + (log + (marker + close))) by {
            lemma_grouped("\" 0` "@, log + "SEDS_OTA_OUTCOME_"@, name + close);
            lemma_grouped(log, "SEDS_OTA_OUTCOME_"@, name + close);
            lemma_grouped("SEDS_OTA_OUTCOME_"@, name, close);
        }
        assert(outcome_hooks(outcomes, end) == before + piece);
    }
}

/// Every outcome that the layout declares is hooked to its symbol, under the
/// marker by which it is looked for in the output.
pub proof fn law_every_outcome_is_hooked(
    layout: BoardLayout,
    platform: Seq<char>,
    overlay: Seq<char>,
    artifacts: ExecutionArtifacts,
    scenario: ExecutionScenario,
    i: int,
)
    requires
        0 <= i < layout.ota.outcomes@.len(),
    ensures
        contains(
            script_text(layout, platform, overlay, artifacts, scenario),
            hook_command(
                layout.ota.outcomes@[i].symbol@,
                "\" 0` "@,
                outcome_marker(layout.ota.outcomes@[i]),
            ),
        ),
{
    let outcome = layout.ota.outcomes@[i];
    lemma_pieces_are_kept(hook_command(outcome.symbol@, "\" 0` "@, outcome_marker(outcome)));
    lemma_hooked(layout.ota.outcomes@, layout.ota.outcomes@.len() as int, i);
}

/// The command that starts a machine with this stack at this entry point.
pub open spec fn start_command(stack: nat, entry: nat) -> Seq<char> {
    "\nphysicalFlash EndHostLoading\ncpu SetRegister 13 0x"@ + (hex8(stack) + ("\ncpu PC 0x"@
        + hex8(entry)))
}

/// The command that maps an image at an address.
pub open spec fn load_command(image: Seq<char>, address: nat) -> Seq<char> {
    "\nsysbus LoadBinary @"@ + (image + (" "@ + dec(address)))
}

/// The firmware is mapped at the start of flash and runs from its own stack
/// pointer and entry point with its own vector table; the factory image is
/// mapped there too, and runs from the vector that it begins with.
pub proof fn law_machines_start_where_their_images_say(
    layout: BoardLayout,
    platform: Seq<char>,
    overlay: Seq<char>,
    artifacts: ExecutionArtifacts,
    scenario: ExecutionScenario,
)
    ensures
        ({
            let script = script_text(layout, platform, overlay, artifacts, scenario);
            let base = layout.memory.flash_base as nat;
            let (stack, entry, table) = scenario.firmware_reset;
            &&& contains(
                script,
                load_command(artifacts.firmware_image@, base) + (start_command(
                    stack as nat,
                    entry as nat,
                ) + ("\ncpu VectorTableOffset 0x"@ + hex8(table as nat))),
            )
            &&& contains(
                script,
                load_command(artifacts.factory@, base) + start_command(
                    scenario.factory_reset.0 as nat,
                    scenario.factory_reset.1 as nat,
                ),
            )
        }),
{
    let base = layout.memory.flash_base as nat;
    let script = script_text(layout, platform, overlay, artifacts, scenario);
    let load = "\nsysbus LoadBinary @"@;
    let end = "\nphysicalFlash EndHostLoading\ncpu SetRegister 13 0x"@;
    let pc = "\ncpu PC 0x"@;
    let offset = "\ncpu VectorTableOffset 0x"@;
    let (stack, entry, table) = scenario.firmware_reset;
    let (s, e, v) = (hex8(stack as nat), hex8(entry as nat), hex8(table as nat));
    let image = artifacts.firmware_image@;
    let before = "sysbus LoadSymbolsFrom @"@ + artifacts.elf@;
    let piece = load_command(image, base) + (start_command(stack as nat, entry as nat) + (offset
        + v));
    lemma_pieces_are_kept(piece);
    assert(before + load + image + " "@ + dec(base) + end + s + pc + e + offset + v == before
        + piece) by {
        lemma_start(before, load, image, dec(base), end, s, pc, e);
        let loaded = load_command(image, base);
        let started = start_command(stack as nat, entry as nat);
        lemma_grouped(before + (loaded + started), offset, v);
        lemma_grouped(before, loaded + started, offset + v);
        lemma_grouped(loaded, started, offset + v);
    }
    assert(contains(firmware_text(layout, artifacts, scenario), piece));
    assert(contains(script, piece));
    let first = "sysbus LoadSymbolsFrom @"@ + artifacts.elf@ + "\nsysbus LoadSymbolsFrom @"@
        + artifacts.bootloader_elf@;
    let (s, e) = (hex8(scenario.factory_reset.0 as nat), hex8(scenario.factory_reset.1 as nat));
    let other = load_command(artifacts.factory@, base) + start_command(
        scenario.factory_reset.0 as nat,
        scenario.factory_reset.1 as nat,
    );
    lemma_pieces_are_kept(other);
    lemma_start(first, load, artifacts.factory@, dec(base), end, s, pc, e);
    assert(contains(factory_text(layout, artifacts, scenario), other));
}

proof fn lemma_start(
    before: Seq<char>,
    load: Seq<char>,
    image: Seq<char>,
    base: Seq<char>,
    end: Seq<char>,
    s: Seq<char>,
    pc: Seq<char>,
    e: Seq<char>,
)
    ensures
        before + load + image + " "@ + base + end + s + pc + e == before + ((load + (image + (" "@
            + base))) + (end + (s + (pc + e)))),
{
    let loaded = load + (image + (" "@ + base));
    lemma_grouped(before + load + image, " "@, base);
    lemma_grouped(before + load, image, " "@ + base);
    lemma_grouped(before, load, image + (" "@ + base));
    lemma_grouped(before + loaded + end + s, pc, e);
    lemma_grouped(before + loaded + end, s, pc + e);
    lemma_grouped(before + loaded, end, s + (pc + e));
    lemma_grouped(before, loaded, end + (s + (pc + e)));
}

/// One sample after the other is taken: the machine runs for the time before
/// it, and then every probe is read. No pause is shorter than a later one.
pub proof fn law_samples_are_taken_in_turn(execution: ExecutionConfig, sample: int, later: int)
    requires
        0 <= sample <= later,
        execution.sample_count > 0,
    ensures
        profile_text(execution, 0).len() == 0,
        ({
            let pause = sample_ms(
                execution.virtual_time_ms as int,
                execution.sample_count as int,
                sample,
            );
            &&& profile_text(execution, sample + 1) == profile_text(execution, sample)
                + "emulation RunFor \""@ + millis(pause as nat) + "s\"\n"@ + probe_reads(
                execution,
                sample,
                execution.memory_probes@.len() as int,
            )
            &&& pause >= sample_ms(
                execution.virtual_time_ms as int,
                execution.sample_count as int,
                later,
            )
            &&& pause <= execution.virtual_time_ms
        }),
{
    reveal_strlit("");
    let total = execution.virtual_time_ms as int;
    let count = execution.sample_count as int;
    vstd::arithmetic::div_mod::lemma_fundamental_div_mod(total, count);
    vstd::arithmetic::div_mod::lemma_mod_bound(total, count);
    let q = total / count;
    vstd::arithmetic::div_mod::lemma_div_pos_is_pos(total, count);
    assert(count * q >= q) by (nonlinear_arith)
        requires
            count >= 1,
            q >= 0,
    ;
}

/// Both machines of a board have its platform and its overlay, and are secured
/// and wired as it asks; a machine throws on unmapped accesses where it is
/// strict.
pub proof fn law_machines_are_the_boards(
    layout: BoardLayout,
    platform: Seq<char>,
    overlay: Seq<char>,
    artifacts: ExecutionArtifacts,
    scenario: ExecutionScenario,
)
    ensures
        ({
            let script = script_text(layout, platform, overlay, artifacts, scenario);
            let description = "\"\nmachine LoadPlatformDescription @"@ + (platform + (
            "\nmachine LoadPlatformDescription @"@ + (overlay + "\n"@)));
            &&& contains(script, description)
            &&& contains(script, security_text(layout))
            &&& contains(
                script,
                pins_text(layout.board.pins@, layout.board.pins@.len() as int),
            )
            &&& layout.board.strict_mmio ==> contains(
                script,
                "sysbus UnhandledAccessBehaviour ThrowException\n"@,
            )
        }),
{
    let script = script_text(layout, platform, overlay, artifacts, scenario);
    let first = machine_text(layout, "_firmware"@, platform, overlay);
    let a = "\"\nmachine LoadPlatformDescription @"@;
    let b = "\nmachine LoadPlatformDescription @"@;
    let before = "mach create \""@ + without_quotes(layout.name@) + "_firmware"@;
    let description = a + (platform + (b + (overlay + "\n"@)));
    lemma_grouped(before + a + platform + b, overlay, "\n"@);
    lemma_grouped(before + a + platform, b, overlay + "\n"@);
    lemma_grouped(before + a, platform, b + (overlay + "\n"@));
    lemma_grouped(before, a, platform + (b + (overlay + "\n"@)));
    lemma_pieces_are_kept(description);
    assert(contains(first, description));
    assert(contains(script, description));
    lemma_pieces_are_kept(security_text(layout));
    assert(contains(first, security_text(layout)));
    assert(contains(script, security_text(layout)));
    let pins = pins_text(layout.board.pins@, layout.board.pins@.len() as int);
    lemma_pieces_are_kept(pins);
    assert(contains(first, pins));
    assert(contains(script, pins));
    if layout.board.strict_mmio {
        let strict = "sysbus UnhandledAccessBehaviour ThrowException\n"@;
        lemma_pieces_are_kept(strict);
        assert(contains(first, strict));
    }
}

/// Where the firmware's tick has an address, each read of it adds the step to
/// the word there.
pub proof fn law_the_tick_advances_its_word(
    layout: BoardLayout,
    platform: Seq<char>,
    overlay: Seq<char>,
    artifacts: ExecutionArtifacts,
    scenario: ExecutionScenario,
)
    requires
        layout.execution.hal_tick_address is Some,
    ensures
        ({
            let at = hex8(layout.execution.hal_tick_address->0 as nat);
            contains(
                script_text(layout, platform, overlay, artifacts, scenario),
                at + (", (bus.ReadDoubleWord(0x"@ + (at + (") + "@ + dec(
                    layout.execution.hal_tick_step as nat,
                )))),
            )
        }),
{
    let at = hex8(layout.execution.hal_tick_address->0 as nat);
    let step = dec(layout.execution.hal_tick_step as nat);
    let open = "set sedsTickHook\n\"\"\"\nbus = machine[\"sysbus\"]\nbus.WriteDoubleWord(0x"@;
    let read = ", (bus.ReadDoubleWord(0x"@;
    let piece = at + (read + (at + (") + "@ + step)));
    lemma_grouped(open + at + read + at, ") + "@, step);
    lemma_grouped(open + at + read, at, ") + "@ + step);
    lemma_grouped(open + at, read, at + (") + "@ + step));
    lemma_grouped(open, at, read + (at + (") + "@ + step)));
    lemma_pieces_are_kept(piece);
    assert(contains(tick_text(layout.execution), piece));
    assert(contains(firmware_text(layout, artifacts, scenario), piece));
}

/// A card is begun before its first sector is written and mounted after the
/// last; no other transport needs that.
pub proof fn law_cards_are_mounted_when_written(
    layout: BoardLayout,
    transport: OtaTransport,
    payload: Seq<u8>,
)
    ensures
        ({
            let units = units_text(
                layout,
                transport,
                payload,
                div_ceil(payload.len() as int, transfer_unit(layout, transport)),
            );
            let call = "python \"monitor.Machine['sysbus."@ + transport.peripheral@ + "']."@;
            &&& transport.kind == OtaTransportKind::Sdmmc ==> delivery_text(
                layout,
                transport,
                payload,
            ) == (call + "BeginCardImage"@ + "()\"\n"@) + units + (call + "MountCardImage"@
                + "()\"\n"@)
            &&& transport.kind != OtaTransportKind::Sdmmc ==> delivery_text(
                layout,
                transport,
                payload,
            ) == units
        }),
{
}

/// A factory image runs for a second on an H5, and for a twentieth of one on any
/// other part; then its update follows, with the payload and the power cut that
/// the scenario asks for.
pub proof fn law_scripts_carry_their_update(
    layout: BoardLayout,
    platform: Seq<char>,
    overlay: Seq<char>,
    artifacts: ExecutionArtifacts,
    scenario: ExecutionScenario,
)
    ensures
        ({
            let payload = match scenario.ota {
                Some(ota) => Some(ota@),
                None => None,
            };
            let booted: nat = if layout.architecture == ArchitectureKind::Stm32h5 {
                1000
            } else {
                50
            };
            contains(
                script_text(layout, platform, overlay, artifacts, scenario),
                "emulation RunFor \""@ + (millis(booted) + ("s\"\n"@ + ota_text(
                    layout,
                    payload,
                    scenario.power_cut_after,
                ))),
            )
        }),
{
    let update = ota_text(layout, payload_of(scenario.ota), scenario.power_cut_after);
    let run = "emulation RunFor \""@;
    let time = millis(factory_ms(layout.architecture));
    let close = "s\"\n"@;
    let piece = run + (time + (close + update));
    let before = "sysbus LoadSymbolsFrom @"@ + artifacts.elf@ + "\nsysbus LoadSymbolsFrom @"@
        + artifacts.bootloader_elf@ + "\nsysbus LoadBinary @"@ + artifacts.factory@ + " "@ + dec(
        layout.memory.flash_base as nat,
    ) + "\nphysicalFlash EndHostLoading\ncpu SetRegister 13 0x"@ + hex8(
        scenario.factory_reset.0 as nat,
    ) + "\ncpu PC 0x"@ + hex8(scenario.factory_reset.1 as nat)
        + "\ncpu AddHook `sysbus GetSymbolAddress \""@
        + layout.execution.factory_boot_success_symbol@
        + "\" 0` 'self.InfoLog(\"SEDS_FACTORY_BOOT_REACHED\")'\n"@ + tick_text(layout.execution)
        + outcome_hooks(layout.ota.outcomes@, layout.ota.outcomes@.len() as int);
    lemma_grouped(before + run + time, close, update);
    lemma_grouped(before + run, time, close + update);
    lemma_grouped(before, run, time + (close + update));
    lemma_pieces_are_kept(piece);
    assert(contains(factory_text(layout, artifacts, scenario), piece));
}

/// Each machine logs its own marker where it reaches its own boot symbol.
pub proof fn law_every_boot_is_hooked(
    layout: BoardLayout,
    platform: Seq<char>,
    overlay: Seq<char>,
    artifacts: ExecutionArtifacts,
    scenario: ExecutionScenario,
)
    ensures
        ({
            let script = script_text(layout, platform, overlay, artifacts, scenario);
            let hook = "\ncpu AddHook `sysbus GetSymbolAddress \""@;
            &&& contains(
                script,
                hook + (layout.execution.boot_success_symbol@
                    + "\"` 'self.InfoLog(\"SEDS_FIRMWARE_BOOT_REACHED\")'\n"@),
            )
            &&& contains(
                script,
                hook + (layout.execution.factory_boot_success_symbol@
                    + "\" 0` 'self.InfoLog(\"SEDS_FACTORY_BOOT_REACHED\")'\n"@),
            )
        }),
{
    let script = script_text(layout, platform, overlay, artifacts, scenario);
    let hook = "\ncpu AddHook `sysbus GetSymbolAddress \""@;
    let symbol = layout.execution.boot_success_symbol@;
    let log = "\"` 'self.InfoLog(\"SEDS_FIRMWARE_BOOT_REACHED\")'\n"@;
    let before = "sysbus LoadSymbolsFrom @"@ + artifacts.elf@ + "\nsysbus LoadBinary @"@
        + artifacts.firmware_image@ + " "@ + dec(layout.memory.flash_base as nat)
        + "\nphysicalFlash EndHostLoading\ncpu SetRegister 13 0x"@ + hex8(
        scenario.firmware_reset.0 as nat,
    ) + "\ncpu PC 0x"@ + hex8(scenario.firmware_reset.1 as nat) + "\ncpu VectorTableOffset 0x"@
        + hex8(scenario.firmware_reset.2 as nat);
    lemma_grouped(before + hook, symbol, log);
    lemma_grouped(before, hook, symbol + log);
    lemma_pieces_are_kept(hook + (symbol + log));
    assert(contains(firmware_text(layout, artifacts, scenario), hook + (symbol + log)));
    assert(contains(script, hook + (symbol + log)));
    let other = layout.execution.factory_boot_success_symbol@;
    let told = "\" 0` 'self.InfoLog(\"SEDS_FACTORY_BOOT_REACHED\")'\n"@;
    let first = "sysbus LoadSymbolsFrom @"@ + artifacts.elf@ + "\nsysbus LoadSymbolsFrom @"@
        + artifacts.bootloader_elf@ + "\nsysbus LoadBinary @"@ + artifacts.factory@ + " "@ + dec(
        layout.memory.flash_base as nat,
    ) + "\nphysicalFlash EndHostLoading\ncpu SetRegister 13 0x"@ + hex8(
        scenario.factory_reset.0 as nat,
    ) + "\ncpu PC 0x"@ + hex8(scenario.factory_reset.1 as nat);
    lemma_grouped(first + hook, other, told);
    lemma_grouped(first, hook, other + told);
    lemma_pieces_are_kept(hook + (other + told));
    assert(contains(factory_text(layout, artifacts, scenario), hook + (other + told)));
}

} // verus!
