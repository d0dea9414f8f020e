//! Per-board copies of an MCU platform: clock overrides and TrustZone, which
//! the emulator takes as constructor parameters only.

use vstd::prelude::*;

use crate::architecture::McuDescriptor;
use crate::layout::{BoardLayout, ClockConfig};
use crate::output::lines_of;
use crate::text::{
    begins_with, char_is_space, chars_of, contains, dec, has_text, is_digit, is_space, join,
    join_rows, law_written_lines_are_read_back, lemma_decimal_digits, lemma_lines_hold_no_feed,
    lines, plain_line, rows, starts_with, trim_start, trim_start_chars, Text,
};

verus! {

#[derive(Clone, Copy, Debug, PartialEq, Eq, Structural)]
pub enum PlatformError {
    CoreModel,
    /// Each of these two names a clock of the board.
    ClockTarget(usize),
    ClockFrequency(usize),
    NoCpu,
    NotCortexM33,
}

impl PlatformError {
    /// `source` is where the platform was read from.
    pub open spec fn text(self, layout: BoardLayout, core_model: Seq<char>, source: Seq<char>) -> Seq<
        char,
    > {
        match self {
            PlatformError::CoreModel => "MCU catalog core "@ + core_model
                + " does not match platform "@ + source,
            PlatformError::ClockTarget(i) => "clock target "@
                + layout.board.clocks@[i as int].peripheral@ + " is not in the MCU platform"@,
            PlatformError::ClockFrequency(i) => "clock target "@
                + layout.board.clocks@[i as int].peripheral@ + " has no configurable frequency"@,
            PlatformError::NoCpu => "MCU platform has no Cortex-M CPU declaration"@,
            PlatformError::NotCortexM33 => "TrustZone requires a Cortex-M33 platform"@,
        }
    }

    pub open spec fn of(self, layout: BoardLayout) -> bool {
        match self {
            PlatformError::ClockTarget(i) => i < layout.board.clocks@.len(),
            PlatformError::ClockFrequency(i) => i < layout.board.clocks@.len(),
            _ => true,
        }
    }

    pub fn message(self, layout: &BoardLayout, core_model: &str, source: &str) -> (res: String)
        requires
            self.of(*layout),
        ensures
            res@ == self.text(*layout, core_model@, source@),
    {
        match self {
            PlatformError::CoreModel => Text::new("MCU catalog core ").str(core_model).str(
                " does not match platform ",
            ).str(source).done(),
            PlatformError::ClockTarget(i) => Text::new("clock target ").str(
                layout.board.clocks[i].peripheral.as_str(),
            ).str(" is not in the MCU platform").done(),
            PlatformError::ClockFrequency(i) => Text::new("clock target ").str(
                layout.board.clocks[i].peripheral.as_str(),
            ).str(" has no configurable frequency").done(),
            PlatformError::NoCpu => Text::new(
                "MCU platform has no Cortex-M CPU declaration",
            ).done(),
            PlatformError::NotCortexM33 => Text::new(
                "TrustZone requires a Cortex-M33 platform",
            ).done(),
        }
    }
}

// ---------------------------------------------------------------------------
// Where a platform lies
// ---------------------------------------------------------------------------

pub open spec fn platform_location(
    descriptor: McuDescriptor,
    simulator_root: Seq<char>,
    firmware_root: Seq<char>,
) -> Seq<char> {
    if descriptor.platform_from_firmware {
        ""@ + firmware_root + "/"@ + descriptor.platform_file@
    } else {
        ""@ + simulator_root + "/renode/platforms/"@ + descriptor.platform_file@
    }
}

/// A bundled platform lies with the simulator, another in the firmware
/// repository.
pub fn platform_path(descriptor: &McuDescriptor, simulator_root: &str, firmware_root: &str) -> (res:
    String)
    ensures
        res@ == platform_location(*descriptor, simulator_root@, firmware_root@),
{
    if descriptor.platform_from_firmware {
        Text::new("").str(firmware_root).str("/").str(descriptor.platform_file.as_str()).done()
    } else {
        Text::new("").str(simulator_root).str("/renode/platforms/").str(
            descriptor.platform_file.as_str(),
        ).done()
    }
}

// ---------------------------------------------------------------------------
// Blocks
// ---------------------------------------------------------------------------

pub open spec fn indented(line: Seq<char>) -> bool {
    line.len() > 0 && is_space(line[0])
}

/// The first line from `from` on that opens the block with this header.
pub open spec fn block_start(all: Seq<Seq<char>>, header: Seq<char>, from: int) -> Option<int>
    decreases all.len() - from,
{
    if from < 0 || from >= all.len() {
        None
    } else if !indented(all[from]) && starts_with(all[from], header) {
        Some(from)
    } else {
        block_start(all, header, from + 1)
    }
}

/// Where the block whose inside starts at `from` ends.
pub open spec fn block_end(all: Seq<Seq<char>>, from: int) -> int
    decreases all.len() - from,
{
    if from < 0 || from >= all.len() {
        all.len() as int
    } else if all[from].len() > 0 && !indented(all[from]) {
        from
    } else {
        block_end(all, from + 1)
    }
}

/// The first line in `[from, end)` whose text, indented or not, begins with
/// `key`.
pub open spec fn keyed_line(all: Seq<Seq<char>>, key: Seq<char>, from: int, end: int) -> Option<int>
    decreases end - from,
{
    if from >= end {
        None
    } else if starts_with(trim_start(all[from]), key) {
        Some(from)
    } else {
        keyed_line(all, key, from + 1, end)
    }
}

pub open spec fn line_containing(
    all: Seq<Seq<char>>,
    text: Seq<char>,
    from: int,
    end: int,
) -> Option<int>
    decreases end - from,
{
    if from >= end {
        None
    } else if contains(all[from], text) {
        Some(from)
    } else {
        line_containing(all, text, from + 1, end)
    }
}

pub open spec fn indentation(line: Seq<char>) -> Seq<char> {
    line.take(line.len() - trim_start(line).len())
}

pub open spec fn text_from(all: Seq<Seq<char>>) -> Seq<char> {
    join(all, "\n"@) + "\n"@
}

fn is_indented(line: &[char]) -> (res: bool)
    ensures
        res == indented(line@),
{
    line.len() > 0 && char_is_space(line[0])
}

fn find_block(all: &[Vec<char>], header: &str) -> (res: Option<usize>)
    ensures
        match block_start(rows(all@), header@, 0) {
            Some(at) => res matches Some(found) && found == at && found < all@.len(),
            None => res is None,
        },
{
    let mut i: usize = 0;
    while i < all.len()
        invariant
            i <= all@.len(),
            block_start(rows(all@), header@, 0) == block_start(rows(all@), header@, i as int),
        decreases all@.len() - i,
    {
        if !is_indented(all[i].as_slice()) && begins_with(all[i].as_slice(), header) {
            return Some(i);
        }
        i = i + 1;
    }
    None
}

fn find_block_end(all: &[Vec<char>], from: usize) -> (res: usize)
    requires
        from <= all@.len(),
    ensures
        res == block_end(rows(all@), from as int),
        from <= res <= all@.len(),
{
    let mut i: usize = from;
    while i < all.len()
        invariant
            from <= i <= all@.len(),
            block_end(rows(all@), from as int) == block_end(rows(all@), i as int),
        decreases all@.len() - i,
    {
        if all[i].len() > 0 && !is_indented(all[i].as_slice()) {
            return i;
        }
        i = i + 1;
    }
    i
}

fn find_keyed_line(all: &[Vec<char>], key: &str, from: usize, end: usize) -> (res: Option<usize>)
    requires
        from <= end <= all@.len(),
    ensures
        match keyed_line(rows(all@), key@, from as int, end as int) {
            Some(at) => res matches Some(found) && found == at && from <= found < end,
            None => res is None,
        },
{
    let mut i: usize = from;
    while i < end
        invariant
            from <= i <= end <= all@.len(),
            keyed_line(rows(all@), key@, from as int, end as int) == keyed_line(
                rows(all@),
                key@,
                i as int,
                end as int,
            ),
        decreases end - i,
    {
        if begins_with(trim_start_chars(all[i].as_slice()), key) {
            return Some(i);
        }
        i = i + 1;
    }
    None
}

fn find_line_containing(all: &[Vec<char>], text: &str, from: usize, end: usize) -> (res: Option<
    usize,
>)
    requires
        from <= end <= all@.len(),
    ensures
        match line_containing(rows(all@), text@, from as int, end as int) {
            Some(at) => res matches Some(found) && found == at && from <= found < end,
            None => res is None,
        },
{
    let mut i: usize = from;
    while i < end
        invariant
            from <= i <= end <= all@.len(),
            line_containing(rows(all@), text@, from as int, end as int) == line_containing(
                rows(all@),
                text@,
                i as int,
                end as int,
            ),
        decreases end - i,
    {
        if has_text(all[i].as_slice(), text) {
            return Some(i);
        }
        i = i + 1;
    }
    None
}

fn render_text(all: &[Vec<char>]) -> (res: String)
    ensures
        res@ == text_from(rows(all@)),
{
    let joined = join_rows(all, "\n");
    Text { inner: joined }.str("\n").done()
}

// ---------------------------------------------------------------------------
// Clocks
// ---------------------------------------------------------------------------

/// The platform with the frequency of one peripheral replaced. `index` is the
/// clock's position in the board.
pub open spec fn with_clock(text: Seq<char>, clock: ClockConfig, index: int) -> Result<
    Seq<char>,
    PlatformError,
> {
    let all = lines(text);
    match block_start(all, clock.peripheral@ + ":"@, 0) {
        None => Err(PlatformError::ClockTarget(index as usize)),
        Some(start) => match keyed_line(
            all,
            "frequency:"@,
            start + 1,
            block_end(all, start + 1),
        ) {
            None => Err(PlatformError::ClockFrequency(index as usize)),
            Some(at) => Ok(
                text_from(
                    all.update(
                        at,
                        indentation(all[at]) + "frequency: "@ + dec(clock.frequency_hz as nat),
                    ),
                ),
            ),
        },
    }
}

/// The platform with the first `end` clocks of the board, or the first error.
pub open spec fn with_clocks(text: Seq<char>, clocks: Seq<ClockConfig>, end: int) -> Result<
    Seq<char>,
    PlatformError,
>
    decreases end,
{
    if end <= 0 {
        Ok(text)
    } else {
        match with_clocks(text, clocks, end - 1) {
            Err(error) => Err(error),
            Ok(earlier) => with_clock(earlier, clocks[end - 1], end - 1),
        }
    }
}

proof fn lemma_trim_start_shorter(line: Seq<char>)
    ensures
        trim_start(line).len() <= line.len(),
    decreases line.len(),
{
    if line.len() > 0 && is_space(line[0]) {
        lemma_trim_start_shorter(line.skip(1));
    }
}

fn frequency_line(line: &[char], frequency: u64) -> (res: Vec<char>)
    ensures
        res@ == indentation(line@) + "frequency: "@ + dec(frequency as nat),
{
    let rest = trim_start_chars(line);
    proof {
        lemma_trim_start_shorter(line@);
        reveal_strlit("");
    }
    let indent = vstd::slice::slice_subrange(line, 0, line.len() - rest.len());
    assert(indent@ =~= indentation(line@));
    let started = Text::new("").chars(indent);
    assert(started@ =~= indentation(line@));
    let text = started.str("frequency: ").dec(frequency).done();
    chars_of(text.as_str())
}

fn set_clock(text: &str, clock: &ClockConfig, index: usize) -> (res: Result<String, PlatformError>)
    ensures
        match with_clock(text@, *clock, index as int) {
            Ok(changed) => res matches Ok(found) && found@ == changed,
            Err(error) => res == Err::<String, PlatformError>(error),
        },
{
    let mut all = lines_of(text);
    let count: usize = all.len();
    let ghost before = lines(text@);
    assert(rows(all@) == before);
    let joined = Text { inner: clock.peripheral.clone() }.str(":").done();
    let start: usize = match find_block(all.as_slice(), joined.as_str()) {
        Some(start) => start,
        None => {
            return Err(PlatformError::ClockTarget(index));
        },
    };
    let end: usize = find_block_end(all.as_slice(), start + 1);
    let at: usize = match find_keyed_line(all.as_slice(), "frequency:", start + 1, end) {
        Some(at) => at,
        None => {
            return Err(PlatformError::ClockFrequency(index));
        },
    };
    let changed = frequency_line(all[at].as_slice(), clock.frequency_hz);
    let ghost kept = all@;
    all.set(at, changed);
    assert(rows(all@) =~= before.update(at as int, changed@));
    Ok(render_text(all.as_slice()))
}

proof fn lemma_clock_error_stays(text: Seq<char>, clocks: Seq<ClockConfig>, i: int, end: int)
    requires
        0 <= i <= end,
        with_clocks(text, clocks, i) is Err,
    ensures
        with_clocks(text, clocks, end) == with_clocks(text, clocks, i),
    decreases end - i,
{
    if i < end {
        lemma_clock_error_stays(text, clocks, i, end - 1);
    }
}

fn set_clocks(text: &str, clocks: &[ClockConfig]) -> (res: Result<String, PlatformError>)
    ensures
        match with_clocks(text@, clocks@, clocks@.len() as int) {
            Ok(changed) => res matches Ok(found) && found@ == changed,
            Err(error) => res == Err::<String, PlatformError>(error) && (match error {
                PlatformError::ClockTarget(i) => i < clocks@.len(),
                PlatformError::ClockFrequency(i) => i < clocks@.len(),
                _ => true,
            }),
        },
{
    let mut current = text.to_owned();
    let mut i: usize = 0;
    while i < clocks.len()
        invariant
            i <= clocks@.len(),
            with_clocks(text@, clocks@, i as int) == Ok::<Seq<char>, PlatformError>(current@),
        decreases clocks@.len() - i,
    {
        proof {
            if with_clocks(text@, clocks@, i + 1) is Err {
                lemma_clock_error_stays(text@, clocks@, i + 1, clocks@.len() as int);
            }
        }
        current =
        match set_clock(current.as_str(), &clocks[i], i) {
            Ok(changed) => changed,
            Err(error) => {
                return Err(error);
            },
        };
        i = i + 1;
    }
    Ok(current)
}

// ---------------------------------------------------------------------------
// TrustZone
// ---------------------------------------------------------------------------

/// The position of the processor's declaration, from `from` on.
pub open spec fn cpu_line(all: Seq<Seq<char>>, from: int) -> Option<int>
    decreases all.len() - from,
{
    if from < 0 || from >= all.len() {
        None
    } else if starts_with(all[from], "cpu:"@) {
        Some(from)
    } else {
        cpu_line(all, from + 1)
    }
}

/// The platform with TrustZone enabled in its processor.
pub open spec fn with_trustzone(text: Seq<char>) -> Result<Seq<char>, PlatformError> {
    let all = lines(text);
    match cpu_line(all, 0) {
        None => Err(PlatformError::NoCpu),
        Some(cpu) => {
            let end = block_end(all, cpu + 1);
            if line_containing(all, "cortex-m33"@, cpu + 1, end) is None {
                Err(PlatformError::NotCortexM33)
            } else if keyed_line(all, "enableTrustZone:"@, cpu + 1, end) is Some {
                Ok(text_from(all))
            } else {
                Ok(text_from(all.insert(cpu + 2, "    enableTrustZone: true"@)))
            }
        },
    }
}

fn enable_trustzone(text: &str) -> (res: Result<String, PlatformError>)
    ensures
        match with_trustzone(text@) {
            Ok(changed) => res matches Ok(found) && found@ == changed,
            Err(error) => res == Err::<String, PlatformError>(error),
        },
{
    let mut all = lines_of(text);
    let ghost before = lines(text@);
    assert(rows(all@) == before);
    let mut cpu: usize = 0;
    while cpu < all.len() && !begins_with(all[cpu].as_slice(), "cpu:")
        invariant
            cpu <= all@.len(),
            rows(all@) == before,
            cpu_line(before, 0) == cpu_line(before, cpu as int),
        decreases all@.len() - cpu,
    {
        assert(before[cpu as int] == rows(all@)[cpu as int]);
        cpu = cpu + 1;
    }
    assert(before.len() == rows(all@).len());
    if cpu == all.len() {
        return Err(PlatformError::NoCpu);
    }
    assert(before[cpu as int] == rows(all@)[cpu as int]);
    let end: usize = find_block_end(all.as_slice(), cpu + 1);
    if find_line_containing(all.as_slice(), "cortex-m33", cpu + 1, end).is_none() {
        return Err(PlatformError::NotCortexM33);
    }
    if find_keyed_line(all.as_slice(), "enableTrustZone:", cpu + 1, end).is_none() {
        let enabled = chars_of("    enableTrustZone: true");
        all.insert(cpu + 2, enabled);
        assert(rows(all@) =~= before.insert(cpu + 2, "    enableTrustZone: true"@));
    }
    Ok(render_text(all.as_slice()))
}

// ---------------------------------------------------------------------------
// The configured platform
// ---------------------------------------------------------------------------

pub open spec fn core_declaration(core_model: Seq<char>) -> Seq<char> {
    "cpuType: \""@ + core_model + "\""@
}

/// The platform as the board configures it; `None` where it is taken as it is.
pub open spec fn configured(text: Seq<char>, layout: BoardLayout, core_model: Seq<char>) -> Result<
    Option<Seq<char>>,
    PlatformError,
> {
    let clocks = layout.board.clocks@;
    if !contains(text, core_declaration(core_model)) {
        Err(PlatformError::CoreModel)
    } else if clocks.len() == 0 && !layout.board.security.trustzone {
        Ok(None)
    } else {
        match with_clocks(text, clocks, clocks.len() as int) {
            Err(error) => Err(error),
            Ok(clocked) => if !layout.board.security.trustzone {
                Ok(Some(clocked))
            } else {
                match with_trustzone(clocked) {
                    Err(error) => Err(error),
                    Ok(secured) => Ok(Some(secured)),
                }
            },
        }
    }
}

/// Configures the platform `text` of a part with this core for the board.
pub fn materialize_platform(text: &str, layout: &BoardLayout, core_model: &str) -> (res: Result<
    Option<String>,
    PlatformError,
>)
    ensures
        match configured(text@, *layout, core_model@) {
            Ok(changed) => res matches Ok(found) && crate::text::opt_text(found) == changed,
            Err(error) => res == Err::<Option<String>, PlatformError>(error) && error.of(*layout),
        },
{
    let declared = Text::new("cpuType: \"").str(core_model).str("\"").done();
    let chars = chars_of(text);
    if !has_text(chars.as_slice(), declared.as_str()) {
        return Err(PlatformError::CoreModel);
    }
    if layout.board.clocks.len() == 0 && !layout.board.security.trustzone {
        return Ok(None);
    }
    let clocked = match set_clocks(text, layout.board.clocks.as_slice()) {
        Ok(clocked) => clocked,
        Err(error) => {
            return Err(error);
        },
    };
    if !layout.board.security.trustzone {
        return Ok(Some(clocked));
    }
    match enable_trustzone(clocked.as_str()) {
        Ok(secured) => Ok(Some(secured)),
        Err(error) => Err(error),
    }
}

/// A board that overrides no clock and asks for no TrustZone runs on the
/// platform as it is.
pub proof fn law_plain_boards_keep_the_platform(
    text: Seq<char>,
    layout: BoardLayout,
    core_model: Seq<char>,
)
    requires
        layout.board.clocks@.len() == 0,
        !layout.board.security.trustzone,
        contains(text, core_declaration(core_model)),
    ensures
        configured(text, layout, core_model) == Ok::<Option<Seq<char>>, PlatformError>(None),
{
}

proof fn lemma_block_start(all: Seq<Seq<char>>, header: Seq<char>, from: int)
    requires
        0 <= from,
    ensures
        block_start(all, header, from) matches Some(at) ==> from <= at < all.len(),
    decreases all.len() - from,
{
    if from < all.len() {
        lemma_block_start(all, header, from + 1);
    }
}

proof fn lemma_block_end(all: Seq<Seq<char>>, from: int)
    requires
        0 <= from <= all.len(),
    ensures
        from <= block_end(all, from) <= all.len(),
    decreases all.len() - from,
{
    if from < all.len() {
        lemma_block_end(all, from + 1);
    }
}

proof fn lemma_keyed_line(all: Seq<Seq<char>>, key: Seq<char>, from: int, end: int)
    ensures
        keyed_line(all, key, from, end) matches Some(at) ==> from <= at < end && starts_with(
            trim_start(all[at]),
            key,
        ),
    decreases end - from,
{
    if from < end {
        lemma_keyed_line(all, key, from + 1, end);
    }
}

/// No line still ends in a carriage return.
pub open spec fn no_stray_return(all: Seq<Seq<char>>) -> bool {
    forall|i: int| 0 <= i < all.len() && (#[trigger] all[i]).len() > 0 ==> all[i].last() != '\r'
}

proof fn lemma_plain_lines(text: Seq<char>)
    requires
        no_stray_return(lines(text)),
    ensures
        forall|i: int| 0 <= i < lines(text).len() ==> plain_line(#[trigger] lines(text)[i]),
{
    assert forall|i: int| 0 <= i < lines(text).len() implies plain_line(
        #[trigger] lines(text)[i],
    ) by {
        lemma_lines_hold_no_feed(text, i);
    }
}

/// Overriding a clock sets the frequency inside the block of its target, keeps
/// that line's indentation and leaves every other line as it was.
pub proof fn law_a_clock_changes_one_line(text: Seq<char>, clock: ClockConfig, index: int)
    requires
        with_clock(text, clock, index) is Ok,
        no_stray_return(lines(text)),
    ensures
        ({
            let all = lines(text);
            let start = block_start(all, clock.peripheral@ + ":"@, 0)->0;
            let end = block_end(all, start + 1);
            let at = keyed_line(all, "frequency:"@, start + 1, end)->0;
            &&& 0 <= start < at < end <= all.len()
            &&& starts_with(trim_start(all[at]), "frequency:"@)
            &&& lines(with_clock(text, clock, index)->Ok_0) == all.update(
                at,
                indentation(all[at]) + "frequency: "@ + dec(clock.frequency_hz as nat),
            )
        }),
{
    let all = lines(text);
    lemma_plain_lines(text);
    let start = block_start(all, clock.peripheral@ + ":"@, 0)->0;
    lemma_block_start(all, clock.peripheral@ + ":"@, 0);
    lemma_block_end(all, start + 1);
    let end = block_end(all, start + 1);
    lemma_keyed_line(all, "frequency:"@, start + 1, end);
    let at = keyed_line(all, "frequency:"@, start + 1, end)->0;
    let number = dec(clock.frequency_hz as nat);
    let line = indentation(all[at]) + "frequency: "@ + number;
    lemma_decimal_digits(clock.frequency_hz as nat);
    lemma_trim_start_shorter(all[at]);
    assert(plain_line(all[at]));
    assert(plain_line(line)) by {
        reveal_strlit("frequency: ");
        assert(line.last() == number.last());
        assert(is_digit(number[number.len() - 1]));
        assert forall|k: int| 0 <= k < line.len() implies line[k] != '\n' by {
            let indent = indentation(all[at]);
            if k < indent.len() {
                assert(line[k] == all[at][k]);
                assert(all[at].contains(all[at][k]));
            } else if k >= indent.len() + 11 {
                assert(line[k] == number[k - indent.len() - 11]);
                assert(is_digit(number[k - indent.len() - 11]));
            }
        }
    }
    law_written_lines_are_read_back(all.update(at, line));
}

proof fn lemma_cpu_line(all: Seq<Seq<char>>, from: int)
    requires
        0 <= from,
    ensures
        cpu_line(all, from) matches Some(at) ==> from <= at < all.len(),
    decreases all.len() - from,
{
    if from < all.len() {
        lemma_cpu_line(all, from + 1);
    }
}

/// Enabling TrustZone adds one line to the processor's block, or none where it
/// is enabled already.
pub proof fn law_trustzone_adds_at_most_one_line(text: Seq<char>)
    requires
        with_trustzone(text) is Ok,
        no_stray_return(lines(text)),
    ensures
        ({
            let all = lines(text);
            let cpu = cpu_line(all, 0)->0;
            let end = block_end(all, cpu + 1);
            &&& 0 <= cpu && cpu + 2 <= end <= all.len()
            &&& lines(with_trustzone(text)->Ok_0) == if keyed_line(
                all,
                "enableTrustZone:"@,
                cpu + 1,
                end,
            ) is Some {
                all
            } else {
                all.insert(cpu + 2, "    enableTrustZone: true"@)
            }
        }),
{
    let all = lines(text);
    lemma_plain_lines(text);
    lemma_cpu_line(all, 0);
    let cpu = cpu_line(all, 0)->0;
    lemma_block_end(all, cpu + 1);
    let end = block_end(all, cpu + 1);
    let added = "    enableTrustZone: true"@;
    if keyed_line(all, "enableTrustZone:"@, cpu + 1, end) is Some {
        law_written_lines_are_read_back(all);
    } else {
        assert(plain_line(added)) by {
            reveal_strlit("    enableTrustZone: true");
        }
        law_written_lines_are_read_back(all.insert(cpu + 2, added));
    }
}

// ---------------------------------------------------------------------------
// Where blocks lie
// ---------------------------------------------------------------------------

/// The line stands at the margin and begins with the header.
pub open spec fn opens(line: Seq<char>, header: Seq<char>) -> bool {
    &&& line.len() == 0 || !is_space(line[0])
    &&& line.len() >= header.len()
    &&& line.take(header.len() as int) == header
}

proof fn lemma_opens(line: Seq<char>, header: Seq<char>)
    ensures
        opens(line, header) <==> !indented(line) && starts_with(line, header),
{
    if line.len() >= header.len() {
        assert(line.subrange(0, header.len() as int) =~= line.take(header.len() as int));
    }
}

proof fn lemma_first_block(all: Seq<Seq<char>>, header: Seq<char>, from: int)
    requires
        0 <= from,
    ensures
        match block_start(all, header, from) {
            Some(at) => from <= at < all.len() && opens(all[at], header) && forall|k: int|
                from <= k < at ==> !opens(#[trigger] all[k], header),
            None => forall|k: int| from <= k < all.len() ==> !opens(#[trigger] all[k], header),
        },
    decreases all.len() - from,
{
    if from < all.len() {
        lemma_opens(all[from], header);
        lemma_first_block(all, header, from + 1);
    }
}

proof fn lemma_whole_block(all: Seq<Seq<char>>, from: int)
    requires
        0 <= from <= all.len(),
    ensures
        ({
            let end = block_end(all, from);
            &&& from <= end <= all.len()
            &&& forall|k: int|
                from <= k < end ==> (#[trigger] all[k]).len() == 0 || is_space(all[k][0])
            &&& end < all.len() ==> all[end].len() > 0 && !is_space(all[end][0])
        }),
    decreases all.len() - from,
{
    if from < all.len() && !(all[from].len() > 0 && !indented(all[from])) {
        lemma_whole_block(all, from + 1);
    }
}

/// The line begins with the key, behind white space or not.
pub open spec fn keyed(line: Seq<char>, key: Seq<char>) -> bool {
    trim_start(line).len() >= key.len() && trim_start(line).take(key.len() as int) == key
}

proof fn lemma_first_keyed(all: Seq<Seq<char>>, key: Seq<char>, from: int, end: int)
    ensures
        match keyed_line(all, key, from, end) {
            Some(at) => from <= at < end && keyed(all[at], key) && forall|k: int|
                from <= k < at ==> !keyed(#[trigger] all[k], key),
            None => forall|k: int| from <= k < end ==> !keyed(#[trigger] all[k], key),
        },
    decreases end - from,
{
    if from < end {
        let line = trim_start(all[from]);
        if line.len() >= key.len() {
            assert(line.subrange(0, key.len() as int) =~= line.take(key.len() as int));
        }
        lemma_first_keyed(all, key, from + 1, end);
    }
}

/// A block is found by the first line at the margin that begins with its
/// header, and reaches to the next line at the margin that is not empty; a key
/// is found by the first line in it that begins with the key.
pub proof fn law_where_a_block_lies(
    all: Seq<Seq<char>>,
    header: Seq<char>,
    key: Seq<char>,
    from: int,
)
    requires
        0 <= from <= all.len(),
    ensures
        match block_start(all, header, 0) {
            Some(at) => 0 <= at < all.len() && opens(all[at], header) && forall|k: int|
                0 <= k < at ==> !opens(#[trigger] all[k], header),
            None => forall|k: int| 0 <= k < all.len() ==> !opens(#[trigger] all[k], header),
        },
        ({
            let end = block_end(all, from);
            &&& from <= end <= all.len()
            &&& forall|k: int|
                from <= k < end ==> (#[trigger] all[k]).len() == 0 || is_space(all[k][0])
            &&& end < all.len() ==> all[end].len() > 0 && !is_space(all[end][0])
        }),
        match keyed_line(all, key, from, block_end(all, from)) {
            Some(at) => from <= at < block_end(all, from) && keyed(all[at], key) && forall|k: int|
                from <= k < at ==> !keyed(#[trigger] all[k], key),
            None => forall|k: int|
                from <= k < block_end(all, from) ==> !keyed(#[trigger] all[k], key),
        },
{
    lemma_first_block(all, header, 0);
    lemma_whole_block(all, from);
    lemma_first_keyed(all, key, from, block_end(all, from));
}

proof fn lemma_first_cpu(all: Seq<Seq<char>>, from: int)
    requires
        0 <= from,
    ensures
        match cpu_line(all, from) {
            Some(at) => from <= at < all.len() && starts_with(all[at], "cpu:"@) && forall|k: int|
                from <= k < at ==> !starts_with(#[trigger] all[k], "cpu:"@),
            None => forall|k: int|
                from <= k < all.len() ==> !starts_with(#[trigger] all[k], "cpu:"@),
        },
    decreases all.len() - from,
{
    if from < all.len() {
        lemma_first_cpu(all, from + 1);
    }
}

proof fn lemma_line_containing(all: Seq<Seq<char>>, text: Seq<char>, from: int, end: int)
    ensures
        line_containing(all, text, from, end) is Some <==> exists|k: int|
            from <= k < end && contains(#[trigger] all[k], text),
    decreases end - from,
{
    if from < end {
        lemma_line_containing(all, text, from + 1, end);
        if line_containing(all, text, from + 1, end) is Some {
            let k = choose|k: int| from + 1 <= k < end && contains(#[trigger] all[k], text);
            assert(from <= k);
        }
    }
}

/// A clock can be set exactly where its peripheral has a block with a frequency
/// in it.
pub proof fn law_which_clocks_can_be_set(text: Seq<char>, clock: ClockConfig, index: usize)
    ensures
        ({
            let all = lines(text);
            let header = clock.peripheral@ + ":"@;
            let start = block_start(all, header, 0);
            &&& with_clock(text, clock, index as int) == Err::<Seq<char>, PlatformError>(
                PlatformError::ClockTarget(index),
            ) <==> forall|k: int| 0 <= k < all.len() ==> !opens(#[trigger] all[k], header)
            &&& with_clock(text, clock, index as int) is Ok <==> start is Some && exists|k: int|
                start->0 < k < block_end(all, start->0 + 1) && keyed(
                    #[trigger] all[k],
                    "frequency:"@,
                )
        }),
{
    let all = lines(text);
    let header = clock.peripheral@ + ":"@;
    lemma_first_block(all, header, 0);
    match block_start(all, header, 0) {
        Some(start) => {
            lemma_first_keyed(all, "frequency:"@, start + 1, block_end(all, start + 1));
        },
        None => {},
    }
}

/// TrustZone can be enabled exactly where the platform declares a processor and
/// says of it that it is a Cortex-M33.
pub proof fn law_which_platforms_have_trustzone(text: Seq<char>)
    ensures
        ({
            let all = lines(text);
            with_trustzone(text) is Ok <==> exists|cpu: int|
                0 <= cpu < all.len() && starts_with(#[trigger] all[cpu], "cpu:"@) && (forall|k: int|
                    0 <= k < cpu ==> !starts_with(#[trigger] all[k], "cpu:"@)) && names_m33(all, cpu)
        }),
{
    let all = lines(text);
    lemma_first_cpu(all, 0);
    match cpu_line(all, 0) {
        Some(cpu) => {
            lemma_line_containing(all, "cortex-m33"@, cpu + 1, block_end(all, cpu + 1));
            assert forall|other: int|
                0 <= other < all.len() && starts_with(#[trigger] all[other], "cpu:"@) && (forall|
                    k: int,
                |
                    0 <= k < other ==> !starts_with(#[trigger] all[k], "cpu:"@)) implies other
                == cpu by {}
        },
        None => {},
    }
}

/// The block behind line `cpu` names a Cortex-M33.
pub open spec fn names_m33(all: Seq<Seq<char>>, cpu: int) -> bool {
    exists|k: int|
        cpu < k < block_end(all, cpu + 1) && contains(#[trigger] all[k], "cortex-m33"@)
}

/// A board's platform must be for its core; every clock of the board is set, one
/// after the other, and TrustZone is enabled behind them where it is asked for.
pub proof fn law_how_a_platform_is_configured(
    text: Seq<char>,
    layout: BoardLayout,
    core_model: Seq<char>,
)
    ensures
        ({
            let clocks = layout.board.clocks@;
            let trustzone = layout.board.security.trustzone;
            let clocked = with_clocks(text, clocks, clocks.len() as int);
            let result = configured(text, layout, core_model);
            &&& result == Err::<Option<Seq<char>>, PlatformError>(PlatformError::CoreModel)
                || contains(text, "cpuType: \""@ + core_model + "\""@)
            &&& result is Ok ==> contains(text, "cpuType: \""@ + core_model + "\""@)
            &&& result is Ok && (clocks.len() > 0 || trustzone) ==> clocked is Ok && result->Ok_0
                == Some(
                if trustzone {
                    with_trustzone(clocked->Ok_0)->Ok_0
                } else {
                    clocked->Ok_0
                },
            )
            &&& result is Ok && trustzone ==> with_trustzone(clocked->Ok_0) is Ok
            &&& contains(text, "cpuType: \""@ + core_model + "\""@) && clocked is Ok && (trustzone
                ==> with_trustzone(clocked->Ok_0) is Ok) ==> result is Ok
        }),
{
}

/// Each further clock is set in the platform that the earlier ones gave.
pub proof fn law_clocks_are_set_one_after_the_other(
    text: Seq<char>,
    clocks: Seq<ClockConfig>,
    end: int,
)
    requires
        0 <= end < clocks.len(),
    ensures
        with_clocks(text, clocks, 0) == Ok::<Seq<char>, PlatformError>(text),
        with_clocks(text, clocks, end) is Ok ==> with_clocks(text, clocks, end + 1) == with_clock(
            with_clocks(text, clocks, end)->Ok_0,
            clocks[end],
            end,
        ),
        with_clocks(text, clocks, end) is Err ==> with_clocks(text, clocks, end + 1) == with_clocks(
            text,
            clocks,
            end,
        ),
{
}

/// A platform of the firmware lies in its repository, another with the
/// simulator.
pub proof fn law_where_platforms_lie(
    descriptor: McuDescriptor,
    simulator_root: Seq<char>,
    firmware_root: Seq<char>,
)
    ensures
        ({
            let place = platform_location(descriptor, simulator_root, firmware_root);
            let file = descriptor.platform_file@;
            &&& descriptor.platform_from_firmware ==> place == firmware_root + "/"@ + file
            &&& !descriptor.platform_from_firmware ==> place == simulator_root
                + "/renode/platforms/"@ + file
        }),
{
    reveal_strlit("");
    assert(""@ + firmware_root =~= firmware_root);
    assert(""@ + simulator_root =~= simulator_root);
}

} // verus!
