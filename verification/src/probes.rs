//! Memory probes: reading their samples from the emulator's output and holding
//! them to the limits of the layout.

use vstd::prelude::*;
use vstd::slice::slice_subrange;

use crate::layout::{ExecutionConfig, MemoryProbe};
use crate::output::lines_of;
use crate::text::{
    char_is_digit, char_is_hex_digit, chars_of, contains, dec, find_chars, find_from, has_text, hex,
    hex8, is_digit, is_hex_digit, join, join_texts, law_numbers_are_read_back,
    law_padded_numbers_are_read_back, lemma_base_digits, lemma_decimal_digits, lemma_find_from,
    lemma_zero_padded, lines, number, occurs_at, parse_number, rows, signed_dec, strip_prefix, texts,
    trim, trim_chars, without_prefix, Text,
};

verus! {

#[derive(Debug)]
pub struct MemoryProbeReport {
    pub name: String,
    pub symbol: String,
    pub samples: Vec<u32>,
    pub minimum_observed: u32,
    pub maximum_observed: u32,
    pub end_drop: i64,
}

/// One value that a probe returned, and which sample it is.
#[derive(Clone, Copy, Debug, PartialEq, Eq, Structural)]
pub struct Reading {
    pub sample: usize,
    pub value: u32,
}

#[derive(Clone, Copy, Debug, PartialEq, Eq, Structural)]
pub enum ProbeError {
    /// The line of a probe that is followed by no number.
    SampleNumber(usize),
    EmptySample,
    SampleRange,
    ValueMissing,
    ValueRange,
    /// So many samples came back.
    SampleCount(usize),
    Warmup,
    BelowMinimum,
    AboveMaximum,
    EndDrop,
}

// ---------------------------------------------------------------------------
// Order and extremes
// ---------------------------------------------------------------------------

/// `reading` put behind everything that is no later.
pub open spec fn placed(sorted: Seq<Reading>, reading: Reading) -> Seq<Reading>
    decreases sorted.len(),
{
    if sorted.len() == 0 || sorted.last().sample <= reading.sample {
        sorted.push(reading)
    } else {
        placed(sorted.drop_last(), reading).push(sorted.last())
    }
}

/// The readings by their sample; readings of one sample stay in their order.
pub open spec fn by_sample(readings: Seq<Reading>) -> Seq<Reading>
    decreases readings.len(),
{
    if readings.len() == 0 {
        Seq::empty()
    } else {
        placed(by_sample(readings.drop_last()), readings.last())
    }
}

pub open spec fn values_of(readings: Seq<Reading>) -> Seq<u32> {
    readings.map_values(|reading: Reading| reading.value)
}

pub open spec fn least(values: Seq<u32>) -> u32
    decreases values.len(),
{
    if values.len() <= 1 {
        values[0]
    } else if values.last() < least(values.drop_last()) {
        values.last()
    } else {
        least(values.drop_last())
    }
}

pub open spec fn greatest(values: Seq<u32>) -> u32
    decreases values.len(),
{
    if values.len() <= 1 {
        values[0]
    } else if values.last() > greatest(values.drop_last()) {
        values.last()
    } else {
        greatest(values.drop_last())
    }
}

fn place(sorted: &mut Vec<Reading>, reading: Reading)
    ensures
        final(sorted)@ == placed(old(sorted)@, reading),
{
    let ghost before = sorted@;
    let mut at: usize = sorted.len();
    assert(before.take(at as int) =~= before);
    assert(placed(before, reading) + before.skip(at as int) =~= placed(before, reading));
    while at > 0 && sorted[at - 1].sample > reading.sample
        invariant
            at <= before.len(),
            sorted@ == before,
            placed(before, reading) == placed(before.take(at as int), reading) + before.skip(
                at as int,
            ),
        decreases at,
    {
        proof {
            let head = before.take(at as int);
            assert(head.drop_last() =~= before.take(at - 1));
            assert(placed(before.take(at - 1), reading).push(head.last()) + before.skip(at as int)
                =~= placed(before.take(at - 1), reading) + before.skip(at - 1));
        }
        at = at - 1;
    }
    sorted.insert(at, reading);
    assert(sorted@ =~= before.take(at as int).push(reading) + before.skip(at as int));
}

fn sort_readings(readings: &[Reading]) -> (res: Vec<Reading>)
    ensures
        res@ == by_sample(readings@),
{
    let mut sorted: Vec<Reading> = Vec::new();
    let mut i: usize = 0;
    assert(readings@.take(0) =~= Seq::<Reading>::empty());
    while i < readings.len()
        invariant
            i <= readings@.len(),
            sorted@ == by_sample(readings@.take(i as int)),
        decreases readings@.len() - i,
    {
        assert(readings@.take(i + 1).drop_last() =~= readings@.take(i as int));
        place(&mut sorted, readings[i]);
        i = i + 1;
    }
    assert(readings@.take(i as int) =~= readings@);
    sorted
}

fn reading_values(readings: &[Reading]) -> (res: Vec<u32>)
    ensures
        res@ == values_of(readings@),
{
    let mut values: Vec<u32> = Vec::new();
    let mut i: usize = 0;
    while i < readings.len()
        invariant
            i <= readings@.len(),
            values@ == values_of(readings@.take(i as int)),
        decreases readings@.len() - i,
    {
        values.push(readings[i].value);
        i = i + 1;
        assert(values@ =~= values_of(readings@.take(i as int)));
    }
    assert(readings@.take(i as int) =~= readings@);
    values
}

fn extremes(values: &[u32]) -> (res: (u32, u32))
    requires
        values@.len() > 0,
    ensures
        res.0 == least(values@),
        res.1 == greatest(values@),
{
    let mut low: u32 = values[0];
    let mut high: u32 = values[0];
    let mut i: usize = 1;
    assert(values@.take(1)[0] == values@[0]);
    while i < values.len()
        invariant
            1 <= i <= values@.len(),
            low == least(values@.take(i as int)),
            high == greatest(values@.take(i as int)),
        decreases values@.len() - i,
    {
        assert(values@.take(i + 1).drop_last() =~= values@.take(i as int));
        if values[i] < low {
            low = values[i];
        }
        if values[i] > high {
            high = values[i];
        }
        i = i + 1;
    }
    assert(values@.take(i as int) =~= values@);
    (low, high)
}

// ---------------------------------------------------------------------------
// Values in the output
// ---------------------------------------------------------------------------

/// The digits of a line that is a hexadecimal number after `0x`.
pub open spec fn hex_line(line: Seq<char>) -> Option<Seq<char>> {
    match without_prefix(trim(line), "0x"@) {
        Some(digits) if digits.len() > 0 && (forall|i: int|
            0 <= i < digits.len() ==> is_hex_digit(#[trigger] digits[i])) => Some(digits),
        _ => None,
    }
}

fn hex_in_line(line: &[char]) -> (res: Option<&[char]>)
    ensures
        match hex_line(line@) {
            Some(digits) => res matches Some(found) && found@ == digits,
            None => res is None,
        },
{
    match strip_prefix(trim_chars(line), "0x") {
        None => None,
        Some(digits) => {
            if digits.len() == 0 {
                return None;
            }
            let mut i: usize = 0;
            while i < digits.len()
                invariant
                    i <= digits@.len(),
                    without_prefix(trim(line@), "0x"@) == Some(digits@),
                    forall|k: int| 0 <= k < i ==> is_hex_digit(#[trigger] digits@[k]),
                decreases digits@.len() - i,
            {
                if !char_is_hex_digit(digits[i]) {
                    return None;
                }
                i = i + 1;
            }
            Some(digits)
        },
    }
}

pub open spec fn hex_value(digits: Seq<char>) -> Result<u32, ProbeError> {
    match number(digits, 16, u32::MAX as int) {
        Some(value) => Ok(value as u32),
        None => Err(ProbeError::ValueRange),
    }
}

fn parse_hex_value(digits: &[char]) -> (res: Result<u32, ProbeError>)
    ensures
        res == hex_value(digits@),
{
    match parse_number(digits, 16, u32::MAX as u64) {
        Some(value) => Ok(value as u32),
        None => Err(ProbeError::ValueRange),
    }
}

/// The first hexadecimal line from `from` on, before the next probe.
pub open spec fn value_line(all: Seq<Seq<char>>, from: int) -> Option<Seq<char>>
    decreases all.len() - from,
{
    if from < 0 || from >= all.len() || contains(all[from], "SEDS_PROBE "@) {
        None
    } else if hex_line(all[from]) is Some {
        hex_line(all[from])
    } else {
        value_line(all, from + 1)
    }
}

/// What line `i` says of the probe whose lines contain `prefix`.
pub open spec fn line_reading(all: Seq<Seq<char>>, prefix: Seq<char>, i: int) -> Option<
    Result<Reading, ProbeError>,
> {
    match find_from(all[i], prefix, 0) {
        None => None,
        Some(at) => Some(
            match number(trim(all[i].skip(at + prefix.len())), 10, usize::MAX as int) {
                None => Err(ProbeError::SampleNumber(i as usize)),
                Some(sample) => match value_line(all, i + 1) {
                    None => Err(ProbeError::ValueMissing),
                    Some(digits) => match hex_value(digits) {
                        Err(error) => Err(error),
                        Ok(value) => Ok(Reading { sample: sample as usize, value }),
                    },
                },
            },
        ),
    }
}

/// The readings in the first `end` lines, or the first error among them.
pub open spec fn readings_in(all: Seq<Seq<char>>, prefix: Seq<char>, end: int) -> Result<
    Seq<Reading>,
    ProbeError,
>
    decreases end,
{
    if end <= 0 {
        Ok(Seq::empty())
    } else {
        match readings_in(all, prefix, end - 1) {
            Err(error) => Err(error),
            Ok(earlier) => match line_reading(all, prefix, end - 1) {
                None => Ok(earlier),
                Some(Err(error)) => Err(error),
                Some(Ok(reading)) => Ok(earlier.push(reading)),
            },
        }
    }
}

fn find_value_line(all: &[Vec<char>], from: usize) -> (res: Option<&[char]>)
    requires
        from <= all@.len(),
    ensures
        match value_line(rows(all@), from as int) {
            Some(digits) => res matches Some(found) && found@ == digits,
            None => res is None,
        },
{
    let mut i: usize = from;
    while i < all.len()
        invariant
            from <= i <= all@.len(),
            value_line(rows(all@), from as int) == value_line(rows(all@), i as int),
        decreases all@.len() - i,
    {
        assert(rows(all@)[i as int] == all@[i as int]@);
        if has_text(all[i].as_slice(), "SEDS_PROBE ") {
            return None;
        }
        match hex_in_line(all[i].as_slice()) {
            Some(digits) => {
                return Some(digits);
            },
            None => {},
        }
        i = i + 1;
    }
    None
}

fn read_line(all: &[Vec<char>], prefix: &[char], i: usize) -> (res: Option<
    Result<Reading, ProbeError>,
>)
    requires
        i < all@.len(),
    ensures
        res == line_reading(rows(all@), prefix@, i as int),
{
    let line = all[i].as_slice();
    let length: usize = line.len();
    assert(rows(all@)[i as int] == line@);
    proof {
        lemma_find_from(line@, prefix@, 0);
    }
    let at: usize = match find_chars(line, prefix, 0) {
        Some(at) => at,
        None => {
            return None;
        },
    };
    let rest = slice_subrange(line, at + prefix.len(), length);
    assert(rest@ =~= line@.skip(at + prefix@.len()));
    let sample: usize = match parse_number(trim_chars(rest), 10, usize::MAX as u64) {
        Some(sample) => sample as usize,
        None => {
            return Some(Err(ProbeError::SampleNumber(i)));
        },
    };
    match find_value_line(all, i + 1) {
        None => Some(Err(ProbeError::ValueMissing)),
        Some(digits) => match parse_hex_value(digits) {
            Err(error) => Some(Err(error)),
            Ok(value) => Some(Ok(Reading { sample, value })),
        },
    }
}

proof fn lemma_reading_error_stays(all: Seq<Seq<char>>, prefix: Seq<char>, i: int, end: int)
    requires
        0 <= i <= end,
        readings_in(all, prefix, i) is Err,
    ensures
        readings_in(all, prefix, end) == readings_in(all, prefix, i),
    decreases end - i,
{
    if i < end {
        lemma_reading_error_stays(all, prefix, i, end - 1);
    }
}

fn read_lines(all: &[Vec<char>], prefix: &str) -> (res: Result<Vec<Reading>, ProbeError>)
    ensures
        match readings_in(rows(all@), prefix@, rows(all@).len() as int) {
            Ok(readings) => res matches Ok(found) && found@ == readings,
            Err(error) => res == Err::<Vec<Reading>, ProbeError>(error),
        },
        res matches Err(error) ==> error != ProbeError::EndDrop,
{
    let wanted = chars_of(prefix);
    let mut readings: Vec<Reading> = Vec::new();
    let mut i: usize = 0;
    while i < all.len()
        invariant
            i <= all@.len(),
            wanted@ == prefix@,
            readings_in(rows(all@), prefix@, i as int) == Ok::<Seq<Reading>, ProbeError>(
                readings@,
            ),
        decreases all@.len() - i,
    {
        proof {
            if readings_in(rows(all@), prefix@, i + 1) is Err {
                lemma_reading_error_stays(
                    rows(all@),
                    prefix@,
                    i + 1,
                    rows(all@).len() as int,
                );
            }
        }
        match read_line(all, wanted.as_slice(), i) {
            None => {},
            Some(Ok(reading)) => {
                readings.push(reading);
            },
            Some(Err(error)) => {
                return Err(error);
            },
        }
        i = i + 1;
    }
    Ok(readings)
}

// ---------------------------------------------------------------------------
// Limits
// ---------------------------------------------------------------------------

/// What the samples after the warm-up come to.
pub open spec fn qualified(samples: Seq<u32>, warmup: int) -> Seq<u32> {
    samples.skip(warmup)
}

/// How far a probe fell from its first qualified sample to its last, which is
/// what its report says.
pub open spec fn drop_of(samples: Seq<u32>, warmup: int) -> int {
    samples[warmup] - samples.last()
}

/// Where the second half of a window starts. The sample in the middle of an odd
/// number belongs to it.
pub open spec fn middle(window: Seq<u32>) -> int {
    window.len() as int / 2
}

/// How far the floor of the qualified samples sinks from their first half to
/// their second. One sample alone has no halves and does not sink.
pub open spec fn floor_drop(samples: Seq<u32>, warmup: int) -> int {
    let window = qualified(samples, warmup);
    if window.len() < 2 {
        0
    } else {
        least(window.take(middle(window))) - least(window.skip(middle(window)))
    }
}

pub open spec fn below_minimum(probe: MemoryProbe, samples: Seq<u32>, warmup: int) -> bool {
    probe.minimum matches Some(minimum) && least(qualified(samples, warmup)) < minimum
}

pub open spec fn above_maximum(probe: MemoryProbe, samples: Seq<u32>, warmup: int) -> bool {
    probe.maximum matches Some(maximum) && greatest(qualified(samples, warmup)) > maximum
}

pub open spec fn dropped_too_far(probe: MemoryProbe, samples: Seq<u32>, warmup: int) -> bool {
    probe.max_end_drop matches Some(limit) && floor_drop(samples, warmup) > limit
}

fn measure_floor_drop(samples: &[u32], warmup: usize) -> (res: i64)
    requires
        warmup < samples@.len(),
    ensures
        res == floor_drop(samples@, warmup as int),
{
    let window = slice_subrange(samples, warmup, samples.len());
    assert(window@ =~= qualified(samples@, warmup as int));
    let length: usize = window.len();
    if length < 2 {
        return 0;
    }
    let half: usize = length / 2;
    let first = slice_subrange(window, 0, half);
    let second = slice_subrange(window, half, length);
    assert(first@ =~= window@.take(half as int));
    assert(second@ =~= window@.skip(half as int));
    let (before, _) = extremes(first);
    let (after, _) = extremes(second);
    before as i64 - after as i64
}

impl MemoryProbeReport {
    /// The report on `samples` of `probe`.
    pub open spec fn of(self, probe: MemoryProbe, samples: Seq<u32>, warmup: int) -> bool {
        &&& self.name@ == probe.name@
        &&& self.symbol@ == probe.symbol@
        &&& self.samples@ == samples
        &&& self.minimum_observed == least(qualified(samples, warmup))
        &&& self.maximum_observed == greatest(qualified(samples, warmup))
        &&& self.end_drop == drop_of(samples, warmup)
    }
}

fn make_report(probe: &MemoryProbe, samples: Vec<u32>, warmup: usize) -> (res: MemoryProbeReport)
    requires
        warmup < samples@.len(),
    ensures
        res.of(*probe, samples@, warmup as int),
{
    let length: usize = samples.len();
    let window = slice_subrange(samples.as_slice(), warmup, length);
    assert(window@ =~= qualified(samples@, warmup as int));
    let (minimum_observed, maximum_observed) = extremes(window);
    let end_drop: i64 = samples[warmup] as i64 - samples[length - 1] as i64;
    MemoryProbeReport {
        name: probe.name.clone(),
        symbol: probe.symbol.clone(),
        samples,
        minimum_observed,
        maximum_observed,
        end_drop,
    }
}

/// Why a probe's samples are refused, the first reason found.
pub open spec fn limit_error(probe: MemoryProbe, samples: Seq<u32>, warmup: int) -> Option<
    ProbeError,
> {
    if below_minimum(probe, samples, warmup) {
        Some(ProbeError::BelowMinimum)
    } else if above_maximum(probe, samples, warmup) {
        Some(ProbeError::AboveMaximum)
    } else if dropped_too_far(probe, samples, warmup) {
        Some(ProbeError::EndDrop)
    } else {
        None
    }
}

fn is_below_minimum(probe: &MemoryProbe, report: &MemoryProbeReport, Ghost(warmup): Ghost<int>) -> (res:
    bool)
    requires
        report.of(*probe, report.samples@, warmup),
    ensures
        res == below_minimum(*probe, report.samples@, warmup),
{
    match probe.minimum {
        Some(minimum) => report.minimum_observed < minimum,
        None => false,
    }
}

fn is_above_maximum(probe: &MemoryProbe, report: &MemoryProbeReport, Ghost(warmup): Ghost<int>) -> (res:
    bool)
    requires
        report.of(*probe, report.samples@, warmup),
    ensures
        res == above_maximum(*probe, report.samples@, warmup),
{
    match probe.maximum {
        Some(maximum) => report.maximum_observed > maximum,
        None => false,
    }
}

fn is_dropped_too_far(probe: &MemoryProbe, samples: &[u32], warmup: usize) -> (res: bool)
    requires
        warmup < samples@.len(),
    ensures
        res == dropped_too_far(*probe, samples@, warmup as int),
{
    match probe.max_end_drop {
        Some(limit) => measure_floor_drop(samples, warmup) > limit as i64,
        None => false,
    }
}

/// What samples there are of a probe, or why there are not enough.
pub open spec fn samples_of(
    readings: Result<Seq<Reading>, ProbeError>,
    count: int,
) -> Result<Seq<u32>, ProbeError> {
    match readings {
        Err(error) => Err(error),
        Ok(readings) => if readings.len() != count {
            Err(ProbeError::SampleCount(readings.len() as usize))
        } else {
            Ok(values_of(by_sample(readings)))
        },
    }
}

proof fn lemma_placed_length(sorted: Seq<Reading>, reading: Reading)
    ensures
        placed(sorted, reading).len() == sorted.len() + 1,
    decreases sorted.len(),
{
    if sorted.len() > 0 && sorted.last().sample > reading.sample {
        lemma_placed_length(sorted.drop_last(), reading);
    }
}

proof fn lemma_sorted_length(readings: Seq<Reading>)
    ensures
        by_sample(readings).len() == readings.len(),
    decreases readings.len(),
{
    if readings.len() > 0 {
        lemma_sorted_length(readings.drop_last());
        lemma_placed_length(by_sample(readings.drop_last()), readings.last());
    }
}

fn collect_samples(readings: Vec<Reading>, count: usize) -> (res: Result<Vec<u32>, ProbeError>)
    ensures
        match samples_of(Ok(readings@), count as int) {
            Ok(samples) => res matches Ok(found) && found@ == samples && found@.len() == count,
            Err(error) => res == Err::<Vec<u32>, ProbeError>(error),
        },
        res matches Err(error) ==> error != ProbeError::EndDrop,
{
    if readings.len() != count {
        return Err(ProbeError::SampleCount(readings.len()));
    }
    let sorted = sort_readings(readings.as_slice());
    proof {
        lemma_sorted_length(readings@);
    }
    Ok(reading_values(sorted.as_slice()))
}

// ---------------------------------------------------------------------------
// A standalone run
// ---------------------------------------------------------------------------

/// What marks the samples of a probe.
pub open spec fn probe_prefix(probe: MemoryProbe) -> Seq<char> {
    "SEDS_PROBE "@ + probe.name@ + " "@
}

/// A failure of one probe, with the samples that were read, where they were.
#[derive(Debug)]
pub struct ProbeFailure {
    pub probe: usize,
    pub error: ProbeError,
    pub samples: Vec<u32>,
}

/// The samples of one probe, or its error with the samples read until then.
pub open spec fn probe_outcome(
    execution: ExecutionConfig,
    probe: MemoryProbe,
    all: Seq<Seq<char>>,
) -> Result<Seq<u32>, (ProbeError, Seq<u32>)> {
    match samples_of(
        readings_in(all, probe_prefix(probe), all.len() as int),
        execution.sample_count as int,
    ) {
        Err(error) => Err((error, Seq::empty())),
        Ok(samples) => match limit_error(
            probe,
            samples,
            execution.memory_probe_warmup_samples as int,
        ) {
            Some(error) => Err((error, samples)),
            None => Ok(samples),
        },
    }
}

impl ProbeFailure {
    /// The failed probe is one of these, and a drop has a first sample.
    pub open spec fn of(&self, execution: ExecutionConfig) -> bool {
        &&& self.probe < execution.memory_probes@.len()
        &&& self.error == ProbeError::EndDrop ==> execution.memory_probe_warmup_samples
            < self.samples@.len()
    }
}

/// The first probe from `index` on that fails.
pub open spec fn profile_failure(
    execution: ExecutionConfig,
    all: Seq<Seq<char>>,
    index: int,
) -> Option<(int, ProbeError, Seq<u32>)>
    decreases execution.memory_probes@.len() - index,
{
    if index < 0 || index >= execution.memory_probes@.len() {
        None
    } else {
        match probe_outcome(execution, execution.memory_probes@[index], all) {
            Err((error, samples)) => Some((index, error, samples)),
            Ok(_) => profile_failure(execution, all, index + 1),
        }
    }
}

pub fn parse_memory_profile(execution: &ExecutionConfig, output: &str) -> (res: Result<
    Vec<MemoryProbeReport>,
    ProbeFailure,
>)
    requires
        execution.memory_probe_warmup_samples < execution.sample_count,
    ensures
        match profile_failure(*execution, lines(output@), 0) {
            Some((probe, error, samples)) => {
                &&& res matches Err(failure)
                &&& failure.of(*execution)
                &&& failure.probe == probe
                &&& failure.error == error
                &&& failure.samples@ == samples
            },
            None => {
                &&& res matches Ok(reports)
                &&& reports@.len() == execution.memory_probes@.len()
                &&& forall|i: int|
                    0 <= i < reports@.len() ==> (#[trigger] reports@[i]).of(
                        execution.memory_probes@[i],
                        probe_outcome(
                            *execution,
                            execution.memory_probes@[i],
                            lines(output@),
                        )->Ok_0,
                        execution.memory_probe_warmup_samples as int,
                    )
            },
        },
{
    let all = lines_of(output);
    let warmup: usize = execution.memory_probe_warmup_samples;
    let mut reports: Vec<MemoryProbeReport> = Vec::new();
    let mut index: usize = 0;
    while index < execution.memory_probes.len()
        invariant
            index <= execution.memory_probes@.len(),
            rows(all@) == lines(output@),
            warmup == execution.memory_probe_warmup_samples,
            warmup < execution.sample_count,
            profile_failure(*execution, lines(output@), 0) == profile_failure(
                *execution,
                lines(output@),
                index as int,
            ),
            reports@.len() == index,
            forall|i: int|
                0 <= i < index ==> (#[trigger] reports@[i]).of(
                    execution.memory_probes@[i],
                    probe_outcome(*execution, execution.memory_probes@[i], lines(output@))->Ok_0,
                    warmup as int,
                ),
        decreases execution.memory_probes@.len() - index,
    {
        let probe = &execution.memory_probes[index];
        let prefix = Text::new("SEDS_PROBE ").str(probe.name.as_str()).str(" ").done();
        let readings = match read_lines(all.as_slice(), prefix.as_str()) {
            Ok(readings) => readings,
            Err(error) => {
                let samples: Vec<u32> = Vec::new();
                assert(samples@ =~= Seq::<u32>::empty());
                return Err(ProbeFailure { probe: index, error, samples });
            },
        };
        let samples = match collect_samples(readings, execution.sample_count) {
            Ok(samples) => samples,
            Err(error) => {
                let samples: Vec<u32> = Vec::new();
                assert(samples@ =~= Seq::<u32>::empty());
                return Err(ProbeFailure { probe: index, error, samples });
            },
        };
        let report = make_report(probe, samples, warmup);
        if is_below_minimum(probe, &report, Ghost(warmup as int)) {
            return Err(
                ProbeFailure {
                    probe: index,
                    error: ProbeError::BelowMinimum,
                    samples: report.samples,
                },
            );
        }
        if is_above_maximum(probe, &report, Ghost(warmup as int)) {
            return Err(
                ProbeFailure {
                    probe: index,
                    error: ProbeError::AboveMaximum,
                    samples: report.samples,
                },
            );
        }
        if is_dropped_too_far(probe, report.samples.as_slice(), warmup) {
            return Err(
                ProbeFailure {
                    probe: index,
                    error: ProbeError::EndDrop,
                    samples: report.samples,
                },
            );
        }
        reports.push(report);
        index = index + 1;
    }
    Ok(reports)
}

/// `[1, 2, 3]`.
pub open spec fn list_text(values: Seq<u32>) -> Seq<char> {
    "["@ + join(decimals(values), ", "@) + "]"@
}

pub open spec fn decimals(values: Seq<u32>) -> Seq<Seq<char>> {
    Seq::new(values.len(), |i: int| dec(values[i] as nat))
}

pub fn decimal_texts(values: &[u32]) -> (res: Vec<String>)
    ensures
        texts(res@) == decimals(values@),
{
    let mut res: Vec<String> = Vec::new();
    let mut i: usize = 0;
    while i < values.len()
        invariant
            i <= values@.len(),
            texts(res@) == decimals(values@).take(i as int),
        decreases values@.len() - i,
    {
        let ghost before = texts(res@);
        let digits = crate::text::base_chars(values[i] as u64, 10);
        let text = crate::text::text_of(digits.as_slice());
        res.push(text);
        assert(texts(res@) =~= before.push(dec(values@[i as int] as nat)));
        assert(decimals(values@).take(i + 1) =~= decimals(values@).take(i as int).push(
            decimals(values@)[i as int],
        ));
        i = i + 1;
    }
    assert(decimals(values@).take(i as int) =~= decimals(values@));
    res
}

pub fn render_list(values: &[u32]) -> (res: String)
    ensures
        res@ == list_text(values@),
{
    let parts = decimal_texts(values);
    let inner = join_texts(parts.as_slice(), ", ");
    Text::new("[").str(inner.as_str()).str("]").done()
}

pub open spec fn or_zero(value: Option<u32>) -> u32 {
    match value {
        Some(value) => value,
        None => 0,
    }
}

/// A line from the probe's marker on.
pub open spec fn marker_text(line: Seq<char>, prefix: Seq<char>) -> Seq<char> {
    match find_from(line, prefix, 0) {
        Some(at) => line.skip(at),
        None => line,
    }
}

/// What a failure of `probe` says. `samples` are those that were read from the
/// lines `all`.
pub open spec fn failure_text(
    error: ProbeError,
    execution: ExecutionConfig,
    probe: MemoryProbe,
    samples: Seq<u32>,
    all: Seq<Seq<char>>,
) -> Seq<char> {
    match error {
        ProbeError::SampleNumber(line) => "parsing probe marker "@ + if line < all.len() {
            marker_text(all[line as int], probe_prefix(probe))
        } else {
            ""@
        },
        ProbeError::EmptySample => "cannot parse integer from empty string"@,
        ProbeError::SampleRange => "number too large to fit in target type"@,
        ProbeError::ValueMissing => "memory probe value is missing"@,
        ProbeError::ValueRange => "number too large to fit in target type"@,
        ProbeError::SampleCount(found) => "probe "@ + probe.name@ + " returned "@ + dec(
            found as nat,
        ) + " of "@ + dec(execution.sample_count as nat) + " samples"@,
        ProbeError::Warmup =>
            "execution memory_probe_warmup_samples must be less than sample_count"@,
        ProbeError::BelowMinimum => "probe "@ + probe.name@ + " fell below "@ + dec(
            or_zero(probe.minimum) as nat,
        ) + ": "@ + list_text(samples),
        ProbeError::AboveMaximum => "probe "@ + probe.name@ + " exceeded "@ + dec(
            or_zero(probe.maximum) as nat,
        ) + ": "@ + list_text(samples),
        ProbeError::EndDrop => "probe "@ + probe.name@ + " lost "@ + signed_dec(
            floor_drop(samples, execution.memory_probe_warmup_samples as int),
        ) + " bytes between first and last sample: "@ + list_text(samples),
    }
}

impl ProbeFailure {
    /// `output` is what the samples were read from.
    pub fn message(&self, execution: &ExecutionConfig, output: &str) -> (res: String)
        requires
            self.of(*execution),
        ensures
            res@ == failure_text(
                self.error,
                *execution,
                execution.memory_probes@[self.probe as int],
                self.samples@,
                lines(output@),
            ),
    {
        let probe = &execution.memory_probes[self.probe];
        let name = probe.name.as_str();
        let list = render_list(self.samples.as_slice());
        match self.error {
            ProbeError::SampleNumber(line) => {
                let all = lines_of(output);
                assert(lines(output@).len() == all@.len());
                if line >= all.len() {
                    return Text::new("parsing probe marker ").str("").done();
                }
                let prefix = Text::new("SEDS_PROBE ").str(name).str(" ").done();
                let wanted = chars_of(prefix.as_str());
                let chars = all[line].as_slice();
                assert(lines(output@)[line as int] == rows(all@)[line as int]);
                proof {
                    lemma_find_from(chars@, wanted@, 0);
                }
                let at: usize = match find_chars(chars, wanted.as_slice(), 0) {
                    Some(at) => at,
                    None => 0,
                };
                let marker = slice_subrange(chars, at, chars.len());
                assert(marker@ =~= chars@.skip(at as int));
                assert(chars@.skip(0) =~= chars@);
                Text::new("parsing probe marker ").chars(marker).done()
            },
            ProbeError::EmptySample => Text::new("cannot parse integer from empty string").done(),
            ProbeError::SampleRange => Text::new("number too large to fit in target type").done(),
            ProbeError::ValueMissing => Text::new("memory probe value is missing").done(),
            ProbeError::ValueRange => Text::new("number too large to fit in target type").done(),
            ProbeError::SampleCount(found) => Text::new("probe ").str(name).str(" returned ").dec(
                found as u64,
            ).str(" of ").dec(execution.sample_count as u64).str(" samples").done(),
            ProbeError::Warmup => Text::new(
                "execution memory_probe_warmup_samples must be less than sample_count",
            ).done(),
            ProbeError::BelowMinimum => {
                let minimum: u32 = match probe.minimum {
                    Some(minimum) => minimum,
                    None => 0,
                };
                Text::new("probe ").str(name).str(" fell below ").dec(minimum as u64).str(
                    ": ",
                ).str(list.as_str()).done()
            },
            ProbeError::AboveMaximum => {
                let maximum: u32 = match probe.maximum {
                    Some(maximum) => maximum,
                    None => 0,
                };
                Text::new("probe ").str(name).str(" exceeded ").dec(maximum as u64).str(": ").str(
                    list.as_str(),
                ).done()
            },
            ProbeError::EndDrop => {
                let lost: i64 = measure_floor_drop(
                    self.samples.as_slice(),
                    execution.memory_probe_warmup_samples,
                );
                Text::new("probe ").str(name).str(" lost ").signed(lost).str(
                    " bytes between first and last sample: ",
                ).str(list.as_str()).done()
            },
        }
    }
}

// ---------------------------------------------------------------------------
// A node of a bay
// ---------------------------------------------------------------------------

pub open spec fn bay_prefix(node: Seq<char>, probe: MemoryProbe) -> Seq<char> {
    "SEDS_BAY_PROBE "@ + crate::text::safe_text(node) + " "@ + probe.name@ + " "@
}

/// Where the digits that start at `at` end.
pub open spec fn digits_end(text: Seq<char>, at: int) -> int
    decreases text.len() - at,
{
    if 0 <= at < text.len() && is_digit(text[at]) {
        digits_end(text, at + 1)
    } else {
        at
    }
}

pub open spec fn line_break(c: char) -> bool {
    c == '\r' || c == '\n'
}

/// Where the line that starts at `at` ends.
pub open spec fn line_end(text: Seq<char>, at: int) -> int
    decreases text.len() - at,
{
    if 0 <= at < text.len() && !line_break(text[at]) {
        line_end(text, at + 1)
    } else {
        at
    }
}

pub proof fn lemma_line_end(text: Seq<char>, at: int)
    requires
        0 <= at <= text.len(),
    ensures
        at <= line_end(text, at) <= text.len(),
    decreases text.len() - at,
{
    if at < text.len() && !line_break(text[at]) {
        lemma_line_end(text, at + 1);
    }
}

pub proof fn lemma_digits_end(text: Seq<char>, at: int)
    requires
        0 <= at <= text.len(),
    ensures
        at <= digits_end(text, at) <= text.len(),
    decreases text.len() - at,
{
    if at < text.len() && is_digit(text[at]) {
        lemma_digits_end(text, at + 1);
    }
}

/// The first hexadecimal line from `at` on.
pub open spec fn hex_line_from(text: Seq<char>, at: int) -> Option<Seq<char>>
    decreases text.len() - at,
{
    if !(0 <= at <= text.len()) {
        None
    } else {
        let end = line_end(text, at);
        if hex_line(text.subrange(at, end)) is Some {
            hex_line(text.subrange(at, end))
        } else if end >= text.len() {
            None
        } else {
            proof {
                lemma_line_end(text, at);
            }
            hex_line_from(text, end + 1)
        }
    }
}

/// The number of a sample.
pub open spec fn sample_number(digits: Seq<char>) -> Result<usize, ProbeError> {
    match number(digits, 10, usize::MAX as int) {
        Some(sample) => Ok(sample as usize),
        None => if digits.len() == 0 {
            Err(ProbeError::EmptySample)
        } else {
            Err(ProbeError::SampleRange)
        },
    }
}

/// Where the next probe of any node starts.
pub open spec fn next_probe(output: Seq<char>, from: int) -> int {
    match find_from(output, "SEDS_BAY_PROBE "@, from) {
        Some(at) => at,
        None => output.len() as int,
    }
}

/// The reading whose sample number starts at `at`.
pub open spec fn reading_at(output: Seq<char>, at: int) -> Result<Reading, ProbeError> {
    let end = digits_end(output, at);
    match sample_number(output.subrange(at, end)) {
        Err(error) => Err(error),
        Ok(sample) => match hex_line_from(output.subrange(end, next_probe(output, end)), 0) {
            None => Err(ProbeError::ValueMissing),
            Some(digits) => match hex_value(digits) {
                Err(error) => Err(error),
                Ok(value) => Ok(Reading { sample, value }),
            },
        },
    }
}

/// The readings that `prefix` marks from `cursor` on, or the first error among
/// them.
pub open spec fn readings_from(output: Seq<char>, prefix: Seq<char>, cursor: int) -> Result<
    Seq<Reading>,
    ProbeError,
>
    decreases output.len() - cursor,
{
    if cursor < 0 || prefix.len() == 0 {
        Ok(Seq::empty())
    } else {
        match find_from(output, prefix, cursor) {
            None => Ok(Seq::empty()),
            Some(at) => match reading_at(output, at + prefix.len()) {
                Err(error) => Err(error),
                Ok(reading) => {
                    proof {
                        lemma_find_from(output, prefix, cursor);
                        lemma_digits_end(output, at + prefix.len() as int);
                    }
                    match readings_from(output, prefix, digits_end(output, at + prefix.len())) {
                        Err(error) => Err(error),
                        Ok(later) => Ok(seq![reading] + later),
                    }
                },
            },
        }
    }
}

fn find_hex_line(text: &[char]) -> (res: Option<Vec<char>>)
    ensures
        match hex_line_from(text@, 0) {
            Some(digits) => res matches Some(found) && found@ == digits,
            None => res is None,
        },
{
    let mut at: usize = 0;
    loop
        invariant
            at <= text@.len(),
            hex_line_from(text@, 0) == hex_line_from(text@, at as int),
        decreases text@.len() - at,
    {
        let mut end: usize = at;
        while end < text.len() && !(text[end] == '\r' || text[end] == '\n')
            invariant
                at <= end <= text@.len(),
                line_end(text@, at as int) == line_end(text@, end as int),
            decreases text@.len() - end,
        {
            end = end + 1;
        }
        let line = slice_subrange(text, at, end);
        match hex_in_line(line) {
            Some(digits) => {
                return Some(vstd::slice::slice_to_vec(digits));
            },
            None => {},
        }
        if end == text.len() {
            return None;
        }
        at = end + 1;
    }
}

fn find_digits_end(text: &[char], at: usize) -> (res: usize)
    requires
        at <= text@.len(),
    ensures
        res == digits_end(text@, at as int),
        at <= res <= text@.len(),
{
    let mut end: usize = at;
    while end < text.len() && char_is_digit(text[end])
        invariant
            at <= end <= text@.len(),
            digits_end(text@, at as int) == digits_end(text@, end as int),
        decreases text@.len() - end,
    {
        end = end + 1;
    }
    end
}

fn read_at(output: &[char], at: usize) -> (res: Result<Reading, ProbeError>)
    requires
        at <= output@.len(),
    ensures
        res == reading_at(output@, at as int),
{
    let end: usize = find_digits_end(output, at);
    let digits = slice_subrange(output, at, end);
    let sample: usize = match parse_number(digits, 10, usize::MAX as u64) {
        Some(sample) => sample as usize,
        None => {
            return if digits.len() == 0 {
                Err(ProbeError::EmptySample)
            } else {
                Err(ProbeError::SampleRange)
            };
        },
    };
    let marker = chars_of("SEDS_BAY_PROBE ");
    proof {
        lemma_find_from(output@, marker@, end as int);
    }
    let next: usize = match find_chars(output, marker.as_slice(), end) {
        Some(next) => next,
        None => output.len(),
    };
    match find_hex_line(slice_subrange(output, end, next)) {
        None => Err(ProbeError::ValueMissing),
        Some(digits) => match parse_hex_value(digits.as_slice()) {
            Err(error) => Err(error),
            Ok(value) => Ok(Reading { sample, value }),
        },
    }
}

/// `later`, where it is no error, behind what was read before it.
spec fn behind(earlier: Seq<Reading>, later: Result<Seq<Reading>, ProbeError>) -> Result<
    Seq<Reading>,
    ProbeError,
> {
    match later {
        Err(error) => Err(error),
        Ok(later) => Ok(earlier + later),
    }
}

fn read_marked(output: &[char], prefix: &[char]) -> (res: Result<Vec<Reading>, ProbeError>)
    requires
        prefix@.len() > 0,
    ensures
        match readings_from(output@, prefix@, 0) {
            Ok(readings) => res matches Ok(found) && found@ == readings,
            Err(error) => res == Err::<Vec<Reading>, ProbeError>(error),
        },
{
    let mut readings: Vec<Reading> = Vec::new();
    let mut cursor: usize = 0;
    let length: usize = output.len();
    proof {
        if let Ok(all) = readings_from(output@, prefix@, 0) {
            assert(readings@ + all =~= all);
        }
    }
    loop
        invariant
            prefix@.len() > 0,
            cursor <= length == output@.len(),
            readings_from(output@, prefix@, 0) == behind(
                readings@,
                readings_from(output@, prefix@, cursor as int),
            ),
        decreases length - cursor,
    {
        proof {
            lemma_find_from(output@, prefix@, cursor as int);
        }
        let at: usize = match find_chars(output, prefix, cursor) {
            Some(at) => at + prefix.len(),
            None => {
                assert(readings@ + Seq::<Reading>::empty() =~= readings@);
                return Ok(readings);
            },
        };
        let reading = match read_at(output, at) {
            Ok(reading) => reading,
            Err(error) => {
                return Err(error);
            },
        };
        let next: usize = find_digits_end(output, at);
        proof {
            if let Ok(later) = readings_from(output@, prefix@, next as int) {
                assert(readings@ + (seq![reading] + later) =~= readings@.push(reading) + later);
            }
        }
        readings.push(reading);
        cursor = next;
    }
}

/// The samples of one probe of a node.
pub open spec fn node_samples(
    node: Seq<char>,
    execution: ExecutionConfig,
    probe: MemoryProbe,
    output: Seq<char>,
    count: int,
) -> Result<Seq<u32>, ProbeError> {
    match samples_of(readings_from(output, bay_prefix(node, probe), 0), count) {
        Err(error) => Err(error),
        Ok(samples) => if execution.memory_probe_warmup_samples >= samples.len() {
            Err(ProbeError::Warmup)
        } else {
            Ok(samples)
        },
    }
}

/// The limits that a probe's samples do not keep, in words.
pub open spec fn limit_failures(
    probe: MemoryProbe,
    samples: Seq<u32>,
    warmup: int,
    enforce_end_drop: bool,
) -> Seq<Seq<char>> {
    let low: Seq<Seq<char>> = if below_minimum(probe, samples, warmup) {
        seq![
            ""@ + probe.name@ + " fell below "@ + dec(or_zero(probe.minimum) as nat) + ": "@
                + list_text(samples),
        ]
    } else {
        Seq::empty()
    };
    let high: Seq<Seq<char>> = if above_maximum(probe, samples, warmup) {
        seq![
            ""@ + probe.name@ + " exceeded "@ + dec(or_zero(probe.maximum) as nat) + ": "@
                + list_text(samples),
        ]
    } else {
        Seq::empty()
    };
    let lost: Seq<Seq<char>> = if enforce_end_drop && dropped_too_far(probe, samples, warmup) {
        seq![
            ""@ + probe.name@ + " lost "@ + signed_dec(floor_drop(samples, warmup)) + " bytes: "@
                + list_text(samples),
        ]
    } else {
        Seq::empty()
    };
    low + high + lost
}

/// The first probe from `index` on without its samples.
pub open spec fn node_error(
    node: Seq<char>,
    execution: ExecutionConfig,
    output: Seq<char>,
    count: int,
    index: int,
) -> Option<(int, ProbeError)>
    decreases execution.memory_probes@.len() - index,
{
    if index < 0 || index >= execution.memory_probes@.len() {
        None
    } else {
        match node_samples(node, execution, execution.memory_probes@[index], output, count) {
            Err(error) => Some((index, error)),
            Ok(_) => node_error(node, execution, output, count, index + 1),
        }
    }
}

/// The failures of the first `end` probes.
pub open spec fn node_failures(
    node: Seq<char>,
    execution: ExecutionConfig,
    output: Seq<char>,
    count: int,
    enforce_end_drop: bool,
    end: int,
) -> Seq<Seq<char>>
    decreases end,
{
    if end <= 0 {
        Seq::empty()
    } else {
        let probe = execution.memory_probes@[end - 1];
        node_failures(node, execution, output, count, enforce_end_drop, end - 1) + limit_failures(
            probe,
            node_samples(node, execution, probe, output, count)->Ok_0,
            execution.memory_probe_warmup_samples as int,
            enforce_end_drop,
        )
    }
}

#[derive(Debug)]
pub enum NodeProbeError {
    /// A probe without its samples.
    Unreadable { probe: usize, error: ProbeError },
    /// All limits that were not kept, and all observations.
    Limits { failures: Vec<String>, reports: Vec<MemoryProbeReport> },
}

/// The reports are those on the first `reports.len()` probes of the node.
pub open spec fn node_reports(
    reports: Seq<MemoryProbeReport>,
    node: Seq<char>,
    execution: ExecutionConfig,
    output: Seq<char>,
    count: int,
) -> bool {
    forall|i: int|
        0 <= i < reports.len() ==> (#[trigger] reports[i]).of(
            execution.memory_probes@[i],
            node_samples(node, execution, execution.memory_probes@[i], output, count)->Ok_0,
            execution.memory_probe_warmup_samples as int,
        )
}

fn describe_failures(
    probe: &MemoryProbe,
    report: &MemoryProbeReport,
    enforce_end_drop: bool,
    warmup: usize,
) -> (res: Vec<String>)
    requires
        report.of(*probe, report.samples@, warmup as int),
        warmup < report.samples@.len(),
    ensures
        texts(res@) == limit_failures(*probe, report.samples@, warmup as int, enforce_end_drop),
{
    let list = render_list(report.samples.as_slice());
    let mut failures: Vec<String> = Vec::new();
    let ghost mut told: Seq<Seq<char>> = Seq::empty();
    assert(texts(failures@) =~= told);
    if is_below_minimum(probe, report, Ghost(warmup as int)) {
        let minimum: u32 = match probe.minimum {
            Some(minimum) => minimum,
            None => 0,
        };
        let text = Text::new("").str(probe.name.as_str()).str(" fell below ").dec(
            minimum as u64,
        ).str(": ").str(list.as_str()).done();
        proof {
            told = told.push(text@);
        }
        failures.push(text);
        assert(texts(failures@) =~= told);
    }
    if is_above_maximum(probe, report, Ghost(warmup as int)) {
        let maximum: u32 = match probe.maximum {
            Some(maximum) => maximum,
            None => 0,
        };
        let text = Text::new("").str(probe.name.as_str()).str(" exceeded ").dec(
            maximum as u64,
        ).str(": ").str(list.as_str()).done();
        proof {
            told = told.push(text@);
        }
        failures.push(text);
        assert(texts(failures@) =~= told);
    }
    if enforce_end_drop && is_dropped_too_far(probe, report.samples.as_slice(), warmup) {
        let text = Text::new("").str(probe.name.as_str()).str(" lost ").signed(
            measure_floor_drop(report.samples.as_slice(), warmup),
        ).str(" bytes: ").str(list.as_str()).done();
        proof {
            told = told.push(text@);
        }
        failures.push(text);
        assert(texts(failures@) =~= told);
    }
    assert(told =~= limit_failures(*probe, report.samples@, warmup as int, enforce_end_drop));
    failures
}

/// `more` behind `parts`.
pub fn append_texts(parts: &mut Vec<String>, more: Vec<String>)
    ensures
        texts(final(parts)@) == texts(old(parts)@) + texts(more@),
{
    let ghost before = parts@;
    let mut more = more;
    let ghost added = more@;
    parts.append(&mut more);
    assert(texts(parts@) =~= texts(before) + texts(added));
}

pub fn parse_memory_profiles(
    node_name: &str,
    execution: &ExecutionConfig,
    output: &str,
    sample_count: usize,
    enforce_end_drop: bool,
) -> (res: Result<Vec<MemoryProbeReport>, NodeProbeError>)
    ensures
        match node_error(node_name@, *execution, output@, sample_count as int, 0) {
            Some((index, cause)) => {
                &&& res matches Err(NodeProbeError::Unreadable { probe, error })
                &&& probe == index
                &&& probe < execution.memory_probes@.len()
                &&& error == cause
            },
            None => {
                let failed = node_failures(
                    node_name@,
                    *execution,
                    output@,
                    sample_count as int,
                    enforce_end_drop,
                    execution.memory_probes@.len() as int,
                );
                if failed.len() > 0 {
                    &&& res matches Err(NodeProbeError::Limits { failures, reports })
                    &&& texts(failures@) == failed
                    &&& reports@.len() == execution.memory_probes@.len()
                    &&& node_reports(
                        reports@,
                        node_name@,
                        *execution,
                        output@,
                        sample_count as int,
                    )
                } else {
                    &&& res matches Ok(reports)
                    &&& reports@.len() == execution.memory_probes@.len()
                    &&& node_reports(
                        reports@,
                        node_name@,
                        *execution,
                        output@,
                        sample_count as int,
                    )
                }
            },
        },
{
    let chars = chars_of(output);
    let node = crate::text::safe(node_name);
    let warmup: usize = execution.memory_probe_warmup_samples;
    let mut reports: Vec<MemoryProbeReport> = Vec::new();
    let mut failures: Vec<String> = Vec::new();
    let mut index: usize = 0;
    let ghost count = sample_count as int;
    assert(texts(failures@) =~= Seq::<Seq<char>>::empty());
    while index < execution.memory_probes.len()
        invariant
            index <= execution.memory_probes@.len(),
            chars@ == output@,
            node@ == crate::text::safe_text(node_name@),
            warmup == execution.memory_probe_warmup_samples,
            count == sample_count,
            node_error(node_name@, *execution, output@, count, 0) == node_error(
                node_name@,
                *execution,
                output@,
                count,
                index as int,
            ),
            reports@.len() == index,
            node_reports(reports@, node_name@, *execution, output@, count),
            texts(failures@) == node_failures(
                node_name@,
                *execution,
                output@,
                count,
                enforce_end_drop,
                index as int,
            ),
        decreases execution.memory_probes@.len() - index,
    {
        let probe = &execution.memory_probes[index];
        let prefix = Text::new("SEDS_BAY_PROBE ").str(node.as_str()).str(" ").str(
            probe.name.as_str(),
        ).str(" ").done();
        proof {
            reveal_strlit("SEDS_BAY_PROBE ");
        }
        let marker = chars_of(prefix.as_str());
        let readings = match read_marked(chars.as_slice(), marker.as_slice()) {
            Ok(readings) => readings,
            Err(error) => {
                return Err(NodeProbeError::Unreadable { probe: index, error });
            },
        };
        let samples = match collect_samples(readings, sample_count) {
            Ok(samples) => samples,
            Err(error) => {
                return Err(NodeProbeError::Unreadable { probe: index, error });
            },
        };
        if warmup >= samples.len() {
            return Err(NodeProbeError::Unreadable { probe: index, error: ProbeError::Warmup });
        }
        let report = make_report(probe, samples, warmup);
        let found = describe_failures(probe, &report, enforce_end_drop, warmup);
        append_texts(&mut failures, found);
        reports.push(report);
        index = index + 1;
    }
    assert(texts(failures@).len() == failures@.len());
    if failures.len() > 0 {
        return Err(NodeProbeError::Limits { failures, reports });
    }
    Ok(reports)
}

/// `name: min=.., max=.., samples=[..]`.
pub open spec fn observation_text(report: MemoryProbeReport) -> Seq<char> {
    ""@ + report.name@ + ": min="@ + dec(report.minimum_observed as nat) + ", max="@ + dec(
        report.maximum_observed as nat,
    ) + ", samples="@ + list_text(report.samples@)
}

pub open spec fn observations(reports: Seq<MemoryProbeReport>) -> Seq<Seq<char>> {
    Seq::new(reports.len(), |i: int| observation_text(reports[i]))
}

fn describe_reports(reports: &[MemoryProbeReport]) -> (res: Vec<String>)
    ensures
        texts(res@) == observations(reports@),
{
    let mut res: Vec<String> = Vec::new();
    let mut i: usize = 0;
    while i < reports.len()
        invariant
            i <= reports@.len(),
            res@.len() == i,
            forall|k: int| 0 <= k < i ==> (#[trigger] res@[k])@ == observation_text(reports@[k]),
        decreases reports@.len() - i,
    {
        let report = &reports[i];
        let list = render_list(report.samples.as_slice());
        res.push(
            Text::new("").str(report.name.as_str()).str(": min=").dec(
                report.minimum_observed as u64,
            ).str(", max=").dec(report.maximum_observed as u64).str(", samples=").str(
                list.as_str(),
            ).done(),
        );
        i = i + 1;
    }
    assert(texts(res@) =~= observations(reports@));
    res
}

impl NodeProbeError {
    pub open spec fn text(self, node: Seq<char>, execution: ExecutionConfig, count: int) -> Seq<
        char,
    > {
        match self {
            NodeProbeError::Unreadable { probe, error } => match error {
                ProbeError::SampleCount(found) => "node "@ + node + " probe "@
                    + execution.memory_probes@[probe as int].name@ + " returned "@ + dec(
                    found as nat,
                ) + " of "@ + dec(count as nat) + " samples"@,
                ProbeError::Warmup => "node "@ + node
                    + " memory_probe_warmup_samples must be less than sample_count"@,
                ProbeError::ValueMissing => "bay memory probe value is missing"@,
                ProbeError::EmptySample => "cannot parse integer from empty string"@,
                _ => "number too large to fit in target type"@,
            },
            NodeProbeError::Limits { failures, reports } => "node "@ + node + " failed "@ + dec(
                failures@.len(),
            ) + " probe threshold(s):\n- "@ + join(texts(failures@), "\n- "@) + "\n\nAll "@ + node
                + " probe observations:\n"@ + join(observations(reports@), "\n"@),
        }
    }

    pub fn message(&self, node_name: &str, execution: &ExecutionConfig, sample_count: usize) -> (res:
        String)
        requires
            self matches NodeProbeError::Unreadable { probe, .. } ==> probe
                < execution.memory_probes@.len(),
        ensures
            res@ == self.text(node_name@, *execution, sample_count as int),
    {
        match self {
            NodeProbeError::Unreadable { probe, error } => match error {
                ProbeError::SampleCount(found) => Text::new("node ").str(node_name).str(
                    " probe ",
                ).str(execution.memory_probes[*probe].name.as_str()).str(" returned ").dec(
                    *found as u64,
                ).str(" of ").dec(sample_count as u64).str(" samples").done(),
                ProbeError::Warmup => Text::new("node ").str(node_name).str(
                    " memory_probe_warmup_samples must be less than sample_count",
                ).done(),
                ProbeError::ValueMissing => Text::new("bay memory probe value is missing").done(),
                ProbeError::EmptySample => Text::new(
                    "cannot parse integer from empty string",
                ).done(),
                _ => Text::new("number too large to fit in target type").done(),
            },
            NodeProbeError::Limits { failures, reports } => {
                let listed = join_texts(failures.as_slice(), "\n- ");
                let seen = describe_reports(reports.as_slice());
                let observed = join_texts(seen.as_slice(), "\n");
                Text::new("node ").str(node_name).str(" failed ").dec(failures.len() as u64).str(
                    " probe threshold(s):\n- ",
                ).str(listed.as_str()).str("\n\nAll ").str(node_name).str(
                    " probe observations:\n",
                ).str(observed.as_str()).done()
            },
        }
    }
}

// ---------------------------------------------------------------------------
// What accepted probes show
// ---------------------------------------------------------------------------

proof fn lemma_profile_failure(
    execution: ExecutionConfig,
    all: Seq<Seq<char>>,
    from: int,
    index: int,
)
    requires
        0 <= from <= index < execution.memory_probes@.len(),
        profile_failure(execution, all, from) is None,
    ensures
        probe_outcome(execution, execution.memory_probes@[index], all) is Ok,
    decreases index - from,
{
    if from < index {
        lemma_profile_failure(execution, all, from + 1, index);
    }
}

/// A probe of an accepted run kept each limit that the layout sets it: from
/// the end of the warm-up on it never fell below its minimum nor exceeded its
/// maximum, and its floor did not sink further than it may.
pub proof fn law_accepted_probes_keep_their_limits(
    execution: ExecutionConfig,
    all: Seq<Seq<char>>,
    index: int,
    k: int,
)
    requires
        0 <= index < execution.memory_probes@.len(),
        execution.memory_probe_warmup_samples < execution.sample_count,
        profile_failure(execution, all, 0) is None,
        execution.memory_probe_warmup_samples <= k < execution.sample_count,
    ensures
        ({
            let probe = execution.memory_probes@[index];
            let samples = probe_outcome(execution, probe, all)->Ok_0;
            let warmup = execution.memory_probe_warmup_samples as int;
            &&& samples.len() == execution.sample_count
            &&& (probe.minimum matches Some(minimum) ==> samples[k] >= minimum)
            &&& (probe.maximum matches Some(maximum) ==> samples[k] <= maximum)
            &&& (probe.max_end_drop matches Some(limit) ==> floor_drop(samples, warmup) <= limit)
        }),
{
    lemma_profile_failure(execution, all, 0, index);
    let probe = execution.memory_probes@[index];
    let samples = probe_outcome(execution, probe, all)->Ok_0;
    let warmup = execution.memory_probe_warmup_samples as int;
    let readings = readings_in(all, probe_prefix(probe), all.len() as int)->Ok_0;
    lemma_sorted_length(readings);
    law_extremes(qualified(samples, warmup), k - warmup);
    assert(qualified(samples, warmup)[k - warmup] == samples[k]);
}

/// The extremes of some values bound each of them, and are among them.
pub proof fn law_extremes(values: Seq<u32>, k: int)
    requires
        0 <= k < values.len(),
    ensures
        least(values) <= values[k] <= greatest(values),
        values.contains(least(values)),
        values.contains(greatest(values)),
    decreases values.len(),
{
    if values.len() > 1 {
        let init = values.drop_last();
        law_extremes(
            init,
            if k < init.len() {
                k
            } else {
                0
            },
        );
        let low = choose|i: int| 0 <= i < init.len() && init[i] == least(init);
        let high = choose|i: int| 0 <= i < init.len() && init[i] == greatest(init);
        assert(values[low] == least(init));
        assert(values[high] == greatest(init));
        assert(values[values.len() - 1] == values.last());
    } else {
        assert(values[0] == least(values));
    }
}

proof fn lemma_placed(sorted: Seq<Reading>, reading: Reading)
    requires
        forall|i: int, j: int|
            0 <= i <= j < sorted.len() ==> (#[trigger] sorted[i]).sample <= (
            #[trigger] sorted[j]).sample,
    ensures
        forall|i: int, j: int|
            0 <= i <= j < placed(sorted, reading).len() ==> (#[trigger] placed(
                sorted,
                reading,
            )[i]).sample <= (#[trigger] placed(sorted, reading)[j]).sample,
        placed(sorted, reading).last() == reading || sorted.len() > 0 && placed(
            sorted,
            reading,
        ).last() == sorted.last(),
        placed(sorted, reading).to_multiset() == sorted.to_multiset().insert(reading),
        placed(sorted, reading).len() == sorted.len() + 1,
    decreases sorted.len(),
{
    broadcast use vstd::seq_lib::group_to_multiset_ensures;

    if sorted.len() == 0 || sorted.last().sample <= reading.sample {
    } else {
        let init = sorted.drop_last();
        lemma_placed(init, reading);
        assert(init.push(sorted.last()) =~= sorted);
        let front = placed(init, reading);
        let whole = placed(sorted, reading);
        assert(whole == front.push(sorted.last()));
        assert(front.last().sample <= sorted.last().sample) by {
            if init.len() > 0 {
                assert(init.last() == sorted[sorted.len() - 2]);
            }
        }
        assert forall|i: int, j: int| 0 <= i <= j < whole.len() implies (
        #[trigger] whole[i]).sample <= (#[trigger] whole[j]).sample by {
            if j == front.len() && i < front.len() {
                assert(front[i].sample <= front[front.len() - 1].sample);
            } else if j < front.len() {
                assert(front[i].sample <= front[j].sample);
            }
        }
        assert(whole.to_multiset() =~= sorted.to_multiset().insert(reading));
    }
}

/// Putting readings in order neither loses nor invents one.
pub proof fn law_readings_are_put_in_order(readings: Seq<Reading>)
    ensures
        forall|i: int, j: int|
            0 <= i <= j < by_sample(readings).len() ==> (#[trigger] by_sample(readings)[i]).sample
                <= (#[trigger] by_sample(readings)[j]).sample,
        by_sample(readings).to_multiset() == readings.to_multiset(),
    decreases readings.len(),
{
    broadcast use vstd::seq_lib::group_to_multiset_ensures;

    if readings.len() > 0 {
        law_readings_are_put_in_order(readings.drop_last());
        lemma_placed(by_sample(readings.drop_last()), readings.last());
        assert(readings.drop_last().push(readings.last()) =~= readings);
    }
}

/// A node that passes kept every limit of every probe, but for the end-to-end
/// drop where the bay does not enforce it.
pub proof fn law_passing_nodes_keep_their_limits(
    node: Seq<char>,
    execution: ExecutionConfig,
    output: Seq<char>,
    count: int,
    enforce_end_drop: bool,
    index: int,
    end: int,
)
    requires
        0 <= index < end <= execution.memory_probes@.len(),
        node_failures(node, execution, output, count, enforce_end_drop, end).len() == 0,
    ensures
        ({
            let probe = execution.memory_probes@[index];
            let samples = node_samples(node, execution, probe, output, count)->Ok_0;
            let warmup = execution.memory_probe_warmup_samples as int;
            &&& !below_minimum(probe, samples, warmup)
            &&& !above_maximum(probe, samples, warmup)
            &&& enforce_end_drop ==> !dropped_too_far(probe, samples, warmup)
        }),
    decreases end,
{
    if index < end - 1 {
        law_passing_nodes_keep_their_limits(
            node,
            execution,
            output,
            count,
            enforce_end_drop,
            index,
            end - 1,
        );
    }
}

/// A value of one half of a window that repeats every `period` samples is a
/// value of the other half too.
proof fn lemma_repeated(window: Seq<u32>, period: int, i: int, half: int)
    requires
        0 < period <= half,
        half + period <= window.len(),
        0 <= i < window.len(),
        forall|k: int| 0 <= k && k + period < window.len() ==> (#[trigger] window[k]) == window[k
            + period],
    ensures
        window.take(half).contains(window[i]),
        window.skip(half).contains(window[i]),
{
    let first = window.take(half);
    let second = window.skip(half);
    if i < half {
        assert(first[i] == window[i]);
        lemma_reaches_second(window, period, i, half);
    } else {
        assert(second[i - half] == window[i]);
        lemma_reaches_first(window, period, i, half);
    }
}

proof fn lemma_reaches_second(window: Seq<u32>, period: int, i: int, half: int)
    requires
        0 < period,
        half + period <= window.len(),
        0 <= i < half,
        forall|k: int| 0 <= k && k + period < window.len() ==> (#[trigger] window[k]) == window[k
            + period],
    ensures
        window.skip(half).contains(window[i]),
    decreases half - i,
{
    assert(window[i] == window[i + period]);
    if i + period < half {
        lemma_reaches_second(window, period, i + period, half);
    } else {
        assert(window.skip(half)[i + period - half] == window[i]);
    }
}

proof fn lemma_reaches_first(window: Seq<u32>, period: int, i: int, half: int)
    requires
        0 < period <= half <= i < window.len(),
        forall|k: int| 0 <= k && k + period < window.len() ==> (#[trigger] window[k]) == window[k
            + period],
    ensures
        window.take(half).contains(window[i]),
    decreases i,
{
    assert(window[i - period] == window[i]);
    if i - period < half {
        assert(window.take(half)[i - period] == window[i]);
    } else {
        lemma_reaches_first(window, period, i - period, half);
    }
}

/// Bounded cycles pass: where the qualified samples repeat, and each half holds
/// a whole cycle, the floor does not sink, whatever the first and the last
/// sample are.
pub proof fn law_periodic_use_does_not_sink(samples: Seq<u32>, warmup: int, period: int)
    requires
        0 <= warmup <= samples.len(),
        0 < period <= middle(qualified(samples, warmup)),
        forall|k: int|
            0 <= k && k + period < qualified(samples, warmup).len() ==> (#[trigger] qualified(
                samples,
                warmup,
            )[k]) == qualified(samples, warmup)[k + period],
    ensures
        floor_drop(samples, warmup) == 0,
{
    let window = qualified(samples, warmup);
    let half = middle(window);
    let first = window.take(half);
    let second = window.skip(half);
    law_extremes(first, 0);
    law_extremes(second, 0);
    let low = choose|k: int| 0 <= k < first.len() && first[k] == least(first);
    let floor = choose|k: int| 0 <= k < second.len() && second[k] == least(second);
    assert(window[low] == least(first));
    assert(window[half + floor] == least(second));
    lemma_repeated(window, period, low, half);
    lemma_repeated(window, period, half + floor, half);
    let there = choose|k: int| 0 <= k < second.len() && second[k] == window[low];
    law_extremes(second, there);
    let here = choose|k: int| 0 <= k < first.len() && first[k] == window[half + floor];
    law_extremes(first, here);
}

/// A falling floor fails: one sample of the second half that lies further below
/// every sample of the first half than the probe may sink is enough.
pub proof fn law_falling_floors_fail(
    probe: MemoryProbe,
    samples: Seq<u32>,
    warmup: int,
    limit: u32,
    j: int,
)
    requires
        probe.max_end_drop == Some(limit),
        0 <= warmup <= samples.len(),
        1 <= middle(qualified(samples, warmup)) <= j < qualified(samples, warmup).len(),
        forall|i: int|
            0 <= i < middle(qualified(samples, warmup)) ==> (#[trigger] qualified(
                samples,
                warmup,
            )[i]) > qualified(samples, warmup)[j] + limit,
    ensures
        dropped_too_far(probe, samples, warmup),
        limit_error(probe, samples, warmup) is Some,
{
    let window = qualified(samples, warmup);
    let half = middle(window);
    let first = window.take(half);
    let second = window.skip(half);
    law_extremes(first, 0);
    law_extremes(second, j - half);
    let low = choose|k: int| 0 <= k < first.len() && first[k] == least(first);
    assert(window[low] == least(first));
}

// ---------------------------------------------------------------------------
// What limits mean
// ---------------------------------------------------------------------------

/// After the warm-up some sample lies below `minimum`.
pub open spec fn falls_below(samples: Seq<u32>, warmup: int, minimum: u32) -> bool {
    exists|k: int| warmup <= k < samples.len() && (#[trigger] samples[k]) < minimum
}

/// After the warm-up some sample lies above `maximum`.
pub open spec fn rises_above(samples: Seq<u32>, warmup: int, maximum: u32) -> bool {
    exists|k: int| warmup <= k < samples.len() && (#[trigger] samples[k]) > maximum
}

/// The sample `j` lies more than `limit` below every one from the warm-up to
/// the middle of the qualified samples.
pub open spec fn under_first_half(samples: Seq<u32>, warmup: int, limit: u32, j: int) -> bool {
    forall|i: int|
        warmup <= i < (warmup + samples.len()) / 2 ==> (#[trigger] samples[i]) > samples[j] + limit
}

/// There are two halves, and some sample of the second lies more than `limit`
/// below every one of the first.
pub open spec fn floor_sinks(samples: Seq<u32>, warmup: int, limit: u32) -> bool {
    &&& warmup + 2 <= samples.len()
    &&& exists|j: int|
        (warmup + samples.len()) / 2 <= j < samples.len() && #[trigger] under_first_half(
            samples,
            warmup,
            limit,
            j,
        )
}

proof fn lemma_floor(samples: Seq<u32>, warmup: int, limit: u32)
    requires
        0 <= warmup < samples.len(),
    ensures
        floor_drop(samples, warmup) > limit <==> floor_sinks(samples, warmup, limit),
{
    let window = qualified(samples, warmup);
    if window.len() >= 2 {
        let half = middle(window);
        assert(warmup + half == (warmup + samples.len()) / 2);
        let first = window.take(half);
        let second = window.skip(half);
        law_extremes(first, 0);
        law_extremes(second, 0);
        let low = choose|k: int| 0 <= k < first.len() && first[k] == least(first);
        let floor = choose|k: int| 0 <= k < second.len() && second[k] == least(second);
        assert(samples[warmup + low] == least(first));
        assert(samples[warmup + half + floor] == least(second));
        if floor_drop(samples, warmup) > limit {
            let j = warmup + half + floor;
            assert forall|i: int| warmup <= i < (warmup + samples.len()) / 2 implies (
            #[trigger] samples[i]) > samples[j] + limit by {
                law_extremes(first, i - warmup);
                assert(first[i - warmup] == samples[i]);
            }
            assert(under_first_half(samples, warmup, limit, j));
        }
        if floor_sinks(samples, warmup, limit) {
            let j = choose|j: int|
                (warmup + samples.len()) / 2 <= j < samples.len() && #[trigger] under_first_half(
                    samples,
                    warmup,
                    limit,
                    j,
                );
            law_extremes(second, j - warmup - half);
            assert(second[j - warmup - half] == samples[j]);
            assert(samples[warmup + low] > samples[j] + limit);
        }
    }
}

/// What the samples from the warm-up on come to is what is held to the limits:
/// too low is refused first, then too high, then a floor that sinks too far
/// from the first half to the second, and nothing else is.
pub proof fn law_limits_decide(probe: MemoryProbe, samples: Seq<u32>, warmup: int)
    requires
        0 <= warmup < samples.len(),
    ensures
        ({
            let low = probe.minimum is Some && falls_below(samples, warmup, probe.minimum->0);
            let high = probe.maximum is Some && rises_above(samples, warmup, probe.maximum->0);
            let sinks = probe.max_end_drop is Some && floor_sinks(
                samples,
                warmup,
                probe.max_end_drop->0,
            );
            &&& below_minimum(probe, samples, warmup) <==> low
            &&& above_maximum(probe, samples, warmup) <==> high
            &&& dropped_too_far(probe, samples, warmup) <==> sinks
            &&& limit_error(probe, samples, warmup) == if low {
                Some(ProbeError::BelowMinimum)
            } else if high {
                Some(ProbeError::AboveMaximum)
            } else if sinks {
                Some(ProbeError::EndDrop)
            } else {
                None
            }
        }),
{
    let window = qualified(samples, warmup);
    law_extremes(window, 0);
    let low = choose|k: int| 0 <= k < window.len() && window[k] == least(window);
    let high = choose|k: int| 0 <= k < window.len() && window[k] == greatest(window);
    assert(samples[warmup + low] == least(window));
    assert(samples[warmup + high] == greatest(window));
    assert forall|k: int| warmup <= k < samples.len() implies least(window) <= (
    #[trigger] samples[k]) <= greatest(window) by {
        law_extremes(window, k - warmup);
        assert(window[k - warmup] == samples[k]);
    }
    if probe.max_end_drop is Some {
        lemma_floor(samples, warmup, probe.max_end_drop->0);
    }
}

/// Each limit that is not kept is told once, and the drop only where it is
/// enforced.
pub proof fn law_each_broken_limit_is_told(
    probe: MemoryProbe,
    samples: Seq<u32>,
    warmup: int,
    enforce_end_drop: bool,
)
    requires
        0 <= warmup < samples.len(),
    ensures
        ({
            let low = probe.minimum is Some && falls_below(samples, warmup, probe.minimum->0);
            let high = probe.maximum is Some && rises_above(samples, warmup, probe.maximum->0);
            let sinks = enforce_end_drop && probe.max_end_drop is Some && floor_sinks(
                samples,
                warmup,
                probe.max_end_drop->0,
            );
            limit_failures(probe, samples, warmup, enforce_end_drop).len() == (if low {
                1int
            } else {
                0
            }) + (if high {
                1int
            } else {
                0
            }) + (if sinks {
                1int
            } else {
                0
            })
        }),
{
    law_limits_decide(probe, samples, warmup);
}

/// A report says how low and how high the samples came after the warm-up, and
/// how far they fell from the first of those to the last.
pub proof fn law_reports_say_what_was_seen(
    report: MemoryProbeReport,
    probe: MemoryProbe,
    samples: Seq<u32>,
    warmup: int,
)
    requires
        0 <= warmup < samples.len(),
        report.of(probe, samples, warmup),
    ensures
        report.name@ == probe.name@,
        report.symbol@ == probe.symbol@,
        report.samples@ == samples,
        forall|k: int|
            warmup <= k < samples.len() ==> report.minimum_observed <= (#[trigger] samples[k])
                <= report.maximum_observed,
        exists|k: int| warmup <= k < samples.len() && (#[trigger] samples[k]) == report.minimum_observed,
        exists|k: int| warmup <= k < samples.len() && (#[trigger] samples[k]) == report.maximum_observed,
        report.end_drop + samples[samples.len() - 1] == samples[warmup],
{
    let window = qualified(samples, warmup);
    law_extremes(window, 0);
    let low = choose|k: int| 0 <= k < window.len() && window[k] == least(window);
    let high = choose|k: int| 0 <= k < window.len() && window[k] == greatest(window);
    assert(samples[warmup + low] == least(window));
    assert(samples[warmup + high] == greatest(window));
    assert forall|k: int| warmup <= k < samples.len() implies least(window) <= (
    #[trigger] samples[k]) <= greatest(window) by {
        law_extremes(window, k - warmup);
        assert(window[k - warmup] == samples[k]);
    }
}

/// Readings that come in order are not moved: two readings of one sample keep
/// the order in which they came.
pub proof fn law_readings_in_order_stay(readings: Seq<Reading>)
    requires
        forall|i: int, j: int|
            0 <= i <= j < readings.len() ==> (#[trigger] readings[i]).sample <= (
            #[trigger] readings[j]).sample,
    ensures
        by_sample(readings) == readings,
    decreases readings.len(),
{
    if readings.len() > 0 {
        let init = readings.drop_last();
        law_readings_in_order_stay(init);
        assert(init.push(readings.last()) =~= readings);
        if init.len() > 0 {
            assert(readings[init.len() - 1].sample <= readings[readings.len() - 1].sample);
        }
    } else {
        assert(by_sample(readings) =~= readings);
    }
}

/// A probe has as many samples as were asked for, or it fails; they stand in
/// the order of their numbers.
pub proof fn law_samples_are_complete(readings: Seq<Reading>, count: int)
    requires
        readings.len() <= usize::MAX,
    ensures
        match samples_of(Ok(readings), count) {
            Ok(samples) => {
                &&& readings.len() == count
                &&& samples.len() == count
                &&& forall|i: int|
                    0 <= i < count ==> #[trigger] samples[i] == by_sample(readings)[i].value
            },
            Err(error) => readings.len() != count && error == ProbeError::SampleCount(
                readings.len() as usize,
            ),
        },
{
    lemma_sorted_length(readings);
}

/// A probe passes exactly where its samples can be read, are as many as were
/// asked for and keep its limits; of several probes that fail the first is
/// named.
pub proof fn law_the_first_failing_probe_is_named(execution: ExecutionConfig, all: Seq<Seq<char>>)
    requires
        execution.memory_probe_warmup_samples < execution.sample_count,
    ensures
        match profile_failure(execution, all, 0) {
            Some((index, error, samples)) => {
                &&& 0 <= index < execution.memory_probes@.len()
                &&& probe_outcome(execution, execution.memory_probes@[index], all) == Err::<
                    Seq<u32>,
                    (ProbeError, Seq<u32>),
                >((error, samples))
                &&& forall|i: int|
                    0 <= i < index ==> probe_outcome(
                        execution,
                        #[trigger] execution.memory_probes@[i],
                        all,
                    ) is Ok
            },
            None => forall|i: int|
                0 <= i < execution.memory_probes@.len() ==> probe_outcome(
                    execution,
                    #[trigger] execution.memory_probes@[i],
                    all,
                ) is Ok,
        },
{
    lemma_first_failure(execution, all, 0);
}

proof fn lemma_first_failure(execution: ExecutionConfig, all: Seq<Seq<char>>, from: int)
    requires
        0 <= from,
    ensures
        match profile_failure(execution, all, from) {
            Some((index, error, samples)) => {
                &&& from <= index < execution.memory_probes@.len()
                &&& probe_outcome(execution, execution.memory_probes@[index], all) == Err::<
                    Seq<u32>,
                    (ProbeError, Seq<u32>),
                >((error, samples))
                &&& forall|i: int|
                    from <= i < index ==> probe_outcome(
                        execution,
                        #[trigger] execution.memory_probes@[i],
                        all,
                    ) is Ok
            },
            None => forall|i: int|
                from <= i < execution.memory_probes@.len() ==> probe_outcome(
                    execution,
                    #[trigger] execution.memory_probes@[i],
                    all,
                ) is Ok,
        },
    decreases execution.memory_probes@.len() - from,
{
    if from < execution.memory_probes@.len() {
        lemma_first_failure(execution, all, from + 1);
    }
}

// ---------------------------------------------------------------------------
// How samples are read
// ---------------------------------------------------------------------------

proof fn lemma_hex_text(value: u32, line: Seq<char>)
    requires
        trim(line) == "0x"@ + hex8(value as nat) || trim(line) == "0x"@ + hex(value as nat),
    ensures
        hex_line(line) is Some,
        hex_value(hex_line(line)->0) == Ok::<u32, ProbeError>(value),
{
    reveal_strlit("0x");
    let n = value as nat;
    let text = trim(line);
    lemma_base_digits(n, 16);
    lemma_zero_padded(hex(n), 8, 16);
    law_numbers_are_read_back(n);
    law_padded_numbers_are_read_back(n);
    assert(text.subrange(0, 2) =~= "0x"@);
    let digits = text.skip(2);
    if text == "0x"@ + hex(n) {
        assert(digits =~= hex(n));
    } else {
        assert(digits =~= hex8(n));
        assert forall|i: int| 0 <= i < digits.len() implies is_hex_digit(#[trigger] digits[i]) by {
            let pad = digits.len() - hex(n).len();
            if i >= pad {
                assert(digits[i] == hex(n)[i - pad]);
            } else {
                assert(digits[i] == '0');
            }
        }
    }
    assert forall|i: int| 0 <= i < digits.len() implies is_hex_digit(#[trigger] digits[i]) by {
        if text == "0x"@ + hex(n) {
            assert(is_hex_digit(crate::text::base_text(n, 16)[i]));
        }
    }
    assert(is_hex_digit(digits[0]));
    assert(crate::text::unsigned_digits(digits) == digits);
}

proof fn lemma_value_line(all: Seq<Seq<char>>, from: int, k: int)
    requires
        0 <= from <= k < all.len(),
        forall|j: int|
            from <= j < k ==> hex_line(#[trigger] all[j]) is None && !contains(
                all[j],
                "SEDS_PROBE "@,
            ),
        hex_line(all[k]) is Some || contains(all[k], "SEDS_PROBE "@),
    ensures
        value_line(all, from) == if contains(all[k], "SEDS_PROBE "@) {
            None
        } else {
            hex_line(all[k])
        },
    decreases k - from,
{
    if from < k {
        lemma_value_line(all, from + 1, k);
    }
}

/// The line says no value: what it holds is not `0x` and hexadecimal digits.
pub open spec fn says_no_value(line: Seq<char>) -> bool {
    let text = trim(line);
    ||| text.len() <= 2
    ||| text[0] != '0'
    ||| text[1] != 'x'
    ||| exists|i: int|
        2 <= i < text.len() && !('0' <= #[trigger] text[i] <= '9' || 'a' <= text[i] <= 'f' || 'A'
            <= text[i] <= 'F')
}

proof fn lemma_says_no_value(line: Seq<char>)
    ensures
        says_no_value(line) <==> hex_line(line) is None,
{
    reveal_strlit("0x");
    let text = trim(line);
    if text.len() >= 2 && text[0] == '0' && text[1] == 'x' {
        assert(text.subrange(0, 2) =~= "0x"@);
        let digits = text.skip(2);
        if hex_line(line) is Some {
            assert forall|i: int| 2 <= i < text.len() implies '0' <= #[trigger] text[i] <= '9'
                || 'a' <= text[i] <= 'f' || 'A' <= text[i] <= 'F' by {
                assert(is_hex_digit(digits[i - 2]));
            }
        }
        if !says_no_value(line) {
            assert forall|i: int| 0 <= i < digits.len() implies is_hex_digit(
                #[trigger] digits[i],
            ) by {
                assert(digits[i] == text[i + 2]);
            }
        }
    } else if text.len() >= 2 {
        assert(text.subrange(0, 2)[0] == text[0]);
        assert(text.subrange(0, 2)[1] == text[1]);
    }
}

/// A sample is read from the line that its probe marks and that ends in its
/// number, and from the first value behind it, in hexadecimal; a further probe
/// before any value leaves the sample without one.
pub proof fn law_samples_are_read_from_their_lines(
    all: Seq<Seq<char>>,
    prefix: Seq<char>,
    i: int,
    k: int,
    sample: usize,
    value: u32,
)
    requires
        0 <= i < k < all.len(),
        all[i] == prefix + dec(sample as nat),
        forall|j: int|
            i < j < k ==> says_no_value(#[trigger] all[j]) && !contains(all[j], "SEDS_PROBE "@),
    ensures
        !contains(all[k], "SEDS_PROBE "@) && (trim(all[k]) == "0x"@ + hex8(value as nat) || trim(
            all[k],
        ) == "0x"@ + hex(value as nat)) ==> line_reading(all, prefix, i) == Some(
            Ok::<Reading, ProbeError>(Reading { sample, value }),
        ),
        contains(all[k], "SEDS_PROBE "@) ==> line_reading(all, prefix, i) == Some(
            Err::<Reading, ProbeError>(ProbeError::ValueMissing),
        ),
{
    let digits = dec(sample as nat);
    let line = all[i];
    assert(line.subrange(0, prefix.len() as int) =~= prefix);
    assert(occurs_at(line, prefix, 0));
    assert(line.skip(prefix.len() as int) =~= digits);
    lemma_decimal_digits(sample as nat);
    lemma_trimmed_digits(digits);
    law_numbers_are_read_back(sample as nat);
    lemma_base_digits(sample as nat, 10);
    assert(is_digit(digits[0]));
    assert(crate::text::unsigned_digits(digits) == digits);
    assert(number(digits, 10, usize::MAX as int) == Some(sample as int));
    assert forall|j: int| i < j < k implies hex_line(#[trigger] all[j]) is None && !contains(
        all[j],
        "SEDS_PROBE "@,
    ) by {
        lemma_says_no_value(all[j]);
    }
    if contains(all[k], "SEDS_PROBE "@) {
        lemma_value_line(all, i + 1, k);
    } else if trim(all[k]) == "0x"@ + hex8(value as nat) || trim(all[k]) == "0x"@ + hex(
        value as nat,
    ) {
        lemma_hex_text(value, all[k]);
        lemma_value_line(all, i + 1, k);
    }
}

proof fn lemma_trimmed_digits(digits: Seq<char>)
    requires
        digits.len() > 0,
        is_digit(digits[0]),
        is_digit(digits.last()),
    ensures
        trim(digits) == digits,
{
    assert(!crate::text::is_space(digits[0]));
    assert(!crate::text::is_space(digits.last()));
}

/// Lines are read one after the other: one that the probe does not mark adds
/// nothing, one that it marks adds its reading, and the first that cannot be
/// read ends the reading.
pub proof fn law_readings_are_added_line_by_line(all: Seq<Seq<char>>, prefix: Seq<char>, end: int)
    requires
        0 <= end < all.len(),
    ensures
        readings_in(all, prefix, 0) == Ok::<Seq<Reading>, ProbeError>(Seq::empty()),
        !contains(all[end], prefix) ==> readings_in(all, prefix, end + 1) == readings_in(
            all,
            prefix,
            end,
        ),
        readings_in(all, prefix, end) is Err ==> readings_in(all, prefix, end + 1) == readings_in(
            all,
            prefix,
            end,
        ),
        readings_in(all, prefix, end) is Ok && contains(all[end], prefix) ==> match line_reading(
            all,
            prefix,
            end,
        ) {
            None => false,
            Some(Ok(reading)) => readings_in(all, prefix, end + 1) == Ok::<Seq<Reading>, ProbeError>(
                readings_in(all, prefix, end)->Ok_0.push(reading),
            ),
            Some(Err(error)) => readings_in(all, prefix, end + 1) == Err::<Seq<Reading>, ProbeError>(
                error,
            ),
        },
{
    lemma_find_from(all[end], prefix, 0);
    if contains(all[end], prefix) {
        let at = choose|at: int| occurs_at(all[end], prefix, at);
        assert(0 <= at);
    }
}

proof fn lemma_digits_span(text: Seq<char>, at: int, end: int)
    requires
        0 <= at <= end <= text.len(),
        forall|i: int| at <= i < end ==> is_digit(#[trigger] text[i]),
        end < text.len() ==> !is_digit(text[end]),
    ensures
        digits_end(text, at) == end,
    decreases end - at,
{
    if at < end {
        lemma_digits_span(text, at + 1, end);
    }
}

proof fn lemma_line_span(text: Seq<char>, at: int, end: int)
    requires
        0 <= at <= end <= text.len(),
        forall|i: int| at <= i < end ==> !line_break(#[trigger] text[i]),
        end < text.len() ==> line_break(text[end]),
    ensures
        line_end(text, at) == end,
    decreases end - at,
{
    if at < end {
        lemma_line_span(text, at + 1, end);
    }
}

/// What a value is written with: `0x` and eight hexadecimal digits.
proof fn lemma_value_chars(value: u32)
    ensures
        ({
            let text = "0x"@ + hex8(value as nat);
            &&& text.len() == 10
            &&& trim(text) == text
            &&& forall|i: int|
                0 <= i < text.len() ==> (#[trigger] text[i]) == 'x' || '0' <= text[i] <= '9' || 'a'
                    <= text[i] <= 'f'
        }),
{
    reveal_strlit("0x");
    let n = value as nat;
    let text = "0x"@ + hex8(n);
    law_numbers_are_read_back(n);
    law_padded_numbers_are_read_back(n);
    assert forall|i: int| 0 <= i < text.len() implies (#[trigger] text[i]) == 'x' || '0' <= text[i]
        <= '9' || 'a' <= text[i] <= 'f' by {
        if i >= 2 {
            assert(text[i] == hex8(n)[i - 2]);
            let pad = 8 - hex(n).len();
            if i - 2 >= pad {
                assert(hex8(n)[i - 2] == hex(n)[i - 2 - pad]);
            }
        }
    }
    assert(text[9] == 'x' || '0' <= text[9] <= '9' || 'a' <= text[9] <= 'f');
    assert(!crate::text::is_space(text[0]));
    assert(!crate::text::is_space(text.last()));
}

/// A node's sample is read from its number, which follows the mark, and from
/// the value on the next line.
pub proof fn law_node_samples_are_read_back(
    output: Seq<char>,
    at: int,
    sample: usize,
    value: u32,
    rest: Seq<char>,
)
    requires
        0 <= at <= output.len(),
        output.skip(at) == dec(sample as nat) + ("\n"@ + (("0x"@ + hex8(value as nat)) + ("\n"@
            + rest))),
    ensures
        reading_at(output, at) == Ok::<Reading, ProbeError>(Reading { sample, value }),
        digits_end(output, at) == at + dec(sample as nat).len(),
{
    reveal_strlit("\n");
    let digits = dec(sample as nat);
    let shown = "0x"@ + hex8(value as nat);
    let tail = output.skip(at);
    let end = at + digits.len();
    lemma_decimal_digits(sample as nat);
    lemma_value_chars(value);
    assert(tail.len() >= digits.len() + 12);
    assert forall|i: int| at <= i < end implies is_digit(#[trigger] output[i]) by {
        assert(output[i] == tail[i - at]);
        assert(tail[i - at] == digits[i - at]);
    }
    assert(output[end] == tail[digits.len() as int]);
    assert(output[end] == '\n');
    lemma_digits_span(output, at, end);
    assert(output.subrange(at, end) =~= digits);
    law_numbers_are_read_back(sample as nat);
    assert(is_digit(digits[0]));
    assert(crate::text::unsigned_digits(digits) == digits);
    assert(sample_number(digits) == Ok::<usize, ProbeError>(sample));
    assert forall|i: int| 0 <= i < 10 implies #[trigger] output[end + 1 + i] == shown[i] by {
        assert(output[end + 1 + i] == tail[digits.len() + 1 + i]);
    }
    assert(output[end + 11] == '\n') by {
        assert(output[end + 11] == tail[digits.len() as int + 11]);
    }
    let next = next_probe(output, end);
    let mark = "SEDS_BAY_PROBE "@;
    assert(next >= end + 12) by {
        reveal_strlit("SEDS_BAY_PROBE ");
        lemma_find_from(output, mark, end);
        if next < end + 12 {
            assert(occurs_at(output, mark, next));
            assert(output.subrange(next, next + mark.len())[0] == output[next]);
            assert(mark[0] == 'S');
            if end < next < end + 11 {
                assert(output[end + 1 + (next - end - 1)] == shown[next - end - 1]);
            }
        }
    }
    lemma_find_from(output, mark, end);
    assert(next <= output.len());
    let part = output.subrange(end, next);
    assert(part[0] == '\n');
    lemma_line_span(part, 0, 0);
    assert(part.subrange(0, 0) =~= Seq::<char>::empty());
    assert(hex_line(part.subrange(0, 0)) is None) by {
        lemma_says_no_value(Seq::empty());
        assert(trim(Seq::<char>::empty()).len() == 0);
    }
    assert forall|i: int| 1 <= i < 11 implies !line_break(#[trigger] part[i]) by {
        assert(part[i] == output[end + 1 + (i - 1)]);
        assert(shown[i - 1] == 'x' || '0' <= shown[i - 1] <= '9' || 'a' <= shown[i - 1] <= 'f');
    }
    assert(part[11] == output[end + 11]);
    lemma_line_span(part, 1, 11);
    assert(part.subrange(1, 11) =~= shown) by {
        assert forall|i: int| 0 <= i < 10 implies part.subrange(1, 11)[i] == shown[i] by {
            assert(output[end + 1 + i] == shown[i]);
        }
    }
    lemma_hex_text(value, shown);
    reveal_with_fuel(hex_line_from, 3);
}

/// A node's samples are read one after the other, each from behind the next
/// mark; where there is no further mark there is no further sample.
pub proof fn law_node_samples_follow_each_other(
    output: Seq<char>,
    prefix: Seq<char>,
    cursor: int,
    at: int,
    sample: usize,
    value: u32,
    rest: Seq<char>,
)
    requires
        prefix.len() > 0,
        0 <= cursor <= at <= output.len(),
        forall|k: int| cursor <= k < at ==> !#[trigger] occurs_at(output, prefix, k),
        output.skip(at) == prefix + (dec(sample as nat) + ("\n"@ + (("0x"@ + hex8(value as nat)) + (
        "\n"@ + rest)))),
    ensures
        match readings_from(output, prefix, at + prefix.len() + dec(sample as nat).len()) {
            Ok(later) => readings_from(output, prefix, cursor) == Ok::<Seq<Reading>, ProbeError>(
                seq![Reading { sample, value }] + later,
            ),
            Err(error) => readings_from(output, prefix, cursor) == Err::<Seq<Reading>, ProbeError>(
                error,
            ),
        },
{
    let tail = output.skip(at);
    assert(tail.len() >= prefix.len());
    assert(output.len() == at + tail.len());
    assert(output.subrange(at, at + prefix.len()) =~= prefix) by {
        assert(tail.take(prefix.len() as int) =~= prefix);
        assert forall|i: int| 0 <= i < prefix.len() implies output.subrange(
            at,
            at + prefix.len(),
        )[i] == prefix[i] by {
            assert(tail[i] == prefix[i]);
        }
    }
    assert(occurs_at(output, prefix, at));
    lemma_find_from(output, prefix, cursor);
    let found = find_from(output, prefix, cursor)->0;
    assert(found == at) by {
        if found < at {
            assert(!occurs_at(output, prefix, found));
        }
    }
    let begin = at + prefix.len();
    assert(output.skip(begin) =~= tail.skip(prefix.len() as int));
    assert(tail.skip(prefix.len() as int) =~= dec(sample as nat) + ("\n"@ + (("0x"@ + hex8(
        value as nat,
    )) + ("\n"@ + rest))));
    law_node_samples_are_read_back(output, begin, sample, value, rest);
}

/// Where no mark follows there are no more samples.
pub proof fn law_no_mark_no_sample(output: Seq<char>, prefix: Seq<char>, cursor: int)
    requires
        0 <= cursor,
        forall|k: int| cursor <= k ==> !#[trigger] occurs_at(output, prefix, k),
    ensures
        readings_from(output, prefix, cursor) == Ok::<Seq<Reading>, ProbeError>(Seq::empty()),
{
    lemma_find_from(output, prefix, cursor);
}

} // verus!
