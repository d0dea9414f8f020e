//! Reports as tables for a terminal.

use vstd::prelude::*;
use vstd::utf8::encode_utf8;

use crate::bay::BayReport;
use crate::double::{
    as_double, law_small_numbers_are_exact, law_the_nearest_multiple_is_taken, nearest, round_double,
    round_nearest,
};
use crate::peripherals::DeviceReport;
use crate::probes::MemoryProbeReport;
use crate::simulator::SimulationReport;
use crate::text::{
    contains, dec, join, join_texts, lemma_pieces_are_kept, opt_text, signed_dec, texts, Text,
};
use crate::update::UpdateStrategy;

verus! {

// ---------------------------------------------------------------------------
// Tables
// ---------------------------------------------------------------------------

/// The texts that `headers` hold.
pub open spec fn words(headers: Seq<&str>) -> Seq<Seq<char>> {
    Seq::new(headers.len(), |i: int| headers[i]@)
}

pub open spec fn cells(rows: Seq<Vec<String>>) -> Seq<Seq<Seq<char>>> {
    Seq::new(rows.len(), |i: int| texts(rows[i]@))
}

/// How many bytes a text takes in UTF-8.
pub open spec fn byte_length(text: Seq<char>) -> int {
    encode_utf8(text).len() as usize as int
}

/// The width of column `c`: the longest text of its header and its first `end`
/// rows.
pub open spec fn column_width(
    headers: Seq<Seq<char>>,
    rows: Seq<Seq<Seq<char>>>,
    c: int,
    end: int,
) -> int
    decreases end,
{
    if end <= 0 {
        byte_length(headers[c])
    } else {
        let width = column_width(headers, rows, c, end - 1);
        if c < rows[end - 1].len() && byte_length(rows[end - 1][c]) > width {
            byte_length(rows[end - 1][c])
        } else {
            width
        }
    }
}

pub open spec fn column_widths(headers: Seq<Seq<char>>, rows: Seq<Seq<Seq<char>>>) -> Seq<int> {
    Seq::new(headers.len(), |c: int| column_width(headers, rows, c, rows.len() as int))
}

pub open spec fn filled(c: char, count: int) -> Seq<char> {
    Seq::new(
        if count < 0 {
            0
        } else {
            count as nat
        },
        |i: int| c,
    )
}

/// `text` with blanks behind it, up to `width` characters.
pub open spec fn padded(text: Seq<char>, width: int) -> Seq<char> {
    text + filled(' ', width - text.len())
}

pub open spec fn border_text(widths: Seq<int>) -> Seq<char> {
    "+"@ + join(Seq::new(widths.len(), |c: int| filled('-', widths[c] + 2)), "+"@) + "+"@
}

pub open spec fn row_text(row: Seq<Seq<char>>, widths: Seq<int>) -> Seq<char> {
    "| "@ + join(Seq::new(row.len(), |c: int| padded(row[c], widths[c])), " | "@) + " |"@
}

pub open spec fn table_lines(headers: Seq<Seq<char>>, rows: Seq<Seq<Seq<char>>>) -> Seq<Seq<char>> {
    let widths = column_widths(headers, rows);
    seq![border_text(widths), row_text(headers, widths), border_text(widths)] + Seq::new(
        rows.len(),
        |r: int| row_text(rows[r], widths),
    ) + seq![border_text(widths)]
}

pub open spec fn table_text(headers: Seq<Seq<char>>, rows: Seq<Seq<Seq<char>>>) -> Seq<char> {
    join(table_lines(headers, rows), "\n"@)
}

fn fill(c: char, count: usize) -> (res: Vec<char>)
    ensures
        res@ == filled(c, count as int),
{
    let mut res: Vec<char> = Vec::new();
    while res.len() < count
        invariant
            res@.len() <= count,
            res@ == filled(c, res@.len() as int),
        decreases count - res@.len(),
    {
        res.push(c);
        assert(res@ =~= filled(c, res@.len() as int));
    }
    res
}

fn pad(text: &str, width: usize) -> (res: String)
    ensures
        res@ == padded(text@, width as int),
{
    let length: usize = text.unicode_len();
    if length >= width {
        assert(text@ + filled(' ', width - text@.len()) =~= text@);
        return text.to_owned();
    }
    let blanks = fill(' ', width - length);
    Text::new(text).chars(blanks.as_slice()).done()
}

fn measure(headers: &[&str], rows: &[Vec<String>], c: usize) -> (res: usize)
    requires
        c < headers@.len(),
    ensures
        res == column_width(words(headers@), cells(rows@), c as int, rows@.len() as int),
{
    let mut width: usize = headers[c].len();
    let mut r: usize = 0;
    while r < rows.len()
        invariant
            c < headers@.len(),
            r <= rows@.len(),
            width == column_width(words(headers@), cells(rows@), c as int, r as int),
        decreases rows@.len() - r,
    {
        let row = &rows[r];
        assert(cells(rows@)[r as int] == texts(row@));
        if c < row.len() {
            let length: usize = row[c].as_str().len();
            if length > width {
                width = length;
            }
        }
        r = r + 1;
    }
    width
}

/// The widths are those of the columns.
spec fn measured(widths: Seq<usize>, expected: Seq<int>) -> bool {
    &&& widths.len() == expected.len()
    &&& forall|c: int| 0 <= c < widths.len() ==> (#[trigger] widths[c]) == expected[c]
}

proof fn lemma_texts_push(parts: Seq<String>, part: String)
    ensures
        texts(parts.push(part)) == texts(parts).push(part@),
{
    assert(texts(parts.push(part)) =~= texts(parts).push(part@));
}

fn render_border(widths: &[usize], Ghost(expected): Ghost<Seq<int>>) -> (res: String)
    requires
        measured(widths@, expected),
    ensures
        res@ == border_text(expected),
{
    let ghost dashes = Seq::new(expected.len(), |c: int| filled('-', expected[c] + 2));
    let mut parts: Vec<String> = Vec::new();
    let mut c: usize = 0;
    assert(texts(parts@) =~= dashes.take(0));
    while c < widths.len()
        invariant
            c <= widths@.len(),
            measured(widths@, expected),
            dashes == Seq::new(expected.len(), |c: int| filled('-', expected[c] + 2)),
            texts(parts@) == dashes.take(c as int),
        decreases widths@.len() - c,
    {
        let run = fill('-', widths[c]);
        let part = Text::new("--").chars(run.as_slice()).done();
        proof {
            reveal_strlit("--");
            assert(part@ =~= filled('-', expected[c as int] + 2));
            lemma_texts_push(parts@, part);
            assert(dashes.take(c + 1) =~= dashes.take(c as int).push(part@));
        }
        parts.push(part);
        c = c + 1;
    }
    assert(dashes.take(c as int) =~= dashes);
    let joined = join_texts(parts.as_slice(), "+");
    Text::new("+").str(joined.as_str()).str("+").done()
}

fn render_row(row: &[&str], widths: &[usize], Ghost(expected): Ghost<Seq<int>>) -> (res: String)
    requires
        row@.len() <= widths@.len(),
        measured(widths@, expected),
    ensures
        res@ == row_text(words(row@), expected),
{
    let ghost shown = Seq::new(row@.len(), |c: int| padded(words(row@)[c], expected[c]));
    let mut parts: Vec<String> = Vec::new();
    let mut c: usize = 0;
    assert(texts(parts@) =~= shown.take(0));
    while c < row.len()
        invariant
            c <= row@.len() <= widths@.len(),
            measured(widths@, expected),
            shown == Seq::new(row@.len(), |c: int| padded(words(row@)[c], expected[c])),
            texts(parts@) == shown.take(c as int),
        decreases row@.len() - c,
    {
        let part = pad(row[c], widths[c]);
        proof {
            lemma_texts_push(parts@, part);
            assert(shown.take(c + 1) =~= shown.take(c as int).push(part@));
        }
        parts.push(part);
        c = c + 1;
    }
    assert(shown.take(c as int) =~= shown);
    let joined = join_texts(parts.as_slice(), " | ");
    Text::new("| ").str(joined.as_str()).str(" |").done()
}

fn borrow_texts<'a>(row: &'a [String]) -> (res: Vec<&'a str>)
    ensures
        words(res@) == texts(row@),
{
    let mut res: Vec<&str> = Vec::new();
    let mut i: usize = 0;
    while i < row.len()
        invariant
            i <= row@.len(),
            res@.len() == i,
            forall|k: int| 0 <= k < i ==> (#[trigger] res@[k])@ == row@[k]@,
        decreases row@.len() - i,
    {
        res.push(row[i].as_str());
        i = i + 1;
    }
    assert(words(res@) =~= texts(row@));
    res
}

/// A table with a frame. A column is as wide as its longest text.
pub fn table(headers: &[&str], rows: Vec<Vec<String>>) -> (res: String)
    requires
        forall|r: int| 0 <= r < rows@.len() ==> (#[trigger] rows@[r])@.len() <= headers@.len(),
    ensures
        res@ == table_text(words(headers@), cells(rows@)),
{
    let ghost expected = column_widths(words(headers@), cells(rows@));
    let mut widths: Vec<usize> = Vec::new();
    let mut c: usize = 0;
    while c < headers.len()
        invariant
            c <= headers@.len(),
            widths@.len() == c,
            expected == column_widths(words(headers@), cells(rows@)),
            forall|k: int| 0 <= k < c ==> (#[trigger] widths@[k]) == expected[k],
        decreases headers@.len() - c,
    {
        widths.push(measure(headers, rows.as_slice(), c));
        c = c + 1;
    }
    let border = render_border(widths.as_slice(), Ghost(expected));
    let header = render_row(headers, widths.as_slice(), Ghost(expected));
    let ghost all = table_lines(words(headers@), cells(rows@));
    let mut lines_shown: Vec<String> = Vec::new();
    let top = border.clone();
    let middle = border.clone();
    assert(texts(lines_shown@) =~= all.take(0));
    proof {
        lemma_texts_push(lines_shown@, top);
    }
    lines_shown.push(top);
    proof {
        lemma_texts_push(lines_shown@, header);
    }
    lines_shown.push(header);
    proof {
        lemma_texts_push(lines_shown@, middle);
    }
    lines_shown.push(middle);
    assert(texts(lines_shown@) =~= all.take(3));
    let mut r: usize = 0;
    while r < rows.len()
        invariant
            r <= rows@.len(),
            measured(widths@, expected),
            expected.len() == headers@.len(),
            forall|r: int|
                0 <= r < rows@.len() ==> (#[trigger] rows@[r])@.len() <= headers@.len(),
            expected == column_widths(words(headers@), cells(rows@)),
            all == table_lines(words(headers@), cells(rows@)),
            all.len() == rows@.len() + 4,
            texts(lines_shown@) == all.take(3 + r),
        decreases rows@.len() - r,
    {
        let row = borrow_texts(rows[r].as_slice());
        assert(words(row@).len() == row@.len() && texts(rows@[r as int]@).len()
            == rows@[r as int]@.len());
        let line = render_row(row.as_slice(), widths.as_slice(), Ghost(expected));
        proof {
            lemma_texts_push(lines_shown@, line);
            assert(line@ == row_text(cells(rows@)[r as int], expected));
            assert(all.take(3 + r + 1) =~= all.take(3 + r as int).push(line@));
        }
        lines_shown.push(line);
        r = r + 1;
    }
    proof {
        lemma_texts_push(lines_shown@, border);
    }
    lines_shown.push(border);
    assert(texts(lines_shown@) =~= all);
    join_texts(lines_shown.as_slice(), "\n")
}

// ---------------------------------------------------------------------------
// Aligned tables
// ---------------------------------------------------------------------------

/// A text has no more characters than bytes.
proof fn lemma_no_more_characters_than_bytes(text: Seq<char>)
    ensures
        text.len() <= encode_utf8(text).len(),
    decreases text.len(),
{
    if text.len() > 0 {
        lemma_no_more_characters_than_bytes(text.drop_first());
    }
}

proof fn lemma_column_is_wide_enough(
    headers: Seq<Seq<char>>,
    rows: Seq<Seq<Seq<char>>>,
    c: int,
    r: int,
    end: int,
)
    requires
        0 <= r < end <= rows.len(),
        0 <= c < rows[r].len(),
    ensures
        byte_length(rows[r][c]) <= column_width(headers, rows, c, end),
    decreases end,
{
    if r < end - 1 {
        lemma_column_is_wide_enough(headers, rows, c, r, end - 1);
    }
}

proof fn lemma_column_holds_its_header(
    headers: Seq<Seq<char>>,
    rows: Seq<Seq<Seq<char>>>,
    c: int,
    end: int,
)
    requires
        0 <= end <= rows.len(),
    ensures
        byte_length(headers[c]) <= column_width(headers, rows, c, end),
    decreases end,
{
    if end > 0 {
        lemma_column_holds_its_header(headers, rows, c, end - 1);
    }
}

/// How many characters the first `end` parts and what is between them take.
spec fn joined_length(lengths: Seq<int>, separator: int, end: int) -> int
    decreases end,
{
    if end <= 0 {
        0
    } else if end == 1 {
        lengths[0]
    } else {
        joined_length(lengths, separator, end - 1) + separator + lengths[end - 1]
    }
}

proof fn lemma_joined_length(parts: Seq<Seq<char>>, separator: Seq<char>, lengths: Seq<int>)
    requires
        parts.len() <= lengths.len(),
        forall|i: int| 0 <= i < parts.len() ==> (#[trigger] parts[i]).len() == lengths[i],
    ensures
        join(parts, separator).len() == joined_length(
            lengths,
            separator.len() as int,
            parts.len() as int,
        ),
    decreases parts.len(),
{
    if parts.len() > 1 {
        let init = parts.drop_last();
        assert forall|i: int| 0 <= i < init.len() implies (#[trigger] init[i]).len()
            == lengths[i] by {
            assert(init[i] == parts[i]);
        }
        lemma_joined_length(init, separator, lengths);
    }
}

/// Widening each part by two and parting them by one takes as much as parting
/// them by three, and two more at the ends.
proof fn lemma_frames_meet(widths: Seq<int>, wider: Seq<int>, end: int)
    requires
        1 <= end <= widths.len(),
        wider == Seq::new(widths.len(), |c: int| widths[c] + 2),
    ensures
        joined_length(wider, 1, end) == joined_length(widths, 3, end) + 2,
    decreases end,
{
    if end > 1 {
        lemma_frames_meet(widths, wider, end - 1);
    }
}

/// The lengths of the texts are numbers of this machine.
pub open spec fn lengths_fit(headers: Seq<Seq<char>>, rows: Seq<Seq<Seq<char>>>) -> bool {
    &&& forall|c: int|
        0 <= c < headers.len() ==> encode_utf8(#[trigger] headers[c]).len() <= usize::MAX
    &&& forall|r: int, c: int|
        0 <= r < rows.len() && 0 <= c < rows[r].len() ==> encode_utf8(#[trigger] rows[r][c]).len()
            <= usize::MAX
}

proof fn lemma_row_length(row: Seq<Seq<char>>, widths: Seq<int>)
    requires
        row.len() == widths.len(),
        forall|c: int| 0 <= c < row.len() ==> (#[trigger] row[c]).len() <= widths[c],
    ensures
        row_text(row, widths).len() == 4 + joined_length(widths, 3, widths.len() as int),
{
    reveal_strlit("| ");
    reveal_strlit(" | ");
    reveal_strlit(" |");
    let parts = Seq::new(row.len(), |c: int| padded(row[c], widths[c]));
    assert forall|c: int| 0 <= c < parts.len() implies (#[trigger] parts[c]).len() == widths[c] by {
        assert(row[c].len() <= widths[c]);
    }
    lemma_joined_length(parts, " | "@, widths);
}

/// Where every row fills every column of a table, all its lines have the same
/// number of characters.
pub proof fn law_tables_are_aligned(headers: Seq<Seq<char>>, rows: Seq<Seq<Seq<char>>>, i: int)
    requires
        headers.len() > 0,
        forall|r: int| 0 <= r < rows.len() ==> (#[trigger] rows[r]).len() == headers.len(),
        lengths_fit(headers, rows),
        0 <= i < table_lines(headers, rows).len(),
    ensures
        table_lines(headers, rows)[i].len() == table_lines(headers, rows)[0].len(),
{
    let widths = column_widths(headers, rows);
    let wider = Seq::new(widths.len(), |c: int| widths[c] + 2);
    let dashes = Seq::new(widths.len(), |c: int| filled('-', widths[c] + 2));
    reveal_strlit("+");
    assert forall|c: int| 0 <= c < headers.len() implies (#[trigger] headers[c]).len()
        <= widths[c] by {
        lemma_column_holds_its_header(headers, rows, c, rows.len() as int);
        lemma_no_more_characters_than_bytes(headers[c]);
    }
    assert forall|c: int| 0 <= c < dashes.len() implies (#[trigger] dashes[c]).len() == wider[c] by {
        assert(headers[c].len() <= widths[c]);
    }
    lemma_joined_length(dashes, "+"@, wider);
    lemma_frames_meet(widths, wider, widths.len() as int);
    lemma_row_length(headers, widths);
    if 3 <= i < 3 + rows.len() {
        let r = i - 3;
        assert forall|c: int| 0 <= c < rows[r].len() implies (#[trigger] rows[r][c]).len()
            <= widths[c] by {
            lemma_column_is_wide_enough(headers, rows, c, r, rows.len() as int);
            lemma_no_more_characters_than_bytes(rows[r][c]);
        }
        lemma_row_length(rows[r], widths);
    }
}

// ---------------------------------------------------------------------------
// Values
// ---------------------------------------------------------------------------

pub open spec fn pass_text(value: bool) -> Seq<char> {
    if value {
        "PASS"@
    } else {
        "FAIL"@
    }
}

pub fn pass(value: bool) -> (res: String)
    ensures
        res@ == pass_text(value),
{
    if value {
        "PASS".to_owned()
    } else {
        "FAIL".to_owned()
    }
}

pub open spec fn strategy_text(value: UpdateStrategy) -> Seq<char> {
    match value {
        UpdateStrategy::DualSlot => "dual slot"@,
        UpdateStrategy::DeltaOnly => "delta only"@,
        UpdateStrategy::RecoveryTransport => "recovery transport"@,
    }
}

pub fn strategy(value: UpdateStrategy) -> (res: &'static str)
    ensures
        res@ == strategy_text(value),
{
    match value {
        UpdateStrategy::DualSlot => "dual slot",
        UpdateStrategy::DeltaOnly => "delta only",
        UpdateStrategy::RecoveryTransport => "recovery transport",
    }
}

/// Hundredths of a KiB.
pub open spec fn kib_hundredths(value: int) -> int {
    nearest(as_double(value, 1) * 25, 256)
}

/// A size in bytes and, from one KiB on, in KiB to two places.
pub open spec fn bytes_text(value: int) -> Seq<char> {
    if value >= 1024 {
        let hundredths = kib_hundredths(value);
        ""@ + dec(value as nat) + " B ("@ + dec((hundredths / 100) as nat) + "."@ + dec(
            (hundredths % 100 / 10) as nat,
        ) + dec((hundredths % 10) as nat) + " KiB)"@
    } else {
        ""@ + dec(value as nat) + " B"@
    }
}

/// A size in bytes and, from one KiB on, in KiB to two places.
pub fn bytes(value: u64) -> (res: String)
    ensures
        res@ == bytes_text(value as int),
{
    if value >= 1024 {
        let hundredths: u64 = round_nearest(round_double(value as u128, 1) * 25, 256) as u64;
        Text::new("").dec(value).str(" B (").dec(hundredths / 100).str(".").dec(
            hundredths % 100 / 10,
        ).dec(hundredths % 10).str(" KiB)").done()
    } else {
        Text::new("").dec(value).str(" B").done()
    }
}

fn number(value: u64) -> (res: String)
    ensures
        res@ == ""@ + dec(value as nat),
{
    Text::new("").dec(value).done()
}

/// The values two by two. The last one may stand alone.
pub open spec fn pair_rows(values: Seq<Seq<char>>) -> Seq<Seq<Seq<char>>> {
    Seq::new(
        (values.len() + 1) / 2,
        |i: int|
            seq![
                values[2 * i],
                if 2 * i + 1 < values.len() {
                    values[2 * i + 1]
                } else {
                    ""@
                },
            ],
    )
}

pub open spec fn pairs_text(values: Seq<Seq<char>>) -> Seq<char> {
    if values.len() == 0 {
        "No register snapshot returned."@
    } else {
        table_text(seq!["Register"@, "Value"@], pair_rows(values))
    }
}

proof fn lemma_cells_push(rows: Seq<Vec<String>>, row: Vec<String>)
    ensures
        cells(rows.push(row)) == cells(rows).push(texts(row@)),
{
    assert(cells(rows.push(row)) =~= cells(rows).push(texts(row@)));
}

fn row_of_two(a: String, b: String) -> (res: Vec<String>)
    ensures
        res@.len() == 2,
        texts(res@) == seq![a@, b@],
{
    let mut row: Vec<String> = Vec::new();
    row.push(a);
    row.push(b);
    assert(texts(row@) =~= seq![a@, b@]);
    row
}

fn row_of_three(a: &str, b: String, c: String) -> (res: Vec<String>)
    ensures
        res@.len() == 3,
        texts(res@) == seq![a@, b@, c@],
{
    let mut row: Vec<String> = Vec::new();
    row.push(a.to_owned());
    row.push(b);
    row.push(c);
    assert(texts(row@) =~= seq![a@, b@, c@]);
    row
}

/// Register names and their values, two by two.
pub fn pairs(values: &[String]) -> (res: String)
    ensures
        res@ == pairs_text(texts(values@)),
{
    let count: usize = values.len();
    if count == 0 {
        return "No register snapshot returned.".to_owned();
    }
    let ghost all = pair_rows(texts(values@));
    let mut rows: Vec<Vec<String>> = Vec::new();
    let mut at: usize = 0;
    assert(cells(rows@) =~= all.take(0));
    while at < count
        invariant
            at <= count == values@.len(),
            count > 0,
            at < count ==> at == 2 * rows@.len(),
            at == count ==> rows@.len() == (count + 1) / 2,
            all == pair_rows(texts(values@)),
            rows@.len() <= all.len(),
            cells(rows@) == all.take(rows@.len() as int),
            forall|r: int| 0 <= r < rows@.len() ==> (#[trigger] rows@[r])@.len() == 2,
        decreases count - at,
    {
        let name = values[at].clone();
        let (value, next): (String, usize) = if count - at > 1 {
            (values[at + 1].clone(), if count - at > 2 {
                at + 2
            } else {
                count
            })
        } else {
            ("".to_owned(), count)
        };
        let row = row_of_two(name, value);
        proof {
            lemma_cells_push(rows@, row);
            let i = rows@.len() as int;
            assert(texts(row@) =~= all[i]);
            assert(all.take(i + 1) =~= all.take(i).push(all[i]));
        }
        rows.push(row);
        at = next;
    }
    assert(all.take(rows@.len() as int) =~= all);
    let headers = ["Register", "Value"];
    assert(words(headers@) =~= seq!["Register"@, "Value"@]);
    table(headers.as_slice(), rows)
}

// ---------------------------------------------------------------------------
// One board
// ---------------------------------------------------------------------------

pub open spec fn all_fault_tests_passed(devices: Seq<DeviceReport>) -> bool {
    forall|i: int| 0 <= i < devices.len() ==> (#[trigger] devices[i]).fault_test_passed
}

/// How many of the first `end` devices have a fault schedule.
pub open spec fn fault_schedules(devices: Seq<DeviceReport>, end: int) -> int
    decreases end,
{
    if end <= 0 {
        0
    } else {
        fault_schedules(devices, end - 1) + if devices[end - 1].faults_configured {
            1int
        } else {
            0
        }
    }
}

pub open spec fn summary_rows(report: SimulationReport) -> Seq<Seq<Seq<char>>> {
    let execution = report.execution;
    let traffic = report.traffic;
    seq![
        seq![
            "Artifact validation"@,
            "PASS"@,
            "firmware "@ + bytes_text(report.firmware_bytes as int) + ", bootloader "@
                + bytes_text(report.bootloader_bytes as int) + ", factory "@ + bytes_text(
                report.factory_bytes as int,
            ) + ", OTA "@ + match report.ota_bytes {
                Some(size) => bytes_text(size as int),
                None => "not packaged"@,
            },
        ],
        seq![
            "Physical memory"@,
            "PASS"@,
            "flash "@ + bytes_text(report.physical_flash_bytes as int) + ", RAM "@ + bytes_text(
                report.physical_ram_bytes as int,
            ),
        ],
        seq![
            "Firmware boot"@,
            pass_text(execution.firmware_boot_reached),
            ""@ + execution.backend@ + " backend, "@ + dec(execution.virtual_time_ms as nat)
                + " ms"@,
        ],
        seq![
            "Factory boot"@,
            pass_text(execution.factory_boot_reached),
            "bootloader selected valid application"@,
        ],
        seq![
            "Instruction execution"@,
            pass_text(execution.instruction_execution_observed),
            execution.elf@,
        ],
        seq![
            "Peripheral models"@,
            pass_text(all_fault_tests_passed(report.devices@)),
            ""@ + dec(report.devices@.len()) + " exercised; "@ + dec(
                fault_schedules(report.devices@, report.devices@.len() as int) as nat,
            ) + " fault-injection schedules passed"@,
        ],
        seq![
            "SEDSNet traffic model"@,
            pass_text(traffic.pool.allocation_failures == 0),
            ""@ + dec(traffic.packets_dispatched as nat) + " / "@ + dec(
                traffic.packets_attempted as nat,
            ) + " packets, pool high-water "@ + bytes_text(traffic.pool.high_water as int)
                + " / "@ + bytes_text(traffic.pool.capacity as int),
        ],
        seq![
            "OTA interruption matrix"@,
            "PASS"@,
            ""@ + strategy_text(report.update.strategy) + "; "@ + dec(report.update.chunks as nat)
                + " chunks; "@ + dec(report.update.interruption_points_tested as nat)
                + " interruption points"@,
        ],
        seq![
            "Firmware memory probes"@,
            "PASS"@,
            ""@ + dec(execution.memory_profile@.len()) + " thresholds satisfied"@,
        ],
    ]
}

pub open spec fn device_row(device: DeviceReport) -> Seq<Seq<char>> {
    seq![
        device.name@,
        device.kind@,
        ""@ + match opt_text(device.model) {
            Some(model) => model,
            None => "behavioral"@,
        } + " / "@ + match opt_text(device.bus) {
            Some(bus) => bus,
            None => "-"@,
        },
        ""@ + dec(device.successful_reads as nat),
        if device.faults_configured {
            pass_text(device.fault_test_passed)
        } else {
            "N/A"@
        },
        ""@ + dec(device.injected_errors as nat) + " / "@ + dec(
            device.expected_injected_errors as nat,
        ),
        ""@ + dec(device.disconnected_reads as nat) + " / "@ + dec(
            device.expected_disconnected_reads as nat,
        ),
    ]
}

pub open spec fn device_rows(devices: Seq<DeviceReport>) -> Seq<Seq<Seq<char>>> {
    Seq::new(devices.len(), |i: int| device_row(devices[i]))
}

pub open spec fn devices_text(devices: Seq<DeviceReport>) -> Seq<char> {
    if devices.len() == 0 {
        "No configured peripheral models."@
    } else {
        table_text(
            seq![
                "Peripheral"@,
                "Kind"@,
                "Model / Bus"@,
                "Reads"@,
                "Fault test"@,
                "Injected / Expected"@,
                "Disconnected / Expected"@,
            ],
            device_rows(devices),
        )
    }
}

pub open spec fn probe_row(probe: MemoryProbeReport) -> Seq<Seq<char>> {
    seq![
        probe.name@,
        ""@ + dec(probe.minimum_observed as nat),
        ""@ + dec(probe.maximum_observed as nat),
        ""@ + signed_dec(probe.end_drop as int),
        ""@ + dec(probe.samples@.len()),
    ]
}

pub open spec fn probe_rows(probes: Seq<MemoryProbeReport>) -> Seq<Seq<Seq<char>>> {
    Seq::new(probes.len(), |i: int| probe_row(probes[i]))
}

pub open spec fn probes_text(probes: Seq<MemoryProbeReport>) -> Seq<char> {
    if probes.len() == 0 {
        "No firmware memory probes configured."@
    } else {
        table_text(
            seq!["Probe"@, "Minimum"@, "Maximum"@, "End drop"@, "Samples"@],
            probe_rows(probes),
        )
    }
}

pub open spec fn simulation_text(report: SimulationReport) -> Seq<char> {
    "Firmware simulation: "@ + report.board@ + " ("@ + report.architecture.spec_name()
        + ")\n\nTEST MATRIX\n"@ + table_text(
        seq!["Check"@, "Result"@, "Details"@],
        summary_rows(report),
    ) + "\n\nPERIPHERALS\n"@ + devices_text(report.devices@) + "\n\nMEMORY PROBES\n"@
        + probes_text(report.execution.memory_profile@) + "\n\nCPU REGISTERS\n"@ + pairs_text(
        texts(report.execution.register_dump@),
    )
}

fn have_fault_tests_passed(devices: &[DeviceReport]) -> (res: bool)
    ensures
        res == all_fault_tests_passed(devices@),
{
    let mut i: usize = 0;
    while i < devices.len()
        invariant
            i <= devices@.len(),
            forall|k: int| 0 <= k < i ==> (#[trigger] devices@[k]).fault_test_passed,
        decreases devices@.len() - i,
    {
        if !devices[i].fault_test_passed {
            return false;
        }
        i = i + 1;
    }
    true
}

fn count_fault_schedules(devices: &[DeviceReport]) -> (res: usize)
    ensures
        res == fault_schedules(devices@, devices@.len() as int),
{
    let length: usize = devices.len();
    let mut count: usize = 0;
    let mut i: usize = 0;
    while i < length
        invariant
            i <= length == devices@.len(),
            count == fault_schedules(devices@, i as int),
            count <= i,
        decreases length - i,
    {
        if devices[i].faults_configured {
            count = count + 1;
        }
        i = i + 1;
    }
    count
}

fn artifact_detail(report: &SimulationReport) -> (res: String)
    ensures
        res@ == summary_rows(*report)[0][2],
{
    let ota = match report.ota_bytes {
        Some(size) => bytes(size as u64),
        None => "not packaged".to_owned(),
    };
    let firmware = bytes(report.firmware_bytes as u64);
    let bootloader = bytes(report.bootloader_bytes as u64);
    let factory = bytes(report.factory_bytes as u64);
    Text::new("firmware ").str(firmware.as_str()).str(", bootloader ").str(
        bootloader.as_str(),
    ).str(", factory ").str(factory.as_str()).str(", OTA ").str(ota.as_str()).done()
}

fn push_row(rows: &mut Vec<Vec<String>>, name: &str, result: String, detail: String)
    requires
        forall|r: int| 0 <= r < old(rows)@.len() ==> (#[trigger] old(rows)@[r])@.len() <= 3,
    ensures
        cells(final(rows)@) == cells(old(rows)@).push(seq![name@, result@, detail@]),
        forall|r: int| 0 <= r < final(rows)@.len() ==> (#[trigger] final(rows)@[r])@.len() <= 3,
{
    let row = row_of_three(name, result, detail);
    proof {
        lemma_cells_push(rows@, row);
    }
    rows.push(row);
}

#[verifier::rlimit(40)]
fn summarize(report: &SimulationReport) -> (res: String)
    ensures
        res@ == table_text(seq!["Check"@, "Result"@, "Details"@], summary_rows(*report)),
{
    let execution = &report.execution;
    let traffic = &report.traffic;
    let mut rows: Vec<Vec<String>> = Vec::new();
    assert(cells(rows@) =~= Seq::<Seq<Seq<char>>>::empty());
    push_row(&mut rows, "Artifact validation", "PASS".to_owned(), artifact_detail(report));
    let flash = bytes(report.physical_flash_bytes);
    let ram = bytes(report.physical_ram_bytes);
    push_row(
        &mut rows,
        "Physical memory",
        "PASS".to_owned(),
        Text::new("flash ").str(flash.as_str()).str(", RAM ").str(ram.as_str()).done(),
    );
    push_row(
        &mut rows,
        "Firmware boot",
        pass(execution.firmware_boot_reached),
        Text::new("").str(execution.backend).str(" backend, ").dec(
            execution.virtual_time_ms,
        ).str(" ms").done(),
    );
    push_row(
        &mut rows,
        "Factory boot",
        pass(execution.factory_boot_reached),
        "bootloader selected valid application".to_owned(),
    );
    push_row(
        &mut rows,
        "Instruction execution",
        pass(execution.instruction_execution_observed),
        execution.elf.clone(),
    );
    push_row(
        &mut rows,
        "Peripheral models",
        pass(have_fault_tests_passed(report.devices.as_slice())),
        Text::new("").dec(report.devices.len() as u64).str(" exercised; ").dec(
            count_fault_schedules(report.devices.as_slice()) as u64,
        ).str(" fault-injection schedules passed").done(),
    );
    let high_water = bytes(traffic.pool.high_water as u64);
    let capacity = bytes(traffic.pool.capacity as u64);
    push_row(
        &mut rows,
        "SEDSNet traffic model",
        pass(traffic.pool.allocation_failures == 0),
        Text::new("").dec(traffic.packets_dispatched as u64).str(" / ").dec(
            traffic.packets_attempted as u64,
        ).str(" packets, pool high-water ").str(high_water.as_str()).str(" / ").str(
            capacity.as_str(),
        ).done(),
    );
    push_row(
        &mut rows,
        "OTA interruption matrix",
        "PASS".to_owned(),
        Text::new("").str(strategy(report.update.strategy)).str("; ").dec(
            report.update.chunks as u64,
        ).str(" chunks; ").dec(report.update.interruption_points_tested as u64).str(
            " interruption points",
        ).done(),
    );
    push_row(
        &mut rows,
        "Firmware memory probes",
        "PASS".to_owned(),
        Text::new("").dec(execution.memory_profile.len() as u64).str(
            " thresholds satisfied",
        ).done(),
    );
    assert(cells(rows@)[0] =~= summary_rows(*report)[0]);
    assert(cells(rows@)[1] =~= summary_rows(*report)[1]);
    assert(cells(rows@)[2] =~= summary_rows(*report)[2]);
    assert(cells(rows@)[3] =~= summary_rows(*report)[3]);
    assert(cells(rows@)[4] =~= summary_rows(*report)[4]);
    assert(cells(rows@)[5] =~= summary_rows(*report)[5]);
    assert(cells(rows@)[6] =~= summary_rows(*report)[6]);
    assert(cells(rows@)[7] =~= summary_rows(*report)[7]);
    assert(cells(rows@)[8] =~= summary_rows(*report)[8]);
    assert(cells(rows@) =~= summary_rows(*report));
    let headers = ["Check", "Result", "Details"];
    assert(words(headers@) =~= seq!["Check"@, "Result"@, "Details"@]);
    table(headers.as_slice(), rows)
}

fn show_device(device: &DeviceReport) -> (res: Vec<String>)
    ensures
        res@.len() == 7,
        texts(res@) == device_row(*device),
{
    let model = match &device.model {
        Some(model) => model.as_str(),
        None => "behavioral",
    };
    let bus = match &device.bus {
        Some(bus) => bus.as_str(),
        None => "-",
    };
    let mut row: Vec<String> = Vec::new();
    row.push(device.name.clone());
    row.push(device.kind.clone());
    row.push(Text::new("").str(model).str(" / ").str(bus).done());
    row.push(number(device.successful_reads));
    row.push(
        if device.faults_configured {
            pass(device.fault_test_passed)
        } else {
            "N/A".to_owned()
        },
    );
    row.push(
        Text::new("").dec(device.injected_errors).str(" / ").dec(
            device.expected_injected_errors,
        ).done(),
    );
    row.push(
        Text::new("").dec(device.disconnected_reads).str(" / ").dec(
            device.expected_disconnected_reads,
        ).done(),
    );
    assert(texts(row@) =~= device_row(*device));
    row
}

fn show_devices(devices: &[DeviceReport]) -> (res: String)
    ensures
        res@ == devices_text(devices@),
{
    if devices.len() == 0 {
        return "No configured peripheral models.".to_owned();
    }
    let ghost all = device_rows(devices@);
    let mut rows: Vec<Vec<String>> = Vec::new();
    let mut i: usize = 0;
    assert(cells(rows@) =~= all.take(0));
    while i < devices.len()
        invariant
            i <= devices@.len(),
            all == device_rows(devices@),
            cells(rows@) == all.take(i as int),
            forall|r: int| 0 <= r < rows@.len() ==> (#[trigger] rows@[r])@.len() == 7,
        decreases devices@.len() - i,
    {
        let row = show_device(&devices[i]);
        proof {
            lemma_cells_push(rows@, row);
            assert(all.take(i + 1) =~= all.take(i as int).push(all[i as int]));
        }
        rows.push(row);
        i = i + 1;
    }
    assert(all.take(i as int) =~= all);
    let headers = [
        "Peripheral",
        "Kind",
        "Model / Bus",
        "Reads",
        "Fault test",
        "Injected / Expected",
        "Disconnected / Expected",
    ];
    assert(words(headers@) =~= seq![
        "Peripheral"@,
        "Kind"@,
        "Model / Bus"@,
        "Reads"@,
        "Fault test"@,
        "Injected / Expected"@,
        "Disconnected / Expected"@,
    ]);
    table(headers.as_slice(), rows)
}

fn show_probe(probe: &MemoryProbeReport) -> (res: Vec<String>)
    ensures
        res@.len() == 5,
        texts(res@) == probe_row(*probe),
{
    let mut row: Vec<String> = Vec::new();
    row.push(probe.name.clone());
    row.push(number(probe.minimum_observed as u64));
    row.push(number(probe.maximum_observed as u64));
    row.push(Text::new("").signed(probe.end_drop).done());
    row.push(number(probe.samples.len() as u64));
    assert(texts(row@) =~= probe_row(*probe));
    row
}

fn show_probes(probes: &[MemoryProbeReport]) -> (res: String)
    ensures
        res@ == probes_text(probes@),
{
    if probes.len() == 0 {
        return "No firmware memory probes configured.".to_owned();
    }
    let ghost all = probe_rows(probes@);
    let mut rows: Vec<Vec<String>> = Vec::new();
    let mut i: usize = 0;
    assert(cells(rows@) =~= all.take(0));
    while i < probes.len()
        invariant
            i <= probes@.len(),
            all == probe_rows(probes@),
            cells(rows@) == all.take(i as int),
            forall|r: int| 0 <= r < rows@.len() ==> (#[trigger] rows@[r])@.len() == 5,
        decreases probes@.len() - i,
    {
        let row = show_probe(&probes[i]);
        proof {
            lemma_cells_push(rows@, row);
            assert(all.take(i + 1) =~= all.take(i as int).push(all[i as int]));
        }
        rows.push(row);
        i = i + 1;
    }
    assert(all.take(i as int) =~= all);
    let headers = ["Probe", "Minimum", "Maximum", "End drop", "Samples"];
    assert(words(headers@) =~= seq![
        "Probe"@,
        "Minimum"@,
        "Maximum"@,
        "End drop"@,
        "Samples"@,
    ]);
    table(headers.as_slice(), rows)
}

/// The report on one board.
pub fn simulation(report: &SimulationReport) -> (res: String)
    ensures
        res@ == simulation_text(*report),
{
    let summary = summarize(report);
    let devices = show_devices(report.devices.as_slice());
    let probes = show_probes(report.execution.memory_profile.as_slice());
    let registers = pairs(report.execution.register_dump.as_slice());
    Text::new("Firmware simulation: ").str(report.board.as_str()).str(" (").str(
        report.architecture.name(),
    ).str(")\n\nTEST MATRIX\n").str(summary.as_str()).str("\n\nPERIPHERALS\n").str(
        devices.as_str(),
    ).str("\n\nMEMORY PROBES\n").str(probes.as_str()).str("\n\nCPU REGISTERS\n").str(
        registers.as_str(),
    ).done()
}

// ---------------------------------------------------------------------------
// A bay
// ---------------------------------------------------------------------------

pub open spec fn node_probe_row(node: Seq<char>, probe: MemoryProbeReport) -> Seq<Seq<char>> {
    seq![node] + probe_row(probe)
}

pub open spec fn node_rows(node: Seq<char>, probes: Seq<MemoryProbeReport>) -> Seq<Seq<Seq<char>>> {
    Seq::new(probes.len(), |i: int| node_probe_row(node, probes[i]))
}

/// The probes of the first `end` nodes.
pub open spec fn profile_rows(
    profiles: Seq<(Seq<char>, Vec<MemoryProbeReport>)>,
    end: int,
) -> Seq<Seq<Seq<char>>>
    decreases end,
{
    if end <= 0 {
        Seq::empty()
    } else {
        profile_rows(profiles, end - 1) + node_rows(profiles[end - 1].0, profiles[end - 1].1@)
    }
}

pub open spec fn bay_rows(report: BayReport) -> Seq<Seq<Seq<char>>> {
    seq![
        seq!["Firmware nodes"@, "PASS"@, ""@ + dec(report.nodes_executed as nat)],
        seq!["Virtual links"@, "PASS"@, ""@ + dec(report.links_connected as nat)],
        seq!["Execution time"@, "PASS"@, ""@ + dec(report.virtual_time_ms as nat) + " ms"@],
    ]
}

pub open spec fn bay_text(report: BayReport) -> Seq<char> {
    "Avionics bay simulation: "@ + report.bay@ + "\n\nTEST MATRIX\n"@ + table_text(
        seq!["Check"@, "Result"@, "Details"@],
        bay_rows(report),
    ) + "\n\nMEMORY PROBES\n"@ + table_text(
        seq!["Node"@, "Probe"@, "Minimum"@, "Maximum"@, "End drop"@, "Samples"@],
        profile_rows(report.memory_profiles@, report.memory_profiles@.len() as int),
    ) + "\n\nCPU REGISTERS\n"@ + pairs_text(texts(report.register_dump@))
}

fn show_node_probe(node: &str, probe: &MemoryProbeReport) -> (res: Vec<String>)
    ensures
        res@.len() == 6,
        texts(res@) == node_probe_row(node@, *probe),
{
    let mut rest = show_probe(probe);
    let ghost shown = rest@;
    let mut row: Vec<String> = Vec::new();
    row.push(node.to_owned());
    row.append(&mut rest);
    proof {
        assert(texts(row@) =~= seq![node@] + texts(shown));
    }
    row
}

fn push_node_rows(rows: &mut Vec<Vec<String>>, node: &str, probes: &[MemoryProbeReport])
    requires
        forall|r: int| 0 <= r < old(rows)@.len() ==> (#[trigger] old(rows)@[r])@.len() == 6,
    ensures
        cells(final(rows)@) == cells(old(rows)@) + node_rows(node@, probes@),
        forall|r: int| 0 <= r < final(rows)@.len() ==> (#[trigger] final(rows)@[r])@.len() == 6,
{
    let ghost before = cells(rows@);
    let ghost all = node_rows(node@, probes@);
    let mut i: usize = 0;
    assert(before + all.take(0) =~= before);
    while i < probes.len()
        invariant
            i <= probes@.len(),
            all == node_rows(node@, probes@),
            cells(rows@) == before + all.take(i as int),
            forall|r: int| 0 <= r < rows@.len() ==> (#[trigger] rows@[r])@.len() == 6,
        decreases probes@.len() - i,
    {
        let row = show_node_probe(node, &probes[i]);
        proof {
            lemma_cells_push(rows@, row);
            assert(before + all.take(i + 1) =~= (before + all.take(i as int)).push(all[i as int]));
        }
        rows.push(row);
        i = i + 1;
    }
    assert(all.take(i as int) =~= all);
}

fn show_profiles(report: &BayReport) -> (res: String)
    ensures
        res@ == table_text(
            seq!["Node"@, "Probe"@, "Minimum"@, "Maximum"@, "End drop"@, "Samples"@],
            profile_rows(report.memory_profiles@, report.memory_profiles@.len() as int),
        ),
{
    let profiles = &report.memory_profiles;
    let mut rows: Vec<Vec<String>> = Vec::new();
    let mut i: usize = 0;
    assert(cells(rows@) =~= Seq::<Seq<Seq<char>>>::empty());
    while i < profiles.len()
        invariant
            i <= profiles@.len(),
            cells(rows@) == profile_rows(profiles@, i as int),
            forall|r: int| 0 <= r < rows@.len() ==> (#[trigger] rows@[r])@.len() == 6,
        decreases profiles@.len() - i,
    {
        push_node_rows(&mut rows, profiles.name(i), profiles.value(i).as_slice());
        i = i + 1;
    }
    let headers = ["Node", "Probe", "Minimum", "Maximum", "End drop", "Samples"];
    assert(words(headers@) =~= seq![
        "Node"@,
        "Probe"@,
        "Minimum"@,
        "Maximum"@,
        "End drop"@,
        "Samples"@,
    ]);
    table(headers.as_slice(), rows)
}

/// The report on a bay.
pub fn bay(report: &BayReport) -> (res: String)
    ensures
        res@ == bay_text(*report),
{
    let mut rows: Vec<Vec<String>> = Vec::new();
    assert(cells(rows@) =~= Seq::<Seq<Seq<char>>>::empty());
    push_row(
        &mut rows,
        "Firmware nodes",
        "PASS".to_owned(),
        number(report.nodes_executed as u64),
    );
    push_row(
        &mut rows,
        "Virtual links",
        "PASS".to_owned(),
        number(report.links_connected as u64),
    );
    push_row(
        &mut rows,
        "Execution time",
        "PASS".to_owned(),
        Text::new("").dec(report.virtual_time_ms).str(" ms").done(),
    );
    assert(cells(rows@) =~= bay_rows(*report));
    let headers = ["Check", "Result", "Details"];
    assert(words(headers@) =~= seq!["Check"@, "Result"@, "Details"@]);
    let summary = table(headers.as_slice(), rows);
    let profiles = show_profiles(report);
    let registers = pairs(report.register_dump.as_slice());
    Text::new("Avionics bay simulation: ").str(report.bay.as_str()).str(
        "\n\nTEST MATRIX\n",
    ).str(summary.as_str()).str("\n\nMEMORY PROBES\n").str(profiles.as_str()).str(
        "\n\nCPU REGISTERS\n",
    ).str(registers.as_str()).done()
}

// ---------------------------------------------------------------------------
// What tables show
// ---------------------------------------------------------------------------

/// A column is as wide as its longest text, and no wider.
pub proof fn law_columns_are_as_wide_as_they_must_be(
    headers: Seq<Seq<char>>,
    rows: Seq<Seq<Seq<char>>>,
    c: int,
    end: int,
)
    requires
        0 <= c < headers.len(),
        0 <= end <= rows.len(),
    ensures
        ({
            let width = column_width(headers, rows, c, end);
            &&& width >= byte_length(headers[c])
            &&& forall|r: int|
                0 <= r < end && c < rows[r].len() ==> width >= byte_length(#[trigger] rows[r][c])
            &&& width == byte_length(headers[c]) || exists|r: int|
                0 <= r < end && c < rows[r].len() && width == byte_length(#[trigger] rows[r][c])
        }),
    decreases end,
{
    if end > 0 {
        law_columns_are_as_wide_as_they_must_be(headers, rows, c, end - 1);
        let before = column_width(headers, rows, c, end - 1);
        let width = column_width(headers, rows, c, end);
        if before != byte_length(headers[c]) {
            let r = choose|r: int|
                0 <= r < end - 1 && c < rows[r].len() && before == byte_length(
                    #[trigger] rows[r][c],
                );
            assert(0 <= r < end && c < rows[r].len() && before == byte_length(rows[r][c]));
        }
        if width != before {
            assert(width == byte_length(rows[end - 1][c]));
        }
    }
}

/// Where column `c` begins in a row.
pub open spec fn column_start(widths: Seq<int>, c: int) -> int
    decreases c,
{
    if c <= 0 {
        2
    } else {
        column_start(widths, c - 1) + widths[c - 1] + 3
    }
}

proof fn lemma_column_start(widths: Seq<int>, c: int)
    requires
        0 <= c < widths.len(),
    ensures
        column_start(widths, c) == 2 + joined_length(widths, 3, c) + if c == 0 {
            0int
        } else {
            3
        },
    decreases c,
{
    if c > 0 {
        lemma_column_start(widths, c - 1);
    }
}

proof fn lemma_joined_part(parts: Seq<Seq<char>>, separator: Seq<char>, lengths: Seq<int>, c: int)
    requires
        separator.len() == 3,
        0 <= c < parts.len() <= lengths.len(),
        forall|i: int| 0 <= i < parts.len() ==> (#[trigger] parts[i]).len() == lengths[i],
    ensures
        ({
            let at = joined_length(lengths, 3, c) + if c == 0 {
                0int
            } else {
                3
            };
            &&& 0 <= at
            &&& at + lengths[c] <= join(parts, separator).len()
            &&& join(parts, separator).subrange(at, at + lengths[c]) == parts[c]
        }),
    decreases parts.len(),
{
    lemma_joined_length(parts, separator, lengths);
    let at = joined_length(lengths, 3, c) + if c == 0 {
        0int
    } else {
        3
    };
    let whole = join(parts, separator);
    if parts.len() == 1 {
        assert(whole.subrange(0, lengths[0]) =~= parts[0]);
    } else {
        let init = parts.drop_last();
        assert forall|i: int| 0 <= i < init.len() implies (#[trigger] init[i]).len()
            == lengths[i] by {
            assert(init[i] == parts[i]);
        }
        let before = join(init, separator);
        lemma_joined_length(init, separator, lengths);
        if c < init.len() {
            lemma_joined_part(init, separator, lengths, c);
            assert(whole.subrange(at, at + lengths[c]) =~= before.subrange(at, at + lengths[c]));
        } else {
            assert(whole.subrange(at, at + lengths[c]) =~= parts[c]);
        }
    }
}

/// Every text of a table stands in its row and at the beginning of its column,
/// with blanks behind it up to the column's end.
pub proof fn law_cells_stand_in_their_columns(row: Seq<Seq<char>>, widths: Seq<int>, c: int)
    requires
        row.len() == widths.len(),
        forall|k: int| 0 <= k < row.len() ==> (#[trigger] row[k]).len() <= widths[k],
        0 <= c < row.len(),
    ensures
        ({
            let line = row_text(row, widths);
            let at = column_start(widths, c);
            &&& 0 <= at && at + widths[c] <= line.len()
            &&& line.subrange(at, at + row[c].len()) == row[c]
            &&& forall|k: int| at + row[c].len() <= k < at + widths[c] ==> #[trigger] line[k] == ' '
        }),
{
    reveal_strlit("| ");
    reveal_strlit(" | ");
    reveal_strlit(" |");
    let parts = Seq::new(row.len(), |k: int| padded(row[k], widths[k]));
    assert forall|k: int| 0 <= k < parts.len() implies (#[trigger] parts[k]).len() == widths[k] by {
        assert(row[k].len() <= widths[k]);
    }
    lemma_joined_part(parts, " | "@, widths, c);
    lemma_column_start(widths, c);
    let inner = join(parts, " | "@);
    let line = row_text(row, widths);
    let at = column_start(widths, c);
    let part = inner.subrange(at - 2, at - 2 + widths[c]);
    assert(part == parts[c]);
    assert forall|k: int| 0 <= k < widths[c] implies line[at + k] == parts[c][k] by {
        assert(line[at + k] == inner[at - 2 + k]);
        assert(part[k] == inner[at - 2 + k]);
    }
    assert(line.subrange(at, at + row[c].len()) =~= row[c]) by {
        assert forall|k: int| 0 <= k < row[c].len() implies line.subrange(
            at,
            at + row[c].len(),
        )[k] == row[c][k] by {
            assert(line[at + k] == parts[c][k]);
        }
    }
    assert forall|k: int| at + row[c].len() <= k < at + widths[c] implies #[trigger] line[k]
        == ' ' by {
        assert(line[at + (k - at)] == parts[c][k - at]);
    }
}

/// A table shows its header and each of its rows once and in order, between
/// borders.
pub proof fn law_tables_show_every_row(headers: Seq<Seq<char>>, rows: Seq<Seq<Seq<char>>>, r: int)
    requires
        0 <= r < rows.len(),
    ensures
        ({
            let all = table_lines(headers, rows);
            let widths = Seq::new(
                headers.len(),
                |c: int| column_width(headers, rows, c, rows.len() as int),
            );
            &&& all.len() == rows.len() + 4
            &&& all[1] == row_text(headers, widths)
            &&& all[3 + r] == row_text(rows[r], widths)
            &&& all[0] == all[2] && all[0] == all[rows.len() as int + 3]
        }),
{
}

/// Registers and their values are shown two by two.
pub proof fn law_registers_stand_with_their_values(values: Seq<Seq<char>>, i: int)
    requires
        0 <= 2 * i < values.len(),
    ensures
        0 <= i < pair_rows(values).len(),
        2 * pair_rows(values).len() >= values.len(),
        2 * pair_rows(values).len() <= values.len() + 1,
        pair_rows(values)[i].len() == 2,
        pair_rows(values)[i][0] == values[2 * i],
        2 * i + 1 < values.len() ==> pair_rows(values)[i][1] == values[2 * i + 1],
        2 * i + 1 == values.len() ==> pair_rows(values)[i][1].len() == 0,
{
    reveal_strlit("");
}

/// What is said to pass did: each boot that was reached, the execution that was
/// observed, the devices whose faults all came as scheduled, and the traffic
/// that was never refused memory.
pub proof fn law_what_is_said_to_pass(report: SimulationReport)
    ensures
        ({
            let rows = summary_rows(report);
            &&& rows[2][1] == "PASS"@ <==> report.execution.firmware_boot_reached
            &&& rows[3][1] == "PASS"@ <==> report.execution.factory_boot_reached
            &&& rows[4][1] == "PASS"@ <==> report.execution.instruction_execution_observed
            &&& rows[5][1] == "PASS"@ <==> forall|i: int|
                0 <= i < report.devices@.len() ==> (#[trigger] report.devices@[i]).fault_test_passed
            &&& rows[6][1] == "PASS"@ <==> report.traffic.pool.allocation_failures == 0
            &&& forall|i: int| 2 <= i < 7 ==> #[trigger] rows[i][1] == "PASS"@ || rows[i][1]
                == "FAIL"@
        }),
{
    reveal_strlit("PASS");
    reveal_strlit("FAIL");
    assert("PASS"@[0] != "FAIL"@[0]);
    let rows = summary_rows(report);
    assert forall|i: int| 2 <= i < 7 implies #[trigger] rows[i][1] == "PASS"@ || rows[i][1]
        == "FAIL"@ by {
        assert(i == 2 || i == 3 || i == 4 || i == 5 || i == 6);
    }
}

proof fn lemma_schedules(devices: Seq<DeviceReport>, end: int)
    requires
        0 <= end <= devices.len(),
    ensures
        fault_schedules(devices, end) == devices.take(end).filter(
            |device: DeviceReport| device.faults_configured,
        ).len(),
    decreases end,
{
    reveal(Seq::filter);
    if end > 0 {
        lemma_schedules(devices, end - 1);
        assert(devices.take(end).drop_last() =~= devices.take(end - 1));
    }
}

/// As many schedules of faults are counted as devices have one.
pub proof fn law_schedules_are_counted(devices: Seq<DeviceReport>)
    ensures
        fault_schedules(devices, devices.len() as int) == devices.filter(
            |device: DeviceReport| device.faults_configured,
        ).len(),
{
    lemma_schedules(devices, devices.len() as int);
    assert(devices.take(devices.len() as int) =~= devices);
}

/// What a device is said to have done is what its report counts, and its fault
/// test is judged only where it has faults.
pub proof fn law_rows_say_what_devices_did(device: DeviceReport)
    ensures
        ({
            let row = device_row(device);
            &&& row.len() == 7
            &&& row[0] == device.name@ && row[1] == device.kind@
            &&& row[3] == dec(device.successful_reads as nat)
            &&& row[4] == "PASS"@ <==> device.faults_configured && device.fault_test_passed
            &&& row[4] == "FAIL"@ <==> device.faults_configured && !device.fault_test_passed
            &&& row[5] == dec(device.injected_errors as nat) + " / "@ + dec(
                device.expected_injected_errors as nat,
            )
            &&& row[6] == dec(device.disconnected_reads as nat) + " / "@ + dec(
                device.expected_disconnected_reads as nat,
            )
        }),
{
    reveal_strlit("");
    reveal_strlit("PASS");
    reveal_strlit("FAIL");
    reveal_strlit("N/A");
    assert("PASS"@[0] != "FAIL"@[0] && "N/A"@.len() == 3);
    assert(""@ + dec(device.successful_reads as nat) =~= dec(device.successful_reads as nat));
    assert(""@ + dec(device.injected_errors as nat) =~= dec(device.injected_errors as nat));
    assert(""@ + dec(device.disconnected_reads as nat) =~= dec(device.disconnected_reads as nat));
}

/// What a probe is said to have shown is what its report holds.
pub proof fn law_rows_say_what_probes_showed(probe: MemoryProbeReport)
    ensures
        ({
            let row = probe_row(probe);
            &&& row.len() == 5
            &&& row[0] == probe.name@
            &&& row[1] == dec(probe.minimum_observed as nat)
            &&& row[2] == dec(probe.maximum_observed as nat)
            &&& probe.end_drop >= 0 ==> row[3] == dec(probe.end_drop as nat)
            &&& probe.end_drop < 0 ==> row[3] == "-"@ + dec((-probe.end_drop) as nat)
            &&& row[4] == dec(probe.samples@.len())
        }),
{
    reveal_strlit("");
    assert(""@ + dec(probe.minimum_observed as nat) =~= dec(probe.minimum_observed as nat));
    assert(""@ + dec(probe.maximum_observed as nat) =~= dec(probe.maximum_observed as nat));
    assert(""@ + signed_dec(probe.end_drop as int) =~= signed_dec(probe.end_drop as int));
    assert(""@ + dec(probe.samples@.len()) =~= dec(probe.samples@.len()));
}

/// A size is shown in KiB to the nearest hundredth.
pub proof fn law_sizes_are_rounded_to_hundredths(value: int)
    requires
        0 <= value < 0x20_0000_0000_0000,
    ensures
        ({
            let hundredths = kib_hundredths(value);
            100 * value - 512 <= 1024 * hundredths <= 100 * value + 512
        }),
{
    law_small_numbers_are_exact(value);
    law_the_nearest_multiple_is_taken(value * 25, 256);
}

/// Every probe of every node has its row, in the order of the nodes.
pub proof fn law_every_node_probe_has_its_row(
    profiles: Seq<(Seq<char>, Vec<MemoryProbeReport>)>,
    end: int,
    n: int,
    p: int,
)
    requires
        0 <= n < end <= profiles.len(),
        0 <= p < profiles[n].1@.len(),
    ensures
        profile_rows(profiles, end).contains(seq![profiles[n].0] + probe_row(profiles[n].1@[p])),
    decreases end,
{
    let row = seq![profiles[n].0] + probe_row(profiles[n].1@[p]);
    let earlier = profile_rows(profiles, end - 1);
    let all = profile_rows(profiles, end);
    if n < end - 1 {
        law_every_node_probe_has_its_row(profiles, end - 1, n, p);
        let at = choose|at: int| 0 <= at < earlier.len() && earlier[at] == row;
        assert(all[at] == row);
    } else {
        assert(all[earlier.len() + p] == row);
    }
}

/// A report holds its matrix of checks and the tables of its devices, probes
/// and registers.
pub proof fn law_reports_hold_their_tables(report: SimulationReport)
    ensures
        ({
            let text = simulation_text(report);
            &&& contains(
                text,
                table_text(seq!["Check"@, "Result"@, "Details"@], summary_rows(report)),
            )
            &&& contains(text, devices_text(report.devices@))
            &&& contains(text, probes_text(report.execution.memory_profile@))
            &&& contains(text, pairs_text(texts(report.execution.register_dump@)))
        }),
{
    lemma_pieces_are_kept(
        table_text(seq!["Check"@, "Result"@, "Details"@], summary_rows(report)),
    );
    lemma_pieces_are_kept(devices_text(report.devices@));
    lemma_pieces_are_kept(probes_text(report.execution.memory_profile@));
    lemma_pieces_are_kept(pairs_text(texts(report.execution.register_dump@)));
}

/// Each device and each probe has its own row.
pub proof fn law_every_device_and_probe_has_its_row(
    devices: Seq<DeviceReport>,
    probes: Seq<MemoryProbeReport>,
    i: int,
)
    ensures
        device_rows(devices).len() == devices.len(),
        0 <= i < devices.len() ==> device_rows(devices)[i] == device_row(devices[i]),
        probe_rows(probes).len() == probes.len(),
        0 <= i < probes.len() ==> probe_rows(probes)[i] == probe_row(probes[i]),
{
}

/// A size is shown in bytes, and from 1024 bytes on in KiB with two decimal
/// places too.
pub proof fn law_sizes_are_shown_in_bytes(value: int)
    requires
        0 <= value,
    ensures
        value < 1024 ==> bytes_text(value) == dec(value as nat) + " B"@,
        value >= 1024 ==> {
            let h = kib_hundredths(value);
            bytes_text(value) == dec(value as nat) + " B ("@ + dec((h / 100) as nat) + "."@ + dec(
                (h / 10 % 10) as nat,
            ) + dec((h % 10) as nat) + " KiB)"@
        },
{
    reveal_strlit("");
    assert(""@ + dec(value as nat) =~= dec(value as nat));
    let h = kib_hundredths(value);
    assert(h % 100 / 10 == h / 10 % 10);
}

} // verus!
