//! Reading what the emulator prints: markers, the values that follow them and
//! the end of a transcript.

use vstd::prelude::*;

use crate::text::{
    begins_with, chars_of, contains, dec, ends_with, finishes_with, has_text, hex, is_lower, join, join_rows, law_numbers_are_read_back, lemma_base_digits, lemma_find_from,
    lemma_split_join, lines, lower, lower_chars, number, occurs_at, parse_number, rows, same_chars,
    split, split_chars, split_lines, starts_with, strip_prefix, text_of, texts, trim, trim_char,
    trim_chars, trim_matches, without_prefix,
};

verus! {

pub fn lines_of(output: &str) -> (res: Vec<Vec<char>>)
    ensures
        rows(res@) == lines(output@),
{
    let chars = chars_of(output);
    split_lines(chars.as_slice())
}

// ---------------------------------------------------------------------------
// Markers
// ---------------------------------------------------------------------------

/// The line is the marker, or an information message that ends in it.
pub open spec fn shows_marker(line: Seq<char>, marker: Seq<char>) -> bool {
    let trimmed = trim(line);
    trimmed == marker || ends_with(trimmed, marker) && contains(trimmed, "[INFO]"@)
}

pub open spec fn marker_shown(output: Seq<char>, marker: Seq<char>) -> bool {
    exists|i: int| 0 <= i < lines(output).len() && #[trigger] shows_marker(lines(output)[i], marker)
}

pub fn observed_marker(output: &str, marker: &str) -> (res: bool)
    ensures
        res == marker_shown(output@, marker@),
{
    let all = lines_of(output);
    let wanted = chars_of(marker);
    let mut i: usize = 0;
    while i < all.len()
        invariant
            i <= all@.len(),
            rows(all@) == lines(output@),
            wanted@ == marker@,
            forall|k: int| 0 <= k < i ==> !#[trigger] shows_marker(lines(output@)[k], marker@),
        decreases all@.len() - i,
    {
        let line = trim_chars(all[i].as_slice());
        assert(lines(output@)[i as int] == rows(all@)[i as int]);
        if same_chars(line, wanted.as_slice()) || finishes_with(line, marker) && has_text(
            line,
            "[INFO]",
        ) {
            assert(shows_marker(lines(output@)[i as int], marker@));
            return true;
        }
        i = i + 1;
    }
    proof {
        assert forall|k: int| 0 <= k < lines(output@).len() implies !#[trigger] shows_marker(
            lines(output@)[k],
            marker@,
        ) by {
            assert(lines(output@).len() == rows(all@).len());
        }
    }
    false
}

/// The lines among the first `end` that begin with `prefix`, each with the
/// line after it, all of them trimmed.
pub open spec fn prefixed_pairs(all: Seq<Seq<char>>, prefix: Seq<char>, end: int) -> Seq<Seq<char>>
    decreases end,
{
    if end <= 0 {
        Seq::empty()
    } else {
        let earlier = prefixed_pairs(all, prefix, end - 1);
        let line = trim(all[end - 1]);
        if !starts_with(line, prefix) {
            earlier
        } else if end < all.len() {
            earlier.push(line).push(trim(all[end]))
        } else {
            earlier.push(line)
        }
    }
}

pub fn pairs_with_prefix(output: &str, prefix: &str) -> (res: Vec<String>)
    ensures
        texts(res@) == prefixed_pairs(lines(output@), prefix@, lines(output@).len() as int),
{
    let all = lines_of(output);
    let mut res: Vec<String> = Vec::new();
    let mut i: usize = 0;
    assert(texts(res@) =~= Seq::<Seq<char>>::empty());
    assert(lines(output@).len() == rows(all@).len());
    while i < all.len()
        invariant
            i <= all@.len(),
            rows(all@) == lines(output@),
            lines(output@).len() == all@.len(),
            texts(res@) == prefixed_pairs(lines(output@), prefix@, i as int),
        decreases all@.len() - i,
    {
        let ghost before = res@;
        let ghost earlier = texts(res@);
        let line = trim_chars(all[i].as_slice());
        assert(lines(output@)[i as int] == rows(all@)[i as int]);
        if begins_with(line, prefix) {
            let text = text_of(line);
            res.push(text);
            assert(texts(res@) =~= earlier.push(line@));
            if i + 1 < all.len() {
                assert(lines(output@)[i + 1] == rows(all@)[i + 1]);
                let value = trim_chars(all[i + 1].as_slice());
                let text = text_of(value);
                res.push(text);
                assert(texts(res@) =~= earlier.push(line@).push(value@));
            }
        }
        i = i + 1;
    }
    res
}

/// The register dump: every marked register with its value.
pub fn marker_lines(output: &str) -> (res: Vec<String>)
    ensures
        texts(res@) == prefixed_pairs(lines(output@), "SEDS_REG "@, lines(output@).len() as int),
{
    pairs_with_prefix(output, "SEDS_REG ")
}

/// The position, from `from` on, of the first line that is the marker.
pub open spec fn marker_line(all: Seq<Seq<char>>, marker: Seq<char>, from: int) -> Option<int>
    decreases all.len() - from,
{
    if from < 0 || from >= all.len() {
        None
    } else if trim(all[from]) == marker {
        Some(from)
    } else {
        marker_line(all, marker, from + 1)
    }
}

fn find_marker_line(all: &[Vec<char>], marker: &str) -> (res: Option<usize>)
    ensures
        match marker_line(rows(all@), marker@, 0) {
            Some(at) => res matches Some(found) && found == at && found < all@.len(),
            None => res is None,
        },
{
    let wanted = chars_of(marker);
    let mut i: usize = 0;
    while i < all.len()
        invariant
            i <= all@.len(),
            wanted@ == marker@,
            marker_line(rows(all@), marker@, 0) == marker_line(rows(all@), marker@, i as int),
        decreases all@.len() - i,
    {
        if same_chars(trim_chars(all[i].as_slice()), wanted.as_slice()) {
            return Some(i);
        }
        i = i + 1;
    }
    None
}

// ---------------------------------------------------------------------------
// Values after a marker
// ---------------------------------------------------------------------------

/// A line that holds a number, hexadecimal after `0x` and decimal otherwise.
pub open spec fn line_number(line: Seq<char>) -> Option<int> {
    let value = trim(line);
    let hexadecimal = match without_prefix(value, "0x"@) {
        Some(digits) => number(digits, 16, u64::MAX as int),
        None => None,
    };
    if hexadecimal is Some {
        hexadecimal
    } else {
        number(value, 10, u64::MAX as int)
    }
}

pub open spec fn first_number(all: Seq<Seq<char>>, from: int) -> Option<int>
    decreases all.len() - from,
{
    if from < 0 || from >= all.len() {
        None
    } else if line_number(all[from]) is Some {
        line_number(all[from])
    } else {
        first_number(all, from + 1)
    }
}

pub open spec fn number_after(output: Seq<char>, marker: Seq<char>) -> Option<int> {
    match marker_line(lines(output), marker, 0) {
        Some(at) => first_number(lines(output), at + 1),
        None => None,
    }
}

pub open spec fn opt_int(value: Option<u64>) -> Option<int> {
    match value {
        Some(value) => Some(value as int),
        None => None,
    }
}

fn number_in_line(line: &[char]) -> (res: Option<u64>)
    ensures
        opt_int(res) == line_number(line@),
{
    let value = trim_chars(line);
    match strip_prefix(value, "0x") {
        Some(digits) => match parse_number(digits, 16, u64::MAX) {
            Some(n) => {
                return Some(n);
            },
            None => {},
        },
        None => {},
    }
    parse_number(value, 10, u64::MAX)
}

pub fn marker_u64(output: &str, marker: &str) -> (res: Option<u64>)
    ensures
        opt_int(res) == number_after(output@, marker@),
{
    let all = lines_of(output);
    let start: usize = match find_marker_line(all.as_slice(), marker) {
        Some(at) => at + 1,
        None => {
            return None;
        },
    };
    let mut i: usize = start;
    while i < all.len()
        invariant
            start <= i <= all@.len(),
            rows(all@) == lines(output@),
            first_number(lines(output@), start as int) == first_number(lines(output@), i as int),
            number_after(output@, marker@) == first_number(lines(output@), start as int),
        decreases all@.len() - i,
    {
        assert(lines(output@)[i as int] == rows(all@)[i as int]);
        match number_in_line(all[i].as_slice()) {
            Some(n) => {
                return Some(n);
            },
            None => {},
        }
        i = i + 1;
    }
    assert(lines(output@).len() == rows(all@).len());
    None
}

/// A line that says `true` or `false`, in any case.
pub open spec fn line_bool(line: Seq<char>) -> Option<bool> {
    let word = lower(trim(line));
    if word == "true"@ {
        Some(true)
    } else if word == "false"@ {
        Some(false)
    } else {
        None
    }
}

pub open spec fn first_bool(all: Seq<Seq<char>>, from: int) -> Option<bool>
    decreases all.len() - from,
{
    if from < 0 || from >= all.len() {
        None
    } else if line_bool(all[from]) is Some {
        line_bool(all[from])
    } else {
        first_bool(all, from + 1)
    }
}

pub open spec fn bool_after(output: Seq<char>, marker: Seq<char>) -> Option<bool> {
    match marker_line(lines(output), marker, 0) {
        Some(at) => first_bool(lines(output), at + 1),
        None => None,
    }
}

pub fn marker_bool(output: &str, marker: &str) -> (res: Option<bool>)
    ensures
        res == bool_after(output@, marker@),
{
    let all = lines_of(output);
    let yes = chars_of("true");
    let no = chars_of("false");
    let start: usize = match find_marker_line(all.as_slice(), marker) {
        Some(at) => at + 1,
        None => {
            return None;
        },
    };
    let mut i: usize = start;
    while i < all.len()
        invariant
            start <= i <= all@.len(),
            rows(all@) == lines(output@),
            yes@ == "true"@,
            no@ == "false"@,
            first_bool(lines(output@), start as int) == first_bool(lines(output@), i as int),
            bool_after(output@, marker@) == first_bool(lines(output@), start as int),
        decreases all@.len() - i,
    {
        assert(lines(output@)[i as int] == rows(all@)[i as int]);
        let word = lower_chars(trim_chars(all[i].as_slice()));
        if same_chars(word.as_slice(), yes.as_slice()) {
            return Some(true);
        }
        if same_chars(word.as_slice(), no.as_slice()) {
            return Some(false);
        }
        i = i + 1;
    }
    assert(lines(output@).len() == rows(all@).len());
    None
}

pub open spec fn is_event_list(text: Seq<char>) -> bool {
    text.len() > 0 && forall|i: int|
        0 <= i < text.len() ==> is_lower(#[trigger] text[i]) || text[i] == '_' || text[i] == ','
}

/// A line, as far as a list of events can be read from it.
pub open spec fn unquoted(line: Seq<char>) -> Seq<char> {
    trim_char(trim(line), '"')
}

pub open spec fn first_event_list(all: Seq<Seq<char>>, from: int) -> Option<int>
    decreases all.len() - from,
{
    if from < 0 || from >= all.len() {
        None
    } else if is_event_list(unquoted(all[from])) {
        Some(from)
    } else {
        first_event_list(all, from + 1)
    }
}

/// The events of the first list after the marker.
pub open spec fn events_after(output: Seq<char>, marker: Seq<char>) -> Seq<Seq<char>> {
    match marker_line(lines(output), marker, 0) {
        Some(at) => match first_event_list(lines(output), at + 1) {
            Some(found) => split(unquoted(lines(output)[found]), ','),
            None => Seq::empty(),
        },
        None => Seq::empty(),
    }
}

fn line_is_event_list(text: &[char]) -> (res: bool)
    ensures
        res == is_event_list(text@),
{
    if text.len() == 0 {
        return false;
    }
    let mut i: usize = 0;
    while i < text.len()
        invariant
            i <= text@.len(),
            forall|k: int|
                0 <= k < i ==> is_lower(#[trigger] text@[k]) || text@[k] == '_' || text@[k] == ',',
        decreases text@.len() - i,
    {
        let c = text[i];
        if !(c >= 'a' && c <= 'z' || c == '_' || c == ',') {
            return false;
        }
        i = i + 1;
    }
    true
}

pub fn texts_of(parts: &[Vec<char>]) -> (res: Vec<String>)
    ensures
        texts(res@) == rows(parts@),
{
    let mut res: Vec<String> = Vec::new();
    let mut i: usize = 0;
    while i < parts.len()
        invariant
            i <= parts@.len(),
            texts(res@) == rows(parts@).take(i as int),
        decreases parts@.len() - i,
    {
        let ghost before = texts(res@);
        let text = text_of(parts[i].as_slice());
        res.push(text);
        assert(texts(res@) =~= before.push(parts@[i as int]@));
        assert(rows(parts@).take(i + 1) =~= rows(parts@).take(i as int).push(
            rows(parts@)[i as int],
        ));
        i = i + 1;
    }
    assert(rows(parts@).take(i as int) =~= rows(parts@));
    res
}

pub fn marker_csv(output: &str, marker: &str) -> (res: Vec<String>)
    ensures
        texts(res@) == events_after(output@, marker@),
{
    let all = lines_of(output);
    let start: usize = match find_marker_line(all.as_slice(), marker) {
        Some(at) => at + 1,
        None => {
            let none: Vec<String> = Vec::new();
            assert(texts(none@) =~= Seq::<Seq<char>>::empty());
            return none;
        },
    };
    let mut i: usize = start;
    while i < all.len()
        invariant
            start <= i <= all@.len(),
            rows(all@) == lines(output@),
            marker_line(lines(output@), marker@, 0) == Some(start - 1),
            first_event_list(lines(output@), start as int) == first_event_list(
                lines(output@),
                i as int,
            ),
        decreases all@.len() - i,
    {
        assert(lines(output@)[i as int] == rows(all@)[i as int]);
        let list = trim_matches(trim_chars(all[i].as_slice()), '"');
        if line_is_event_list(list) {
            let parts = split_chars(list, ',');
            return texts_of(parts.as_slice());
        }
        i = i + 1;
    }
    assert(lines(output@).len() == rows(all@).len());
    let none: Vec<String> = Vec::new();
    assert(texts(none@) =~= Seq::<Seq<char>>::empty());
    none
}

// ---------------------------------------------------------------------------
// Parts of a transcript
// ---------------------------------------------------------------------------

/// The last `count` lines.
pub open spec fn last_lines(all: Seq<Seq<char>>, count: int) -> Seq<Seq<char>> {
    if all.len() <= count {
        all
    } else {
        all.skip(all.len() - count)
    }
}

pub fn tail(value: &str, count: usize) -> (res: String)
    ensures
        res@ == join(last_lines(lines(value@), count as int), "\n"@),
{
    let all = lines_of(value);
    let start: usize = if all.len() <= count {
        0
    } else {
        all.len() - count
    };
    let kept = vstd::slice::slice_subrange(all.as_slice(), start, all.len());
    proof {
        assert(lines(value@).len() == rows(all@).len());
        assert(rows(kept@) =~= last_lines(lines(value@), count as int));
    }
    join_rows(kept, "\n")
}

/// What comes after the first occurrence of `marker`.
pub open spec fn after_marker(output: Seq<char>, marker: Seq<char>) -> Option<Seq<char>> {
    match crate::text::find_from(output, marker, 0) {
        Some(at) => Some(output.skip(at + marker.len())),
        None => None,
    }
}

pub fn rest_after(output: &str, marker: &str) -> (res: Option<String>)
    ensures
        crate::text::opt_text(res) == after_marker(output@, marker@),
{
    let chars = chars_of(output);
    let wanted = chars_of(marker);
    let length: usize = chars.len();
    proof {
        crate::text::lemma_find_from(output@, marker@, 0);
    }
    match crate::text::find_chars(chars.as_slice(), wanted.as_slice(), 0) {
        Some(at) => {
            let rest = vstd::slice::slice_subrange(
                chars.as_slice(),
                at + wanted.len(),
                length,
            );
            let text = text_of(rest);
            assert(text@ =~= output@.skip(at + marker@.len()));
            Some(text)
        },
        None => None,
    }
}

// ---------------------------------------------------------------------------
// What a transcript says
// ---------------------------------------------------------------------------

/// The line prints the marker behind `head`, which is nothing, or makes it an
/// information message.
pub open spec fn printed_behind(line: Seq<char>, marker: Seq<char>, head: Seq<char>) -> bool {
    &&& trim(line) == head + marker
    &&& head.len() == 0 || exists|at: int|
        0 <= at && at + 6 <= (head + marker).len() && #[trigger] (head + marker).subrange(
            at,
            at + 6,
        ) == "[INFO]"@
}

/// A marker is observed exactly where a line prints it alone, or at the end of
/// an information message.
pub proof fn law_markers_are_observed_where_printed(output: Seq<char>, marker: Seq<char>)
    ensures
        marker_shown(output, marker) <==> exists|i: int, head: Seq<char>|
            0 <= i < lines(output).len() && #[trigger] printed_behind(
                lines(output)[i],
                marker,
                head,
            ),
{
    reveal_strlit("[INFO]");
    let all = lines(output);
    if marker_shown(output, marker) {
        let i = choose|i: int| 0 <= i < all.len() && #[trigger] shows_marker(all[i], marker);
        let trimmed = trim(all[i]);
        if trimmed == marker {
            assert(trimmed =~= Seq::<char>::empty() + marker);
            assert(printed_behind(all[i], marker, Seq::empty()));
        } else {
            let head = trimmed.take(trimmed.len() - marker.len());
            assert(trimmed =~= head + marker);
            let at = choose|at: int| occurs_at(trimmed, "[INFO]"@, at);
            assert((head + marker).subrange(at, at + 6) == "[INFO]"@);
            assert(printed_behind(all[i], marker, head));
        }
    }
    if exists|i: int, head: Seq<char>|
        0 <= i < all.len() && #[trigger] printed_behind(all[i], marker, head) {
        let (i, head): (int, Seq<char>) = choose|i: int, head: Seq<char>|
            0 <= i < all.len() && #[trigger] printed_behind(all[i], marker, head);
        let trimmed = trim(all[i]);
        if head.len() == 0 {
            assert(head + marker =~= marker);
        } else {
            let at = choose|at: int|
                0 <= at && at + 6 <= (head + marker).len() && #[trigger] (head + marker).subrange(
                    at,
                    at + 6,
                ) == "[INFO]"@;
            assert(occurs_at(trimmed, "[INFO]"@, at));
            assert(trimmed.subrange(trimmed.len() - marker.len(), trimmed.len() as int) =~= marker);
        }
        assert(shows_marker(all[i], marker));
    }
}

/// Of the lines that begin with the prefix, and of the line after each, all are
/// kept, trimmed and in their order, and no others.
pub proof fn law_pairs_are_kept_in_order(all: Seq<Seq<char>>, prefix: Seq<char>, end: int)
    requires
        0 <= end < all.len(),
    ensures
        prefixed_pairs(all, prefix, 0).len() == 0,
        ({
            let before = prefixed_pairs(all, prefix, end);
            let line = trim(all[end]);
            let marked = line.len() >= prefix.len() && line.take(prefix.len() as int) == prefix;
            prefixed_pairs(all, prefix, end + 1) == before + if !marked {
                Seq::<Seq<char>>::empty()
            } else if end + 1 == all.len() {
                seq![line]
            } else {
                seq![line, trim(all[end + 1])]
            }
        }),
{
    let before = prefixed_pairs(all, prefix, end);
    let now = prefixed_pairs(all, prefix, end + 1);
    let line = trim(all[end]);
    if line.len() >= prefix.len() {
        assert(line.subrange(0, prefix.len() as int) =~= line.take(prefix.len() as int));
    }
    if !starts_with(line, prefix) {
        assert(now =~= before + Seq::<Seq<char>>::empty());
    } else if end + 1 == all.len() {
        assert(now =~= before + seq![line]);
    } else {
        assert(now =~= before + seq![line, trim(all[end + 1])]);
    }
}

proof fn lemma_marker_line(all: Seq<Seq<char>>, marker: Seq<char>, from: int, m: int)
    requires
        0 <= from <= m <= all.len(),
        forall|j: int| from <= j < m ==> trim(#[trigger] all[j]) != marker,
        m < all.len() ==> trim(all[m]) == marker,
    ensures
        marker_line(all, marker, from) == if m < all.len() {
            Some(m)
        } else {
            None
        },
    decreases m - from,
{
    if from < m {
        lemma_marker_line(all, marker, from + 1, m);
    }
}

proof fn lemma_first_number(all: Seq<Seq<char>>, from: int, k: int)
    requires
        0 <= from <= k <= all.len(),
        forall|j: int| from <= j < k ==> line_number(#[trigger] all[j]) is None,
        k < all.len() ==> line_number(all[k]) is Some,
    ensures
        first_number(all, from) == if k < all.len() {
            line_number(all[k])
        } else {
            None
        },
    decreases k - from,
{
    if from < k {
        lemma_first_number(all, from + 1, k);
    }
}

proof fn lemma_first_bool(all: Seq<Seq<char>>, from: int, k: int)
    requires
        0 <= from <= k <= all.len(),
        forall|j: int| from <= j < k ==> line_bool(#[trigger] all[j]) is None,
        k < all.len() ==> line_bool(all[k]) is Some,
    ensures
        first_bool(all, from) == if k < all.len() {
            line_bool(all[k])
        } else {
            None
        },
    decreases k - from,
{
    if from < k {
        lemma_first_bool(all, from + 1, k);
    }
}

proof fn lemma_first_event_list(all: Seq<Seq<char>>, from: int, k: int)
    requires
        0 <= from <= k <= all.len(),
        forall|j: int| from <= j < k ==> !is_event_list(unquoted(#[trigger] all[j])),
        k < all.len() ==> is_event_list(unquoted(all[k])),
    ensures
        first_event_list(all, from) == if k < all.len() {
            Some(k)
        } else {
            None
        },
    decreases k - from,
{
    if from < k {
        lemma_first_event_list(all, from + 1, k);
    }
}

/// Numbers are read as they are written, in decimal or in hexadecimal behind
/// `0x`, and whatever is read as a number is made of letters and digits, or
/// begins with a plus sign, and fits in 64 bits.
pub proof fn law_lines_give_their_numbers(line: Seq<char>, n: nat)
    ensures
        trim(line) == dec(n) ==> line_number(line) == if n <= u64::MAX {
            Some(n as int)
        } else {
            None
        },
        trim(line) == "0x"@ + hex(n) && n <= u64::MAX ==> line_number(line) == Some(n as int),
        line_number(line) matches Some(value) ==> 0 <= value <= u64::MAX && trim(line).len() > 0,
        trim(line).len() == 0 ==> line_number(line) is None,
        line_number(line) is Some ==> forall|i: int|
            0 <= i < trim(line).len() ==> ('0' <= #[trigger] trim(line)[i] <= '9') || ('a'
                <= trim(line)[i] <= 'z') || ('A' <= trim(line)[i] <= 'Z') || trim(line)[i] == '+',
{
    reveal_strlit("0x");
    let value = trim(line);
    law_numbers_are_read_back(n);
    lemma_base_digits(n, 10);
    lemma_base_digits(n, 16);
    if value == dec(n) {
        if starts_with(value, "0x"@) {
            assert(value.subrange(0, 2)[1] == value[1]);
            assert('0' <= dec(n)[1] <= '9');
        }
        assert(value[0] != '+') by {
            assert('0' <= dec(n)[0] <= '9');
        }
    }
    if value == "0x"@ + hex(n) {
        assert(value.subrange(0, 2) =~= "0x"@);
        assert(value.skip(2) =~= hex(n));
        assert(hex(n)[0] != '+') by {
            assert('0' <= hex(n)[0] <= '9' || 'a' <= hex(n)[0] <= 'f');
        }
    }
    match without_prefix(value, "0x"@) {
        Some(digits) => {
            lemma_number_chars(digits, 16);
            if number(digits, 16, u64::MAX as int) is Some {
                assert forall|i: int| 0 <= i < value.len() implies ('0' <= #[trigger] value[i]
                    <= '9') || ('a' <= value[i] <= 'z') || ('A' <= value[i] <= 'Z') || value[i]
                    == '+' by {
                    assert(value.subrange(0, 2) == "0x"@);
                    if i < 2 {
                        assert(value[i] == value.subrange(0, 2)[i]);
                    } else {
                        assert(value[i] == digits[i - 2]);
                    }
                }
            }
        },
        None => {},
    }
    lemma_number_chars(value, 10);
}

proof fn lemma_number_chars(text: Seq<char>, base: int)
    requires
        2 <= base <= 16,
    ensures
        number(text, base, u64::MAX as int) matches Some(value) ==> 0 <= value <= u64::MAX
            && text.len() > 0 && forall|i: int|
            0 <= i < text.len() ==> ('0' <= #[trigger] text[i] <= '9') || ('a' <= text[i] <= 'z')
                || ('A' <= text[i] <= 'Z') || text[i] == '+',
{
    let digits = crate::text::unsigned_digits(text);
    if number(text, base, u64::MAX as int) is Some {
        lemma_value_is_natural(digits, base);
        assert forall|i: int| 0 <= i < text.len() implies ('0' <= #[trigger] text[i] <= '9') || ('a'
            <= text[i] <= 'z') || ('A' <= text[i] <= 'Z') || text[i] == '+' by {
            if text[0] == '+' {
                if i > 0 {
                    assert(digits[i - 1] == text[i]);
                    assert(crate::text::digit_value(digits[i - 1]) < base);
                }
            } else {
                assert(crate::text::digit_value(digits[i]) < base);
            }
        }
    }
}

proof fn lemma_value_is_natural(digits: Seq<char>, base: int)
    requires
        base >= 2,
    ensures
        crate::text::digits_value(digits, base) >= 0,
    decreases digits.len(),
{
    if digits.len() > 0 {
        lemma_value_is_natural(digits.drop_last(), base);
        let value = crate::text::digits_value(digits.drop_last(), base);
        assert(value * base >= 0) by (nonlinear_arith)
            requires
                value >= 0,
                base >= 2,
        ;
    }
}

/// The number that belongs to a marker is the first that stands on a line of
/// its own behind the first line that is the marker; there is none where no
/// line is the marker.
pub proof fn law_a_number_belongs_to_its_marker(
    output: Seq<char>,
    marker: Seq<char>,
    m: int,
    k: int,
)
    requires
        0 <= m < lines(output).len(),
        trim(lines(output)[m]) == marker,
        forall|j: int| 0 <= j < m ==> trim(#[trigger] lines(output)[j]) != marker,
        m < k <= lines(output).len(),
        forall|j: int| m < j < k ==> line_number(#[trigger] lines(output)[j]) is None,
        k < lines(output).len() ==> line_number(lines(output)[k]) is Some,
    ensures
        number_after(output, marker) == if k < lines(output).len() {
            line_number(lines(output)[k])
        } else {
            None
        },
{
    lemma_marker_line(lines(output), marker, 0, m);
    lemma_first_number(lines(output), m + 1, k);
}

/// The truth value that belongs to a marker stands on the first line behind the
/// marker's that is `true` or `false`, in any case.
pub proof fn law_a_truth_value_belongs_to_its_marker(
    output: Seq<char>,
    marker: Seq<char>,
    m: int,
    k: int,
)
    requires
        0 <= m < k < lines(output).len(),
        trim(lines(output)[m]) == marker,
        forall|j: int| 0 <= j < m ==> trim(#[trigger] lines(output)[j]) != marker,
        forall|j: int|
            m < j < k ==> lower(trim(#[trigger] lines(output)[j])) != "true"@ && lower(
                trim(lines(output)[j]),
            ) != "false"@,
    ensures
        lower(trim(lines(output)[k])) == "true"@ ==> bool_after(output, marker) == Some(true),
        lower(trim(lines(output)[k])) == "false"@ ==> bool_after(output, marker) == Some(false),
        k + 1 == lines(output).len() && lower(trim(lines(output)[k])) != "true"@ && lower(
            trim(lines(output)[k]),
        ) != "false"@ ==> bool_after(output, marker) is None,
{
    reveal_strlit("true");
    reveal_strlit("false");
    let all = lines(output);
    lemma_marker_line(all, marker, 0, m);
    if lower(trim(all[k])) == "true"@ || lower(trim(all[k])) == "false"@ {
        assert("true"@.len() != "false"@.len());
        lemma_first_bool(all, m + 1, k);
    } else if k + 1 == all.len() {
        lemma_first_bool(all, m + 1, k + 1);
    }
}

/// Without a line that is the marker nothing belongs to it.
pub proof fn law_no_marker_no_value(output: Seq<char>, marker: Seq<char>)
    requires
        forall|j: int| 0 <= j < lines(output).len() ==> trim(#[trigger] lines(output)[j]) != marker,
    ensures
        number_after(output, marker) is None,
        bool_after(output, marker) is None,
        events_after(output, marker).len() == 0,
{
    lemma_marker_line(lines(output), marker, 0, lines(output).len() as int);
}

proof fn lemma_bare(text: Seq<char>)
    requires
        text.len() > 0,
        text[0] != '"',
        text.last() != '"',
    ensures
        trim_char(text, '"') == text,
        trim_char("\""@ + text + "\""@, '"') == text,
{
    reveal_strlit("\"");
    reveal_with_fuel(trim_char, 3);
    let quoted = "\""@ + text + "\""@;
    let inner = text + "\""@;
    assert(quoted[0] == '"');
    assert(quoted.skip(1) =~= inner);
    assert(inner[0] == text[0]);
    assert(inner.last() == '"');
    assert(inner.drop_last() =~= text);
}

/// The events that belong to a marker are those of the first list behind it,
/// with or without quotes: names in small letters, with a comma between two.
pub proof fn law_events_belong_to_their_marker(
    output: Seq<char>,
    marker: Seq<char>,
    m: int,
    k: int,
    names: Seq<Seq<char>>,
)
    requires
        0 <= m < k < lines(output).len(),
        trim(lines(output)[m]) == marker,
        forall|j: int| 0 <= j < m ==> trim(#[trigger] lines(output)[j]) != marker,
        forall|j: int| m < j < k ==> trim(#[trigger] lines(output)[j]).len() == 0,
        names.len() > 0,
        forall|i: int| 0 <= i < names.len() ==> (#[trigger] names[i]).len() > 0,
        forall|i: int, c: int|
            0 <= i < names.len() && 0 <= c < names[i].len() ==> ('a' <= #[trigger] names[i][c]
                <= 'z') || names[i][c] == '_',
        trim(lines(output)[k]) == join(names, ","@) || trim(lines(output)[k]) == "\""@ + join(
            names,
            ","@,
        ) + "\""@,
    ensures
        events_after(output, marker) == names,
{
    reveal_strlit(",");
    assert(","@ =~= seq![',']);
    let list = join(names, ","@);
    let all = lines(output);
    lemma_marker_line(all, marker, 0, m);
    lemma_list_chars(names);
    lemma_bare(list);
    assert forall|j: int| m < j < k implies !is_event_list(unquoted(#[trigger] all[j])) by {
        assert(trim_char(trim(all[j]), '"').len() == 0);
    }
    lemma_first_event_list(all, m + 1, k);
    assert forall|i: int| 0 <= i < names.len() implies !(#[trigger] names[i]).contains(',') by {
        if names[i].contains(',') {
            let c = choose|c: int| 0 <= c < names[i].len() && names[i][c] == ',';
            assert('a' <= names[i][c] <= 'z' || names[i][c] == '_');
        }
    }
    lemma_split_join(names, ',');
}

proof fn lemma_list_chars(names: Seq<Seq<char>>)
    requires
        names.len() > 0,
        forall|i: int| 0 <= i < names.len() ==> (#[trigger] names[i]).len() > 0,
        forall|i: int, c: int|
            0 <= i < names.len() && 0 <= c < names[i].len() ==> ('a' <= #[trigger] names[i][c]
                <= 'z') || names[i][c] == '_',
    ensures
        is_event_list(join(names, ","@)),
        join(names, ","@)[0] != '"',
        join(names, ","@).last() != '"',
    decreases names.len(),
{
    reveal_strlit(",");
    let list = join(names, ","@);
    if names.len() > 1 {
        let fewer = names.drop_last();
        assert forall|i: int, c: int| 0 <= i < fewer.len() && 0 <= c < fewer[i].len() implies ('a'
            <= #[trigger] fewer[i][c] <= 'z') || fewer[i][c] == '_' by {
            assert(fewer[i] == names[i]);
            assert('a' <= names[i][c] <= 'z' || names[i][c] == '_');
        }
        assert forall|i: int| 0 <= i < fewer.len() implies (#[trigger] fewer[i]).len() > 0 by {
            assert(fewer[i] == names[i]);
        }
        lemma_list_chars(fewer);
        let head = join(fewer, ","@);
        let last = names.last();
        assert forall|i: int| 0 <= i < list.len() implies is_lower(#[trigger] list[i]) || list[i]
            == '_' || list[i] == ',' by {
            if i < head.len() {
                assert(list[i] == head[i]);
            } else if i > head.len() {
                let c = i - head.len() - 1;
                assert(list[i] == last[c]);
                assert('a' <= names[names.len() - 1][c] <= 'z' || names[names.len() - 1][c] == '_');
            } else {
                assert(list[i] == ',');
            }
        }
        assert(list[0] == head[0]);
        assert(is_lower(list[list.len() - 1]) || list[list.len() - 1] == '_' || list[list.len() - 1]
            == ',');
    } else {
        assert(list == names[0]);
        assert forall|i: int| 0 <= i < list.len() implies is_lower(#[trigger] list[i]) || list[i]
            == '_' || list[i] == ',' by {
            assert('a' <= names[0][i] <= 'z' || names[0][i] == '_');
        }
        assert('a' <= names[0][0] <= 'z' || names[0][0] == '_');
        let c = names[0].len() - 1;
        assert('a' <= names[0][c] <= 'z' || names[0][c] == '_');
    }
}

/// The end of a transcript is made of its last lines, at most as many as asked
/// for and all of them where there are no more.
pub proof fn law_the_last_lines_are_kept(all: Seq<Seq<char>>, count: int)
    requires
        count >= 0,
    ensures
        exists|before: Seq<Seq<char>>| all == #[trigger] (before + last_lines(all, count)),
        last_lines(all, count).len() == if all.len() < count {
            all.len() as int
        } else {
            count
        },
{
    let kept = last_lines(all, count);
    let before = all.take(all.len() - kept.len());
    assert(all =~= before + kept);
}

/// What comes after a marker is all that stands behind its first occurrence.
pub proof fn law_the_rest_follows_the_marker(output: Seq<char>, marker: Seq<char>)
    ensures
        match after_marker(output, marker) {
            Some(rest) => {
                let at = output.len() - rest.len() - marker.len();
                &&& at >= 0
                &&& output == output.take(at) + marker + rest
                &&& forall|k: int|
                    0 <= k < at ==> #[trigger] output.subrange(k, k + marker.len()) != marker
            },
            None => forall|k: int|
                0 <= k <= output.len() - marker.len() ==> #[trigger] output.subrange(
                    k,
                    k + marker.len(),
                ) != marker,
        },
{
    lemma_find_from(output, marker, 0);
    match crate::text::find_from(output, marker, 0) {
        Some(at) => {
            let rest = output.skip(at + marker.len());
            assert(output =~= output.take(at) + marker + rest);
            assert forall|k: int| 0 <= k < at implies #[trigger] output.subrange(
                k,
                k + marker.len(),
            ) != marker by {
                assert(!occurs_at(output, marker, k));
            }
        },
        None => {
            assert forall|k: int| 0 <= k <= output.len() - marker.len() implies #[trigger] output.subrange(
                k,
                k + marker.len(),
            ) != marker by {
                assert(!occurs_at(output, marker, k));
            }
        },
    }
}

} // verus!
