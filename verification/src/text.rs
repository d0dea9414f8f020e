//! Text: character classes, rendering of numbers, and the line and substring
//! operations that the emulator's output is read with.

use vstd::prelude::*;
use vstd::slice::slice_subrange;

use crate::double::{count_shown, shown};

verus! {

/// `String::push` appends one character.
pub assume_specification[ String::push ](text: &mut String, c: char)
    ensures
        final(text)@ == old(text)@.push(c),
;

// ---------------------------------------------------------------------------
// Character classes
// ---------------------------------------------------------------------------

pub open spec fn is_digit(c: char) -> bool {
    '0' <= c <= '9'
}

pub open spec fn is_lower(c: char) -> bool {
    'a' <= c <= 'z'
}

pub open spec fn is_upper(c: char) -> bool {
    'A' <= c <= 'Z'
}

pub open spec fn is_alphanumeric(c: char) -> bool {
    is_digit(c) || is_lower(c) || is_upper(c)
}

pub open spec fn is_hex_digit(c: char) -> bool {
    is_digit(c) || 'a' <= c <= 'f' || 'A' <= c <= 'F'
}

/// The characters with the Unicode property White_Space.
pub open spec fn is_space(c: char) -> bool {
    let n = c as u32;
    ||| 0x09 <= n <= 0x0d
    ||| n == 0x20
    ||| n == 0x85
    ||| n == 0xa0
    ||| n == 0x1680
    ||| 0x2000 <= n <= 0x200a
    ||| n == 0x2028
    ||| n == 0x2029
    ||| n == 0x202f
    ||| n == 0x205f
    ||| n == 0x3000
}

pub open spec fn lower_char(c: char) -> char {
    if is_upper(c) {
        (c as u8 + 32) as char
    } else {
        c
    }
}

pub fn char_is_digit(c: char) -> (res: bool)
    ensures
        res == is_digit(c),
{
    c >= '0' && c <= '9'
}

pub fn char_is_alphanumeric(c: char) -> (res: bool)
    ensures
        res == is_alphanumeric(c),
{
    char_is_digit(c) || (c >= 'a' && c <= 'z') || (c >= 'A' && c <= 'Z')
}

pub fn char_is_hex_digit(c: char) -> (res: bool)
    ensures
        res == is_hex_digit(c),
{
    char_is_digit(c) || (c >= 'a' && c <= 'f') || (c >= 'A' && c <= 'F')
}

pub fn char_is_space(c: char) -> (res: bool)
    ensures
        res == is_space(c),
{
    let n: u32 = c as u32;
    (n >= 0x09 && n <= 0x0d) || n == 0x20 || n == 0x85 || n == 0xa0 || n == 0x1680 || (n >= 0x2000
        && n <= 0x200a) || n == 0x2028 || n == 0x2029 || n == 0x202f || n == 0x205f || n == 0x3000
}

pub fn char_to_lower(c: char) -> (res: char)
    ensures
        res == lower_char(c),
{
    if c >= 'A' && c <= 'Z' {
        (c as u8 + 32u8) as char
    } else {
        c
    }
}

// ---------------------------------------------------------------------------
// Characters, strings and equality
// ---------------------------------------------------------------------------

/// The characters of `text`.
pub fn chars_of(text: &str) -> (res: Vec<char>)
    ensures
        res@ == text@,
{
    let mut res: Vec<char> = Vec::new();
    for c in iter: text.chars()
        invariant
            iter.seq() == text@,
            res@ == text@.take(iter.index() as int),
    {
        res.push(c);
    }
    res
}

/// The text made of `chars`.
pub fn text_of(chars: &[char]) -> (res: String)
    ensures
        res@ == chars@,
{
    let mut res = String::new();
    let mut i: usize = 0;
    while i < chars.len()
        invariant
            i <= chars.len(),
            res@ == chars@.take(i as int),
        decreases chars.len() - i,
    {
        res.push(chars[i]);
        i = i + 1;
    }
    assert(chars@.take(i as int) == chars@);
    res
}

/// Whether two texts hold the same characters.
pub fn same_text(a: &str, b: &str) -> (res: bool)
    ensures
        res == (a@ == b@),
{
    let x = a.as_bytes();
    let y = b.as_bytes();
    if x.len() != y.len() {
        return false;
    }
    let mut i: usize = 0;
    while i < x.len()
        invariant
            i <= x.len(),
            x.len() == y.len(),
            x@ == vstd::utf8::encode_utf8(a@),
            y@ == vstd::utf8::encode_utf8(b@),
            x@.take(i as int) == y@.take(i as int),
        decreases x.len() - i,
    {
        if x[i] != y[i] {
            assert(vstd::utf8::encode_utf8(a@)[i as int] != vstd::utf8::encode_utf8(b@)[i as int]);
            return false;
        }
        assert(x@.take(i + 1) == x@.take(i as int).push(x@[i as int]));
        assert(y@.take(i + 1) == y@.take(i as int).push(y@[i as int]));
        i = i + 1;
    }
    proof {
        assert(x@.take(i as int) == x@);
        assert(y@.take(i as int) == y@);
        vstd::utf8::encode_utf8_decode_utf8(a@);
        vstd::utf8::encode_utf8_decode_utf8(b@);
    }
    true
}

/// Whether two character slices are equal.
pub fn same_chars(a: &[char], b: &[char]) -> (res: bool)
    ensures
        res == (a@ == b@),
{
    if a.len() != b.len() {
        return false;
    }
    let mut i: usize = 0;
    while i < a.len()
        invariant
            i <= a.len(),
            a.len() == b.len(),
            forall|k: int| 0 <= k < i ==> a@[k] == b@[k],
        decreases a.len() - i,
    {
        if a[i] != b[i] {
            return false;
        }
        i = i + 1;
    }
    assert(a@ =~= b@);
    true
}

// ---------------------------------------------------------------------------
// Numbers as text
// ---------------------------------------------------------------------------

/// Every character is an ASCII letter, an ASCII digit or one of `extra`.
pub open spec fn made_of(text: Seq<char>, extra: Seq<char>) -> bool {
    forall|i: int| 0 <= i < text.len() ==> is_alphanumeric(#[trigger] text[i]) || extra.contains(text[i])
}

fn char_in(c: char, set: &[char]) -> (res: bool)
    ensures
        res == set@.contains(c),
{
    let mut i: usize = 0;
    while i < set.len()
        invariant
            i <= set.len(),
            forall|k: int| 0 <= k < i ==> set@[k] != c,
        decreases set.len() - i,
    {
        if set[i] == c {
            return true;
        }
        i = i + 1;
    }
    false
}

pub fn is_made_of(text: &str, extra: &str) -> (res: bool)
    ensures
        res == made_of(text@, extra@),
{
    let chars = chars_of(text);
    let allowed = chars_of(extra);
    let mut i: usize = 0;
    while i < chars.len()
        invariant
            i <= chars.len(),
            chars@ == text@,
            allowed@ == extra@,
            forall|k: int| 0 <= k < i ==> is_alphanumeric(#[trigger] text@[k]) || extra@.contains(text@[k]),
        decreases chars.len() - i,
    {
        if !(char_is_alphanumeric(chars[i]) || char_in(chars[i], allowed.as_slice())) {
            return false;
        }
        i = i + 1;
    }
    true
}

pub open spec fn digit_char(d: int) -> char {
    if d < 10 {
        ('0' as u8 + d) as char
    } else {
        ('a' as u8 + (d - 10)) as char
    }
}

/// `n` in the given base, without leading zeros.
pub open spec fn base_text(n: nat, base: nat) -> Seq<char>
    decreases n,
{
    if base < 2 || n < base {
        seq![digit_char(n as int)]
    } else {
        proof {
            vstd::arithmetic::div_mod::lemma_div_decreases(n as int, base as int);
        }
        base_text(n / base, base).push(digit_char((n % base) as int))
    }
}

pub open spec fn dec(n: nat) -> Seq<char> {
    base_text(n, 10)
}

pub open spec fn signed_dec(n: int) -> Seq<char> {
    if n < 0 {
        "-"@ + dec((-n) as nat)
    } else {
        dec(n as nat)
    }
}

pub open spec fn hex(n: nat) -> Seq<char> {
    base_text(n, 16)
}

/// `text` with zeros in front, up to `width` characters.
pub open spec fn zero_padded(text: Seq<char>, width: nat) -> Seq<char> {
    if text.len() >= width {
        text
    } else {
        Seq::new((width - text.len()) as nat, |i: int| '0') + text
    }
}

/// `n` in hexadecimal, with at least eight digits.
pub open spec fn hex8(n: nat) -> Seq<char> {
    zero_padded(hex(n), 8)
}

/// `n` in hexadecimal, with at least two digits.
pub open spec fn hex2(n: nat) -> Seq<char> {
    zero_padded(hex(n), 2)
}

fn digit_to_char(d: u64) -> (res: char)
    requires
        d < 16,
    ensures
        res == digit_char(d as int),
{
    if d < 10 {
        (48u8 + d as u8) as char
    } else {
        (97u8 + (d - 10) as u8) as char
    }
}

/// `n` in the given base, at most hexadecimal.
pub fn base_chars(n: u64, base: u64) -> (res: Vec<char>)
    requires
        2 <= base <= 16,
    ensures
        res@ == base_text(n as nat, base as nat),
    decreases n,
{
    if n < base {
        let mut res: Vec<char> = Vec::new();
        res.push(digit_to_char(n));
        assert(res@ =~= seq![digit_char(n as int)]);
        res
    } else {
        assert(n / base < n) by (nonlinear_arith)
            requires
                base >= 2,
                n >= base,
        ;
        let mut res = base_chars(n / base, base);
        res.push(digit_to_char(n % base));
        res
    }
}

fn pad_zeros(digits: &[char], width: usize) -> (res: Vec<char>)
    ensures
        res@ == zero_padded(digits@, width as nat),
{
    let mut padded: Vec<char> = Vec::new();
    let mut i: usize = digits.len();
    while i < width
        invariant
            digits@.len() <= i,
            i <= width || i == digits@.len(),
            padded@ == Seq::new((i - digits@.len()) as nat, |k: int| '0'),
        decreases width - i,
    {
        padded.push('0');
        i = i + 1;
    }
    let ghost zeros = padded@;
    let mut k: usize = 0;
    while k < digits.len()
        invariant
            k <= digits@.len(),
            padded@ == zeros + digits@.take(k as int),
        decreases digits@.len() - k,
    {
        padded.push(digits[k]);
        k = k + 1;
        assert(padded@ =~= zeros + digits@.take(k as int));
    }
    assert(padded@ =~= zero_padded(digits@, width as nat));
    padded
}

/// `digits` without the zeros at its end.
pub open spec fn trim_zeros(digits: Seq<char>) -> Seq<char>
    decreases digits.len(),
{
    if digits.len() > 0 && digits.last() == '0' {
        trim_zeros(digits.drop_last())
    } else {
        digits
    }
}

/// `n` units, of which `unit` make one, as a decimal fraction of at most
/// `places` places.
pub open spec fn scaled(n: nat, unit: nat, places: nat) -> Seq<char> {
    if n % unit == 0 {
        dec(n / unit)
    } else {
        dec(n / unit) + "."@ + trim_zeros(zero_padded(dec(n % unit), places))
    }
}

/// Milliseconds in seconds, divided in double precision.
pub open spec fn millis(n: nat) -> Seq<char> {
    scaled(shown(n as int, 1000) as nat, 1000, 3)
}

/// Microseconds in seconds, divided in double precision.
pub open spec fn micros(n: nat) -> Seq<char> {
    scaled(shown(n as int, 1_000_000) as nat, 1_000_000, 6)
}

/// A text under construction. Each method appends one piece and hands the text
/// on.
pub struct Text {
    pub inner: String,
}

impl View for Text {
    type V = Seq<char>;

    open spec fn view(&self) -> Seq<char> {
        self.inner@
    }
}

impl Text {
    pub fn new(start: &str) -> (res: Text)
        ensures
            res@ == start@,
    {
        Text { inner: start.to_owned() }
    }

    pub fn str(self, piece: &str) -> (res: Text)
        ensures
            res@ == self@ + piece@,
    {
        let mut inner = self.inner;
        inner.append(piece);
        Text { inner }
    }

    pub fn chars(self, piece: &[char]) -> (res: Text)
        ensures
            res@ == self@ + piece@,
    {
        let mut inner = self.inner;
        let ghost start = inner@;
        let mut i: usize = 0;
        while i < piece.len()
            invariant
                i <= piece.len(),
                inner@ == start + piece@.take(i as int),
            decreases piece.len() - i,
        {
            inner.push(piece[i]);
            assert(piece@.take(i + 1) == piece@.take(i as int).push(piece@[i as int]));
            i = i + 1;
        }
        assert(piece@.take(i as int) == piece@);
        Text { inner }
    }

    pub fn dec(self, n: u64) -> (res: Text)
        ensures
            res@ == self@ + dec(n as nat),
    {
        let digits = base_chars(n, 10);
        self.chars(digits.as_slice())
    }

    pub fn signed(self, n: i64) -> (res: Text)
        ensures
            res@ == self@ + signed_dec(n as int),
    {
        if n < 0 {
            let ghost start = self@;
            let magnitude: u64 = (-(n + 1)) as u64 + 1;
            let text = self.str("-").dec(magnitude);
            assert(text@ =~= start + ("-"@ + dec((-n) as nat)));
            text
        } else {
            self.dec(n as u64)
        }
    }

    pub fn hex(self, n: u64) -> (res: Text)
        ensures
            res@ == self@ + hex(n as nat),
    {
        let digits = base_chars(n, 16);
        self.chars(digits.as_slice())
    }

    fn hex_width(self, n: u64, width: usize) -> (res: Text)
        ensures
            res@ == self@ + zero_padded(hex(n as nat), width as nat),
    {
        let digits = base_chars(n, 16);
        let padded = pad_zeros(digits.as_slice(), width);
        self.chars(padded.as_slice())
    }

    /// `n` units, of which `unit` make one, as a decimal fraction.
    fn scaled(self, n: u128, unit: u64, places: usize) -> (res: Text)
        requires
            unit >= 1000,
            n <= 0x10_0000_0000_0000_0000,
        ensures
            res@ == self@ + scaled(n as nat, unit as nat, places as nat),
    {
        let ghost start = self@;
        proof {
            vstd::arithmetic::div_mod::lemma_div_is_ordered_by_denominator(
                n as int,
                1000,
                unit as int,
            );
        }
        let whole = self.dec((n / unit as u128) as u64);
        let rest: u64 = (n % unit as u128) as u64;
        if rest == 0 {
            return whole;
        }
        let digits = base_chars(rest, 10);
        let padded = pad_zeros(digits.as_slice(), places);
        let mut end: usize = padded.len();
        assert(padded@.take(end as int) =~= padded@);
        while end > 0 && padded[end - 1] == '0'
            invariant
                end <= padded@.len(),
                trim_zeros(padded@) == trim_zeros(padded@.take(end as int)),
            decreases end,
        {
            assert(padded@.take(end as int).drop_last() =~= padded@.take(end - 1));
            end = end - 1;
        }
        let fraction = slice_subrange(padded.as_slice(), 0, end);
        assert(fraction@ =~= padded@.take(end as int));
        let text = whole.str(".").chars(fraction);
        assert(text@ =~= start + (dec((n / unit as u128) as nat) + "."@ + trim_zeros(padded@)));
        text
    }

    /// Milliseconds in seconds, as a double-precision number is shown.
    pub fn millis(self, n: u64) -> (res: Text)
        ensures
            res@ == self@ + millis(n as nat),
    {
        self.scaled(count_shown(n, 1000), 1000, 3)
    }

    /// Microseconds in seconds, as a double-precision number is shown.
    pub fn micros(self, n: u64) -> (res: Text)
        ensures
            res@ == self@ + micros(n as nat),
    {
        self.scaled(count_shown(n, 1_000_000), 1_000_000, 6)
    }

    pub fn hex8(self, n: u64) -> (res: Text)
        ensures
            res@ == self@ + hex8(n as nat),
    {
        self.hex_width(n, 8)
    }

    pub fn hex2(self, n: u64) -> (res: Text)
        ensures
            res@ == self@ + hex2(n as nat),
    {
        self.hex_width(n, 2)
    }

    pub fn done(self) -> (res: String)
        ensures
            res@ == self@,
    {
        self.inner
    }
}

// ---------------------------------------------------------------------------
// Substrings
// ---------------------------------------------------------------------------

/// `pattern` stands in `text` at position `at`.
pub open spec fn occurs_at(text: Seq<char>, pattern: Seq<char>, at: int) -> bool {
    &&& 0 <= at
    &&& at + pattern.len() <= text.len()
    &&& text.subrange(at, at + pattern.len()) == pattern
}

pub open spec fn contains(text: Seq<char>, pattern: Seq<char>) -> bool {
    exists|at: int| occurs_at(text, pattern, at)
}

/// `text` without `suffix`, where it ends in it.
pub open spec fn without_suffix(text: Seq<char>, suffix: Seq<char>) -> Option<Seq<char>> {
    if ends_with(text, suffix) {
        Some(text.take(text.len() - suffix.len()))
    } else {
        None
    }
}

pub open spec fn starts_with(text: Seq<char>, pattern: Seq<char>) -> bool {
    occurs_at(text, pattern, 0)
}

pub open spec fn ends_with(text: Seq<char>, pattern: Seq<char>) -> bool {
    occurs_at(text, pattern, text.len() - pattern.len())
}

/// The first position from `from` on at which `pattern` stands in `text`.
pub open spec fn find_from(text: Seq<char>, pattern: Seq<char>, from: int) -> Option<int>
    decreases text.len() - from + 1,
{
    if from < 0 || from + pattern.len() > text.len() {
        None
    } else if occurs_at(text, pattern, from) {
        Some(from)
    } else {
        find_from(text, pattern, from + 1)
    }
}

/// `find_from` gives the first occurrence, and misses none.
pub proof fn lemma_find_from(text: Seq<char>, pattern: Seq<char>, from: int)
    requires
        0 <= from,
    ensures
        match find_from(text, pattern, from) {
            Some(at) => from <= at && occurs_at(text, pattern, at) && forall|k: int|
                from <= k < at ==> !occurs_at(text, pattern, k),
            None => forall|k: int| from <= k ==> !occurs_at(text, pattern, k),
        },
    decreases text.len() - from + 1,
{
    if from + pattern.len() <= text.len() && !occurs_at(text, pattern, from) {
        lemma_find_from(text, pattern, from + 1);
    }
}

fn chars_at(text: &[char], pattern: &[char], at: usize) -> (res: bool)
    requires
        at <= text@.len(),
    ensures
        res == occurs_at(text@, pattern@, at as int),
{
    if pattern.len() > text.len() - at {
        return false;
    }
    let mut i: usize = 0;
    while i < pattern.len()
        invariant
            i <= pattern.len(),
            at + pattern.len() <= text.len(),
            forall|k: int| 0 <= k < i ==> text@[at + k] == pattern@[k],
        decreases pattern.len() - i,
    {
        if text[at + i] != pattern[i] {
            assert(text@.subrange(at as int, at + pattern@.len())[i as int] == text@[at + i]);
            return false;
        }
        i = i + 1;
    }
    assert(text@.subrange(at as int, at + pattern@.len()) =~= pattern@);
    true
}

/// Whether `pattern` stands in `text` at `at`.
pub fn text_at(text: &[char], pattern: &str, at: usize) -> (res: bool)
    requires
        at <= text@.len(),
    ensures
        res == occurs_at(text@, pattern@, at as int),
{
    let pattern = chars_of(pattern);
    chars_at(text, pattern.as_slice(), at)
}

/// The first position from `from` on at which `pattern` stands in `text`.
pub fn find_chars(text: &[char], pattern: &[char], from: usize) -> (res: Option<usize>)
    requires
        from <= text@.len(),
    ensures
        match res {
            Some(at) => find_from(text@, pattern@, from as int) == Some(at as int),
            None => find_from(text@, pattern@, from as int) is None,
        },
{
    let mut at: usize = from;
    while pattern.len() <= text.len() - at
        invariant
            from <= at <= text.len(),
            find_from(text@, pattern@, from as int) == find_from(text@, pattern@, at as int),
        decreases text.len() - at,
    {
        if chars_at(text, pattern, at) {
            return Some(at);
        }
        if at == text.len() {
            assert(text@.subrange(at as int, at + pattern@.len()) =~= pattern@);
            return None;
        }
        at = at + 1;
    }
    None
}

pub fn has_text(text: &[char], pattern: &str) -> (res: bool)
    ensures
        res == contains(text@, pattern@),
{
    let pattern = chars_of(pattern);
    proof {
        lemma_find_from(text@, pattern@, 0);
    }
    let found = find_chars(text, pattern.as_slice(), 0);
    proof {
        if let Some(at) = found {
            assert(occurs_at(text@, pattern@, at as int));
        }
    }
    found.is_some()
}

pub fn begins_with(text: &[char], pattern: &str) -> (res: bool)
    ensures
        res == starts_with(text@, pattern@),
{
    text_at(text, pattern, 0)
}

pub fn finishes_with(text: &[char], pattern: &str) -> (res: bool)
    ensures
        res == ends_with(text@, pattern@),
{
    let pattern = chars_of(pattern);
    if pattern.len() > text.len() {
        return false;
    }
    chars_at(text, pattern.as_slice(), text.len() - pattern.len())
}

// ---------------------------------------------------------------------------
// Trimming, lines, case and joining
// ---------------------------------------------------------------------------

pub open spec fn trim_start(text: Seq<char>) -> Seq<char>
    decreases text.len(),
{
    if text.len() > 0 && is_space(text[0]) {
        trim_start(text.skip(1))
    } else {
        text
    }
}

pub open spec fn trim_end(text: Seq<char>) -> Seq<char>
    decreases text.len(),
{
    if text.len() > 0 && is_space(text.last()) {
        trim_end(text.drop_last())
    } else {
        text
    }
}

pub open spec fn trim(text: Seq<char>) -> Seq<char> {
    trim_end(trim_start(text))
}

pub fn strip_suffix(text: &str, suffix: &str) -> (res: Option<String>)
    ensures
        opt_text(res) == without_suffix(text@, suffix@),
{
    let chars = chars_of(text);
    if !finishes_with(chars.as_slice(), suffix) {
        return None;
    }
    let tail = chars_of(suffix);
    let kept = vstd::slice::slice_subrange(chars.as_slice(), 0, chars.len() - tail.len());
    let stem = text_of(kept);
    assert(stem@ =~= text@.take(text@.len() - suffix@.len()));
    Some(stem)
}

pub fn trim_start_chars(text: &[char]) -> (res: &[char])
    ensures
        res@ == trim_start(text@),
{
    let mut i: usize = 0;
    assert(text@.skip(0) == text@);
    while i < text.len() && char_is_space(text[i])
        invariant
            i <= text.len(),
            trim_start(text@) == trim_start(text@.skip(i as int)),
        decreases text.len() - i,
    {
        assert(text@.skip(i as int).skip(1) == text@.skip(i + 1));
        i = i + 1;
    }
    let res = slice_subrange(text, i, text.len());
    assert(res@ == text@.skip(i as int));
    res
}

pub fn trim_chars(text: &[char]) -> (res: &[char])
    ensures
        res@ == trim(text@),
{
    let front = trim_start_chars(text);
    let mut j: usize = front.len();
    assert(front@.take(j as int) == front@);
    while j > 0 && char_is_space(front[j - 1])
        invariant
            j <= front.len(),
            trim_end(front@) == trim_end(front@.take(j as int)),
        decreases j,
    {
        assert(front@.take(j as int).drop_last() == front@.take(j - 1));
        j = j - 1;
    }
    let res = slice_subrange(front, 0, j);
    assert(res@ == front@.take(j as int));
    res
}

/// The first position from `from` on that holds `c`, or the length.
pub open spec fn char_index(text: Seq<char>, c: char, from: int) -> int
    decreases text.len() - from,
{
    if from < 0 || from >= text.len() {
        text.len() as int
    } else if text[from] == c {
        from
    } else {
        char_index(text, c, from + 1)
    }
}

pub proof fn lemma_char_index(text: Seq<char>, c: char, from: int)
    requires
        0 <= from <= text.len(),
    ensures
        from <= char_index(text, c, from) <= text.len(),
        char_index(text, c, from) < text.len() ==> text[char_index(text, c, from)] == c,
        forall|k: int| from <= k < char_index(text, c, from) ==> text[k] != c,
    decreases text.len() - from,
{
    if from < text.len() && text[from] != c {
        lemma_char_index(text, c, from + 1);
    }
}

pub fn find_char(text: &[char], c: char, from: usize) -> (res: usize)
    requires
        from <= text@.len(),
    ensures
        res == char_index(text@, c, from as int),
        from <= res <= text@.len(),
{
    let mut at: usize = from;
    while at < text.len() && text[at] != c
        invariant
            from <= at <= text.len(),
            char_index(text@, c, from as int) == char_index(text@, c, at as int),
        decreases text.len() - at,
    {
        at = at + 1;
    }
    at
}

pub open spec fn strip_carriage_return(line: Seq<char>) -> Seq<char> {
    if line.len() > 0 && line.last() == '\r' {
        line.drop_last()
    } else {
        line
    }
}

/// The lines of `text`: each ends at a line feed, together with a carriage
/// return before it; the end of the last line may be left out.
pub open spec fn lines(text: Seq<char>) -> Seq<Seq<char>>
    decreases text.len(),
{
    if text.len() == 0 {
        Seq::empty()
    } else {
        let end = char_index(text, '\n', 0);
        if end >= text.len() {
            seq![text]
        } else if end < 0 {
            Seq::empty()
        } else {
            seq![strip_carriage_return(text.take(end))] + lines(text.skip(end + 1))
        }
    }
}

/// The texts that `rows` hold.
pub open spec fn rows(rows: Seq<Vec<char>>) -> Seq<Seq<char>> {
    Seq::new(rows.len(), |i: int| rows[i]@)
}

pub open spec fn opt_text(text: Option<String>) -> Option<Seq<char>> {
    match text {
        Some(text) => Some(text@),
        None => None,
    }
}

/// The texts that `parts` hold.
pub open spec fn texts(parts: Seq<String>) -> Seq<Seq<char>> {
    Seq::new(parts.len(), |i: int| parts[i]@)
}

pub fn split_lines(text: &[char]) -> (res: Vec<Vec<char>>)
    ensures
        rows(res@) == lines(text@),
{
    let mut res: Vec<Vec<char>> = Vec::new();
    let mut start: usize = 0;
    assert(text@.skip(0) == text@);
    assert(rows(res@) =~= Seq::<Seq<char>>::empty());
    while start < text.len()
        invariant
            start <= text.len(),
            lines(text@) == rows(res@) + lines(text@.skip(start as int)),
        decreases text.len() - start,
    {
        let ghost rest = text@.skip(start as int);
        let ghost before = res@;
        let tail = slice_subrange(text, start, text.len());
        assert(tail@ == rest);
        let end = find_char(tail, '\n', 0);
        if end == tail.len() {
            let line = vstd::slice::slice_to_vec(tail);
            res.push(line);
            proof {
                assert(lines(rest) == seq![rest]);
                assert(rows(res@) =~= rows(before) + seq![rest]);
                assert(lines(text@) == rows(res@));
            }
            return res;
        }
        let mut stop: usize = end;
        if stop > 0 && tail[stop - 1] == '\r' {
            stop = stop - 1;
        }
        let line = vstd::slice::slice_to_vec(slice_subrange(tail, 0, stop));
        res.push(line);
        proof {
            let taken = rest.take(end as int);
            assert(line@ =~= strip_carriage_return(taken));
            assert(rest.skip(end + 1) == text@.skip(start + end + 1));
            assert(rows(res@) =~= rows(before) + seq![strip_carriage_return(taken)]);
            assert(rows(before) + (seq![strip_carriage_return(taken)] + lines(rest.skip(end + 1)))
                =~= rows(res@) + lines(rest.skip(end + 1)));
        }
        start = start + end + 1;
    }
    proof {
        assert(text@.skip(start as int) =~= Seq::<char>::empty());
        assert(rows(res@) + lines(text@.skip(start as int)) =~= rows(res@));
    }
    res
}

/// The pieces of `text` between the occurrences of `c`.
pub open spec fn split(text: Seq<char>, c: char) -> Seq<Seq<char>>
    decreases text.len(),
{
    let end = char_index(text, c, 0);
    if end < 0 || end >= text.len() {
        seq![text]
    } else {
        seq![text.take(end)] + split(text.skip(end + 1), c)
    }
}

pub fn split_chars(text: &[char], c: char) -> (res: Vec<Vec<char>>)
    ensures
        rows(res@) == split(text@, c),
{
    let mut res: Vec<Vec<char>> = Vec::new();
    let mut start: usize = 0;
    assert(text@.skip(0) =~= text@);
    assert(rows(res@) + split(text@, c) =~= split(text@, c));
    loop
        invariant
            start <= text@.len(),
            split(text@, c) == rows(res@) + split(text@.skip(start as int), c),
        decreases text@.len() - start,
    {
        let ghost rest = text@.skip(start as int);
        let ghost before = res@;
        let tail = slice_subrange(text, start, text.len());
        assert(tail@ =~= rest);
        let end = find_char(tail, c, 0);
        res.push(vstd::slice::slice_to_vec(slice_subrange(tail, 0, end)));
        if end == tail.len() {
            proof {
                assert(rest.subrange(0, end as int) =~= rest);
                assert(rows(res@) =~= rows(before) + seq![rest]);
            }
            return res;
        }
        proof {
            assert(rest.subrange(0, end as int) =~= rest.take(end as int));
            assert(rest.skip(end + 1) =~= text@.skip(start + end + 1));
            assert(rows(res@) =~= rows(before).push(rest.take(end as int)));
            assert(rows(before) + (seq![rest.take(end as int)] + split(rest.skip(end + 1), c))
                =~= rows(res@) + split(rest.skip(end + 1), c));
        }
        start = start + end + 1;
    }
}

/// `text` without the occurrences of `c` at both its ends.
pub open spec fn trim_char(text: Seq<char>, c: char) -> Seq<char>
    decreases text.len(),
{
    if text.len() > 0 && text[0] == c {
        trim_char(text.skip(1), c)
    } else if text.len() > 0 && text.last() == c {
        trim_char(text.drop_last(), c)
    } else {
        text
    }
}

pub fn trim_matches(text: &[char], c: char) -> (res: &[char])
    ensures
        res@ == trim_char(text@, c),
{
    let mut i: usize = 0;
    let mut j: usize = text.len();
    assert(text@.subrange(0, j as int) =~= text@);
    while i < j && text[i] == c
        invariant
            i <= j == text@.len(),
            trim_char(text@, c) == trim_char(text@.subrange(i as int, j as int), c),
        decreases j - i,
    {
        assert(text@.subrange(i as int, j as int).skip(1) =~= text@.subrange(i + 1, j as int));
        i = i + 1;
    }
    while i < j && text[j - 1] == c
        invariant
            i <= j <= text@.len(),
            i < j ==> text@[i as int] != c,
            trim_char(text@, c) == trim_char(text@.subrange(i as int, j as int), c),
        decreases j - i,
    {
        assert(text@.subrange(i as int, j as int).drop_last() =~= text@.subrange(
            i as int,
            j - 1,
        ));
        j = j - 1;
    }
    slice_subrange(text, i, j)
}

/// `text` without `prefix`, where it begins with it.
pub open spec fn without_prefix(text: Seq<char>, prefix: Seq<char>) -> Option<Seq<char>> {
    if starts_with(text, prefix) {
        Some(text.skip(prefix.len() as int))
    } else {
        None
    }
}

pub fn strip_prefix<'a>(text: &'a [char], prefix: &str) -> (res: Option<&'a [char]>)
    ensures
        match without_prefix(text@, prefix@) {
            Some(rest) => res matches Some(found) && found@ == rest,
            None => res is None,
        },
{
    if !begins_with(text, prefix) {
        return None;
    }
    let head = chars_of(prefix);
    let rest = slice_subrange(text, head.len(), text.len());
    assert(rest@ =~= text@.skip(prefix@.len() as int));
    Some(rest)
}

/// A character that the emulator's monitor takes in a name, or an underscore.
pub open spec fn safe_char(c: char) -> char {
    if is_alphanumeric(c) || c == '_' || c == '-' {
        c
    } else {
        '_'
    }
}

pub open spec fn safe_text(value: Seq<char>) -> Seq<char> {
    Seq::new(value.len(), |i: int| safe_char(value[i]))
}

/// A name for the emulator's monitor.
pub fn safe(value: &str) -> (res: String)
    ensures
        res@ == safe_text(value@),
{
    let chars = chars_of(value);
    let mut kept: Vec<char> = Vec::new();
    let mut i: usize = 0;
    while i < chars.len()
        invariant
            i <= chars@.len(),
            kept@.len() == i,
            forall|k: int| 0 <= k < i ==> kept@[k] == safe_char(chars@[k]),
        decreases chars@.len() - i,
    {
        let c = chars[i];
        kept.push(
            if char_is_alphanumeric(c) || c == '_' || c == '-' {
                c
            } else {
                '_'
            },
        );
        i = i + 1;
    }
    assert(kept@ =~= safe_text(value@));
    text_of(kept.as_slice())
}

/// Names made safe are safe, and stay as they are.
pub proof fn law_safe_names_stay(value: Seq<char>)
    ensures
        made_of(safe_text(value), "_-"@),
        safe_text(safe_text(value)) == safe_text(value),
        safe_text(value).len() == value.len(),
{
    reveal_strlit("_-");
    assert(safe_text(safe_text(value)) =~= safe_text(value));
    assert forall|i: int| 0 <= i < value.len() implies is_alphanumeric(
        #[trigger] safe_text(value)[i],
    ) || "_-"@.contains(safe_text(value)[i]) by {
        let c = safe_text(value)[i];
        if c == '_' {
            assert("_-"@[0] == c);
        } else if c == '-' {
            assert("_-"@[1] == c);
        }
    }
}

pub open spec fn lower(text: Seq<char>) -> Seq<char> {
    Seq::new(text.len(), |i: int| lower_char(text[i]))
}

pub fn lower_chars(text: &[char]) -> (res: Vec<char>)
    ensures
        res@ == lower(text@),
{
    let mut res: Vec<char> = Vec::new();
    let mut i: usize = 0;
    while i < text.len()
        invariant
            i <= text.len(),
            res@.len() == i,
            forall|k: int| 0 <= k < i ==> res@[k] == lower_char(text@[k]),
        decreases text.len() - i,
    {
        res.push(char_to_lower(text[i]));
        i = i + 1;
    }
    assert(res@ =~= lower(text@));
    res
}

/// The parts one after another, with `separator` between them.
pub open spec fn join(parts: Seq<Seq<char>>, separator: Seq<char>) -> Seq<char>
    decreases parts.len(),
{
    if parts.len() == 0 {
        Seq::empty()
    } else if parts.len() == 1 {
        parts[0]
    } else {
        join(parts.drop_last(), separator) + separator + parts.last()
    }
}

pub fn join_texts(parts: &[String], separator: &str) -> (res: String)
    ensures
        res@ == join(texts(parts@), separator@),
{
    let mut res = String::new();
    let mut i: usize = 0;
    assert(texts(parts@).take(0) =~= Seq::<Seq<char>>::empty());
    while i < parts.len()
        invariant
            i <= parts.len(),
            res@ == join(texts(parts@).take(i as int), separator@),
        decreases parts.len() - i,
    {
        let ghost next = texts(parts@).take(i + 1);
        assert(next.drop_last() =~= texts(parts@).take(i as int));
        if i > 0 {
            res.append(separator);
        }
        res.append(parts[i].as_str());
        proof {
            if i == 0 {
                assert(res@ =~= next[0]);
            }
        }
        i = i + 1;
    }
    assert(texts(parts@).take(i as int) =~= texts(parts@));
    res
}

pub fn join_rows(parts: &[Vec<char>], separator: &str) -> (res: String)
    ensures
        res@ == join(rows(parts@), separator@),
{
    let mut res = Text::new("");
    let mut i: usize = 0;
    proof {
        reveal_strlit("");
        assert(rows(parts@).take(0) =~= Seq::<Seq<char>>::empty());
        assert(res@ =~= Seq::<char>::empty());
    }
    while i < parts.len()
        invariant
            i <= parts.len(),
            res@ == join(rows(parts@).take(i as int), separator@),
        decreases parts.len() - i,
    {
        let ghost next = rows(parts@).take(i + 1);
        assert(next.drop_last() =~= rows(parts@).take(i as int));
        if i > 0 {
            res = res.str(separator);
        }
        res = res.chars(parts[i].as_slice());
        proof {
            if i == 0 {
                assert(res@ =~= next[0]);
            }
        }
        i = i + 1;
    }
    assert(rows(parts@).take(i as int) =~= rows(parts@));
    res.done()
}

// ---------------------------------------------------------------------------
// Numbers from text
// ---------------------------------------------------------------------------

pub open spec fn digit_value(c: char) -> int {
    if is_digit(c) {
        c as int - '0' as int
    } else if is_lower(c) {
        c as int - 'a' as int + 10
    } else if is_upper(c) {
        c as int - 'A' as int + 10
    } else {
        99
    }
}

pub open spec fn all_digits(text: Seq<char>, base: int) -> bool {
    forall|i: int| 0 <= i < text.len() ==> digit_value(#[trigger] text[i]) < base
}

/// What the digits in `text` denote.
pub open spec fn digits_value(text: Seq<char>, base: int) -> int
    decreases text.len(),
{
    if text.len() == 0 {
        0
    } else {
        digits_value(text.drop_last(), base) * base + digit_value(text.last())
    }
}

pub open spec fn unsigned_digits(text: Seq<char>) -> Seq<char> {
    if text.len() > 0 && text[0] == '+' {
        text.skip(1)
    } else {
        text
    }
}

/// The number that `text` denotes: digits of the base, with or without a plus
/// sign before them, and no more than `limit`.
pub open spec fn number(text: Seq<char>, base: int, limit: int) -> Option<int> {
    let digits = unsigned_digits(text);
    if digits.len() > 0 && all_digits(digits, base) && digits_value(digits, base) <= limit {
        Some(digits_value(digits, base))
    } else {
        None
    }
}

proof fn lemma_digits_grow(text: Seq<char>, base: int, i: int)
    requires
        base >= 2,
        0 <= i <= text.len(),
        all_digits(text, base),
    ensures
        0 <= digits_value(text.take(i), base) <= digits_value(text, base),
    decreases text.len(),
{
    assert(text.take(text.len() as int) == text);
    if text.len() == 0 {
    } else {
        let init = text.drop_last();
        assert(all_digits(init, base));
        lemma_digits_grow(init, base, 0);
        assert(init.take(0) =~= Seq::<char>::empty());
        assert(digit_value(text.last()) >= 0);
        assert(digits_value(init, base) * base >= digits_value(init, base)) by (nonlinear_arith)
            requires
                base >= 2,
                digits_value(init, base) >= 0,
        ;
        if i < text.len() {
            lemma_digits_grow(init, base, i);
            assert(init.take(i) =~= text.take(i));
        }
    }
}

fn char_digit_value(c: char) -> (res: u64)
    ensures
        res == digit_value(c),
{
    let n: u32 = c as u32;
    if c >= '0' && c <= '9' {
        (n - 48) as u64
    } else if c >= 'a' && c <= 'z' {
        (n - 97 + 10) as u64
    } else if c >= 'A' && c <= 'Z' {
        (n - 65 + 10) as u64
    } else {
        99
    }
}

pub fn parse_number(text: &[char], base: u64, limit: u64) -> (res: Option<u64>)
    requires
        2 <= base <= 36,
    ensures
        match res {
            Some(n) => number(text@, base as int, limit as int) == Some(n as int),
            None => number(text@, base as int, limit as int) is None,
        },
{
    let start: usize = if text.len() > 0 && text[0] == '+' {
        1
    } else {
        0
    };
    let digits = slice_subrange(text, start, text.len());
    assert(digits@ =~= unsigned_digits(text@));
    if digits.len() == 0 {
        return None;
    }
    let mut value: u64 = 0;
    let mut i: usize = 0;
    while i < digits.len()
        invariant
            i <= digits.len(),
            2 <= base <= 36,
            digits@ == unsigned_digits(text@),
            all_digits(digits@.take(i as int), base as int),
            value == digits_value(digits@.take(i as int), base as int),
            value <= limit,
        decreases digits.len() - i,
    {
        let digit = char_digit_value(digits[i]);
        let ghost next = digits@.take(i + 1);
        assert(next.drop_last() =~= digits@.take(i as int));
        if digit >= base {
            assert(digits@[i as int] == digits[i as int]);
            return None;
        }
        assert(all_digits(next, base as int)) by {
            assert forall|k: int| 0 <= k < next.len() implies digit_value(#[trigger] next[k])
                < base by {
                if k < i {
                    assert(digits@.take(i as int)[k] == next[k]);
                }
            }
        }
        assert(value * base <= 0x24_0000_0000_0000_0000) by (nonlinear_arith)
            requires
                value <= 0xffff_ffff_ffff_ffff,
                base <= 36,
        ;
        let wide: u128 = value as u128 * base as u128 + digit as u128;
        if wide > limit as u128 {
            proof {
                if all_digits(digits@, base as int) {
                    lemma_digits_grow(digits@, base as int, i + 1);
                }
            }
            return None;
        }
        value = wide as u64;
        i = i + 1;
    }
    assert(digits@.take(i as int) == digits@);
    Some(value)
}

// ---------------------------------------------------------------------------
// Lines that are written out again
// ---------------------------------------------------------------------------

/// A line that is read back as it was written: it holds no line feed and does
/// not end in a carriage return.
pub open spec fn plain_line(line: Seq<char>) -> bool {
    &&& !line.contains('\n')
    &&& line.len() > 0 ==> line.last() != '\r'
}

proof fn lemma_join_first(parts: Seq<Seq<char>>, separator: Seq<char>)
    requires
        parts.len() > 1,
    ensures
        join(parts, separator) == parts[0] + separator + join(parts.skip(1), separator),
    decreases parts.len(),
{
    let front = parts.drop_last();
    if parts.len() == 2 {
        assert(join(front, separator) == parts[0]);
        assert(join(parts.skip(1), separator) == parts[1]);
    } else {
        lemma_join_first(front, separator);
        assert(front.skip(1) =~= parts.skip(1).drop_last());
        assert(parts.skip(1).last() == parts.last());
        assert(join(parts, separator) =~= parts[0] + separator + join(parts.skip(1), separator));
    }
}

pub proof fn lemma_first_line(line: Seq<char>, rest: Seq<char>)
    requires
        plain_line(line),
    ensures
        lines(line + "\n"@ + rest) == seq![line] + lines(rest),
{
    reveal_strlit("\n");
    let text = line + "\n"@ + rest;
    lemma_char_index(text, '\n', 0);
    let end = char_index(text, '\n', 0);
    assert(text[line.len() as int] == '\n');
    if end < line.len() {
        assert(line.contains(text[end]));
    }
    assert(text.take(end) =~= line);
    assert(text.skip(end + 1) =~= rest);
}

/// Lines that are written out, each with a line feed, are read back.
pub proof fn law_written_lines_are_read_back(all: Seq<Seq<char>>)
    requires
        all.len() > 0,
        forall|i: int| 0 <= i < all.len() ==> plain_line(#[trigger] all[i]),
    ensures
        lines(join(all, "\n"@) + "\n"@) == all,
    decreases all.len(),
{
    if all.len() == 1 {
        lemma_first_line(all[0], Seq::empty());
        assert(all[0] + "\n"@ + Seq::<char>::empty() =~= join(all, "\n"@) + "\n"@);
        assert(seq![all[0]] + lines(Seq::empty()) =~= all);
    } else {
        let rest = all.skip(1);
        lemma_join_first(all, "\n"@);
        law_written_lines_are_read_back(rest);
        lemma_first_line(all[0], join(rest, "\n"@) + "\n"@);
        assert(join(all, "\n"@) + "\n"@ =~= all[0] + "\n"@ + (join(rest, "\n"@) + "\n"@));
        assert(seq![all[0]] + rest =~= all);
    }
}

/// No line holds a line feed.
pub proof fn lemma_lines_hold_no_feed(text: Seq<char>, i: int)
    requires
        0 <= i < lines(text).len(),
    ensures
        !lines(text)[i].contains('\n'),
    decreases text.len(),
{
    lemma_char_index(text, '\n', 0);
    let end = char_index(text, '\n', 0);
    if end < text.len() {
        if i == 0 {
            let line = text.take(end);
            assert forall|k: int| 0 <= k < lines(text)[0].len() implies lines(text)[0][k]
                != '\n' by {
                assert(lines(text)[0][k] == line[k]);
            }
        } else {
            lemma_lines_hold_no_feed(text.skip(end + 1), i - 1);
        }
    }
}

/// A number is written with digits.
pub proof fn lemma_decimal_digits(n: nat)
    ensures
        dec(n).len() > 0,
        forall|i: int| 0 <= i < dec(n).len() ==> is_digit(#[trigger] dec(n)[i]),
    decreases n,
{
    if n >= 10 {
        lemma_decimal_digits(n / 10);
    }
}

// ---------------------------------------------------------------------------
// What is written is read back
// ---------------------------------------------------------------------------

/// Texts that end a line can be read one after the other.
pub proof fn lemma_lines_append(a: Seq<char>, b: Seq<char>)
    requires
        a.len() == 0 || a.last() == '\n',
    ensures
        lines(a + b) == lines(a) + lines(b),
    decreases a.len(),
{
    if a.len() == 0 {
        assert(a + b =~= b);
        assert(lines(a) + lines(b) =~= lines(b));
    } else {
        let whole = a + b;
        lemma_char_index(a, '\n', 0);
        lemma_char_index(whole, '\n', 0);
        let end = char_index(a, '\n', 0);
        assert(a[a.len() - 1] == '\n');
        assert(end < a.len());
        assert(whole[end] == '\n');
        assert(char_index(whole, '\n', 0) == end) by {
            let other = char_index(whole, '\n', 0);
            if other < end {
                assert(a[other] == whole[other]);
            }
        }
        let rest = a.skip(end + 1);
        assert(whole.take(end) =~= a.take(end));
        assert(whole.skip(end + 1) =~= rest + b);
        assert(rest.len() > 0 ==> rest.last() == a.last());
        lemma_lines_append(rest, b);
        let first = seq![strip_carriage_return(a.take(end))];
        assert(first + (lines(rest) + lines(b)) =~= (first + lines(rest)) + lines(b));
    }
}

/// One line with its line feed is one line.
pub proof fn lemma_one_line(line: Seq<char>)
    requires
        plain_line(line),
    ensures
        lines(line + "\n"@) == seq![line],
        (line + "\n"@).last() == '\n',
{
    reveal_strlit("\n");
    lemma_first_line(line, Seq::empty());
    assert(line + "\n"@ + Seq::<char>::empty() =~= line + "\n"@);
    assert(seq![line] + lines(Seq::empty()) =~= seq![line]);
}

/// Neither text holds the character.
pub proof fn lemma_lacks(a: Seq<char>, b: Seq<char>, c: char)
    requires
        !a.contains(c),
        !b.contains(c),
    ensures
        !(a + b).contains(c),
{
    assert forall|i: int| 0 <= i < (a + b).len() implies (a + b)[i] != c by {
        if i < a.len() {
            assert(a.contains(a[i]));
        } else {
            assert(b.contains(b[i - a.len()]));
        }
    }
}

/// The digits of a number, and nothing but them, are what it is written with.
pub proof fn lemma_base_digits(n: nat, base: nat)
    requires
        2 <= base <= 16,
    ensures
        base_text(n, base).len() > 0,
        all_digits(base_text(n, base), base as int),
        digits_value(base_text(n, base), base as int) == n,
        forall|i: int|
            0 <= i < base_text(n, base).len() ==> is_hex_digit(#[trigger] base_text(n, base)[i])
                && !is_upper(base_text(n, base)[i]),
        base <= 10 ==> forall|i: int|
            0 <= i < base_text(n, base).len() ==> is_digit(#[trigger] base_text(n, base)[i]),
        n > 0 ==> base_text(n, base)[0] != '0',
    decreases n,
{
    if n < base {
        assert(seq![digit_char(n as int)].drop_last() =~= Seq::<char>::empty());
        assert(digits_value(Seq::<char>::empty(), base as int) == 0);
        assert(0 * base == 0);
    } else {
        vstd::arithmetic::div_mod::lemma_div_decreases(n as int, base as int);
        vstd::arithmetic::div_mod::lemma_fundamental_div_mod(n as int, base as int);
        vstd::arithmetic::div_mod::lemma_mod_bound(n as int, base as int);
        vstd::arithmetic::div_mod::lemma_div_non_zero(n as int, base as int);
        lemma_base_digits(n / base, base);
        let front = base_text(n / base, base);
        let whole = base_text(n, base);
        assert(whole.drop_last() =~= front);
        assert(base * (n / base) == (n / base) * base) by (nonlinear_arith);
        assert forall|i: int| 0 <= i < whole.len() implies digit_value(#[trigger] whole[i])
            < base by {
            if i < front.len() {
                assert(whole[i] == front[i]);
            }
        }
        assert forall|i: int| 0 <= i < whole.len() implies is_hex_digit(#[trigger] whole[i])
            && !is_upper(whole[i]) by {
            if i < front.len() {
                assert(whole[i] == front[i]);
            }
        }
        if base <= 10 {
            assert forall|i: int| 0 <= i < whole.len() implies is_digit(#[trigger] whole[i]) by {
                if i < front.len() {
                    assert(whole[i] == front[i]);
                }
            }
        }
        assert(whole[0] == front[0]);
    }
}

/// A number that is written in decimal or in hexadecimal is read back as
/// itself, and is written without zeros in front.
pub proof fn law_numbers_are_read_back(n: nat)
    ensures
        number(dec(n), 10, n as int) == Some(n as int),
        number(hex(n), 16, n as int) == Some(n as int),
        n > 0 ==> dec(n)[0] != '0' && hex(n)[0] != '0',
        forall|i: int| 0 <= i < dec(n).len() ==> '0' <= #[trigger] dec(n)[i] <= '9',
        forall|i: int|
            0 <= i < hex(n).len() ==> '0' <= #[trigger] hex(n)[i] <= '9' || 'a' <= hex(n)[i] <= 'f',
{
    lemma_base_digits(n, 10);
    lemma_base_digits(n, 16);
    assert(is_hex_digit(dec(n)[0]) && is_hex_digit(hex(n)[0]));
    assert forall|i: int| 0 <= i < hex(n).len() implies '0' <= #[trigger] hex(n)[i] <= '9' || 'a'
        <= hex(n)[i] <= 'f' by {
        assert(is_hex_digit(base_text(n, 16)[i]) && !is_upper(base_text(n, 16)[i]));
    }
}

/// Zeros in front change nothing.
pub proof fn lemma_zero_padded(text: Seq<char>, width: nat, base: int)
    requires
        base >= 2,
        all_digits(text, base),
    ensures
        zero_padded(text, width).len() >= width,
        zero_padded(text, width).len() >= text.len(),
        all_digits(zero_padded(text, width), base),
        digits_value(zero_padded(text, width), base) == digits_value(text, base),
    decreases text.len(),
{
    let padded = zero_padded(text, width);
    if text.len() < width {
        let zeros = Seq::new((width - text.len()) as nat, |i: int| '0');
        assert forall|i: int| 0 <= i < padded.len() implies digit_value(#[trigger] padded[i])
            < base by {
            if i >= zeros.len() {
                assert(padded[i] == text[i - zeros.len()]);
            }
        }
        lemma_leading_zeros(zeros, text, base);
    }
}

proof fn lemma_leading_zeros(zeros: Seq<char>, text: Seq<char>, base: int)
    requires
        forall|i: int| 0 <= i < zeros.len() ==> #[trigger] zeros[i] == '0',
    ensures
        digits_value(zeros + text, base) == digits_value(text, base),
    decreases zeros.len() + text.len(),
{
    let whole = zeros + text;
    if text.len() > 0 {
        lemma_leading_zeros(zeros, text.drop_last(), base);
        assert(whole.drop_last() =~= zeros + text.drop_last());
    } else if zeros.len() > 0 {
        assert(whole.drop_last() =~= zeros.drop_last() + text);
        lemma_leading_zeros(zeros.drop_last(), text, base);
        assert(whole.last() == zeros.last());
        assert(0 * base == 0);
    } else {
        assert(whole =~= text);
    }
}

/// A number in hexadecimal keeps its value when it is filled up with zeros.
pub proof fn law_padded_numbers_are_read_back(n: nat)
    ensures
        digits_value(hex2(n), 16) == n,
        digits_value(hex8(n), 16) == n,
        hex2(n).len() >= 2,
        hex8(n).len() >= 8,
        n < 0x100 ==> hex2(n).len() == 2,
        n < 0x1_0000_0000 ==> hex8(n).len() == 8,
{
    lemma_base_digits(n, 16);
    lemma_zero_padded(hex(n), 2, 16);
    lemma_zero_padded(hex(n), 8, 16);
    reveal_with_fuel(base_text, 9);
}

/// Pieces that are joined are found again between the separators.
pub proof fn lemma_split_join(parts: Seq<Seq<char>>, c: char)
    requires
        parts.len() > 0,
        forall|i: int| 0 <= i < parts.len() ==> !(#[trigger] parts[i]).contains(c),
    ensures
        split(join(parts, seq![c]), c) == parts,
    decreases parts.len(),
{
    let text = join(parts, seq![c]);
    lemma_char_index(text, c, 0);
    let end = char_index(text, c, 0);
    if parts.len() == 1 {
        if end < text.len() {
            assert(parts[0].contains(text[end]));
        }
        assert(split(text, c) =~= parts);
    } else {
        lemma_join_first(parts, seq![c]);
        let rest = parts.skip(1);
        assert forall|i: int| 0 <= i < rest.len() implies !(#[trigger] rest[i]).contains(c) by {
            assert(rest[i] == parts[i + 1]);
        }
        lemma_split_join(rest, c);
        assert(text[parts[0].len() as int] == c);
        if end < parts[0].len() {
            assert(parts[0].contains(text[end]));
        }
        assert(text.take(end) =~= parts[0]);
        assert(text.skip(end + 1) =~= join(rest, seq![c]));
        assert(seq![parts[0]] + rest =~= parts);
    }
}

/// A piece of a text is a piece of every text that holds it.
pub proof fn lemma_pieces_are_kept(piece: Seq<char>)
    ensures
        contains(piece, piece),
        forall|text: Seq<char>, more: Seq<char>|
            contains(text, piece) || contains(more, piece) ==> contains(
                #[trigger] (text + more),
                piece,
            ),
{
    assert(piece.subrange(0, piece.len() as int) =~= piece);
    assert(occurs_at(piece, piece, 0));
    assert forall|text: Seq<char>, more: Seq<char>|
        contains(text, piece) || contains(more, piece) implies contains(
        #[trigger] (text + more),
        piece,
    ) by {
        if contains(text, piece) {
            let at = choose|at: int| occurs_at(text, piece, at);
            assert((text + more).subrange(at, at + piece.len()) =~= text.subrange(
                at,
                at + piece.len(),
            ));
            assert(occurs_at(text + more, piece, at));
        } else {
            let at = choose|at: int| occurs_at(more, piece, at);
            let from = text.len() + at;
            assert((text + more).subrange(from, from + piece.len()) =~= more.subrange(
                at,
                at + piece.len(),
            ));
            assert(occurs_at(text + more, piece, from));
        }
    }
}

/// It does not matter which of three texts are joined first.
pub proof fn lemma_grouped(a: Seq<char>, b: Seq<char>, c: Seq<char>)
    ensures
        a + b + c == a + (b + c),
{
    assert(a + b + c =~= a + (b + c));
}

/// A duration is written with digits and at most one point.
pub proof fn lemma_scaled_chars(n: nat, unit: nat, places: nat)
    requires
        unit > 0,
    ensures
        scaled(n, unit, places).len() > 0,
        forall|i: int|
            0 <= i < scaled(n, unit, places).len() ==> is_digit(
                #[trigger] scaled(n, unit, places)[i],
            ) || scaled(n, unit, places)[i] == '.',
{
    reveal_strlit(".");
    lemma_base_digits(n / unit, 10);
    lemma_base_digits(n % unit, 10);
    let fraction = zero_padded(dec(n % unit), places);
    lemma_trimmed(fraction);
    let kept = trim_zeros(fraction);
    let whole = scaled(n, unit, places);
    assert forall|i: int| 0 <= i < whole.len() implies is_digit(#[trigger] whole[i]) || whole[i]
        == '.' by {
        let front = dec(n / unit);
        if i < front.len() {
            assert(whole[i] == front[i]);
        } else if i > front.len() {
            assert(whole[i] == kept[i - front.len() - 1]);
            assert(kept[i - front.len() - 1] == fraction[i - front.len() - 1]);
        }
    }
}

proof fn lemma_trimmed(digits: Seq<char>)
    ensures
        trim_zeros(digits).len() <= digits.len(),
        trim_zeros(digits) == digits.take(trim_zeros(digits).len() as int),
        forall|i: int|
            trim_zeros(digits).len() <= i < digits.len() ==> #[trigger] digits[i] == '0',
        trim_zeros(digits).len() > 0 ==> trim_zeros(digits).last() != '0',
    decreases digits.len(),
{
    if digits.len() > 0 && digits.last() == '0' {
        let front = digits.drop_last();
        lemma_trimmed(front);
        assert(digits.take(trim_zeros(front).len() as int) =~= front.take(
            trim_zeros(front).len() as int,
        ));
        assert forall|i: int| trim_zeros(digits).len() <= i < digits.len() implies #[trigger] digits[i]
            == '0' by {
            if i < front.len() {
                assert(front[i] == digits[i]);
            }
        }
    } else {
        assert(digits.take(digits.len() as int) =~= digits);
    }
}

/// `digits` with zeros behind it, up to `width` characters.
pub open spec fn filled(digits: Seq<char>, width: nat) -> Seq<char> {
    digits + Seq::new(
        if digits.len() < width {
            (width - digits.len()) as nat
        } else {
            0
        },
        |i: int| '0',
    )
}

proof fn lemma_scaled_value(n: nat, unit: nat, places: nat)
    requires
        unit > 0,
        dec(n % unit).len() <= places,
    ensures
        ({
            let text = scaled(n, unit, places);
            let point = char_index(text, '.', 0);
            &&& digits_value(text.take(point), 10) == n / unit
            &&& n % unit == 0 ==> point == text.len()
            &&& n % unit != 0 ==> point < text.len() && digits_value(
                filled(text.skip(point + 1), places),
                10,
            ) == n % unit
        }),
{
    reveal_strlit(".");
    lemma_base_digits(n / unit, 10);
    lemma_base_digits(n % unit, 10);
    lemma_zero_padded(dec(n % unit), places, 10);
    let front = dec(n / unit);
    let fraction = zero_padded(dec(n % unit), places);
    lemma_trimmed(fraction);
    let kept = trim_zeros(fraction);
    let text = scaled(n, unit, places);
    let point = char_index(text, '.', 0);
    lemma_char_index(text, '.', 0);
    if point < front.len() {
        assert(text[point] == front[point]);
    }
    if n % unit == 0 {
        assert(text.take(point) =~= front);
    } else {
        assert(text[front.len() as int] == '.');
        assert(point == front.len());
        assert(text.take(point) =~= front);
        assert(text.skip(point + 1) =~= kept);
        assert(filled(kept, places) =~= fraction);
    }
}

/// A duration in seconds is read back as the count it was made of: the digits
/// before the point are the whole seconds, the digits behind it, filled up with
/// zeros, the milliseconds or microseconds that are left.
pub proof fn law_durations_are_read_back(n: nat)
    requires
        n <= 0x8_0000_0000_0000,
    ensures
        ({
            let text = millis(n);
            let point = char_index(text, '.', 0);
            &&& digits_value(text.take(point), 10) == n / 1000
            &&& n % 1000 == 0 ==> point == text.len()
            &&& n % 1000 != 0 ==> point < text.len() && digits_value(
                filled(text.skip(point + 1), 3),
                10,
            ) == n % 1000
        }),
        ({
            let text = micros(n);
            let point = char_index(text, '.', 0);
            &&& digits_value(text.take(point), 10) == n / 1_000_000
            &&& n % 1_000_000 == 0 ==> point == text.len()
            &&& n % 1_000_000 != 0 ==> point < text.len() && digits_value(
                filled(text.skip(point + 1), 6),
                10,
            ) == n % 1_000_000
        }),
{
    crate::double::law_small_counts_are_exact(n as int, 1000);
    crate::double::law_small_counts_are_exact(n as int, 1_000_000);
    reveal_with_fuel(base_text, 7);
    assert(dec(n % 1000).len() <= 3);
    assert(dec(n % 1_000_000).len() <= 6);
    lemma_scaled_value(n, 1000, 3);
    lemma_scaled_value(n, 1_000_000, 6);
}

/// A duration is one word.
pub proof fn lemma_duration_chars(n: nat)
    ensures
        !millis(n).contains('\n'),
        !micros(n).contains('\n'),
        !millis(n).contains('['),
        !micros(n).contains('['),
{
    let a = millis(n);
    let b = micros(n);
    lemma_scaled_chars(crate::double::shown(n as int, 1000) as nat, 1000, 3);
    lemma_scaled_chars(crate::double::shown(n as int, 1_000_000) as nat, 1_000_000, 6);
    assert forall|i: int| 0 <= i < a.len() implies a[i] != '\n' && a[i] != '[' by {
        assert(is_digit(a[i]) || a[i] == '.');
    }
    assert forall|i: int| 0 <= i < b.len() implies b[i] != '\n' && b[i] != '[' by {
        assert(is_digit(b[i]) || b[i] == '.');
    }
}

/// Letters, digits and the extra characters, and no others, make a name:
/// joining two names makes a name, and every name is made of such characters.
pub proof fn law_names_are_made_of_their_characters(a: Seq<char>, b: Seq<char>, extra: Seq<char>)
    ensures
        made_of(a + b, extra) <==> made_of(a, extra) && made_of(b, extra),
        made_of(Seq::<char>::empty(), extra),
        forall|c: char| #[trigger]
            made_of(seq![c], extra) <==> ('a' <= c && c <= 'z') || ('A' <= c && c <= 'Z') || ('0'
                <= c && c <= '9') || extra.contains(c),
{
    if made_of(a + b, extra) {
        assert forall|i: int| 0 <= i < a.len() implies is_alphanumeric(#[trigger] a[i])
            || extra.contains(a[i]) by {
            assert((a + b)[i] == a[i]);
        }
        assert forall|i: int| 0 <= i < b.len() implies is_alphanumeric(#[trigger] b[i])
            || extra.contains(b[i]) by {
            assert((a + b)[i + a.len()] == b[i]);
        }
    }
    assert forall|c: char| #[trigger] made_of(seq![c], extra) <==> ('a' <= c && c <= 'z') || ('A'
        <= c && c <= 'Z') || ('0' <= c && c <= '9') || extra.contains(c) by {
        assert(seq![c][0] == c);
    }
}

/// Lower case changes the capital letters, by their place in the alphabet, and
/// nothing else.
pub proof fn law_lower_case_changes_capitals(text: Seq<char>, i: int)
    requires
        0 <= i < text.len(),
    ensures
        lower(text).len() == text.len(),
        'A' <= text[i] <= 'Z' ==> lower(text)[i] as int == text[i] as int + 32,
        !('A' <= text[i] <= 'Z') ==> lower(text)[i] == text[i],
        lower(lower(text)) == lower(text),
{
    assert(lower(lower(text)) =~= lower(text));
}

/// Text is trimmed of the white space at its ends, and of nothing else.
pub proof fn law_trimming_takes_white_space(text: Seq<char>)
    ensures
        exists|a: int, b: int|
            0 <= a <= b <= text.len() && #[trigger] text.subrange(a, b) == trim(text) && (forall|
                i: int,
            |
                0 <= i < a || b <= i < text.len() ==> is_space(#[trigger] text[i])),
        trim(text).len() > 0 ==> !is_space(trim(text)[0]) && !is_space(trim(text).last()),
        is_space(' ') && is_space('\n') && is_space('\r') && is_space('\t'),
        forall|c: char| '!' <= c && c <= '~' ==> !#[trigger] is_space(c),
{
    lemma_trim_start(text);
    let front = trim_start(text);
    let a = text.len() - front.len();
    lemma_trim_end(front);
    let kept = trim_end(front);
    let b = a + kept.len();
    assert(text.subrange(a, b) =~= kept);
    assert forall|i: int| 0 <= i < a || b <= i < text.len() implies is_space(#[trigger] text[i]) by {
        if i >= b {
            assert(front[i - a] == text[i]);
        }
    }
    if kept.len() > 0 {
        assert(kept[0] == front[0]);
    }
}

proof fn lemma_trim_start(text: Seq<char>)
    ensures
        trim_start(text).len() <= text.len(),
        trim_start(text) == text.skip(text.len() - trim_start(text).len()),
        forall|i: int| 0 <= i < text.len() - trim_start(text).len() ==> is_space(#[trigger] text[i]),
        trim_start(text).len() > 0 ==> !is_space(trim_start(text)[0]),
    decreases text.len(),
{
    if text.len() > 0 && is_space(text[0]) {
        let rest = text.skip(1);
        lemma_trim_start(rest);
        let kept = trim_start(rest);
        assert(rest.skip(rest.len() - kept.len()) =~= text.skip(text.len() - kept.len()));
        assert forall|i: int| 0 <= i < text.len() - kept.len() implies is_space(
            #[trigger] text[i],
        ) by {
            if i > 0 {
                assert(rest[i - 1] == text[i]);
            }
        }
    } else {
        assert(text.skip(0) =~= text);
    }
}

proof fn lemma_trim_end(text: Seq<char>)
    ensures
        trim_end(text).len() <= text.len(),
        trim_end(text) == text.take(trim_end(text).len() as int),
        forall|i: int| trim_end(text).len() <= i < text.len() ==> is_space(#[trigger] text[i]),
        trim_end(text).len() > 0 ==> !is_space(trim_end(text).last()),
    decreases text.len(),
{
    if text.len() > 0 && is_space(text.last()) {
        let rest = text.drop_last();
        lemma_trim_end(rest);
        let kept = trim_end(rest);
        assert(rest.take(kept.len() as int) =~= text.take(kept.len() as int));
        assert forall|i: int| kept.len() <= i < text.len() implies is_space(#[trigger] text[i]) by {
            if i < rest.len() {
                assert(rest[i] == text[i]);
            }
        }
    } else {
        assert(text.take(text.len() as int) =~= text);
    }
}

/// A line ends at a line feed, with a carriage return before it or without; the
/// last line needs neither.
pub proof fn law_lines_end_in_feeds(line: Seq<char>, rest: Seq<char>)
    requires
        !line.contains('\n'),
    ensures
        lines(line + "\r\n"@ + rest) == seq![line] + lines(rest),
        (line.len() == 0 || line.last() != '\r') ==> lines(line + "\n"@ + rest) == seq![line]
            + lines(rest),
        line.len() > 0 ==> lines(line) == seq![line],
        lines(Seq::<char>::empty()).len() == 0,
{
    reveal_strlit("\r\n");
    let text = line + "\r\n"@ + rest;
    lemma_char_index(text, '\n', 0);
    let end = char_index(text, '\n', 0);
    assert(text[line.len() as int + 1] == '\n');
    assert(text[line.len() as int] == '\r');
    if end < line.len() {
        assert(line.contains(text[end]));
    }
    assert(end == line.len() + 1);
    assert(text.take(end) =~= line.push('\r'));
    assert(line.push('\r').drop_last() =~= line);
    assert(text.skip(end + 1) =~= rest);
    if line.len() == 0 || line.last() != '\r' {
        lemma_first_line(line, rest);
    }
    if line.len() > 0 {
        lemma_char_index(line, '\n', 0);
        if char_index(line, '\n', 0) < line.len() {
            assert(line.contains(line[char_index(line, '\n', 0)]));
        }
    }
}

/// A name for the monitor keeps letters, digits, underscores and hyphens, and
/// has an underscore for everything else.
pub proof fn law_other_characters_become_underscores(value: Seq<char>, i: int)
    requires
        0 <= i < value.len(),
    ensures
        safe_text(value).len() == value.len(),
        safe_text(value)[i] == if ('a' <= value[i] <= 'z') || ('A' <= value[i] <= 'Z') || ('0'
            <= value[i] <= '9') || value[i] == '_' || value[i] == '-' {
            value[i]
        } else {
            '_'
        },
{
}

/// All of `text` but what stands in `[a, b)` is `c`.
pub open spec fn only_around(text: Seq<char>, c: char, a: int, b: int) -> bool {
    &&& 0 <= a <= b <= text.len()
    &&& forall|i: int| 0 <= i < a || b <= i < text.len() ==> #[trigger] text[i] == c
}

proof fn lemma_trim_char(text: Seq<char>, c: char) -> (kept: (int, int))
    ensures
        only_around(text, c, kept.0, kept.1),
        trim_char(text, c) == text.subrange(kept.0, kept.1),
        kept.0 < kept.1 ==> text[kept.0] != c && text[kept.1 - 1] != c,
    decreases text.len(),
{
    if text.len() > 0 && text[0] == c {
        let rest = text.skip(1);
        let (a, b) = lemma_trim_char(rest, c);
        assert(text.subrange(a + 1, b + 1) =~= rest.subrange(a, b));
        assert forall|i: int| 0 <= i < a + 1 || b + 1 <= i < text.len() implies #[trigger] text[i]
            == c by {
            if i > 0 {
                assert(rest[i - 1] == text[i]);
            }
        }
        (a + 1, b + 1)
    } else if text.len() > 0 && text.last() == c {
        let rest = text.drop_last();
        let (a, b) = lemma_trim_char(rest, c);
        assert(text.subrange(a, b) =~= rest.subrange(a, b));
        assert forall|i: int| 0 <= i < a || b <= i < text.len() implies #[trigger] text[i] == c by {
            if i < rest.len() {
                assert(rest[i] == text[i]);
            }
        }
        (a, b)
    } else {
        assert(text.subrange(0, text.len() as int) =~= text);
        (0, text.len() as int)
    }
}

/// Text is trimmed of a character at its ends, and of nothing else.
pub proof fn law_trimming_takes_one_character(text: Seq<char>, c: char)
    ensures
        exists|a: int, b: int| #[trigger]
            only_around(text, c, a, b) && trim_char(text, c) == text.subrange(a, b),
        trim_char(text, c).len() > 0 ==> trim_char(text, c)[0] != c && trim_char(text, c).last()
            != c,
{
    let (a, b) = lemma_trim_char(text, c);
    assert(only_around(text, c, a, b));
}

} // verus!
