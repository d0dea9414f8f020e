//! NOR flash: erasing sets whole units to ones, programming whole units can
//! only turn ones into zeros.

use vstd::arithmetic::power2::is_pow2;
use vstd::prelude::*;
use vstd::slice::slice_subrange;

use crate::arith::{aligned, div_ceil, is_aligned, law_alignment_is_divisibility};

verus! {

#[derive(Debug)]
pub struct Flash {
    bytes: Vec<u8>,
    erase_size: usize,
    write_alignment: usize,
}

#[derive(Clone, Copy, Debug, PartialEq, Eq, Structural)]
pub enum FlashError {
    UnalignedErase,
    EraseOutside,
    UnalignedProgram,
    ProgramOutside,
    ZeroToOne,
    ReadOutside,
}

impl FlashError {
    pub open spec fn text(self) -> Seq<char> {
        match self {
            FlashError::UnalignedErase => "unaligned erase"@,
            FlashError::EraseOutside => "erase outside flash"@,
            FlashError::UnalignedProgram => "unaligned program"@,
            FlashError::ProgramOutside => "program outside flash"@,
            FlashError::ZeroToOne => "zero-to-one flash transition"@,
            FlashError::ReadOutside => "read outside flash"@,
        }
    }

    pub fn message(self) -> (res: String)
        ensures
            res@ == self.text(),
    {
        match self {
            FlashError::UnalignedErase => "unaligned erase".to_owned(),
            FlashError::EraseOutside => "erase outside flash".to_owned(),
            FlashError::UnalignedProgram => "unaligned program".to_owned(),
            FlashError::ProgramOutside => "program outside flash".to_owned(),
            FlashError::ZeroToOne => "zero-to-one flash transition".to_owned(),
            FlashError::ReadOutside => "read outside flash".to_owned(),
        }
    }
}

pub open spec fn blank(size: int) -> Seq<u8> {
    Seq::new(size as nat, |i: int| 0xffu8)
}

/// `bytes` with `data` in place of what stood from `offset` on.
pub open spec fn overwritten(bytes: Seq<u8>, offset: int, data: Seq<u8>) -> Seq<u8> {
    bytes.take(offset) + data + bytes.skip(offset + data.len())
}

/// `payload` filled up with ones to whole program units.
pub open spec fn padded(payload: Seq<u8>, write_alignment: int) -> Seq<u8> {
    Seq::new(
        (div_ceil(payload.len() as int, write_alignment) * write_alignment) as nat,
        |i: int|
            if i < payload.len() {
                payload[i]
            } else {
                0xffu8
            },
    )
}

/// Writing `incoming` over `old` would have to set a bit.
pub open spec fn sets_a_bit(incoming: u8, old: u8) -> bool {
    incoming | old != old
}

/// The first position of `data`, from `from` on, that would have to set a bit
/// when written at `offset`.
pub open spec fn conflict_from(bytes: Seq<u8>, offset: int, data: Seq<u8>, from: int) -> Option<int>
    decreases data.len() - from,
{
    if from < 0 || from >= data.len() {
        None
    } else if sets_a_bit(data[from], bytes[offset + from]) {
        Some(from)
    } else {
        conflict_from(bytes, offset, data, from + 1)
    }
}

pub open spec fn program_error(
    bytes: Seq<u8>,
    write_alignment: int,
    offset: int,
    payload: Seq<u8>,
) -> Option<FlashError> {
    let data = padded(payload, write_alignment);
    if !aligned(offset, write_alignment) {
        Some(FlashError::UnalignedProgram)
    } else if offset + data.len() > bytes.len() {
        Some(FlashError::ProgramOutside)
    } else if conflict_from(bytes, offset, data, 0) is Some {
        Some(FlashError::ZeroToOne)
    } else {
        None
    }
}

/// What flash holds after programming `payload` at `offset`. Where a bit would
/// have to be set, the units before it are written already.
pub open spec fn programmed(
    bytes: Seq<u8>,
    write_alignment: int,
    offset: int,
    payload: Seq<u8>,
) -> Seq<u8> {
    let data = padded(payload, write_alignment);
    match program_error(bytes, write_alignment, offset, payload) {
        None => overwritten(bytes, offset, data),
        Some(FlashError::ZeroToOne) => overwritten(
            bytes,
            offset,
            data.take(conflict_from(bytes, offset, data, 0)->0),
        ),
        Some(_) => bytes,
    }
}

pub open spec fn erase_error(
    bytes: Seq<u8>,
    erase_size: int,
    offset: int,
    length: int,
) -> Option<FlashError> {
    if !(aligned(offset, erase_size) && aligned(length, erase_size)) {
        Some(FlashError::UnalignedErase)
    } else if offset + length > bytes.len() {
        Some(FlashError::EraseOutside)
    } else {
        None
    }
}

pub open spec fn erased(bytes: Seq<u8>, erase_size: int, offset: int, length: int) -> Seq<u8> {
    if erase_error(bytes, erase_size, offset, length) is None {
        overwritten(bytes, offset, blank(length))
    } else {
        bytes
    }
}

impl View for Flash {
    type V = Seq<u8>;

    closed spec fn view(&self) -> Seq<u8> {
        self.bytes@
    }
}

/// As many whole units as `payload` touches; `None` where their length is no
/// number of this machine.
fn padded_length(length: usize, unit: usize) -> (res: Option<usize>)
    requires
        unit > 0,
    ensures
        match res {
            Some(padded) => padded == div_ceil(length as int, unit as int) * unit && padded
                >= length,
            None => div_ceil(length as int, unit as int) * unit > usize::MAX,
        },
{
    proof {
        lemma_div_ceil_covers(length as int, unit as int);
    }
    let whole: usize = length / unit;
    if length % unit == 0 {
        whole.checked_mul(unit)
    } else {
        assert(whole < usize::MAX) by {
            vstd::arithmetic::div_mod::lemma_fundamental_div_mod(length as int, unit as int);
            if whole >= usize::MAX {
                assert(unit * whole >= whole) by (nonlinear_arith)
                    requires
                        unit > 0,
                        whole >= 0,
                ;
            }
        }
        (whole + 1).checked_mul(unit)
    }
}

pub proof fn lemma_div_ceil_covers(total: int, size: int)
    requires
        total >= 0,
        size > 0,
    ensures
        div_ceil(total, size) >= 0,
        div_ceil(total, size) * size >= total,
        div_ceil(total, size) * size < total + size,
{
    vstd::arithmetic::div_mod::lemma_fundamental_div_mod(total, size);
    vstd::arithmetic::div_mod::lemma_div_pos_is_pos(total, size);
    let q = total / size;
    assert((q + 1) * size == q * size + size) by (nonlinear_arith);
    assert(q * size == size * q) by (nonlinear_arith);
    vstd::arithmetic::div_mod::lemma_mod_bound(total, size);
}

impl Flash {
    pub closed spec fn erase_unit(&self) -> usize {
        self.erase_size
    }

    pub closed spec fn program_unit(&self) -> usize {
        self.write_alignment
    }

    pub fn new(size: usize, erase_size: usize, write_alignment: usize) -> (res: Self)
        ensures
            res@ == blank(size as int),
            res.erase_unit() == erase_size,
            res.program_unit() == write_alignment,
    {
        let bytes: Vec<u8> = vec![0xff;size];
        assert(bytes@ =~= blank(size as int));
        Flash { bytes, erase_size, write_alignment }
    }

    pub fn erase(&mut self, offset: usize, length: usize) -> (res: Result<(), FlashError>)
        requires
            old(self).erase_unit() > 0,
        ensures
            match erase_error(
                old(self)@,
                old(self).erase_unit() as int,
                offset as int,
                length as int,
            ) {
                Some(error) => res == Err::<(), FlashError>(error),
                None => res is Ok,
            },
            final(self)@ == erased(
                old(self)@,
                old(self).erase_unit() as int,
                offset as int,
                length as int,
            ),
            final(self).erase_unit() == old(self).erase_unit(),
            final(self).program_unit() == old(self).program_unit(),
    {
        let size: usize = self.bytes.len();
        let unit: u64 = self.erase_size as u64;
        if !(is_aligned(offset as u64, unit) && is_aligned(length as u64, unit)) {
            return Err(FlashError::UnalignedErase);
        }
        let end: usize = match offset.checked_add(length) {
            Some(end) => end,
            None => {
                return Err(FlashError::EraseOutside);
            },
        };
        if end > size {
            return Err(FlashError::EraseOutside);
        }
        let ghost before = self.bytes@;
        let mut i: usize = offset;
        while i < end
            invariant
                offset <= i <= end,
                end == offset + length,
                end <= before.len(),
                self.bytes@ == overwritten(before, offset as int, blank(i - offset)),
                self.erase_size == old(self).erase_size,
                self.write_alignment == old(self).write_alignment,
            decreases end - i,
        {
            self.bytes[i] = 0xff;
            i = i + 1;
            assert(self.bytes@ =~= overwritten(before, offset as int, blank(i - offset)));
        }
        Ok(())
    }

    pub fn program(&mut self, offset: usize, payload: &[u8]) -> (res: Result<(), FlashError>)
        requires
            old(self).program_unit() > 0,
        ensures
            match program_error(
                old(self)@,
                old(self).program_unit() as int,
                offset as int,
                payload@,
            ) {
                Some(error) => res == Err::<(), FlashError>(error),
                None => res is Ok,
            },
            final(self)@ == programmed(
                old(self)@,
                old(self).program_unit() as int,
                offset as int,
                payload@,
            ),
            final(self).erase_unit() == old(self).erase_unit(),
            final(self).program_unit() == old(self).program_unit(),
    {
        let size: usize = self.bytes.len();
        if !is_aligned(offset as u64, self.write_alignment as u64) {
            return Err(FlashError::UnalignedProgram);
        }
        let ghost data = padded(payload@, self.write_alignment as int);
        proof {
            lemma_div_ceil_covers(payload@.len() as int, self.write_alignment as int);
        }
        let length: usize = match padded_length(payload.len(), self.write_alignment) {
            Some(length) => length,
            None => {
                return Err(FlashError::ProgramOutside);
            },
        };
        let fits = match offset.checked_add(length) {
            Some(end) => end <= size,
            None => false,
        };
        if !fits {
            return Err(FlashError::ProgramOutside);
        }
        let ghost before = self.bytes@;
        let mut i: usize = 0;
        assert(self.bytes@ =~= overwritten(before, offset as int, data.take(0)));
        while i < length
            invariant
                i <= length,
                length == data.len(),
                length >= payload@.len(),
                data == padded(payload@, self.write_alignment as int),
                offset + length <= before.len() <= usize::MAX,
                before == old(self)@,
                self.bytes@ == overwritten(before, offset as int, data.take(i as int)),
                conflict_from(before, offset as int, data, 0) == conflict_from(
                    before,
                    offset as int,
                    data,
                    i as int,
                ),
                self.erase_size == old(self).erase_size,
                self.write_alignment == old(self).write_alignment,
                aligned(offset as int, self.write_alignment as int),
            decreases length - i,
        {
            let incoming: u8 = if i < payload.len() {
                payload[i]
            } else {
                0xff
            };
            let at: usize = offset + i;
            let prior: u8 = self.bytes[at];
            assert(prior == before[offset + i]);
            assert(incoming == data[i as int]);
            if incoming | prior != prior {
                return Err(FlashError::ZeroToOne);
            }
            assert(prior & incoming == incoming) by (bit_vector)
                requires
                    incoming | prior == prior,
            ;
            self.bytes[at] = prior & incoming;
            i = i + 1;
            assert(self.bytes@ =~= overwritten(before, offset as int, data.take(i as int)));
        }
        assert(data.take(i as int) =~= data);
        Ok(())
    }

    pub fn read(&self, offset: usize, length: usize) -> (res: Result<&[u8], FlashError>)
        ensures
            if offset + length <= self@.len() {
                res matches Ok(bytes) && bytes@ == self@.subrange(
                    offset as int,
                    offset + length,
                )
            } else {
                res matches Err(error) && error == FlashError::ReadOutside
            },
    {
        let size: usize = self.bytes.len();
        let end: usize = match offset.checked_add(length) {
            Some(end) => end,
            None => {
                return Err(FlashError::ReadOutside);
            },
        };
        if end > size {
            return Err(FlashError::ReadOutside);
        }
        Ok(slice_subrange(self.bytes.as_slice(), offset, end))
    }
}

// ---------------------------------------------------------------------------
// What flash guarantees
// ---------------------------------------------------------------------------

pub proof fn lemma_conflict_from(bytes: Seq<u8>, offset: int, data: Seq<u8>, from: int)
    requires
        0 <= from <= data.len(),
    ensures
        match conflict_from(bytes, offset, data, from) {
            Some(at) => from <= at < data.len() && sets_a_bit(data[at], bytes[offset + at])
                && forall|i: int|
                from <= i < at ==> !sets_a_bit(#[trigger] data[i], bytes[offset + i]),
            None => forall|i: int|
                from <= i < data.len() ==> !sets_a_bit(#[trigger] data[i], bytes[offset + i]),
        },
    decreases data.len() - from,
{
    if from < data.len() && !sets_a_bit(data[from], bytes[offset + from]) {
        lemma_conflict_from(bytes, offset, data, from + 1);
    }
}

/// Programming never sets a bit, whether it succeeds or not, and touches only
/// the units that the payload covers.
pub proof fn law_programming_only_clears_bits(
    bytes: Seq<u8>,
    write_alignment: int,
    offset: int,
    payload: Seq<u8>,
)
    requires
        write_alignment > 0,
        offset >= 0,
    ensures
        programmed(bytes, write_alignment, offset, payload).len() == bytes.len(),
        forall|i: int|
            0 <= i < bytes.len() ==> !sets_a_bit(
                #[trigger] programmed(bytes, write_alignment, offset, payload)[i],
                bytes[i],
            ),
        forall|i: int|
            0 <= i < bytes.len() && !(offset <= i < offset + padded(
                payload,
                write_alignment,
            ).len()) ==> #[trigger] programmed(bytes, write_alignment, offset, payload)[i]
                == bytes[i],
{
    lemma_div_ceil_covers(payload.len() as int, write_alignment);
    let data = padded(payload, write_alignment);
    lemma_conflict_from(bytes, offset, data, 0);
    let after = programmed(bytes, write_alignment, offset, payload);
    assert forall|i: int| 0 <= i < bytes.len() implies !sets_a_bit(
        #[trigger] after[i],
        bytes[i],
    ) by {
        if after[i] != bytes[i] {
            assert(after[i] == data[i - offset]);
        } else {
            let b = bytes[i];
            assert(b | b == b) by (bit_vector);
        }
    }
}

/// What was programmed is read back, and what lies in the rest of the last
/// unit was erased and stays erased.
pub proof fn law_read_gives_back_what_was_programmed(
    bytes: Seq<u8>,
    write_alignment: int,
    offset: int,
    payload: Seq<u8>,
)
    requires
        write_alignment > 0,
        offset >= 0,
        program_error(bytes, write_alignment, offset, payload) is None,
    ensures
        programmed(bytes, write_alignment, offset, payload).subrange(
            offset,
            offset + payload.len(),
        ) == payload,
        forall|i: int|
            payload.len() <= i < padded(payload, write_alignment).len() ==> #[trigger] bytes[offset
                + i] == 0xff && programmed(bytes, write_alignment, offset, payload)[offset + i]
                == 0xff,
{
    lemma_div_ceil_covers(payload.len() as int, write_alignment);
    let data = padded(payload, write_alignment);
    let after = programmed(bytes, write_alignment, offset, payload);
    lemma_conflict_from(bytes, offset, data, 0);
    assert(after.subrange(offset, offset + payload.len()) =~= payload);
    assert forall|i: int| payload.len() <= i < data.len() implies #[trigger] bytes[offset + i]
        == 0xff && after[offset + i] == 0xff by {
        let b = bytes[offset + i];
        assert(data[i] == 0xff);
        assert(!sets_a_bit(data[i], bytes[offset + i]));
        assert(b == 0xff) by (bit_vector)
            requires
                0xffu8 | b == b,
        ;
    }
}

/// An erased range reads as ones, everything else as before.
pub proof fn law_erase_sets_ones(bytes: Seq<u8>, erase_size: int, offset: int, length: int)
    requires
        offset >= 0,
        length >= 0,
        erase_error(bytes, erase_size, offset, length) is None,
    ensures
        erased(bytes, erase_size, offset, length).len() == bytes.len(),
        forall|i: int|
            0 <= i < bytes.len() ==> #[trigger] erased(bytes, erase_size, offset, length)[i] == if offset
                <= i < offset + length {
                0xffu8
            } else {
                bytes[i]
            },
{
}

/// Into erased flash anything can be programmed that is aligned and fits.
pub proof fn law_erased_flash_takes_any_program(
    bytes: Seq<u8>,
    write_alignment: int,
    offset: int,
    payload: Seq<u8>,
)
    requires
        write_alignment > 0,
        offset >= 0,
        aligned(offset, write_alignment),
        offset + padded(payload, write_alignment).len() <= bytes.len(),
        forall|i: int|
            offset <= i < offset + padded(payload, write_alignment).len() ==> #[trigger] bytes[i]
                == 0xff,
    ensures
        program_error(bytes, write_alignment, offset, payload) is None,
{
    let data = padded(payload, write_alignment);
    lemma_conflict_from(bytes, offset, data, 0);
    match conflict_from(bytes, offset, data, 0) {
        Some(at) => {
            let incoming = data[at];
            assert(bytes[offset + at] == 0xff);
            assert(incoming | 0xff == 0xff) by (bit_vector);
        },
        None => {},
    }
}

/// How far the units that `length` bytes touch reach.
pub open spec fn reach(length: int, unit: int) -> int {
    length + (unit - length % unit) % unit
}

proof fn lemma_reach(length: int, unit: int)
    requires
        length >= 0,
        unit > 0,
    ensures
        div_ceil(length, unit) * unit == reach(length, unit),
{
    vstd::arithmetic::div_mod::lemma_fundamental_div_mod(length, unit);
    vstd::arithmetic::div_mod::lemma_mod_bound(length, unit);
    let q = length / unit;
    assert((q + 1) * unit == unit * q + unit) by (nonlinear_arith);
    assert(q * unit == unit * q) by (nonlinear_arith);
    if length % unit == 0 {
        vstd::arithmetic::div_mod::lemma_mod_self_0(unit);
    } else {
        vstd::arithmetic::div_mod::lemma_small_mod((unit - length % unit) as nat, unit as nat);
    }
}

/// A byte can be programmed over another where it has no one that the other
/// lacks; over an erased byte anything can be.
pub proof fn law_ones_are_not_programmed(incoming: u8, old: u8)
    ensures
        sets_a_bit(incoming, old) <==> incoming & old != incoming,
        sets_a_bit(0xff, old) <==> old != 0xff,
{
    assert((incoming | old != old) <==> (incoming & old != incoming)) by (bit_vector);
    assert((0xffu8 | old != old) <==> (old != 0xff)) by (bit_vector);
}

/// Programming came to the byte `at` of what it was given, which has a one where
/// flash has a zero, and wrote what stands before it.
pub open spec fn stopped_at(
    before: Seq<u8>,
    after: Seq<u8>,
    offset: int,
    payload: Seq<u8>,
    at: int,
) -> bool {
    &&& after.len() == before.len()
    &&& if at < payload.len() {
        payload[at] & before[offset + at] != payload[at]
    } else {
        before[offset + at] != 0xff
    }
    &&& forall|i: int| 0 <= i < at && i < payload.len() ==> after[offset + i] == #[trigger] payload[i]
    &&& forall|i: int|
        0 <= i < before.len() && !(offset <= i < offset + at && i < offset + payload.len())
            ==> #[trigger] after[i] == before[i]
}

/// A program is refused exactly where it does not begin with a unit, where the
/// units that it touches do not all lie in flash, or where one of its ones, or
/// one of those that fill up its last unit, falls on a zero. In the last case
/// what stands before that byte has been written, and nothing else.
pub proof fn law_what_programming_refuses(
    bytes: Seq<u8>,
    unit: u64,
    offset: u64,
    payload: Seq<u8>,
)
    requires
        is_pow2(unit as int),
        unit > 0,
    ensures
        ({
            let error = program_error(bytes, unit as int, offset as int, payload);
            let after = programmed(bytes, unit as int, offset as int, payload);
            let end = reach(payload.len() as int, unit as int);
            &&& error == Some(FlashError::UnalignedProgram) <==> offset % unit != 0
            &&& error == Some(FlashError::ProgramOutside) <==> offset % unit == 0 && offset + end
                > bytes.len()
            &&& error is None <==> {
                &&& offset % unit == 0
                &&& offset + end <= bytes.len()
                &&& forall|i: int|
                    0 <= i < payload.len() ==> #[trigger] payload[i] & bytes[offset + i]
                        == payload[i]
                &&& forall|i: int|
                    offset + payload.len() <= i < offset + end ==> #[trigger] bytes[i] == 0xff
            }
            &&& error matches Some(kind) ==> {
                ||| kind == FlashError::UnalignedProgram && after == bytes
                ||| kind == FlashError::ProgramOutside && after == bytes
                ||| kind == FlashError::ZeroToOne && exists|at: int|
                    0 <= at < end && #[trigger] stopped_at(
                        bytes,
                        after,
                        offset as int,
                        payload,
                        at,
                    )
            }
        }),
{
    law_alignment_is_divisibility(offset, unit);
    lemma_reach(payload.len() as int, unit as int);
    lemma_div_ceil_covers(payload.len() as int, unit as int);
    let data = padded(payload, unit as int);
    let end = reach(payload.len() as int, unit as int);
    let offset = offset as int;
    lemma_conflict_from(bytes, offset, data, 0);
    assert forall|i: int| 0 <= i < payload.len() implies (sets_a_bit(data[i], bytes[offset + i])
        <==> #[trigger] payload[i] & bytes[offset + i] != payload[i]) by {
        law_ones_are_not_programmed(data[i], bytes[offset + i]);
    }
    assert forall|i: int| offset + payload.len() <= i < offset + end implies (sets_a_bit(
        data[i - offset],
        bytes[i],
    ) <==> #[trigger] bytes[i] != 0xff) by {
        law_ones_are_not_programmed(0, bytes[i]);
    }
    let error = program_error(bytes, unit as int, offset, payload);
    let after = programmed(bytes, unit as int, offset, payload);
    if error is None {
        assert forall|i: int| 0 <= i < payload.len() implies #[trigger] payload[i] & bytes[offset
            + i] == payload[i] by {
            assert(!sets_a_bit(data[i], bytes[offset + i]));
        }
        assert forall|i: int| offset + payload.len() <= i < offset + end implies #[trigger] bytes[i]
            == 0xff by {
            assert(!sets_a_bit(data[i - offset], bytes[offset + (i - offset)]));
        }
    }
    if error == Some(FlashError::ZeroToOne) {
        let at = conflict_from(bytes, offset, data, 0)->0;
        assert(sets_a_bit(data[at], bytes[offset + at]));
        if at < payload.len() {
            assert(payload[at] & bytes[offset + at] != payload[at]);
        } else {
            assert(bytes[offset + at] != 0xff);
        }
        assert forall|i: int| 0 <= i < at && i < payload.len() implies after[offset + i]
            == #[trigger] payload[i] by {
            assert(after[offset + i] == data[i]);
        }
        assert forall|i: int|
            0 <= i < bytes.len() && !(offset <= i < offset + at && i < offset
                + payload.len()) implies #[trigger] after[i] == bytes[i] by {
            if offset + payload.len() <= i < offset + at {
                assert(!sets_a_bit(data[i - offset], bytes[offset + (i - offset)]));
                assert(after[i] == data[i - offset]);
            }
        }
        assert(stopped_at(bytes, after, offset, payload, at));
    }
}

/// An erase is refused exactly where its range does not begin and end with a
/// unit, or does not lie in flash; it is then left as it was.
pub proof fn law_what_erasing_refuses(bytes: Seq<u8>, unit: u64, offset: u64, length: u64)
    requires
        is_pow2(unit as int),
        unit > 0,
    ensures
        ({
            let error = erase_error(bytes, unit as int, offset as int, length as int);
            &&& error == Some(FlashError::UnalignedErase) <==> offset % unit != 0 || length % unit
                != 0
            &&& error is None <==> offset % unit == 0 && length % unit == 0 && offset + length
                <= bytes.len()
            &&& error is Some ==> erased(bytes, unit as int, offset as int, length as int) == bytes
        }),
{
    law_alignment_is_divisibility(offset, unit);
    law_alignment_is_divisibility(length, unit);
}

} // verus!
