//! What an interrupted update leaves behind. An update is a fixed sequence of
//! flash operations; power can be lost before the first, between any two and
//! after the last of them.

use sha2::{Digest, Sha256};
use vstd::arithmetic::power2::is_pow2;
use vstd::prelude::*;
use vstd::slice::slice_subrange;

use crate::arith::{aligned, div_ceil, is_aligned};
use crate::flash::{blank, erase_error, erased, lemma_div_ceil_covers, program_error, programmed};
pub use crate::flash::{Flash, FlashError};
use crate::layout::{BootImage, MemoryLayout};
use crate::text::{hex2, same_text, Text};

verus! {

#[derive(Clone, Copy, Debug, PartialEq, Eq, Structural)]
pub enum UpdateStrategy {
    DualSlot,
    DeltaOnly,
    RecoveryTransport,
}

#[derive(Debug)]
pub struct UpdateReport {
    pub strategy: UpdateStrategy,
    pub chunks: usize,
    pub interruption_points_tested: usize,
    pub original_sha256: String,
    pub updated_sha256: String,
    pub old_image_boot_points: usize,
    pub new_image_boot_points: usize,
    pub recovery_required_points: usize,
    pub all_flash_operation_boundaries_tested: bool,
    pub cpu_reboots_executed: bool,
    pub updated_image_from_artifact: bool,
}

#[derive(Clone, Copy, Debug, PartialEq, Eq, Structural)]
pub enum UpdateError {
    EmptyImage,
    EmptyTransfer,
    ChunkSize,
    SameImage,
    /// An address or a size of the layout is no number of this machine.
    TooLarge,
    OriginalExceedsSlot,
    UpdatedExceedsSlot,
    Flash(FlashError),
    NoSlotB,
    NoDelta,
    TransferExceedsDelta,
    ChunkUnaligned,
}

impl UpdateError {
    pub open spec fn text(self) -> Seq<char> {
        match self {
            UpdateError::EmptyImage => "update images cannot be empty"@,
            UpdateError::EmptyTransfer => "OTA transfer cannot be empty"@,
            UpdateError::ChunkSize => "OTA chunk_size must be positive"@,
            UpdateError::SameImage =>
                "simulated next firmware must differ from the installed image"@,
            UpdateError::TooLarge => "out of range integral type conversion attempted"@,
            UpdateError::OriginalExceedsSlot => "original exceeds slot A"@,
            UpdateError::UpdatedExceedsSlot => "updated image exceeds slot A"@,
            UpdateError::Flash(error) => error.text(),
            UpdateError::NoSlotB => "dual-slot update has no slot B base"@,
            UpdateError::NoDelta => "delta update has no staging base"@,
            UpdateError::TransferExceedsDelta => "OTA transfer exceeds delta staging area"@,
            UpdateError::ChunkUnaligned => "OTA chunk size is not write aligned"@,
        }
    }

    pub fn message(self) -> (res: String)
        ensures
            res@ == self.text(),
    {
        match self {
            UpdateError::EmptyImage => "update images cannot be empty".to_owned(),
            UpdateError::EmptyTransfer => "OTA transfer cannot be empty".to_owned(),
            UpdateError::ChunkSize => "OTA chunk_size must be positive".to_owned(),
            UpdateError::SameImage =>
                "simulated next firmware must differ from the installed image".to_owned(),
            UpdateError::TooLarge =>
                "out of range integral type conversion attempted".to_owned(),
            UpdateError::OriginalExceedsSlot => "original exceeds slot A".to_owned(),
            UpdateError::UpdatedExceedsSlot => "updated image exceeds slot A".to_owned(),
            UpdateError::Flash(error) => error.message(),
            UpdateError::NoSlotB => "dual-slot update has no slot B base".to_owned(),
            UpdateError::NoDelta => "delta update has no staging base".to_owned(),
            UpdateError::TransferExceedsDelta =>
                "OTA transfer exceeds delta staging area".to_owned(),
            UpdateError::ChunkUnaligned => "OTA chunk size is not write aligned".to_owned(),
        }
    }
}

// ---------------------------------------------------------------------------
// Digests
// ---------------------------------------------------------------------------

/// The SHA-256 digest of `data`.
pub uninterp spec fn sha256_of(data: Seq<u8>) -> Seq<u8>;

/// Calls `sha2::Sha256::digest`. It returns the 32 bytes of the digest, which
/// depend on the data alone; which bytes they are is left to that crate.
#[verifier::external_body]
fn sha256(data: &[u8]) -> (res: Vec<u8>)
    ensures
        res@ == sha256_of(data@),
        res@.len() == 32,
{
    Sha256::digest(data).to_vec()
}

/// Two lower-case hexadecimal digits for each byte.
pub open spec fn hex_bytes(bytes: Seq<u8>) -> Seq<char>
    decreases bytes.len(),
{
    if bytes.len() == 0 {
        ""@
    } else {
        hex_bytes(bytes.drop_last()) + hex2(bytes.last() as nat)
    }
}

pub fn hex_text(bytes: &[u8]) -> (res: String)
    ensures
        res@ == hex_bytes(bytes@),
{
    let mut text = Text::new("");
    let mut i: usize = 0;
    assert(bytes@.take(0) =~= Seq::<u8>::empty());
    while i < bytes.len()
        invariant
            i <= bytes@.len(),
            text@ == hex_bytes(bytes@.take(i as int)),
        decreases bytes@.len() - i,
    {
        assert(bytes@.take(i + 1).drop_last() =~= bytes@.take(i as int));
        text = text.hex2(bytes[i] as u64);
        i = i + 1;
    }
    assert(bytes@.take(i as int) =~= bytes@);
    text.done()
}

pub open spec fn digest_text(data: Seq<u8>) -> Seq<char> {
    hex_bytes(sha256_of(data))
}

pub fn digest(data: &[u8]) -> (res: String)
    ensures
        res@ == digest_text(data@),
{
    let bytes = sha256(data);
    hex_text(bytes.as_slice())
}

/// The image that boots: the new one where it is complete, else the old one
/// where it is still intact.
pub open spec fn boot_image(old_intact: bool, new_complete: bool) -> BootImage {
    if new_complete {
        BootImage::New
    } else if old_intact {
        BootImage::Old
    } else {
        BootImage::Recovery
    }
}

/// Compares the digests found in flash with those of the two images.
pub fn classify_digests(old_found: &str, old_hash: &str, new_found: &str, new_hash: &str) -> (res:
    BootImage)
    ensures
        res == boot_image(old_found@ == old_hash@, new_found@ == new_hash@),
{
    if same_text(new_found, new_hash) {
        BootImage::New
    } else if same_text(old_found, old_hash) {
        BootImage::Old
    } else {
        BootImage::Recovery
    }
}

// ---------------------------------------------------------------------------
// The operations of an update
// ---------------------------------------------------------------------------

/// A delta transfer begins with these four bytes.
pub open spec fn is_delta(transfer: Seq<u8>) -> bool {
    &&& transfer.len() >= 4
    &&& transfer[0] == 0x50
    &&& transfer[1] == 0x44
    &&& transfer[2] == 0x43
    &&& transfer[3] == 0x4c
}

pub open spec fn or_zero(size: Option<u64>) -> int {
    match size {
        Some(size) => size as int,
        None => 0,
    }
}

/// A second slot that holds the image, else a staged delta, else the recovery
/// transport.
pub open spec fn strategy_for(memory: MemoryLayout, image_size: int, transfer: Seq<u8>) -> UpdateStrategy {
    if or_zero(memory.slot_b_size) >= image_size {
        UpdateStrategy::DualSlot
    } else if or_zero(memory.delta_size) > 0 && is_delta(transfer) {
        UpdateStrategy::DeltaOnly
    } else {
        UpdateStrategy::RecoveryTransport
    }
}

pub ghost enum FlashOp {
    /// One chunk of the transfer goes to the staging area.
    Stage { offset: int, payload: Seq<u8> },
    /// One unit of the target slot is erased.
    Erase { offset: int },
    /// One chunk of the new image goes to the target slot.
    Install { offset: int, payload: Seq<u8> },
}

/// The `i`-th piece of `data` cut into pieces of `size`.
pub open spec fn piece(data: Seq<u8>, size: int, i: int) -> Seq<u8> {
    data.subrange(
        i * size,
        if i * size + size <= data.len() {
            i * size + size
        } else {
            data.len() as int
        },
    )
}

/// The first `count` pieces, one after another.
pub open spec fn pieces(data: Seq<u8>, size: int, count: int) -> Seq<u8>
    decreases count,
{
    if count <= 0 {
        Seq::empty()
    } else {
        pieces(data, size, count - 1) + piece(data, size, count - 1)
    }
}

proof fn lemma_pieces(data: Seq<u8>, size: int, count: int)
    requires
        size > 0,
        0 <= count <= div_ceil(data.len() as int, size),
    ensures
        count < div_ceil(data.len() as int, size) ==> 0 <= count * size <= data.len() && pieces(
            data,
            size,
            count,
        ) == data.take(count * size),
        count == div_ceil(data.len() as int, size) ==> pieces(data, size, count) == data,
    decreases count,
{
    let total = div_ceil(data.len() as int, size);
    if count == 0 {
        assert(0 * size == 0);
        lemma_div_ceil_covers(data.len() as int, size);
        if total == 0 {
            assert(data =~= Seq::<u8>::empty());
        }
        assert(data.take(0) =~= Seq::<u8>::empty());
    } else {
        lemma_pieces(data, size, count - 1);
        lemma_piece_bounds(data.len() as int, size, count - 1);
        let start = (count - 1) * size;
        if count < total {
            assert(data.take(start) + data.subrange(start, start + size) =~= data.take(
                count * size,
            ));
        } else {
            assert(data.take(start) + data.subrange(start, data.len() as int) =~= data);
        }
    }
}

/// Cutting data into pieces loses nothing: one after another they are the data
/// again.
pub proof fn law_pieces_are_the_whole(data: Seq<u8>, size: int)
    requires
        size > 0,
    ensures
        pieces(data, size, div_ceil(data.len() as int, size)) == data,
{
    lemma_div_ceil_covers(data.len() as int, size);
    lemma_pieces(data, size, div_ceil(data.len() as int, size));
}

/// An address as an offset into flash.
pub open spec fn flash_offset(address: Option<u64>, flash_base: u64) -> int {
    match address {
        Some(address) => if address >= flash_base {
            address - flash_base
        } else {
            0
        },
        None => 0,
    }
}

pub ghost struct Update {
    pub original: Seq<u8>,
    pub updated: Seq<u8>,
    pub transfer: Seq<u8>,
    pub chunk: int,
    pub strategy: UpdateStrategy,
    pub flash_size: int,
    pub erase_size: int,
    pub write_alignment: int,
    pub slot_a: int,
    pub slot_b: int,
    pub staging: int,
}

impl Update {
    pub open spec fn of(
        original: Seq<u8>,
        updated: Seq<u8>,
        transfer: Seq<u8>,
        memory: MemoryLayout,
        chunk: int,
    ) -> Update {
        Update {
            original,
            updated,
            transfer,
            chunk,
            strategy: strategy_for(memory, updated.len() as int, transfer),
            flash_size: memory.flash_size as int,
            erase_size: memory.erase_size as int,
            write_alignment: memory.write_alignment as int,
            slot_a: flash_offset(Some(memory.slot_a_base), memory.flash_base),
            slot_b: flash_offset(memory.slot_b_base, memory.flash_base),
            staging: flash_offset(memory.delta_base, memory.flash_base),
        }
    }

    /// Where the new image is put together.
    pub open spec fn target(self) -> int {
        if self.strategy == UpdateStrategy::DualSlot {
            self.slot_b
        } else {
            self.slot_a
        }
    }

    pub open spec fn stagings(self) -> int {
        if self.strategy == UpdateStrategy::DeltaOnly {
            div_ceil(self.transfer.len() as int, self.chunk)
        } else {
            0
        }
    }

    pub open spec fn erasures(self) -> int {
        div_ceil(self.updated.len() as int, self.erase_size)
    }

    pub open spec fn installs(self) -> int {
        div_ceil(self.updated.len() as int, self.chunk)
    }

    pub open spec fn operations(self) -> int {
        self.stagings() + self.erasures() + self.installs()
    }

    /// First everything is staged, then the target is erased, then the new
    /// image is written.
    pub open spec fn operation(self, k: int) -> FlashOp {
        if k < self.stagings() {
            FlashOp::Stage {
                offset: self.staging + k * self.chunk,
                payload: piece(self.transfer, self.chunk, k),
            }
        } else if k < self.stagings() + self.erasures() {
            FlashOp::Erase { offset: self.target() + (k - self.stagings()) * self.erase_size }
        } else {
            let i = k - self.stagings() - self.erasures();
            FlashOp::Install {
                offset: self.target() + i * self.chunk,
                payload: piece(self.updated, self.chunk, i),
            }
        }
    }

    pub open spec fn program(self, bytes: Seq<u8>, offset: int, payload: Seq<u8>) -> Result<
        Seq<u8>,
        UpdateError,
    > {
        match program_error(bytes, self.write_alignment, offset, payload) {
            Some(error) => Err(UpdateError::Flash(error)),
            None => Ok(programmed(bytes, self.write_alignment, offset, payload)),
        }
    }

    /// One operation on flash that holds `bytes`.
    pub open spec fn perform(self, bytes: Seq<u8>, op: FlashOp) -> Result<Seq<u8>, UpdateError> {
        match op {
            FlashOp::Stage { offset, payload } => if offset > usize::MAX {
                Err(UpdateError::Flash(FlashError::ProgramOutside))
            } else if offset % self.write_alignment != 0 {
                Err(UpdateError::ChunkUnaligned)
            } else {
                self.program(bytes, offset, payload)
            },
            FlashOp::Erase { offset } => if offset > usize::MAX {
                Err(UpdateError::Flash(FlashError::EraseOutside))
            } else {
                match erase_error(bytes, self.erase_size, offset, self.erase_size) {
                    Some(error) => Err(UpdateError::Flash(error)),
                    None => Ok(erased(bytes, self.erase_size, offset, self.erase_size)),
                }
            },
            FlashOp::Install { offset, payload } => if offset > usize::MAX {
                Err(UpdateError::Flash(FlashError::ProgramOutside))
            } else if !aligned(offset, self.write_alignment) {
                Err(UpdateError::ChunkUnaligned)
            } else {
                self.program(bytes, offset, payload)
            },
        }
    }

    /// Flash with the old image installed and nothing else.
    pub open spec fn installed(self) -> Seq<u8> {
        programmed(blank(self.flash_size), self.write_alignment, self.slot_a, self.original)
    }

    /// Flash after the first `k` operations, or the first of them that failed.
    pub open spec fn after(self, k: int) -> Result<Seq<u8>, UpdateError>
        decreases k,
    {
        if k <= 0 {
            Ok(self.installed())
        } else {
            match self.after(k - 1) {
                Ok(bytes) => self.perform(bytes, self.operation(k - 1)),
                Err(error) => Err(error),
            }
        }
    }

    /// The image that boots from flash that holds `bytes`.
    pub open spec fn boots(self, bytes: Seq<u8>) -> BootImage {
        boot_image(
            digest_text(bytes.subrange(self.slot_a, self.slot_a + self.original.len()))
                == digest_text(self.original),
            digest_text(bytes.subrange(self.target(), self.target() + self.updated.len()))
                == digest_text(self.updated),
        )
    }

    /// How many of the boundaries `0..=k` boot `image`.
    pub open spec fn points(self, k: int, image: BootImage) -> int
        decreases k + 1,
    {
        if k < 0 {
            0
        } else {
            self.points(k - 1, image) + if self.boots(self.after(k)->Ok_0) == image {
                1int
            } else {
                0
            }
        }
    }
}

/// Why an update cannot be run, the first reason found.
pub open spec fn update_error(
    original: Seq<u8>,
    updated: Seq<u8>,
    transfer: Seq<u8>,
    memory: MemoryLayout,
    chunk: int,
) -> Option<UpdateError> {
    let update = Update::of(original, updated, transfer, memory, chunk);
    let dual = update.strategy == UpdateStrategy::DualSlot;
    let delta = update.strategy == UpdateStrategy::DeltaOnly;
    if original.len() == 0 || updated.len() == 0 {
        Some(UpdateError::EmptyImage)
    } else if transfer.len() == 0 {
        Some(UpdateError::EmptyTransfer)
    } else if chunk == 0 {
        Some(UpdateError::ChunkSize)
    } else if digest_text(original) == digest_text(updated) {
        Some(UpdateError::SameImage)
    } else if update.flash_size > usize::MAX || update.erase_size > usize::MAX
        || update.write_alignment > usize::MAX || update.slot_a > usize::MAX {
        Some(UpdateError::TooLarge)
    } else if original.len() > memory.slot_a_size {
        Some(UpdateError::OriginalExceedsSlot)
    } else if updated.len() > memory.slot_a_size {
        Some(UpdateError::UpdatedExceedsSlot)
    } else if program_error(
        blank(update.flash_size),
        update.write_alignment,
        update.slot_a,
        original,
    ) is Some {
        Some(
            UpdateError::Flash(
                program_error(
                    blank(update.flash_size),
                    update.write_alignment,
                    update.slot_a,
                    original,
                )->0,
            ),
        )
    } else if dual && memory.slot_b_base is None {
        Some(UpdateError::NoSlotB)
    } else if dual && update.slot_b > usize::MAX {
        Some(UpdateError::TooLarge)
    } else if update.target() + updated.len() > update.flash_size {
        Some(UpdateError::Flash(FlashError::ReadOutside))
    } else if delta && memory.delta_base is None {
        Some(UpdateError::NoDelta)
    } else if delta && update.staging > usize::MAX {
        Some(UpdateError::TooLarge)
    } else if delta && transfer.len() > or_zero(memory.delta_size) {
        Some(UpdateError::TransferExceedsDelta)
    } else {
        match update.after(update.operations()) {
            Ok(_) => None,
            Err(error) => Some(error),
        }
    }
}

impl UpdateReport {
    /// The report on an update that ran through.
    pub open spec fn of(self, update: Update) -> bool {
        let last = update.operations();
        &&& self.strategy == update.strategy
        &&& self.chunks == div_ceil(update.transfer.len() as int, update.chunk)
        &&& self.interruption_points_tested == last + 1
        &&& self.original_sha256@ == digest_text(update.original)
        &&& self.updated_sha256@ == digest_text(update.updated)
        &&& self.old_image_boot_points == update.points(last, BootImage::Old)
        &&& self.new_image_boot_points == update.points(last, BootImage::New)
        &&& self.recovery_required_points == update.points(last, BootImage::Recovery)
        &&& self.all_flash_operation_boundaries_tested
        &&& !self.cpu_reboots_executed
        &&& !self.updated_image_from_artifact
    }
}

// ---------------------------------------------------------------------------
// Running an update
// ---------------------------------------------------------------------------

proof fn lemma_failure_stays(update: Update, k: int, last: int)
    requires
        0 <= k <= last,
        update.after(k) is Err,
    ensures
        update.after(last) == update.after(k),
    decreases last - k,
{
    if k < last {
        lemma_failure_stays(update, k, last - 1);
    }
}

/// Inside the pieces, a start is a start of a nonempty piece.
pub proof fn lemma_piece_bounds(total: int, size: int, i: int)
    requires
        total >= 0,
        size > 0,
        0 <= i < div_ceil(total, size),
    ensures
        0 <= i * size < total,
        (i + 1) * size == i * size + size,
        i + 1 == div_ceil(total, size) ==> i * size + size >= total,
        i + 1 < div_ceil(total, size) ==> i * size + size < total,
{
    lemma_div_ceil_covers(total, size);
    let n = div_ceil(total, size);
    assert((i + 1) * size == i * size + size) by (nonlinear_arith);
    assert(i * size <= (n - 1) * size) by (nonlinear_arith)
        requires
            i <= n - 1,
            size > 0,
    ;
    assert((n - 1) * size == n * size - size) by (nonlinear_arith);
    assert(0 <= i * size) by (nonlinear_arith)
        requires
            i >= 0,
            size > 0,
    ;
    if i + 1 < n {
        assert((i + 1) * size <= (n - 1) * size) by (nonlinear_arith)
            requires
                i + 1 <= n - 1,
                size > 0,
        ;
    }
}

/// No more pieces than there are bytes.
pub proof fn lemma_few_pieces(total: int, size: int)
    requires
        total >= 0,
        size > 0,
    ensures
        0 <= div_ceil(total, size) <= total,
{
    lemma_div_ceil_covers(total, size);
    let n = div_ceil(total, size);
    if n > total {
        lemma_piece_bounds(total, size, n - 1);
        assert((n - 1) * size >= n - 1) by (nonlinear_arith)
            requires
                n >= 1,
                size >= 1,
        ;
    }
}

pub fn ceil_div(total: usize, size: usize) -> (res: usize)
    requires
        size > 0,
    ensures
        res == div_ceil(total as int, size as int),
{
    proof {
        lemma_few_pieces(total as int, size as int);
    }
    let whole: usize = total / size;
    if total % size == 0 {
        whole
    } else {
        whole + 1
    }
}

struct Tally {
    old: usize,
    new: usize,
    recovery: usize,
}

impl Tally {
    /// These are the counts of the boundaries `0..=k`.
    spec fn counts(self, update: Update, k: int) -> bool {
        &&& self.old == update.points(k, BootImage::Old)
        &&& self.new == update.points(k, BootImage::New)
        &&& self.recovery == update.points(k, BootImage::Recovery)
        &&& self.old + self.new + self.recovery == k + 1
    }

    fn record(&mut self, image: BootImage, Ghost(update): Ghost<Update>, Ghost(k): Ghost<int>)
        requires
            old(self).counts(update, k - 1),
            image == update.boots(update.after(k)->Ok_0),
            0 <= k < usize::MAX,
        ensures
            final(self).counts(update, k),
    {
        match image {
            BootImage::Old => {
                self.old = self.old + 1;
            },
            BootImage::New => {
                self.new = self.new + 1;
            },
            BootImage::Recovery => {
                self.recovery = self.recovery + 1;
            },
        }
    }
}

struct Images<'a> {
    original: &'a [u8],
    updated: &'a [u8],
    old_hash: &'a str,
    new_hash: &'a str,
    slot_a: usize,
    target: usize,
}

impl<'a> Images<'a> {
    spec fn of(self, update: Update) -> bool {
        &&& self.original@ == update.original
        &&& self.updated@ == update.updated
        &&& self.old_hash@ == digest_text(update.original)
        &&& self.new_hash@ == digest_text(update.updated)
        &&& self.slot_a == update.slot_a
        &&& self.target == update.target()
    }

    fn boots(&self, flash: &Flash, Ghost(update): Ghost<Update>) -> (res: BootImage)
        requires
            self.of(update),
            ready(update, *flash),
        ensures
            res == update.boots(flash@),
    {
        let old_found = match flash.read(self.slot_a, self.original.len()) {
            Ok(bytes) => digest(bytes),
            Err(_) => {
                assert(false);
                "".to_owned()
            },
        };
        let new_found = match flash.read(self.target, self.updated.len()) {
            Ok(bytes) => digest(bytes),
            Err(_) => {
                assert(false);
                "".to_owned()
            },
        };
        classify_digests(old_found.as_str(), self.old_hash, new_found.as_str(), self.new_hash)
    }
}

/// Both images can be read from `flash`, and its units are the update's.
spec fn ready(update: Update, flash: Flash) -> bool {
    &&& flash@.len() == update.flash_size
    &&& flash.erase_unit() == update.erase_size
    &&& flash.program_unit() == update.write_alignment
    &&& update.slot_a + update.original.len() <= update.flash_size
    &&& update.target() + update.updated.len() <= update.flash_size
    &&& runnable(update)
}

spec fn runnable(update: Update) -> bool {
    &&& update.chunk > 0
    &&& update.erase_size > 0
    &&& update.write_alignment > 0
    &&& update.slot_a >= 0
    &&& update.slot_b >= 0
    &&& update.staging >= 0
    &&& update.flash_size <= usize::MAX
    &&& update.transfer.len() + 2 * update.updated.len() < usize::MAX
}

/// Flash and counts after `k` operations.
spec fn reached(update: Update, flash: Flash, tally: Tally, k: int) -> bool {
    &&& ready(update, flash)
    &&& update.after(k) == Ok::<Seq<u8>, UpdateError>(flash@)
    &&& tally.counts(update, k)
}

proof fn lemma_operation_counts(update: Update)
    requires
        runnable(update),
    ensures
        0 <= update.stagings() <= update.transfer.len(),
        0 <= update.erasures() <= update.updated.len(),
        0 <= update.installs() <= update.updated.len(),
{
    lemma_few_pieces(update.transfer.len() as int, update.chunk);
    lemma_few_pieces(update.updated.len() as int, update.erase_size);
    lemma_few_pieces(update.updated.len() as int, update.chunk);
}

proof fn lemma_perform_keeps_size(update: Update, bytes: Seq<u8>, op: FlashOp)
    requires
        runnable(update),
        update.perform(bytes, op) is Ok,
        match op {
            FlashOp::Stage { offset, .. } => offset >= 0,
            FlashOp::Erase { offset } => offset >= 0,
            FlashOp::Install { offset, .. } => offset >= 0,
        },
    ensures
        update.perform(bytes, op)->Ok_0.len() == bytes.len(),
{
    match op {
        FlashOp::Stage { offset, payload } => {
            crate::flash::law_programming_only_clears_bits(
                bytes,
                update.write_alignment,
                offset,
                payload,
            );
        },
        FlashOp::Erase { offset } => {
            crate::flash::law_erase_sets_ones(
                bytes,
                update.erase_size,
                offset,
                update.erase_size,
            );
        },
        FlashOp::Install { offset, payload } => {
            crate::flash::law_programming_only_clears_bits(
                bytes,
                update.write_alignment,
                offset,
                payload,
            );
        },
    }
}

/// Cuts the `i`-th chunk, which starts at `start`, out of `data`.
pub(crate) fn chunk_at<'a>(data: &'a [u8], chunk: usize, start: usize, Ghost(i): Ghost<int>) -> (res: &'a [u8])
    requires
        start < data@.len(),
        start == i * chunk,
        chunk > 0,
    ensures
        res@ == piece(data@, chunk as int, i),
{
    let end: usize = if data.len() - start <= chunk {
        data.len()
    } else {
        start + chunk
    };
    slice_subrange(data, start, end)
}

fn stage_transfer(
    flash: &mut Flash,
    tally: &mut Tally,
    images: &Images,
    transfer: &[u8],
    staging: usize,
    chunk: usize,
    write_alignment: usize,
    Ghost(update): Ghost<Update>,
) -> (res: Result<(), UpdateError>)
    requires
        images.of(update),
        reached(update, *old(flash), *old(tally), 0),
        update.strategy == UpdateStrategy::DeltaOnly,
        transfer@ == update.transfer,
        staging == update.staging,
        chunk == update.chunk,
        write_alignment == update.write_alignment,
    ensures
        match res {
            Ok(()) => reached(update, *final(flash), *final(tally), update.stagings()),
            Err(error) => update.after(update.stagings()) == Err::<Seq<u8>, UpdateError>(error),
        },
{
    let count: usize = ceil_div(transfer.len(), chunk);
    proof {
        lemma_operation_counts(update);
        assert(0 * update.chunk == 0);
    }
    let mut start: usize = 0;
    let mut i: usize = 0;
    while i < count
        invariant
            images.of(update),
            reached(update, *flash, *tally, i as int),
            update.strategy == UpdateStrategy::DeltaOnly,
            transfer@ == update.transfer,
            staging == update.staging,
            chunk == update.chunk,
            write_alignment == update.write_alignment,
            count == update.stagings(),
            i <= count,
            i < count ==> start == i * update.chunk,
        decreases count - i,
    {
        proof {
            lemma_operation_counts(update);
            lemma_piece_bounds(update.transfer.len() as int, update.chunk, i as int);
            if update.after(i + 1) is Err {
                lemma_failure_stays(update, i + 1, update.stagings());
            }
        }
        let offset: usize = match staging.checked_add(start) {
            Some(offset) => offset,
            None => {
                return Err(UpdateError::Flash(FlashError::ProgramOutside));
            },
        };
        if offset % write_alignment != 0 {
            return Err(UpdateError::ChunkUnaligned);
        }
        let payload = chunk_at(transfer, chunk, start, Ghost(i as int));
        match flash.program(offset, payload) {
            Ok(()) => {},
            Err(error) => {
                return Err(UpdateError::Flash(error));
            },
        }
        proof {
            lemma_perform_keeps_size(
                update,
                update.after(i as int)->Ok_0,
                update.operation(i as int),
            );
        }
        tally.record(images.boots(flash, Ghost(update)), Ghost(update), Ghost(i + 1));
        i = i + 1;
        if i < count {
            start = start + chunk;
        }
    }
    Ok(())
}

fn erase_target(
    flash: &mut Flash,
    tally: &mut Tally,
    images: &Images,
    erase_size: usize,
    Ghost(update): Ghost<Update>,
) -> (res: Result<(), UpdateError>)
    requires
        images.of(update),
        reached(update, *old(flash), *old(tally), update.stagings()),
        erase_size == update.erase_size,
    ensures
        match res {
            Ok(()) => reached(
                update,
                *final(flash),
                *final(tally),
                update.stagings() + update.erasures(),
            ),
            Err(error) => update.after(update.stagings() + update.erasures()) == Err::<
                Seq<u8>,
                UpdateError,
            >(error),
        },
{
    let count: usize = ceil_div(images.updated.len(), erase_size);
    proof {
        lemma_operation_counts(update);
        assert(0 * update.erase_size == 0);
    }
    let mut start: usize = 0;
    let mut i: usize = 0;
    while i < count
        invariant
            images.of(update),
            reached(update, *flash, *tally, update.stagings() + i),
            erase_size == update.erase_size,
            count == update.erasures(),
            i <= count,
            i < count ==> start == i * update.erase_size,
        decreases count - i,
    {
        let ghost k = update.stagings() + i;
        proof {
            lemma_operation_counts(update);
            lemma_piece_bounds(update.updated.len() as int, update.erase_size, i as int);
            if update.after(k + 1) is Err {
                lemma_failure_stays(update, k + 1, update.stagings() + update.erasures());
            }
        }
        let offset: usize = match images.target.checked_add(start) {
            Some(offset) => offset,
            None => {
                return Err(UpdateError::Flash(FlashError::EraseOutside));
            },
        };
        match flash.erase(offset, erase_size) {
            Ok(()) => {},
            Err(error) => {
                return Err(UpdateError::Flash(error));
            },
        }
        proof {
            lemma_perform_keeps_size(update, update.after(k)->Ok_0, update.operation(k));
        }
        tally.record(images.boots(flash, Ghost(update)), Ghost(update), Ghost(k + 1));
        i = i + 1;
        if i < count {
            start = start + erase_size;
        }
    }
    Ok(())
}

fn install_image(
    flash: &mut Flash,
    tally: &mut Tally,
    images: &Images,
    chunk: usize,
    write_alignment: usize,
    Ghost(update): Ghost<Update>,
) -> (res: Result<(), UpdateError>)
    requires
        images.of(update),
        reached(update, *old(flash), *old(tally), update.stagings() + update.erasures()),
        chunk == update.chunk,
        write_alignment == update.write_alignment,
    ensures
        match res {
            Ok(()) => reached(update, *final(flash), *final(tally), update.operations()),
            Err(error) => update.after(update.operations()) == Err::<Seq<u8>, UpdateError>(error),
        },
{
    let count: usize = ceil_div(images.updated.len(), chunk);
    proof {
        lemma_operation_counts(update);
        assert(0 * update.chunk == 0);
    }
    let mut start: usize = 0;
    let mut i: usize = 0;
    while i < count
        invariant
            images.of(update),
            reached(update, *flash, *tally, update.stagings() + update.erasures() + i),
            chunk == update.chunk,
            write_alignment == update.write_alignment,
            count == update.installs(),
            i <= count,
            i < count ==> start == i * update.chunk,
        decreases count - i,
    {
        let ghost k = update.stagings() + update.erasures() + i;
        proof {
            lemma_operation_counts(update);
            lemma_piece_bounds(update.updated.len() as int, update.chunk, i as int);
            if update.after(k + 1) is Err {
                lemma_failure_stays(update, k + 1, update.operations());
            }
        }
        let offset: usize = match images.target.checked_add(start) {
            Some(offset) => offset,
            None => {
                return Err(UpdateError::Flash(FlashError::ProgramOutside));
            },
        };
        if !is_aligned(offset as u64, write_alignment as u64) {
            return Err(UpdateError::ChunkUnaligned);
        }
        let payload = chunk_at(images.updated, chunk, start, Ghost(i as int));
        match flash.program(offset, payload) {
            Ok(()) => {},
            Err(error) => {
                return Err(UpdateError::Flash(error));
            },
        }
        proof {
            lemma_perform_keeps_size(update, update.after(k)->Ok_0, update.operation(k));
        }
        tally.record(images.boots(flash, Ghost(update)), Ghost(update), Ghost(k + 1));
        i = i + 1;
        if i < count {
            start = start + chunk;
        }
    }
    Ok(())
}

fn choose_strategy(memory: &MemoryLayout, image_size: usize, transfer: &[u8]) -> (res:
    UpdateStrategy)
    ensures
        res == strategy_for(*memory, image_size as int, transfer@),
{
    let slot_b: u64 = match memory.slot_b_size {
        Some(size) => size,
        None => 0,
    };
    let delta: u64 = match memory.delta_size {
        Some(size) => size,
        None => 0,
    };
    let marked = transfer.len() >= 4 && transfer[0] == 0x50 && transfer[1] == 0x44 && transfer[2]
        == 0x43 && transfer[3] == 0x4c;
    if slot_b >= image_size as u64 {
        UpdateStrategy::DualSlot
    } else if delta > 0 && marked {
        UpdateStrategy::DeltaOnly
    } else {
        UpdateStrategy::RecoveryTransport
    }
}

fn machine_size(value: u64) -> (res: Option<usize>)
    ensures
        match res {
            Some(size) => size == value,
            None => value > usize::MAX,
        },
{
    if value <= usize::MAX as u64 {
        Some(value as usize)
    } else {
        None
    }
}

fn offset_in_flash(address: Option<u64>, flash_base: u64) -> (res: Option<usize>)
    ensures
        match res {
            Some(offset) => offset == flash_offset(address, flash_base),
            None => flash_offset(address, flash_base) > usize::MAX,
        },
{
    match address {
        Some(address) => if address >= flash_base {
            machine_size(address - flash_base)
        } else {
            Some(0)
        },
        None => Some(0),
    }
}

pub fn interruption_matrix(
    original: &[u8],
    updated_image: &[u8],
    transfer: &[u8],
    memory: &MemoryLayout,
    chunk_size: usize,
) -> (res: Result<UpdateReport, UpdateError>)
    requires
        memory.erase_size > 0,
        memory.write_alignment > 0,
        transfer@.len() + 2 * updated_image@.len() < usize::MAX,
    ensures
        match update_error(original@, updated_image@, transfer@, *memory, chunk_size as int) {
            Some(error) => res == Err::<UpdateReport, UpdateError>(error),
            None => res matches Ok(report) && report.of(
                Update::of(original@, updated_image@, transfer@, *memory, chunk_size as int),
            ),
        },
{
    let ghost update = Update::of(
        original@,
        updated_image@,
        transfer@,
        *memory,
        chunk_size as int,
    );
    if original.len() == 0 || updated_image.len() == 0 {
        return Err(UpdateError::EmptyImage);
    }
    if transfer.len() == 0 {
        return Err(UpdateError::EmptyTransfer);
    }
    if chunk_size == 0 {
        return Err(UpdateError::ChunkSize);
    }
    let strategy = choose_strategy(memory, updated_image.len(), transfer);
    let chunks: usize = ceil_div(transfer.len(), chunk_size);
    let old_hash = digest(original);
    let new_hash = digest(updated_image);
    if same_text(old_hash.as_str(), new_hash.as_str()) {
        return Err(UpdateError::SameImage);
    }
    let (flash_size, erase_size, write_alignment, slot_a): (usize, usize, usize, usize) = match (
        machine_size(memory.flash_size),
        machine_size(memory.erase_size),
        machine_size(memory.write_alignment),
        offset_in_flash(Some(memory.slot_a_base), memory.flash_base),
    ) {
        (Some(size), Some(unit), Some(alignment), Some(slot)) => (size, unit, alignment, slot),
        _ => {
            return Err(UpdateError::TooLarge);
        },
    };
    if original.len() as u64 > memory.slot_a_size {
        return Err(UpdateError::OriginalExceedsSlot);
    }
    if updated_image.len() as u64 > memory.slot_a_size {
        return Err(UpdateError::UpdatedExceedsSlot);
    }
    let mut flash = Flash::new(flash_size, erase_size, write_alignment);
    match flash.program(slot_a, original) {
        Ok(()) => {},
        Err(error) => {
            return Err(UpdateError::Flash(error));
        },
    }
    let target: usize = match strategy {
        UpdateStrategy::DualSlot => {
            if memory.slot_b_base.is_none() {
                return Err(UpdateError::NoSlotB);
            }
            match offset_in_flash(memory.slot_b_base, memory.flash_base) {
                Some(offset) => offset,
                None => {
                    return Err(UpdateError::TooLarge);
                },
            }
        },
        _ => slot_a,
    };
    proof {
        crate::flash::law_programming_only_clears_bits(
            blank(update.flash_size),
            update.write_alignment,
            update.slot_a,
            update.original,
        );
        lemma_div_ceil_covers(update.original.len() as int, update.write_alignment);
        lemma_operation_counts(update);
    }
    let readable = match target.checked_add(updated_image.len()) {
        Some(end) => end <= flash_size,
        None => false,
    };
    if !readable {
        return Err(UpdateError::Flash(FlashError::ReadOutside));
    }
    let images = Images {
        original,
        updated: updated_image,
        old_hash: old_hash.as_str(),
        new_hash: new_hash.as_str(),
        slot_a,
        target,
    };
    let mut tally = Tally { old: 0, new: 0, recovery: 0 };
    tally.record(images.boots(&flash, Ghost(update)), Ghost(update), Ghost(0));
    if strategy == UpdateStrategy::DeltaOnly {
        if memory.delta_base.is_none() {
            return Err(UpdateError::NoDelta);
        }
        let staging: usize = match offset_in_flash(memory.delta_base, memory.flash_base) {
            Some(offset) => offset,
            None => {
                return Err(UpdateError::TooLarge);
            },
        };
        let room: u64 = match memory.delta_size {
            Some(size) => size,
            None => 0,
        };
        if transfer.len() as u64 > room {
            return Err(UpdateError::TransferExceedsDelta);
        }
        match stage_transfer(
            &mut flash,
            &mut tally,
            &images,
            transfer,
            staging,
            chunk_size,
            write_alignment,
            Ghost(update),
        ) {
            Ok(()) => {},
            Err(error) => {
                proof {
                    lemma_failure_stays(update, update.stagings(), update.operations());
                }
                return Err(error);
            },
        }
    }
    match erase_target(&mut flash, &mut tally, &images, erase_size, Ghost(update)) {
        Ok(()) => {},
        Err(error) => {
            proof {
                lemma_failure_stays(
                    update,
                    update.stagings() + update.erasures(),
                    update.operations(),
                );
            }
            return Err(error);
        },
    }
    match install_image(
        &mut flash,
        &mut tally,
        &images,
        chunk_size,
        write_alignment,
        Ghost(update),
    ) {
        Ok(()) => {},
        Err(error) => {
            return Err(error);
        },
    }
    Ok(
        UpdateReport {
            strategy,
            chunks,
            interruption_points_tested: tally.old + tally.new + tally.recovery,
            old_image_boot_points: tally.old,
            new_image_boot_points: tally.new,
            recovery_required_points: tally.recovery,
            original_sha256: old_hash,
            updated_sha256: new_hash,
            all_flash_operation_boundaries_tested: true,
            cpu_reboots_executed: false,
            updated_image_from_artifact: false,
        },
    )
}

// ---------------------------------------------------------------------------
// What holds of every update
// ---------------------------------------------------------------------------

/// Every boundary is counted once: the three counts add up to one more than
/// there are operations.
pub proof fn law_every_boundary_is_classified(update: Update, k: int)
    requires
        k >= 0,
    ensures
        update.points(k, BootImage::Old) + update.points(k, BootImage::New) + update.points(
            k,
            BootImage::Recovery,
        ) == k + 1,
        update.points(k, BootImage::Old) >= 0,
        update.points(k, BootImage::New) >= 0,
        update.points(k, BootImage::Recovery) >= 0,
    decreases k,
{
    if k > 0 {
        law_every_boundary_is_classified(update, k - 1);
    } else {
        assert(update.points(-1, BootImage::Old) == 0);
        assert(update.points(-1, BootImage::New) == 0);
        assert(update.points(-1, BootImage::Recovery) == 0);
    }
}

proof fn lemma_success_before(update: Update, k: int, last: int)
    requires
        0 <= k <= last,
        update.after(last) is Ok,
    ensures
        update.after(k) is Ok,
{
    if update.after(k) is Err {
        lemma_failure_stays(update, k, last);
    }
}

/// Operations beyond `limit` leave everything before it alone.
spec fn stays_beyond(op: FlashOp, limit: int) -> bool {
    match op {
        FlashOp::Stage { offset, .. } => offset >= limit,
        FlashOp::Erase { offset } => offset >= limit,
        FlashOp::Install { offset, .. } => offset >= limit,
    }
}

proof fn lemma_untouched(update: Update, k: int, limit: int)
    requires
        update.chunk > 0,
        update.erase_size > 0,
        update.write_alignment > 0,
        k >= 0,
        0 <= limit <= update.installed().len(),
        update.after(k) is Ok,
        forall|j: int| 0 <= j < k ==> stays_beyond(#[trigger] update.operation(j), limit),
    ensures
        update.after(k)->Ok_0.len() == update.installed().len(),
        update.after(k)->Ok_0.take(limit) == update.installed().take(limit),
    decreases k,
{
    if k > 0 {
        lemma_success_before(update, k - 1, k);
        lemma_untouched(update, k - 1, limit);
        let before = update.after(k - 1)->Ok_0;
        let op = update.operation(k - 1);
        let now = update.after(k)->Ok_0;
        assert(stays_beyond(op, limit));
        match op {
            FlashOp::Stage { offset, payload } => {
                crate::flash::law_programming_only_clears_bits(
                    before,
                    update.write_alignment,
                    offset,
                    payload,
                );
            },
            FlashOp::Erase { offset } => {
                crate::flash::law_erase_sets_ones(
                    before,
                    update.erase_size,
                    offset,
                    update.erase_size,
                );
            },
            FlashOp::Install { offset, payload } => {
                crate::flash::law_programming_only_clears_bits(
                    before,
                    update.write_alignment,
                    offset,
                    payload,
                );
            },
        }
        assert(now.take(limit) =~= before.take(limit));
    }
}

/// The old image is where it was installed.
proof fn lemma_installed(update: Update)
    requires
        update.write_alignment > 0,
        update.slot_a >= 0,
        update.flash_size >= 0,
        program_error(
            blank(update.flash_size),
            update.write_alignment,
            update.slot_a,
            update.original,
        ) is None,
    ensures
        update.installed().len() == update.flash_size,
        update.slot_a + update.original.len() <= update.flash_size,
        update.installed().subrange(update.slot_a, update.slot_a + update.original.len())
            == update.original,
{
    lemma_div_ceil_covers(update.original.len() as int, update.write_alignment);
    crate::flash::law_programming_only_clears_bits(
        blank(update.flash_size),
        update.write_alignment,
        update.slot_a,
        update.original,
    );
    crate::flash::law_read_gives_back_what_was_programmed(
        blank(update.flash_size),
        update.write_alignment,
        update.slot_a,
        update.original,
    );
}

proof fn lemma_old_image_boots(update: Update, k: int)
    requires
        update.chunk > 0,
        update.erase_size > 0,
        update.write_alignment > 0,
        update.slot_a >= 0,
        update.flash_size >= 0,
        program_error(
            blank(update.flash_size),
            update.write_alignment,
            update.slot_a,
            update.original,
        ) is None,
        k >= 0,
        update.after(k) is Ok,
        forall|j: int|
            0 <= j < k ==> stays_beyond(
                #[trigger] update.operation(j),
                update.slot_a + update.original.len(),
            ),
    ensures
        update.boots(update.after(k)->Ok_0) != BootImage::Recovery,
{
    let limit = update.slot_a + update.original.len();
    lemma_installed(update);
    lemma_untouched(update, k, limit);
    let now = update.after(k)->Ok_0;
    assert(now.subrange(update.slot_a, limit) =~= now.take(limit).subrange(update.slot_a, limit));
    assert(update.installed().subrange(update.slot_a, limit) =~= update.installed().take(
        limit,
    ).subrange(update.slot_a, limit));
}

/// Before anything is done the old image is intact.
pub proof fn law_an_update_starts_bootable(
    original: Seq<u8>,
    updated: Seq<u8>,
    transfer: Seq<u8>,
    memory: MemoryLayout,
    chunk: int,
)
    requires
        memory.erase_size > 0,
        memory.write_alignment > 0,
        chunk >= 0,
        update_error(original, updated, transfer, memory, chunk) is None,
    ensures
        ({
            let update = Update::of(original, updated, transfer, memory, chunk);
            update.boots(update.after(0)->Ok_0) != BootImage::Recovery
        }),
{
    lemma_old_image_boots(Update::of(original, updated, transfer, memory, chunk), 0);
}

/// On an accepted layout staging a delta costs nothing: the old image boots,
/// or the new one does, at every boundary until the target is first erased.
pub proof fn law_staging_keeps_the_old_image(
    original: Seq<u8>,
    updated: Seq<u8>,
    transfer: Seq<u8>,
    memory: MemoryLayout,
    chunk: int,
    vector_alignment: int,
    k: int,
)
    requires
        memory.error(vector_alignment) is None,
        chunk >= 0,
        update_error(original, updated, transfer, memory, chunk) is None,
        0 <= k <= Update::of(original, updated, transfer, memory, chunk).stagings(),
    ensures
        ({
            let update = Update::of(original, updated, transfer, memory, chunk);
            update.after(k) is Ok && update.boots(update.after(k)->Ok_0) != BootImage::Recovery
        }),
{
    let update = Update::of(original, updated, transfer, memory, chunk);
    crate::architecture::law_partitions_in_flash(memory, vector_alignment);
    crate::architecture::lemma_geometry_is_positive(memory, vector_alignment);
    lemma_few_pieces(update.updated.len() as int, update.erase_size);
    lemma_few_pieces(update.updated.len() as int, update.chunk);
    lemma_success_before(update, k, update.operations());
    let limit = update.slot_a + update.original.len();
    assert forall|j: int| 0 <= j < k implies stays_beyond(#[trigger] update.operation(j), limit) by {
        assert(j * update.chunk >= 0) by (nonlinear_arith)
            requires
                j >= 0,
                update.chunk > 0,
        ;
    }
    lemma_old_image_boots(update, k);
}

proof fn lemma_no_points(update: Update, k: int, image: BootImage)
    requires
        forall|j: int| 0 <= j <= k ==> update.boots((#[trigger] update.after(j))->Ok_0) != image,
    ensures
        update.points(k, image) == 0,
    decreases k + 1,
{
    if k >= 0 {
        assert(update.boots(update.after(k)->Ok_0) != image);
        lemma_no_points(update, k - 1, image);
    }
}

/// A dual-slot update of an accepted layout never needs recovery: at every
/// boundary the old image boots, or the new one does.
pub proof fn law_dual_slot_never_needs_recovery(
    original: Seq<u8>,
    updated: Seq<u8>,
    transfer: Seq<u8>,
    memory: MemoryLayout,
    chunk: int,
    vector_alignment: int,
)
    requires
        memory.error(vector_alignment) is None,
        chunk >= 0,
        update_error(original, updated, transfer, memory, chunk) is None,
        memory.slot_b_size matches Some(size) && size >= updated.len(),
    ensures
        ({
            let update = Update::of(original, updated, transfer, memory, chunk);
            update.points(update.operations(), BootImage::Recovery) == 0
        }),
{
    let update = Update::of(original, updated, transfer, memory, chunk);
    crate::architecture::law_partitions_in_flash(memory, vector_alignment);
    crate::architecture::lemma_geometry_is_positive(memory, vector_alignment);
    lemma_few_pieces(update.updated.len() as int, update.erase_size);
    lemma_few_pieces(update.updated.len() as int, update.chunk);
    let last = update.operations();
    let limit = update.slot_a + update.original.len();
    assert(memory.slot_b_size is Some);
    assert forall|j: int| 0 <= j < last implies stays_beyond(
        #[trigger] update.operation(j),
        limit,
    ) by {
        let e = j - update.stagings();
        let i = e - update.erasures();
        if e < update.erasures() {
            assert(e * update.erase_size >= 0) by (nonlinear_arith)
                requires
                    e >= 0,
                    update.erase_size > 0,
            ;
        } else {
            assert(i * update.chunk >= 0) by (nonlinear_arith)
                requires
                    i >= 0,
                    update.chunk > 0,
            ;
        }
    }
    assert forall|j: int| 0 <= j <= last implies update.boots((#[trigger] update.after(j))->Ok_0)
        != BootImage::Recovery by {
        lemma_success_before(update, j, last);
        lemma_old_image_boots(update, j);
    }
    lemma_no_points(update, last, BootImage::Recovery);
}

/// While the new image is written, its first chunks are in place.
proof fn lemma_installing(update: Update, i: int)
    requires
        update.chunk > 0,
        update.erase_size > 0,
        update.write_alignment > 0,
        update.target() >= 0,
        update.stagings() >= 0,
        update.erasures() >= 0,
        0 <= i <= update.installs(),
        update.after(update.stagings() + update.erasures() + i) is Ok,
        update.target() + update.updated.len() <= update.after(
            update.stagings() + update.erasures(),
        )->Ok_0.len(),
    ensures
        ({
            let now = update.after(update.stagings() + update.erasures() + i)->Ok_0;
            let done = if i < update.installs() {
                i * update.chunk
            } else {
                update.updated.len() as int
            };
            &&& now.len() == update.after(update.stagings() + update.erasures())->Ok_0.len()
            &&& 0 <= done <= update.updated.len()
            &&& now.subrange(update.target(), update.target() + done) == update.updated.take(done)
        }),
    decreases i,
{
    let first = update.stagings() + update.erasures();
    let now = update.after(first + i)->Ok_0;
    let total = update.updated.len() as int;
    if i == 0 {
        assert(0 * update.chunk == 0);
        lemma_few_pieces(total, update.chunk);
        lemma_div_ceil_covers(total, update.chunk);
        if update.installs() == 0 {
            assert(total == 0);
        }
        assert(now.subrange(update.target(), update.target() + 0) =~= update.updated.take(0));
    } else {
        lemma_success_before(update, first + i - 1, first + i);
        lemma_installing(update, i - 1);
        lemma_piece_bounds(total, update.chunk, i - 1);
        let before = update.after(first + i - 1)->Ok_0;
        let start = (i - 1) * update.chunk;
        let payload = piece(update.updated, update.chunk, i - 1);
        let offset = update.target() + start;
        assert(update.operation(first + i - 1) == FlashOp::Install { offset, payload });
        crate::flash::law_programming_only_clears_bits(
            before,
            update.write_alignment,
            offset,
            payload,
        );
        crate::flash::law_read_gives_back_what_was_programmed(
            before,
            update.write_alignment,
            offset,
            payload,
        );
        let done = start + payload.len();
        let written = now.subrange(update.target(), update.target() + done);
        assert forall|x: int| 0 <= x < done implies #[trigger] written[x] == update.updated[x] by {
            if x < start {
                assert(now[update.target() + x] == before[update.target() + x]);
                assert(before.subrange(update.target(), update.target() + start)[x]
                    == update.updated.take(start)[x]);
            } else {
                assert(now.subrange(offset, offset + payload.len())[x - start]
                    == payload[x - start]);
            }
        }
        assert(written =~= update.updated.take(done));
        if i < update.installs() {
            assert(i * update.chunk == start + update.chunk);
        }
    }
}

proof fn lemma_size_kept(update: Update, k: int)
    requires
        runnable(update),
        k >= 0,
        update.after(k) is Ok,
        update.target() >= 0,
    ensures
        update.after(k)->Ok_0.len() == update.installed().len(),
    decreases k,
{
    if k > 0 {
        lemma_success_before(update, k - 1, k);
        lemma_size_kept(update, k - 1);
        lemma_operation_counts(update);
        let j = k - 1;
        let e = j - update.stagings();
        let i = e - update.erasures();
        if j < update.stagings() {
            assert(j * update.chunk >= 0) by (nonlinear_arith)
                requires
                    j >= 0,
                    update.chunk > 0,
            ;
        } else if e < update.erasures() {
            assert(e * update.erase_size >= 0) by (nonlinear_arith)
                requires
                    e >= 0,
                    update.erase_size > 0,
            ;
        } else {
            assert(i * update.chunk >= 0) by (nonlinear_arith)
                requires
                    i >= 0,
                    update.chunk > 0,
            ;
        }
        lemma_perform_keeps_size(update, update.after(j)->Ok_0, update.operation(j));
    }
}

/// An update that runs through leaves the new image, whole and bootable, at
/// its target. So at least one boundary boots it.
pub proof fn law_completed_update_boots_the_new_image(
    original: Seq<u8>,
    updated: Seq<u8>,
    transfer: Seq<u8>,
    memory: MemoryLayout,
    chunk: int,
)
    requires
        memory.erase_size > 0,
        memory.write_alignment > 0,
        chunk >= 0,
        transfer.len() + 2 * updated.len() < usize::MAX,
        update_error(original, updated, transfer, memory, chunk) is None,
    ensures
        ({
            let update = Update::of(original, updated, transfer, memory, chunk);
            let end = update.after(update.operations())->Ok_0;
            &&& end.subrange(update.target(), update.target() + updated.len()) == updated
            &&& update.boots(end) == BootImage::New
            &&& update.points(update.operations(), BootImage::New) > 0
        }),
{
    let update = Update::of(original, updated, transfer, memory, chunk);
    let last = update.operations();
    lemma_installed(update);
    lemma_operation_counts(update);
    lemma_success_before(update, update.stagings() + update.erasures(), last);
    lemma_size_kept(update, update.stagings() + update.erasures());
    lemma_installing(update, update.installs());
    assert(updated.take(updated.len() as int) =~= updated);
    let end = update.after(last)->Ok_0;
    assert(end.subrange(update.target(), update.target() + updated.len()) == updated);
    assert(update.boots(end) == BootImage::New);
    assert(update.points(last, BootImage::New) == update.points(last - 1, BootImage::New) + 1);
    if last > 0 {
        law_every_boundary_is_classified(update, last - 1);
    }
}

/// Equal images are refused, whatever the layout.
pub proof fn law_an_update_must_change_the_image(
    image: Seq<u8>,
    transfer: Seq<u8>,
    memory: MemoryLayout,
    chunk: int,
)
    requires
        image.len() > 0,
        transfer.len() > 0,
        chunk > 0,
    ensures
        update_error(image, image, transfer, memory, chunk) == Some(UpdateError::SameImage),
{
}

/// Rounding a length up to whole units does not leave a range that starts and
/// ends at units.
proof fn lemma_rounded_up_fits(start: int, length: int, end: int, unit: int)
    requires
        unit > 0,
        length >= 0,
        start % unit == 0,
        end % unit == 0,
        start + length <= end,
    ensures
        start + div_ceil(length, unit) * unit <= end,
{
    lemma_div_ceil_covers(length, unit);
    vstd::arithmetic::div_mod::lemma_fundamental_div_mod(start, unit);
    vstd::arithmetic::div_mod::lemma_fundamental_div_mod(end, unit);
    let (a, n, b) = (start / unit, div_ceil(length, unit), end / unit);
    assert(a + n <= b) by (nonlinear_arith)
        requires
            unit > 0,
            unit * a + n * unit < unit * b + unit,
    ;
    assert(unit * a + n * unit <= unit * b) by (nonlinear_arith)
        requires
            unit > 0,
            a + n <= b,
    ;
}

proof fn lemma_multiple_behind(start: int, step: int, i: int, unit: int)
    requires
        unit > 0,
        start % unit == 0,
        step % unit == 0,
    ensures
        (start + i * step) % unit == 0,
{
    vstd::arithmetic::div_mod::lemma_fundamental_div_mod(start, unit);
    vstd::arithmetic::div_mod::lemma_fundamental_div_mod(step, unit);
    let (a, b) = (start / unit, step / unit);
    assert(start + i * step == unit * (a + i * b)) by (nonlinear_arith)
        requires
            start == unit * a,
            step == unit * b,
    ;
    vstd::arithmetic::div_mod::lemma_mod_multiples_basic(a + i * b, unit);
    assert((a + i * b) * unit == unit * (a + i * b)) by (nonlinear_arith);
}

/// Everything starts and ends at whole units, and the target is in flash.
spec fn in_whole_units(update: Update) -> bool {
    &&& runnable(update)
    &&& update.strategy != UpdateStrategy::DeltaOnly
    &&& is_pow2(update.erase_size)
    &&& is_pow2(update.write_alignment)
    &&& update.write_alignment <= usize::MAX
    &&& update.erase_size % update.write_alignment == 0
    &&& update.chunk % update.write_alignment == 0
    &&& update.flash_size % update.erase_size == 0
    &&& update.target() % update.erase_size == 0
    &&& update.target() + update.updated.len() <= update.flash_size
    &&& update.flash_size >= 0
}

proof fn lemma_aligned(value: int, unit: int)
    requires
        is_pow2(unit),
        0 < unit <= u64::MAX,
        0 <= value <= u64::MAX,
        value % unit == 0,
    ensures
        aligned(value, unit),
{
    crate::arith::law_alignment_is_divisibility(value as u64, unit as u64);
}

/// The erased target, from the first chunk that is not yet written on.
spec fn blank_from(update: Update, bytes: Seq<u8>, from: int, end: int) -> bool {
    &&& bytes.len() == update.flash_size
    &&& forall|x: int| from <= x < end ==> #[trigger] bytes[x] == 0xff
}

proof fn lemma_whole_units_run(update: Update, k: int)
    requires
        in_whole_units(update),
        update.installed().len() == update.flash_size,
        0 <= k <= update.operations(),
    ensures
        update.after(k) is Ok,
        ({
            let bytes = update.after(k)->Ok_0;
            let end = update.target() + update.erasures() * update.erase_size;
            if k <= update.erasures() {
                blank_from(
                    update,
                    bytes,
                    update.target(),
                    update.target() + k * update.erase_size,
                )
            } else {
                blank_from(
                    update,
                    bytes,
                    update.target() + (k - update.erasures()) * update.chunk,
                    end,
                )
            }
        }),
    decreases k,
{
    let erase = update.erase_size;
    let unit = update.write_alignment;
    let target = update.target();
    let total = update.updated.len() as int;
    lemma_operation_counts(update);
    lemma_div_ceil_covers(total, erase);
    lemma_rounded_up_fits(target, total, update.flash_size, erase);
    lemma_multiple_behind(0, erase, update.erasures(), unit);
    assert(0 + update.erasures() * erase == update.erasures() * erase);
    lemma_multiple_behind(0, erase, target / erase, unit);
    vstd::arithmetic::div_mod::lemma_fundamental_div_mod(target, erase);
    assert(target / erase * erase == erase * (target / erase)) by (nonlinear_arith);
    assert(target % unit == 0);
    if k == 0 {
        assert(0 * erase == 0);
    } else if k <= update.erasures() {
        lemma_whole_units_run(update, k - 1);
        let before = update.after(k - 1)->Ok_0;
        lemma_piece_bounds(total, erase, k - 1);
        lemma_multiple_behind(target, erase, k - 1, erase);
        lemma_aligned(target + (k - 1) * erase, erase);
        vstd::arithmetic::div_mod::lemma_mod_self_0(erase);
        lemma_aligned(erase, erase);
        assert(k * erase <= update.erasures() * erase) by (nonlinear_arith)
            requires
                k <= update.erasures(),
                erase > 0,
        ;
        crate::flash::law_erase_sets_ones(before, erase, target + (k - 1) * erase, erase);
    } else {
        lemma_whole_units_run(update, k - 1);
        let before = update.after(k - 1)->Ok_0;
        let i = k - 1 - update.erasures();
        let offset = target + i * update.chunk;
        let payload = piece(update.updated, update.chunk, i);
        lemma_piece_bounds(total, update.chunk, i);
        lemma_multiple_behind(target, update.chunk, i, unit);
        lemma_multiple_behind(0, update.chunk, i, unit);
        lemma_aligned(offset, unit);
        lemma_rounded_up_fits(
            i * update.chunk,
            payload.len() as int,
            update.erasures() * erase,
            unit,
        );
        lemma_rounded_up_fits(0, payload.len() as int, update.chunk, unit);
        assert(0 * update.chunk == 0);
        assert(blank_from(update, before, offset, target + update.erasures() * erase));
        crate::flash::law_erased_flash_takes_any_program(before, unit, offset, payload);
        crate::flash::law_programming_only_clears_bits(before, unit, offset, payload);
    }
}

/// On an accepted layout whose slots, flash and chunks are whole units, every
/// update that is not staged runs through: it is refused only where an image
/// or the transfer is empty, an image does not fit its slot, or both images
/// are the same.
pub proof fn law_whole_unit_updates_run_through(
    original: Seq<u8>,
    updated: Seq<u8>,
    transfer: Seq<u8>,
    memory: MemoryLayout,
    chunk: int,
    vector_alignment: int,
)
    requires
        memory.error(vector_alignment) is None,
        memory.flash_size <= usize::MAX,
        memory.erase_size as int % memory.write_alignment as int == 0,
        memory.flash_size as int % memory.erase_size as int == 0,
        (memory.slot_a_base - memory.flash_base) % memory.erase_size as int == 0,
        memory.slot_b_size is Some ==> (memory.slot_b_base matches Some(base) && (base
            - memory.flash_base) % memory.erase_size as int == 0),
        chunk > 0,
        chunk % memory.write_alignment as int == 0,
        transfer.len() + 2 * updated.len() < usize::MAX,
        !(Inputs { original, updated, transfer, memory, chunk }).is_staged(),
        0 < original.len() <= memory.slot_a_size,
        0 < updated.len() <= memory.slot_a_size,
        transfer.len() > 0,
        digest_text(original) != digest_text(updated),
    ensures
        update_error(original, updated, transfer, memory, chunk) is None,
{
    let update = Update::of(original, updated, transfer, memory, chunk);
    let unit = update.write_alignment;
    if is_delta(transfer) {
        assert(transfer.take(4) =~= seq![0x50u8, 0x44u8, 0x43u8, 0x4cu8]);
    }
    crate::architecture::law_partitions_in_flash(memory, vector_alignment);
    crate::architecture::lemma_geometry_is_positive(memory, vector_alignment);
    let erase = update.erase_size;
    lemma_multiple_behind(0, erase, update.slot_a / erase, unit);
    vstd::arithmetic::div_mod::lemma_fundamental_div_mod(update.slot_a, erase);
    assert(update.slot_a / erase * erase == erase * (update.slot_a / erase)) by (nonlinear_arith);
    lemma_multiple_behind(0, erase, update.flash_size / erase, unit);
    vstd::arithmetic::div_mod::lemma_fundamental_div_mod(update.flash_size, erase);
    assert(update.flash_size / erase * erase == erase * (update.flash_size / erase))
        by (nonlinear_arith);
    lemma_rounded_up_fits(update.slot_a, original.len() as int, update.flash_size, unit);
    lemma_div_ceil_covers(original.len() as int, unit);
    lemma_aligned(update.slot_a, unit);
    crate::flash::law_erased_flash_takes_any_program(
        blank(update.flash_size),
        unit,
        update.slot_a,
        original,
    );
    assert(memory.write_alignment <= memory.erase_size) by (nonlinear_arith)
        requires
            memory.erase_size as int % memory.write_alignment as int == 0,
            memory.erase_size > 0,
            memory.write_alignment > 0,
    ;
    assert(memory.erase_size <= memory.flash_size) by (nonlinear_arith)
        requires
            memory.flash_size as int % memory.erase_size as int == 0,
            memory.erase_size > 0,
            memory.flash_size > 0,
    ;
    lemma_installed(update);
    assert(in_whole_units(update));
    lemma_operation_counts(update);
    lemma_whole_units_run(update, update.operations());
}

// ---------------------------------------------------------------------------
// An update seen from its inputs
// ---------------------------------------------------------------------------

/// How far behind the start of flash an address lies.
pub open spec fn behind(address: u64, flash_base: u64) -> int {
    if address < flash_base {
        0
    } else {
        address - flash_base
    }
}

/// How many pieces of at most `size` there are in `total`.
pub open spec fn pieces_in(total: int, size: int) -> int {
    (total + size - 1) / size
}

pub open spec fn least(a: int, b: int) -> int {
    if a <= b {
        a
    } else {
        b
    }
}

/// So many of the `count` operations that follow the first `skipped` are among
/// the first `k`.
pub open spec fn done_of(k: int, skipped: int, count: int) -> int {
    if k <= skipped {
        0
    } else {
        least(k - skipped, count)
    }
}

/// What an update starts from.
pub ghost struct Inputs {
    pub original: Seq<u8>,
    pub updated: Seq<u8>,
    pub transfer: Seq<u8>,
    pub memory: MemoryLayout,
    pub chunk: int,
}

impl Inputs {
    /// The update that these inputs ask for runs through.
    pub open spec fn runs(self) -> bool {
        &&& self.memory.erase_size > 0
        &&& self.memory.write_alignment > 0
        &&& self.chunk >= 0
        &&& self.transfer.len() + 2 * self.updated.len() < usize::MAX
        &&& update_error(
            self.original,
            self.updated,
            self.transfer,
            self.memory,
            self.chunk,
        ) is None
    }

    pub open spec fn update(self) -> Update {
        Update::of(self.original, self.updated, self.transfer, self.memory, self.chunk)
    }

    /// The second slot holds all of the new image.
    pub open spec fn fits_slot_b(self) -> bool {
        self.memory.slot_b_size matches Some(size) && size >= self.updated.len()
    }

    /// A delta waits in its own area before anything is erased.
    pub open spec fn is_staged(self) -> bool {
        &&& !self.fits_slot_b()
        &&& self.memory.delta_size matches Some(size) && size > 0
        &&& self.transfer.len() >= 4
        &&& self.transfer.take(4) == seq![0x50u8, 0x44u8, 0x43u8, 0x4cu8]
    }

    pub open spec fn old_place(self) -> int {
        behind(self.memory.slot_a_base, self.memory.flash_base)
    }

    pub open spec fn new_place(self) -> int {
        if self.fits_slot_b() {
            behind(self.memory.slot_b_base->0, self.memory.flash_base)
        } else {
            self.old_place()
        }
    }

    pub open spec fn staged_chunks(self) -> int {
        if self.is_staged() {
            pieces_in(self.transfer.len() as int, self.chunk)
        } else {
            0
        }
    }

    pub open spec fn erased_units(self) -> int {
        pieces_in(self.updated.len() as int, self.memory.erase_size as int)
    }

    pub open spec fn written_chunks(self) -> int {
        pieces_in(self.updated.len() as int, self.chunk)
    }

    /// Byte `x` of flash when power is lost after the first `k` operations:
    /// what has been written of the new image, else ones where the target has
    /// been erased, else what has been staged, else the old image, else ones.
    pub open spec fn byte(self, k: int, x: int) -> u8 {
        let staged = done_of(k, 0, self.staged_chunks());
        let units = done_of(k, self.staged_chunks(), self.erased_units());
        let written = done_of(
            k,
            self.staged_chunks() + self.erased_units(),
            self.written_chunks(),
        );
        let target = self.new_place();
        let area = behind(self.memory.delta_base->0, self.memory.flash_base);
        let old = self.old_place();
        if target <= x < target + least(written * self.chunk, self.updated.len() as int) {
            self.updated[x - target]
        } else if target <= x < target + units * self.memory.erase_size {
            0xff
        } else if area <= x < area + least(staged * self.chunk, self.transfer.len() as int) {
            self.transfer[x - area]
        } else if old <= x < old + self.original.len() {
            self.original[x - old]
        } else {
            0xff
        }
    }

    /// What then lies where the old image was.
    pub open spec fn old_window(self, k: int) -> Seq<u8> {
        Seq::new(self.original.len(), |j: int| self.byte(k, self.old_place() + j))
    }

    /// What then lies where the new image belongs.
    pub open spec fn new_window(self, k: int) -> Seq<u8> {
        Seq::new(self.updated.len(), |j: int| self.byte(k, self.new_place() + j))
    }

    /// No other bytes that come to lie there have the digest of an image.
    pub open spec fn digests_tell(self) -> bool {
        &&& forall|k: int|
            digest_text(#[trigger] self.old_window(k)) == digest_text(self.original)
                ==> self.old_window(k) == self.original
        &&& forall|k: int|
            digest_text(#[trigger] self.new_window(k)) == digest_text(self.updated)
                ==> self.new_window(k) == self.updated
    }
}

proof fn lemma_pieces_in(total: int, size: int)
    requires
        total >= 0,
        size > 0,
    ensures
        pieces_in(total, size) == div_ceil(total, size),
{
    let q = total / size;
    let r = total % size;
    vstd::arithmetic::div_mod::lemma_fundamental_div_mod(total, size);
    vstd::arithmetic::div_mod::lemma_mod_bound(total, size);
    assert(size * q == q * size) by (nonlinear_arith);
    if r == 0 {
        vstd::arithmetic::div_mod::lemma_fundamental_div_mod_converse(
            total + size - 1,
            size,
            q,
            size - 1,
        );
    } else {
        assert((q + 1) * size == q * size + size) by (nonlinear_arith);
        vstd::arithmetic::div_mod::lemma_fundamental_div_mod_converse(
            total + size - 1,
            size,
            q + 1,
            r - 1,
        );
    }
}

/// The inputs and the update they ask for say the same.
proof fn lemma_inputs(inputs: Inputs)
    requires
        inputs.runs(),
    ensures
        ({
            let update = inputs.update();
            &&& runnable(update)
            &&& update.slot_a == inputs.old_place()
            &&& update.target() == inputs.new_place()
            &&& update.target() >= 0
            &&& update.stagings() == inputs.staged_chunks()
            &&& update.erasures() == inputs.erased_units()
            &&& update.installs() == inputs.written_chunks()
            &&& update.staging == behind(inputs.memory.delta_base->0, inputs.memory.flash_base)
                || update.stagings() == 0
            &&& update.after(update.operations()) is Ok
            &&& update.installed().len() == update.flash_size
            &&& update.slot_a + inputs.original.len() <= update.flash_size
            &&& update.target() + inputs.updated.len() <= update.flash_size
            &&& (update.strategy == UpdateStrategy::DualSlot <==> inputs.fits_slot_b())
            &&& (update.strategy == UpdateStrategy::DeltaOnly <==> inputs.is_staged())
        }),
{
    let update = inputs.update();
    let head = seq![0x50u8, 0x44u8, 0x43u8, 0x4cu8];
    if inputs.transfer.len() >= 4 {
        let first = inputs.transfer.take(4);
        assert(first[0] == inputs.transfer[0] && first[1] == inputs.transfer[1]);
        assert(first[2] == inputs.transfer[2] && first[3] == inputs.transfer[3]);
        if is_delta(inputs.transfer) {
            assert(first =~= head);
        }
    }
    lemma_installed(update);
    lemma_operation_counts(update);
    lemma_pieces_in(inputs.transfer.len() as int, inputs.chunk);
    lemma_pieces_in(inputs.updated.len() as int, inputs.chunk);
    lemma_pieces_in(inputs.updated.len() as int, inputs.memory.erase_size as int);
}

proof fn lemma_programmed_byte(
    bytes: Seq<u8>,
    write_alignment: int,
    offset: int,
    payload: Seq<u8>,
    x: int,
)
    requires
        write_alignment > 0,
        offset >= 0,
        program_error(bytes, write_alignment, offset, payload) is None,
        0 <= x < bytes.len(),
    ensures
        programmed(bytes, write_alignment, offset, payload)[x] == if offset <= x < offset
            + payload.len() {
            payload[x - offset]
        } else {
            bytes[x]
        },
{
    lemma_div_ceil_covers(payload.len() as int, write_alignment);
    crate::flash::law_programming_only_clears_bits(bytes, write_alignment, offset, payload);
    crate::flash::law_read_gives_back_what_was_programmed(bytes, write_alignment, offset, payload);
    let now = programmed(bytes, write_alignment, offset, payload);
    if offset <= x < offset + payload.len() {
        assert(now.subrange(offset, offset + payload.len())[x - offset] == payload[x - offset]);
    } else if offset <= x < offset + crate::flash::padded(payload, write_alignment).len() {
        assert(bytes[offset + (x - offset)] == 0xff);
    }
}

proof fn lemma_before_anything(inputs: Inputs, x: int)
    requires
        inputs.runs(),
        0 <= x < inputs.memory.flash_size,
    ensures
        inputs.update().installed()[x] == inputs.byte(0, x),
{
    let update = inputs.update();
    lemma_inputs(inputs);
    lemma_programmed_byte(
        blank(update.flash_size),
        update.write_alignment,
        update.slot_a,
        update.original,
        x,
    );
    assert(0 * inputs.chunk == 0);
    assert(0 * inputs.memory.erase_size == 0);
}

proof fn lemma_staged_byte(inputs: Inputs, k: int, x: int)
    requires
        inputs.runs(),
        0 < k <= inputs.staged_chunks(),
        0 <= x < inputs.memory.flash_size,
        inputs.update().after(k - 1) is Ok,
        inputs.update().after(k) is Ok,
        inputs.update().after(k - 1)->Ok_0.len() == inputs.memory.flash_size,
        inputs.update().after(k - 1)->Ok_0[x] == inputs.byte(k - 1, x),
    ensures
        inputs.update().after(k)->Ok_0[x] == inputs.byte(k, x),
{
    let update = inputs.update();
    lemma_inputs(inputs);
    let before = update.after(k - 1)->Ok_0;
    let j = k - 1;
    let payload = piece(update.transfer, update.chunk, j);
    let offset = update.staging + j * update.chunk;
    lemma_piece_bounds(update.transfer.len() as int, update.chunk, j);
    assert(k * inputs.chunk == j * inputs.chunk + inputs.chunk);
    assert(0 * inputs.chunk == 0);
    assert(0 * inputs.memory.erase_size == 0);
    assert(update.operation(j) == FlashOp::Stage { offset, payload });
    lemma_programmed_byte(before, update.write_alignment, offset, payload, x);
}

proof fn lemma_erased_byte(inputs: Inputs, k: int, x: int)
    requires
        inputs.runs(),
        inputs.staged_chunks() < k <= inputs.staged_chunks() + inputs.erased_units(),
        0 <= x < inputs.memory.flash_size,
        inputs.update().after(k - 1) is Ok,
        inputs.update().after(k) is Ok,
        inputs.update().after(k - 1)->Ok_0.len() == inputs.memory.flash_size,
        inputs.update().after(k - 1)->Ok_0[x] == inputs.byte(k - 1, x),
    ensures
        inputs.update().after(k)->Ok_0[x] == inputs.byte(k, x),
{
    let update = inputs.update();
    lemma_inputs(inputs);
    lemma_operation_counts(update);
    let before = update.after(k - 1)->Ok_0;
    let e = k - 1 - update.stagings();
    let offset = update.target() + e * update.erase_size;
    lemma_piece_bounds(update.updated.len() as int, update.erase_size, e);
    assert((e + 1) * update.erase_size == e * update.erase_size + update.erase_size);
    assert(0 * inputs.chunk == 0);
    assert(update.operation(k - 1) == FlashOp::Erase { offset });
    crate::flash::law_erase_sets_ones(before, update.erase_size, offset, update.erase_size);
    lemma_unchanged_stage(inputs, k);
    assert(update.after(k)->Ok_0[x] == if offset <= x < offset + update.erase_size {
        0xff
    } else {
        before[x]
    });
}

proof fn lemma_written_byte(inputs: Inputs, k: int, x: int)
    requires
        inputs.runs(),
        inputs.staged_chunks() + inputs.erased_units() < k <= inputs.staged_chunks()
            + inputs.erased_units() + inputs.written_chunks(),
        0 <= x < inputs.memory.flash_size,
        inputs.update().after(k - 1) is Ok,
        inputs.update().after(k) is Ok,
        inputs.update().after(k - 1)->Ok_0.len() == inputs.memory.flash_size,
        inputs.update().after(k - 1)->Ok_0[x] == inputs.byte(k - 1, x),
    ensures
        inputs.update().after(k)->Ok_0[x] == inputs.byte(k, x),
{
    let update = inputs.update();
    lemma_inputs(inputs);
    lemma_operation_counts(update);
    let before = update.after(k - 1)->Ok_0;
    let i = k - 1 - update.stagings() - update.erasures();
    let payload = piece(update.updated, update.chunk, i);
    let offset = update.target() + i * update.chunk;
    lemma_piece_bounds(update.updated.len() as int, update.chunk, i);
    assert((i + 1) * update.chunk == i * update.chunk + update.chunk);
    assert(0 * inputs.chunk == 0);
    assert(update.operation(k - 1) == FlashOp::Install { offset, payload });
    lemma_programmed_byte(before, update.write_alignment, offset, payload, x);
    lemma_unchanged_stage(inputs, k);
    assert(update.after(k)->Ok_0[x] == if offset <= x < offset + payload.len() {
        payload[x - offset]
    } else {
        before[x]
    });
}

/// At every boundary, each byte of flash is the one that follows from the
/// inputs alone.
pub proof fn law_flash_between_operations(inputs: Inputs, k: int, x: int)
    requires
        inputs.runs(),
        0 <= k <= inputs.staged_chunks() + inputs.erased_units() + inputs.written_chunks(),
        0 <= x < inputs.memory.flash_size,
    ensures
        inputs.update().after(k) is Ok,
        inputs.update().after(k)->Ok_0.len() == inputs.memory.flash_size,
        inputs.update().after(k)->Ok_0[x] == inputs.byte(k, x),
    decreases k,
{
    let update = inputs.update();
    lemma_inputs(inputs);
    lemma_operation_counts(update);
    lemma_success_before(update, k, update.operations());
    lemma_size_kept(update, k);
    if k == 0 {
        lemma_before_anything(inputs, x);
    } else {
        law_flash_between_operations(inputs, k - 1, x);
        if k <= inputs.staged_chunks() {
            lemma_staged_byte(inputs, k, x);
        } else if k <= inputs.staged_chunks() + inputs.erased_units() {
            lemma_erased_byte(inputs, k, x);
        } else {
            lemma_written_byte(inputs, k, x);
        }
    }
}

proof fn lemma_unchanged_stage(inputs: Inputs, k: int)
    requires
        k > inputs.staged_chunks(),
        inputs.staged_chunks() >= 0,
    ensures
        done_of(k, 0, inputs.staged_chunks()) == done_of(k - 1, 0, inputs.staged_chunks()),
{
}

proof fn lemma_windows(inputs: Inputs, k: int)
    requires
        inputs.runs(),
        0 <= k <= inputs.update().operations(),
    ensures
        inputs.update().after(k) is Ok,
        ({
            let update = inputs.update();
            let bytes = update.after(k)->Ok_0;
            &&& bytes.subrange(update.slot_a, update.slot_a + inputs.original.len())
                == inputs.old_window(k)
            &&& bytes.subrange(update.target(), update.target() + inputs.updated.len())
                == inputs.new_window(k)
        }),
{
    let update = inputs.update();
    lemma_inputs(inputs);
    law_flash_between_operations(inputs, k, 0);
    let bytes = update.after(k)->Ok_0;
    let old = bytes.subrange(update.slot_a, update.slot_a + inputs.original.len());
    let new = bytes.subrange(update.target(), update.target() + inputs.updated.len());
    assert forall|j: int| 0 <= j < old.len() implies old[j] == inputs.old_window(k)[j] by {
        law_flash_between_operations(inputs, k, update.slot_a + j);
    }
    assert forall|j: int| 0 <= j < new.len() implies new[j] == inputs.new_window(k)[j] by {
        law_flash_between_operations(inputs, k, update.target() + j);
    }
    assert(old =~= inputs.old_window(k));
    assert(new =~= inputs.new_window(k));
}

/// The new image boots exactly where every byte of it lies where it belongs,
/// the old one where that is not so and every byte of it is still in place,
/// and only recovery is left where neither image is whole.
pub proof fn law_only_whole_images_boot(inputs: Inputs, k: int)
    requires
        inputs.runs(),
        inputs.digests_tell(),
        0 <= k <= inputs.staged_chunks() + inputs.erased_units() + inputs.written_chunks(),
    ensures
        ({
            let boots = inputs.update().boots(inputs.update().after(k)->Ok_0);
            let new_whole = forall|j: int|
                0 <= j < inputs.updated.len() ==> inputs.byte(k, inputs.new_place() + j)
                    == #[trigger] inputs.updated[j];
            let old_whole = forall|j: int|
                0 <= j < inputs.original.len() ==> inputs.byte(k, inputs.old_place() + j)
                    == #[trigger] inputs.original[j];
            &&& boots == BootImage::New <==> new_whole
            &&& boots == BootImage::Old <==> !new_whole && old_whole
            &&& boots == BootImage::Recovery <==> !new_whole && !old_whole
        }),
{
    lemma_inputs(inputs);
    lemma_windows(inputs, k);
    let old = inputs.old_window(k);
    let new = inputs.new_window(k);
    if forall|j: int|
        0 <= j < inputs.updated.len() ==> inputs.byte(k, inputs.new_place() + j)
            == #[trigger] inputs.updated[j] {
        assert(new =~= inputs.updated);
    }
    if forall|j: int|
        0 <= j < inputs.original.len() ==> inputs.byte(k, inputs.old_place() + j)
            == #[trigger] inputs.original[j] {
        assert(old =~= inputs.original);
    }
    if new == inputs.updated {
        assert forall|j: int| 0 <= j < inputs.updated.len() implies inputs.byte(
            k,
            inputs.new_place() + j,
        ) == #[trigger] inputs.updated[j] by {
            assert(new[j] == inputs.byte(k, inputs.new_place() + j));
        }
    }
    if old == inputs.original {
        assert forall|j: int| 0 <= j < inputs.original.len() implies inputs.byte(
            k,
            inputs.old_place() + j,
        ) == #[trigger] inputs.original[j] by {
            assert(old[j] == inputs.byte(k, inputs.old_place() + j));
        }
    }
}

/// The boundaries at which the new image is whole, or the old one and not the
/// new one, or neither.
pub open spec fn boundaries(inputs: Inputs, last: int, image: BootImage) -> Set<int> {
    vstd::set_lib::set_int_range(0, last + 1).filter(
        |k: int|
            match image {
                BootImage::New => inputs.new_window(k) == inputs.updated,
                BootImage::Old => inputs.new_window(k) != inputs.updated && inputs.old_window(k)
                    == inputs.original,
                BootImage::Recovery => inputs.new_window(k) != inputs.updated
                    && inputs.old_window(k) != inputs.original,
            },
    )
}

proof fn lemma_points_are_boundaries(inputs: Inputs, k: int, image: BootImage)
    requires
        inputs.runs(),
        inputs.digests_tell(),
        -1 <= k <= inputs.update().operations(),
    ensures
        boundaries(inputs, k, image).finite(),
        inputs.update().points(k, image) == boundaries(inputs, k, image).len(),
    decreases k + 1,
{
    vstd::set_lib::lemma_int_range(0, k + 1);
    let now = boundaries(inputs, k, image);
    assert(now.subset_of(vstd::set_lib::set_int_range(0, k + 1)));
    vstd::set_lib::lemma_set_subset_finite(vstd::set_lib::set_int_range(0, k + 1), now);
    if k < 0 {
        assert(now =~= Set::empty());
    } else {
        let before = boundaries(inputs, k - 1, image);
        lemma_points_are_boundaries(inputs, k - 1, image);
        lemma_windows(inputs, k);
        if inputs.update().boots(inputs.update().after(k)->Ok_0) == image {
            assert(now =~= before.insert(k));
            assert(!before.contains(k));
        } else {
            assert(now =~= before);
        }
    }
}

/// The report counts the boundaries by the image that lies whole in flash: one
/// before the first operation and one after each staged chunk, each erased
/// unit and each written chunk.
pub proof fn law_reports_count_whole_images(report: UpdateReport, inputs: Inputs)
    requires
        inputs.runs(),
        inputs.digests_tell(),
        report.of(inputs.update()),
    ensures
        ({
            let last = inputs.staged_chunks() + inputs.erased_units() + inputs.written_chunks();
            &&& report.interruption_points_tested == last + 1
            &&& report.old_image_boot_points == boundaries(inputs, last, BootImage::Old).len()
            &&& report.new_image_boot_points == boundaries(inputs, last, BootImage::New).len()
            &&& report.recovery_required_points == boundaries(
                inputs,
                last,
                BootImage::Recovery,
            ).len()
            &&& report.chunks == pieces_in(inputs.transfer.len() as int, inputs.chunk)
            &&& report.strategy == UpdateStrategy::DualSlot <==> inputs.fits_slot_b()
            &&& report.strategy == UpdateStrategy::DeltaOnly <==> inputs.is_staged()
            &&& report.original_sha256@ == digest_text(inputs.original)
            &&& report.updated_sha256@ == digest_text(inputs.updated)
            &&& report.all_flash_operation_boundaries_tested
            &&& !report.cpu_reboots_executed
        }),
{
    lemma_inputs(inputs);
    lemma_operation_counts(inputs.update());
    let last = inputs.update().operations();
    lemma_points_are_boundaries(inputs, last, BootImage::Old);
    lemma_points_are_boundaries(inputs, last, BootImage::New);
    lemma_points_are_boundaries(inputs, last, BootImage::Recovery);
    lemma_pieces_in(inputs.transfer.len() as int, inputs.chunk);
}

/// Before the first operation the old image boots, unless flash already holds
/// the new one by chance; after the last one the new image does.
pub proof fn law_updates_begin_old_and_end_new(inputs: Inputs)
    requires
        inputs.runs(),
        inputs.digests_tell(),
    ensures
        ({
            let update = inputs.update();
            let last = inputs.staged_chunks() + inputs.erased_units() + inputs.written_chunks();
            &&& update.boots(update.after(last)->Ok_0) == BootImage::New
            &&& inputs.new_window(0) != inputs.updated ==> update.boots(update.after(0)->Ok_0)
                == BootImage::Old
            &&& !inputs.fits_slot_b() && (exists|j: int|
                0 <= j < inputs.updated.len() && j < inputs.original.len()
                    && #[trigger] inputs.updated[j] != inputs.original[j])
                ==> inputs.new_window(0) != inputs.updated
        }),
{
    let update = inputs.update();
    lemma_inputs(inputs);
    lemma_operation_counts(update);
    let last = update.operations();
    law_completed_update_boots_the_new_image(
        inputs.original,
        inputs.updated,
        inputs.transfer,
        inputs.memory,
        inputs.chunk,
    );
    law_only_whole_images_boot(inputs, 0);
    lemma_windows(inputs, 0);
    lemma_installed(update);
    let new = inputs.new_window(0);
    let old = inputs.old_window(0);
    assert(old == inputs.original);
    assert forall|j: int| 0 <= j < inputs.original.len() implies inputs.byte(
        0,
        inputs.old_place() + j,
    ) == #[trigger] inputs.original[j] by {
        assert(old[j] == inputs.byte(0, inputs.old_place() + j));
    }
    if new != inputs.updated {
        if forall|j: int|
            0 <= j < inputs.updated.len() ==> inputs.byte(0, inputs.new_place() + j)
                == #[trigger] inputs.updated[j] {
            assert(new =~= inputs.updated);
        }
    }
    if !inputs.fits_slot_b() && exists|j: int|
        0 <= j < inputs.updated.len() && j < inputs.original.len() && #[trigger] inputs.updated[j]
            != inputs.original[j] {
        let j = choose|j: int|
            0 <= j < inputs.updated.len() && j < inputs.original.len()
                && #[trigger] inputs.updated[j] != inputs.original[j];
        assert(new[j] == inputs.byte(0, inputs.old_place() + j));
    }
}

/// An update without a second slot has no way back from its first erased unit:
/// where both images have a bit cleared in it, only recovery is left.
pub proof fn law_one_slot_is_lost_with_its_first_unit(inputs: Inputs, x: int, y: int)
    requires
        inputs.runs(),
        inputs.digests_tell(),
        !inputs.fits_slot_b(),
        0 <= x < inputs.original.len(),
        x < inputs.memory.erase_size,
        inputs.original[x] != 0xff,
        0 <= y < inputs.updated.len(),
        y < inputs.memory.erase_size,
        inputs.updated[y] != 0xff,
    ensures
        ({
            let update = inputs.update();
            update.boots(update.after(inputs.staged_chunks() + 1)->Ok_0) == BootImage::Recovery
        }),
{
    let update = inputs.update();
    let k = inputs.staged_chunks() + 1;
    lemma_inputs(inputs);
    lemma_operation_counts(update);
    lemma_div_ceil_covers(inputs.updated.len() as int, update.erase_size);
    assert(inputs.erased_units() >= 1) by (nonlinear_arith)
        requires
            inputs.erased_units() * update.erase_size >= inputs.updated.len(),
            inputs.updated.len() > 0,
            update.erase_size > 0,
    ;
    law_only_whole_images_boot(inputs, k);
    assert(0 * inputs.chunk == 0);
    assert(1 * inputs.memory.erase_size == inputs.memory.erase_size);
    assert(inputs.byte(k, inputs.old_place() + x) == 0xff);
    assert(inputs.byte(k, inputs.new_place() + y) == 0xff);
}

/// An update that is accepted has images and a transfer that are not empty,
/// images that differ and fit slot A, a chunk size, and room in flash for
/// either image where it belongs.
pub proof fn law_accepted_updates_fit(inputs: Inputs)
    requires
        inputs.runs(),
    ensures
        0 < inputs.original.len() <= inputs.memory.slot_a_size,
        0 < inputs.updated.len() <= inputs.memory.slot_a_size,
        inputs.transfer.len() > 0,
        inputs.chunk > 0,
        inputs.original != inputs.updated,
        inputs.old_place() + inputs.original.len() <= inputs.memory.flash_size,
        inputs.new_place() + inputs.updated.len() <= inputs.memory.flash_size,
        inputs.fits_slot_b() ==> inputs.memory.slot_b_base is Some,
        inputs.is_staged() ==> inputs.memory.delta_base is Some && inputs.transfer.len()
            <= inputs.memory.delta_size->0,
{
    lemma_inputs(inputs);
}

proof fn lemma_hex_digits(byte: u8)
    ensures
        hex2(byte as nat).len() == 2,
        hex2(byte as nat)[0] == crate::text::digit_char(byte as int / 16),
        hex2(byte as nat)[1] == crate::text::digit_char(byte as int % 16),
{
    reveal_with_fuel(crate::text::base_text, 3);
    let n = byte as nat;
    assert(n < 256);
    if n < 16 {
        assert(crate::text::hex(n).len() == 1);
    } else {
        assert(n / 16 < 16);
        assert(crate::text::hex(n) =~= seq![
            crate::text::digit_char(n as int / 16),
            crate::text::digit_char(n as int % 16),
        ]);
    }
}

/// A digest is shown with two hexadecimal digits for each of its bytes, so
/// that different digests are shown differently.
pub proof fn law_digests_are_shown_in_full(a: Seq<u8>, b: Seq<u8>)
    ensures
        hex_bytes(a).len() == 2 * a.len(),
        forall|i: int|
            0 <= i < a.len() ==> crate::text::digit_value(hex_bytes(a)[2 * i]) * 16
                + crate::text::digit_value(hex_bytes(a)[2 * i + 1]) == #[trigger] a[i],
        hex_bytes(a) == hex_bytes(b) ==> a == b,
    decreases a.len() + b.len(),
{
    lemma_hex_bytes(a);
    lemma_hex_bytes(b);
    if hex_bytes(a) == hex_bytes(b) {
        assert forall|i: int| 0 <= i < a.len() implies a[i] == b[i] by {
            assert(hex_bytes(a)[2 * i] == hex_bytes(b)[2 * i]);
        }
        assert(a =~= b);
    }
}

proof fn lemma_hex_bytes(bytes: Seq<u8>)
    ensures
        hex_bytes(bytes).len() == 2 * bytes.len(),
        forall|i: int|
            0 <= i < bytes.len() ==> crate::text::digit_value(hex_bytes(bytes)[2 * i]) * 16
                + crate::text::digit_value(hex_bytes(bytes)[2 * i + 1]) == #[trigger] bytes[i],
    decreases bytes.len(),
{
    reveal_strlit("");
    if bytes.len() > 0 {
        let front = bytes.drop_last();
        lemma_hex_bytes(front);
        lemma_hex_digits(bytes.last());
        assert forall|i: int| 0 <= i < bytes.len() implies crate::text::digit_value(
            hex_bytes(bytes)[2 * i],
        ) * 16 + crate::text::digit_value(hex_bytes(bytes)[2 * i + 1]) == #[trigger] bytes[i] by {
            if i < front.len() {
                assert(front[i] == bytes[i]);
            } else {
                let n = bytes.last() as int;
                lemma_digit_value(n / 16);
                lemma_digit_value(n % 16);
            }
        }
    }
}

proof fn lemma_digit_value(d: int)
    requires
        0 <= d < 16,
    ensures
        crate::text::digit_value(crate::text::digit_char(d)) == d,
{
}

proof fn lemma_run_errors(update: Update, k: int)
    ensures
        update.after(k) matches Err(error) ==> error is Flash || error is ChunkUnaligned,
    decreases k,
{
    if k > 0 {
        lemma_run_errors(update, k - 1);
    }
}

/// What an update is refused for before any of it is simulated is wrong with
/// it.
pub proof fn law_updates_are_refused_for_what_is_wrong(inputs: Inputs)
    ensures
        match update_error(
            inputs.original,
            inputs.updated,
            inputs.transfer,
            inputs.memory,
            inputs.chunk,
        ) {
            Some(UpdateError::EmptyImage) => inputs.original.len() == 0 || inputs.updated.len()
                == 0,
            Some(UpdateError::EmptyTransfer) => inputs.transfer.len() == 0,
            Some(UpdateError::ChunkSize) => inputs.chunk == 0,
            Some(UpdateError::SameImage) => digest_text(inputs.original) == digest_text(
                inputs.updated,
            ),
            Some(UpdateError::OriginalExceedsSlot) => inputs.original.len()
                > inputs.memory.slot_a_size,
            Some(UpdateError::UpdatedExceedsSlot) => inputs.updated.len()
                > inputs.memory.slot_a_size,
            _ => true,
        },
        inputs.original.len() == 0 || inputs.updated.len() == 0 ==> update_error(
            inputs.original,
            inputs.updated,
            inputs.transfer,
            inputs.memory,
            inputs.chunk,
        ) == Some(UpdateError::EmptyImage),
{
    let all = inputs.update();
    if update_error(
        inputs.original,
        inputs.updated,
        inputs.transfer,
        inputs.memory,
        inputs.chunk,
    ) is Some {
        lemma_run_errors(all, all.operations());
    }
}

} // verus!
