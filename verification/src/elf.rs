//! 32-bit little-endian ELF files: where their segments are loaded, the
//! vector table they start from and the flash image they stand for.

use vstd::prelude::*;

use crate::flash::{blank, overwritten};
use crate::layout::{MemoryLayout, MemoryRegion};
use crate::text::{dec, hex8, Text};

verus! {

pub const PT_LOAD: u32 = 1;

pub const ELF32_HEADER_SIZE: usize = 52;

pub const ELF32_PROGRAM_HEADER_SIZE: usize = 32;

// ---------------------------------------------------------------------------
// Fields
// ---------------------------------------------------------------------------

#[derive(Clone, Copy, Debug, PartialEq, Eq, Structural)]
pub enum FieldError {
    Overflow,
    Truncated,
}

pub open spec fn le16(bytes: Seq<u8>, at: int) -> int {
    bytes[at] + 0x100 * bytes[at + 1]
}

pub open spec fn le32(bytes: Seq<u8>, at: int) -> int {
    le16(bytes, at) + 0x1_0000 * le16(bytes, at + 2)
}

/// What is wrong with a field of `size` bytes at `offset`.
pub open spec fn field_error(bytes: Seq<u8>, offset: int, size: int) -> Option<FieldError> {
    if offset + size > usize::MAX {
        Some(FieldError::Overflow)
    } else if offset + size > bytes.len() {
        Some(FieldError::Truncated)
    } else {
        None
    }
}

pub fn u16_at(bytes: &[u8], offset: usize) -> (res: Result<u16, FieldError>)
    ensures
        match field_error(bytes@, offset as int, 2) {
            Some(error) => res == Err::<u16, FieldError>(error),
            None => res matches Ok(value) && value == le16(bytes@, offset as int),
        },
{
    let end: usize = match offset.checked_add(2) {
        Some(end) => end,
        None => {
            return Err(FieldError::Overflow);
        },
    };
    if end > bytes.len() {
        return Err(FieldError::Truncated);
    }
    Ok(read_u16(bytes, offset))
}

pub fn u32_at(bytes: &[u8], offset: usize) -> (res: Result<u32, FieldError>)
    ensures
        match field_error(bytes@, offset as int, 4) {
            Some(error) => res == Err::<u32, FieldError>(error),
            None => res matches Ok(value) && value == le32(bytes@, offset as int),
        },
{
    let end: usize = match offset.checked_add(4) {
        Some(end) => end,
        None => {
            return Err(FieldError::Overflow);
        },
    };
    if end > bytes.len() {
        return Err(FieldError::Truncated);
    }
    Ok(read_u32(bytes, offset))
}

fn read_u16(bytes: &[u8], offset: usize) -> (res: u16)
    requires
        offset + 2 <= bytes@.len(),
    ensures
        res == le16(bytes@, offset as int),
{
    bytes[offset] as u16 + 0x100 * (bytes[offset + 1] as u16)
}

fn read_u32(bytes: &[u8], offset: usize) -> (res: u32)
    requires
        offset + 4 <= bytes@.len(),
    ensures
        res == le32(bytes@, offset as int),
{
    let length: usize = bytes.len();
    let low: u32 = read_u16(bytes, offset) as u32;
    let high: u32 = read_u16(bytes, offset + 2) as u32;
    low + 0x1_0000 * high
}

// ---------------------------------------------------------------------------
// Ranges
// ---------------------------------------------------------------------------

/// The range of `size` bytes at `base` lies in a region. An empty range may
/// also stand at the region's end.
pub open spec fn range_fits(base: int, size: int, region_base: int, region_size: int) -> bool {
    &&& region_base <= base
    &&& base + size <= region_base + region_size
    &&& size > 0 ==> region_base + region_size <= u64::MAX
}

pub open spec fn in_flash(base: int, size: int, memory: MemoryLayout) -> bool {
    range_fits(base, size, memory.flash_base as int, memory.flash_size as int)
}

pub open spec fn in_ram(base: int, size: int, memory: MemoryLayout) -> bool {
    exists|i: int|
        0 <= i < memory.ram_regions@.len() && #[trigger] in_region(
            base,
            size,
            memory.ram_regions@[i],
        )
}

pub open spec fn in_region(base: int, size: int, region: MemoryRegion) -> bool {
    range_fits(base, size, region.base as int, region.size as int)
}

pub open spec fn in_physical(base: int, size: int, memory: MemoryLayout) -> bool {
    in_flash(base, size, memory) || in_ram(base, size, memory)
}

pub fn fits(base: u64, size: u64, region_base: u64, region_size: u64) -> (res: bool)
    ensures
        res == range_fits(base as int, size as int, region_base as int, region_size as int),
{
    if size == 0 {
        return base >= region_base && base <= region_base.saturating_add(region_size);
    }
    match (base.checked_add(size), region_base.checked_add(region_size)) {
        (Some(end), Some(region_end)) => base >= region_base && end <= region_end,
        _ => false,
    }
}

pub fn fits_flash(base: u64, size: u64, memory: &MemoryLayout) -> (res: bool)
    ensures
        res == in_flash(base as int, size as int, *memory),
{
    fits(base, size, memory.flash_base, memory.flash_size)
}

pub fn fits_physical(base: u64, size: u64, memory: &MemoryLayout) -> (res: bool)
    ensures
        res == in_physical(base as int, size as int, *memory),
{
    if fits_flash(base, size, memory) {
        return true;
    }
    let mut i: usize = 0;
    while i < memory.ram_regions.len()
        invariant
            i <= memory.ram_regions@.len(),
            forall|k: int|
                0 <= k < i ==> !#[trigger] in_region(
                    base as int,
                    size as int,
                    memory.ram_regions@[k],
                ),
        decreases memory.ram_regions@.len() - i,
    {
        if fits(base, size, memory.ram_regions[i].base, memory.ram_regions[i].size) {
            assert(in_region(base as int, size as int, memory.ram_regions@[i as int]));
            return true;
        }
        i = i + 1;
    }
    false
}

// ---------------------------------------------------------------------------
// Headers
// ---------------------------------------------------------------------------

#[derive(Clone, Copy, Debug, PartialEq, Eq, Structural)]
pub enum ElfError {
    HeaderTruncated,
    Magic,
    Class,
    Endianness,
    Identification,
    EntryOutside(u32),
    ProgramHeaderSize,
    NoProgramHeaders,
    ProgramHeaderOverflow,
    ProgramHeaderTruncated,
    /// Each of these two names a program header.
    FileSize(usize),
    DataTruncated(usize),
    VirtualRange { index: usize, base: u64, end: u64 },
    LoadRange { index: usize, base: u64, end: u64 },
    SegmentOverflow,
    VectorTableOverflow,
    NoVectorTable(u32),
    OffsetLimit,
    ImageOverflow,
    NoFlashSegments,
}

impl ElfError {
    pub open spec fn text(self, label: Seq<char>) -> Seq<char> {
        match self {
            ElfError::HeaderTruncated => ""@ + label + " ELF header is truncated"@,
            ElfError::Magic => ""@ + label + " is not an ELF file"@,
            ElfError::Class => ""@ + label + " must be a 32-bit ELF"@,
            ElfError::Endianness => ""@ + label + " must be a little-endian ELF"@,
            ElfError::Identification => ""@ + label + " must be a 32-bit little-endian ELF"@,
            ElfError::EntryOutside(entry) => ""@ + label + " entry point 0x"@ + hex8(entry as nat)
                + " is outside physical flash"@,
            ElfError::ProgramHeaderSize => ""@ + label + " ELF program header is too small"@,
            ElfError::NoProgramHeaders => ""@ + label + " ELF has no program headers"@,
            ElfError::ProgramHeaderOverflow => "ELF program header overflow"@,
            ElfError::ProgramHeaderTruncated => ""@ + label + " ELF program header is truncated"@,
            ElfError::FileSize(index) => ""@ + label + " ELF LOAD "@ + dec(index as nat)
                + " has filesz larger than memsz"@,
            ElfError::DataTruncated(index) => ""@ + label + " ELF LOAD "@ + dec(index as nat)
                + " data is truncated"@,
            ElfError::VirtualRange { index, base, end } => ""@ + label + " ELF LOAD "@ + dec(
                index as nat,
            ) + " virtual range 0x"@ + hex8(base as nat) + "..0x"@ + hex8(end as nat)
                + " exceeds every physical flash/RAM region"@,
            ElfError::LoadRange { index, base, end } => ""@ + label + " ELF LOAD "@ + dec(
                index as nat,
            ) + " load range 0x"@ + hex8(base as nat) + "..0x"@ + hex8(end as nat)
                + " exceeds every physical flash/RAM region"@,
            ElfError::SegmentOverflow => "ELF segment overflow"@,
            ElfError::VectorTableOverflow => "vector table address overflow"@,
            ElfError::NoVectorTable(entry) => ""@ + label
                + " ELF has no vector table whose reset handler matches entry 0x"@ + hex8(
                entry as nat,
            ),
            ElfError::OffsetLimit => "ELF flash image offset exceeds host limits"@,
            ElfError::ImageOverflow => "ELF flash image overflow"@,
            ElfError::NoFlashSegments => ""@ + label
                + " ELF has no initialized flash LOAD segments"@,
        }
    }

    /// `label` says which file this is about.
    pub fn message(self, label: &str) -> (res: String)
        ensures
            res@ == self.text(label@),
    {
        let start = Text::new("").str(label);
        match self {
            ElfError::HeaderTruncated => start.str(" ELF header is truncated").done(),
            ElfError::Magic => start.str(" is not an ELF file").done(),
            ElfError::Class => start.str(" must be a 32-bit ELF").done(),
            ElfError::Endianness => start.str(" must be a little-endian ELF").done(),
            ElfError::Identification => start.str(" must be a 32-bit little-endian ELF").done(),
            ElfError::EntryOutside(entry) => start.str(" entry point 0x").hex8(entry as u64).str(
                " is outside physical flash",
            ).done(),
            ElfError::ProgramHeaderSize => start.str(" ELF program header is too small").done(),
            ElfError::NoProgramHeaders => start.str(" ELF has no program headers").done(),
            ElfError::ProgramHeaderOverflow => Text::new("ELF program header overflow").done(),
            ElfError::ProgramHeaderTruncated => start.str(
                " ELF program header is truncated",
            ).done(),
            ElfError::FileSize(index) => start.str(" ELF LOAD ").dec(index as u64).str(
                " has filesz larger than memsz",
            ).done(),
            ElfError::DataTruncated(index) => start.str(" ELF LOAD ").dec(index as u64).str(
                " data is truncated",
            ).done(),
            ElfError::VirtualRange { index, base, end } => start.str(" ELF LOAD ").dec(
                index as u64,
            ).str(" virtual range 0x").hex8(base).str("..0x").hex8(end).str(
                " exceeds every physical flash/RAM region",
            ).done(),
            ElfError::LoadRange { index, base, end } => start.str(" ELF LOAD ").dec(
                index as u64,
            ).str(" load range 0x").hex8(base).str("..0x").hex8(end).str(
                " exceeds every physical flash/RAM region",
            ).done(),
            ElfError::SegmentOverflow => Text::new("ELF segment overflow").done(),
            ElfError::VectorTableOverflow => Text::new("vector table address overflow").done(),
            ElfError::NoVectorTable(entry) => start.str(
                " ELF has no vector table whose reset handler matches entry 0x",
            ).hex8(entry as u64).done(),
            ElfError::OffsetLimit => Text::new(
                "ELF flash image offset exceeds host limits",
            ).done(),
            ElfError::ImageOverflow => Text::new("ELF flash image overflow").done(),
            ElfError::NoFlashSegments => start.str(
                " ELF has no initialized flash LOAD segments",
            ).done(),
        }
    }
}

pub open spec fn has_magic(bytes: Seq<u8>) -> bool {
    bytes[0] == 0x7f && bytes[1] == 0x45 && bytes[2] == 0x4c && bytes[3] == 0x46
}

pub open spec fn entry_of(bytes: Seq<u8>) -> int {
    le32(bytes, 24)
}

/// Offset of the program headers, the size of one and how many there are.
pub open spec fn headers_at(bytes: Seq<u8>) -> int {
    le32(bytes, 28)
}

pub open spec fn header_size(bytes: Seq<u8>) -> int {
    le16(bytes, 42)
}

pub open spec fn header_count(bytes: Seq<u8>) -> int {
    le16(bytes, 44)
}

pub open spec fn header_at(bytes: Seq<u8>, index: int) -> int {
    headers_at(bytes) + index * header_size(bytes)
}

/// A file whose program headers are too small, or that has none.
pub open spec fn header_table_error(bytes: Seq<u8>) -> Option<ElfError> {
    if header_size(bytes) < ELF32_PROGRAM_HEADER_SIZE {
        Some(ElfError::ProgramHeaderSize)
    } else if header_count(bytes) == 0 {
        Some(ElfError::NoProgramHeaders)
    } else {
        None
    }
}

pub open spec fn header_error(header: int, length: int) -> Option<ElfError> {
    if header > usize::MAX {
        Some(ElfError::ProgramHeaderOverflow)
    } else if header + ELF32_PROGRAM_HEADER_SIZE > length {
        Some(ElfError::ProgramHeaderTruncated)
    } else {
        None
    }
}

pub fn program_header_offset(
    phoff: usize,
    phentsize: usize,
    index: usize,
    file_len: usize,
) -> (res: Result<usize, ElfError>)
    ensures
        match header_error(phoff + index * phentsize, file_len as int) {
            Some(error) => res == Err::<usize, ElfError>(error),
            None => res matches Ok(header) && header == phoff + index * phentsize,
        },
{
    assert(index * phentsize >= 0) by (nonlinear_arith)
        requires
            index >= 0,
            phentsize >= 0,
    ;
    let skipped: usize = match index.checked_mul(phentsize) {
        Some(skipped) => skipped,
        None => {
            return Err(ElfError::ProgramHeaderOverflow);
        },
    };
    let header: usize = match phoff.checked_add(skipped) {
        Some(header) => header,
        None => {
            return Err(ElfError::ProgramHeaderOverflow);
        },
    };
    let whole = match header.checked_add(ELF32_PROGRAM_HEADER_SIZE) {
        Some(end) => end <= file_len,
        None => false,
    };
    if !whole {
        return Err(ElfError::ProgramHeaderTruncated);
    }
    Ok(header)
}

/// The program headers as one file declares them.
#[derive(Clone, Copy)]
struct Headers {
    offset: usize,
    size: usize,
    count: usize,
}

impl Headers {
    spec fn of(self, bytes: Seq<u8>) -> bool {
        &&& bytes.len() >= ELF32_HEADER_SIZE
        &&& self.offset == headers_at(bytes)
        &&& self.size == header_size(bytes)
        &&& self.count == header_count(bytes)
        &&& bytes.len() <= usize::MAX
    }

    /// Reads the offset of one header.
    fn at(&self, bytes: &[u8], index: usize) -> (res: Result<usize, ElfError>)
        requires
            self.of(bytes@),
        ensures
            match header_error(header_at(bytes@, index as int), bytes@.len() as int) {
                Some(error) => res == Err::<usize, ElfError>(error),
                None => res matches Ok(header) && header == header_at(bytes@, index as int)
                    && header + ELF32_PROGRAM_HEADER_SIZE <= bytes@.len(),
            },
    {
        program_header_offset(self.offset, self.size, index, bytes.len())
    }
}

fn read_headers(bytes: &[u8]) -> (res: Result<Headers, ElfError>)
    requires
        bytes@.len() >= ELF32_HEADER_SIZE,
    ensures
        match header_table_error(bytes@) {
            Some(error) => res == Err::<Headers, ElfError>(error),
            None => res matches Ok(headers) && headers.of(bytes@),
        },
{
    let length: usize = bytes.len();
    let headers = Headers {
        offset: read_u32(bytes, 28) as usize,
        size: read_u16(bytes, 42) as usize,
        count: read_u16(bytes, 44) as usize,
    };
    if headers.size < ELF32_PROGRAM_HEADER_SIZE {
        return Err(ElfError::ProgramHeaderSize);
    }
    if headers.count == 0 {
        return Err(ElfError::NoProgramHeaders);
    }
    Ok(headers)
}

// ---------------------------------------------------------------------------
// Segments
// ---------------------------------------------------------------------------

pub open spec fn is_load(bytes: Seq<u8>, index: int) -> bool {
    le32(bytes, header_at(bytes, index)) == PT_LOAD
}

pub open spec fn file_offset(bytes: Seq<u8>, index: int) -> int {
    le32(bytes, header_at(bytes, index) + 4)
}

pub open spec fn virtual_address(bytes: Seq<u8>, index: int) -> int {
    le32(bytes, header_at(bytes, index) + 8)
}

pub open spec fn physical_address(bytes: Seq<u8>, index: int) -> int {
    le32(bytes, header_at(bytes, index) + 12)
}

pub open spec fn file_size(bytes: Seq<u8>, index: int) -> int {
    le32(bytes, header_at(bytes, index) + 16)
}

pub open spec fn memory_size(bytes: Seq<u8>, index: int) -> int {
    le32(bytes, header_at(bytes, index) + 20)
}

/// What is wrong with one program header and the segment it declares.
pub open spec fn segment_error(bytes: Seq<u8>, memory: MemoryLayout, index: int) -> Option<
    ElfError,
> {
    let base = virtual_address(bytes, index);
    let load = physical_address(bytes, index);
    let size = file_size(bytes, index);
    let extent = memory_size(bytes, index);
    if header_error(header_at(bytes, index), bytes.len() as int) is Some {
        header_error(header_at(bytes, index), bytes.len() as int)
    } else if !is_load(bytes, index) {
        None
    } else if size > extent {
        Some(ElfError::FileSize(index as usize))
    } else if file_offset(bytes, index) + size > bytes.len() {
        Some(ElfError::DataTruncated(index as usize))
    } else if !in_physical(base, extent, memory) {
        Some(
            ElfError::VirtualRange {
                index: index as usize,
                base: base as u64,
                end: (base + extent) as u64,
            },
        )
    } else if size > 0 && !in_physical(load, size, memory) {
        Some(
            ElfError::LoadRange {
                index: index as usize,
                base: load as u64,
                end: (load + size) as u64,
            },
        )
    } else {
        None
    }
}

pub open spec fn segments_error(bytes: Seq<u8>, memory: MemoryLayout, index: int) -> Option<
    ElfError,
>
    decreases header_count(bytes) - index,
{
    if index < 0 || index >= header_count(bytes) {
        None
    } else {
        match segment_error(bytes, memory, index) {
            Some(error) => Some(error),
            None => segments_error(bytes, memory, index + 1),
        }
    }
}

/// The first reason found why `bytes` is no ELF file for this memory.
pub open spec fn elf_error(bytes: Seq<u8>, memory: MemoryLayout) -> Option<ElfError> {
    if bytes.len() < ELF32_HEADER_SIZE {
        Some(ElfError::HeaderTruncated)
    } else if !has_magic(bytes) {
        Some(ElfError::Magic)
    } else if bytes[4] != 1 {
        Some(ElfError::Class)
    } else if bytes[5] != 1 {
        Some(ElfError::Endianness)
    } else if !in_flash(entry_of(bytes), 1, memory) {
        Some(ElfError::EntryOutside(entry_of(bytes) as u32))
    } else if header_table_error(bytes) is Some {
        header_table_error(bytes)
    } else {
        segments_error(bytes, memory, 0)
    }
}

fn identified(bytes: &[u8]) -> (res: bool)
    requires
        bytes@.len() >= ELF32_HEADER_SIZE,
    ensures
        res == has_magic(bytes@),
{
    bytes[0] == 0x7f && bytes[1] == 0x45 && bytes[2] == 0x4c && bytes[3] == 0x46
}

fn check_segment(
    bytes: &[u8],
    memory: &MemoryLayout,
    headers: &Headers,
    index: usize,
) -> (res: Result<(), ElfError>)
    requires
        headers.of(bytes@),
    ensures
        match segment_error(bytes@, *memory, index as int) {
            Some(error) => res == Err::<(), ElfError>(error),
            None => res is Ok,
        },
{
    let header: usize = match headers.at(bytes, index) {
        Ok(header) => header,
        Err(error) => {
            return Err(error);
        },
    };
    if read_u32(bytes, header) != PT_LOAD {
        return Ok(());
    }
    let offset: u64 = read_u32(bytes, header + 4) as u64;
    let base: u64 = read_u32(bytes, header + 8) as u64;
    let load: u64 = read_u32(bytes, header + 12) as u64;
    let size: u64 = read_u32(bytes, header + 16) as u64;
    let extent: u64 = read_u32(bytes, header + 20) as u64;
    if size > extent {
        return Err(ElfError::FileSize(index));
    }
    if offset + size > bytes.len() as u64 {
        return Err(ElfError::DataTruncated(index));
    }
    if !fits_physical(base, extent, memory) {
        return Err(ElfError::VirtualRange { index, base, end: base + extent });
    }
    if size > 0 && !fits_physical(load, size, memory) {
        return Err(ElfError::LoadRange { index, base: load, end: load + size });
    }
    Ok(())
}

pub fn validate_elf(bytes: &[u8], memory: &MemoryLayout) -> (res: Result<(), ElfError>)
    ensures
        match elf_error(bytes@, *memory) {
            Some(error) => res == Err::<(), ElfError>(error),
            None => res is Ok,
        },
{
    if bytes.len() < ELF32_HEADER_SIZE {
        return Err(ElfError::HeaderTruncated);
    }
    if !identified(bytes) {
        return Err(ElfError::Magic);
    }
    if bytes[4] != 1 {
        return Err(ElfError::Class);
    }
    if bytes[5] != 1 {
        return Err(ElfError::Endianness);
    }
    let entry: u32 = read_u32(bytes, 24);
    if !fits_flash(entry as u64, 1, memory) {
        return Err(ElfError::EntryOutside(entry));
    }
    let headers = match read_headers(bytes) {
        Ok(headers) => headers,
        Err(error) => {
            return Err(error);
        },
    };
    let mut index: usize = 0;
    while index < headers.count
        invariant
            headers.of(bytes@),
            index <= headers.count,
            elf_error(bytes@, *memory) == segments_error(bytes@, *memory, index as int),
        decreases headers.count - index,
    {
        match check_segment(bytes, memory, &headers, index) {
            Ok(()) => {},
            Err(error) => {
                return Err(error);
            },
        }
        index = index + 1;
    }
    Ok(())
}

// ---------------------------------------------------------------------------
// The vector table
// ---------------------------------------------------------------------------

/// A stack may start anywhere in a RAM bank, or right behind it.
pub open spec fn stack_top(address: int, memory: MemoryLayout) -> bool {
    exists|i: int|
        0 <= i < memory.ram_regions@.len() && #[trigger] stack_in(address, memory.ram_regions@[i])
}

pub open spec fn stack_in(address: int, region: MemoryRegion) -> bool {
    region.base <= address <= region.base + region.size
}

/// At `at` stand an initial stack pointer and the address of the entry point.
pub open spec fn vector_at(bytes: Seq<u8>, memory: MemoryLayout, at: int) -> bool {
    stack_top(le32(bytes, at), memory) && le32(bytes, at + 4) == entry_of(bytes)
}

/// The first vector table at `at` or a multiple of four bytes later that ends
/// no later than `end`.
pub open spec fn vector_from(bytes: Seq<u8>, memory: MemoryLayout, at: int, end: int) -> Option<int>
    decreases end - at,
{
    if at + 8 > end {
        None
    } else if vector_at(bytes, memory, at) {
        Some(at)
    } else {
        vector_from(bytes, memory, at + 4, end)
    }
}

/// Initial stack pointer, reset handler and address of the first vector table
/// in the segments from `index` on.
pub open spec fn vector_in_segments(bytes: Seq<u8>, memory: MemoryLayout, index: int) -> Result<
    (u32, u32, u32),
    ElfError,
>
    decreases header_count(bytes) - index,
{
    let start = file_offset(bytes, index);
    let end = start + file_size(bytes, index);
    if index < 0 || index >= header_count(bytes) {
        Err(ElfError::NoVectorTable(entry_of(bytes) as u32))
    } else if header_error(header_at(bytes, index), bytes.len() as int) is Some {
        Err(header_error(header_at(bytes, index), bytes.len() as int)->0)
    } else if !is_load(bytes, index) {
        vector_in_segments(bytes, memory, index + 1)
    } else if end > usize::MAX {
        Err(ElfError::SegmentOverflow)
    } else if end > bytes.len() {
        Err(ElfError::DataTruncated(index as usize))
    } else {
        match vector_from(bytes, memory, start, end) {
            None => vector_in_segments(bytes, memory, index + 1),
            Some(at) => if physical_address(bytes, index) + (at - start) > u32::MAX {
                Err(ElfError::VectorTableOverflow)
            } else {
                Ok(
                    (
                        le32(bytes, at) as u32,
                        le32(bytes, at + 4) as u32,
                        (physical_address(bytes, index) + (at - start)) as u32,
                    ),
                )
            },
        }
    }
}

pub open spec fn vector_of(bytes: Seq<u8>, memory: MemoryLayout) -> Result<
    (u32, u32, u32),
    ElfError,
> {
    if bytes.len() < ELF32_HEADER_SIZE {
        Err(ElfError::HeaderTruncated)
    } else if !(has_magic(bytes) && bytes[4] == 1 && bytes[5] == 1) {
        Err(ElfError::Identification)
    } else if header_table_error(bytes) is Some {
        Err(header_table_error(bytes)->0)
    } else {
        vector_in_segments(bytes, memory, 0)
    }
}

pub fn is_stack_top(address: u32, memory: &MemoryLayout) -> (res: bool)
    ensures
        res == stack_top(address as int, *memory),
{
    let mut i: usize = 0;
    while i < memory.ram_regions.len()
        invariant
            i <= memory.ram_regions@.len(),
            forall|k: int|
                0 <= k < i ==> !#[trigger] stack_in(address as int, memory.ram_regions@[k]),
        decreases memory.ram_regions@.len() - i,
    {
        let region = &memory.ram_regions[i];
        if address as u64 >= region.base && address as u64 <= region.base.saturating_add(
            region.size,
        ) {
            assert(stack_in(address as int, memory.ram_regions@[i as int]));
            return true;
        }
        i = i + 1;
    }
    false
}

fn find_vector(
    bytes: &[u8],
    memory: &MemoryLayout,
    entry: u32,
    start: usize,
    end: usize,
) -> (res: Option<usize>)
    requires
        start <= end <= bytes@.len(),
        entry == entry_of(bytes@),
    ensures
        match vector_from(bytes@, *memory, start as int, end as int) {
            Some(at) => res matches Some(found) && found == at && start <= found && found + 8
                <= end,
            None => res is None,
        },
{
    let mut at: usize = start;
    while end - at >= 8
        invariant
            start <= at <= end <= bytes@.len(),
            entry == entry_of(bytes@),
            vector_from(bytes@, *memory, start as int, end as int) == vector_from(
                bytes@,
                *memory,
                at as int,
                end as int,
            ),
        decreases end - at,
    {
        if is_stack_top(read_u32(bytes, at), memory) && read_u32(bytes, at + 4) == entry {
            return Some(at);
        }
        at = at + 4;
    }
    None
}

/// Initial stack pointer, reset handler and address of the vector table that
/// the file starts from.
pub fn reset_vector(bytes: &[u8], memory: &MemoryLayout) -> (res: Result<
    (u32, u32, u32),
    ElfError,
>)
    ensures
        res == vector_of(bytes@, *memory),
{
    let length: usize = bytes.len();
    if length < ELF32_HEADER_SIZE {
        return Err(ElfError::HeaderTruncated);
    }
    if !(identified(bytes) && bytes[4] == 1 && bytes[5] == 1) {
        return Err(ElfError::Identification);
    }
    let entry: u32 = read_u32(bytes, 24);
    let headers = match read_headers(bytes) {
        Ok(headers) => headers,
        Err(error) => {
            return Err(error);
        },
    };
    let mut index: usize = 0;
    while index < headers.count
        invariant
            headers.of(bytes@),
            length == bytes@.len(),
            entry == entry_of(bytes@),
            index <= headers.count,
            vector_of(bytes@, *memory) == vector_in_segments(bytes@, *memory, index as int),
        decreases headers.count - index,
    {
        let header: usize = match headers.at(bytes, index) {
            Ok(header) => header,
            Err(error) => {
                return Err(error);
            },
        };
        if read_u32(bytes, header) == PT_LOAD {
            let start: usize = read_u32(bytes, header + 4) as usize;
            let load: u32 = read_u32(bytes, header + 12);
            let size: usize = read_u32(bytes, header + 16) as usize;
            let end: usize = match start.checked_add(size) {
                Some(end) => end,
                None => {
                    return Err(ElfError::SegmentOverflow);
                },
            };
            if end > length {
                return Err(ElfError::DataTruncated(index));
            }
            match find_vector(bytes, memory, entry, start, end) {
                Some(at) => {
                    let stack: u32 = read_u32(bytes, at);
                    let reset: u32 = read_u32(bytes, at + 4);
                    return match load.checked_add((at - start) as u32) {
                        Some(table) => Ok((stack, reset, table)),
                        None => Err(ElfError::VectorTableOverflow),
                    };
                },
                None => {},
            }
        }
        index = index + 1;
    }
    Err(ElfError::NoVectorTable(entry))
}

// ---------------------------------------------------------------------------
// The flash image
// ---------------------------------------------------------------------------

/// The segment has bytes of its own for flash.
pub open spec fn is_placed(bytes: Seq<u8>, memory: MemoryLayout, index: int) -> bool {
    &&& is_load(bytes, index)
    &&& file_size(bytes, index) > 0
    &&& in_flash(physical_address(bytes, index), file_size(bytes, index), memory)
}

/// Where in the image the segment goes.
pub open spec fn place_of(bytes: Seq<u8>, memory: MemoryLayout, index: int) -> int {
    physical_address(bytes, index) - memory.flash_base
}

pub open spec fn segment_data(bytes: Seq<u8>, index: int) -> Seq<u8> {
    bytes.subrange(
        file_offset(bytes, index),
        file_offset(bytes, index) + file_size(bytes, index),
    )
}

pub open spec fn placement_error(bytes: Seq<u8>, memory: MemoryLayout, index: int) -> Option<
    ElfError,
> {
    let end = file_offset(bytes, index) + file_size(bytes, index);
    if header_error(header_at(bytes, index), bytes.len() as int) is Some {
        header_error(header_at(bytes, index), bytes.len() as int)
    } else if !is_placed(bytes, memory, index) {
        None
    } else if end > usize::MAX {
        Some(ElfError::SegmentOverflow)
    } else if end > bytes.len() {
        Some(ElfError::DataTruncated(index as usize))
    } else if place_of(bytes, memory, index) > usize::MAX {
        Some(ElfError::OffsetLimit)
    } else if place_of(bytes, memory, index) + file_size(bytes, index) > usize::MAX {
        Some(ElfError::ImageOverflow)
    } else {
        None
    }
}

pub open spec fn placements_error(bytes: Seq<u8>, memory: MemoryLayout, index: int) -> Option<
    ElfError,
>
    decreases header_count(bytes) - index,
{
    if index < 0 || index >= header_count(bytes) {
        None
    } else {
        match placement_error(bytes, memory, index) {
            Some(error) => Some(error),
            None => placements_error(bytes, memory, index + 1),
        }
    }
}

/// Where the last byte of the first `count` segments in flash ends.
pub open spec fn image_length(bytes: Seq<u8>, memory: MemoryLayout, count: int) -> int
    decreases count,
{
    if count <= 0 {
        0
    } else {
        let before = image_length(bytes, memory, count - 1);
        let end = place_of(bytes, memory, count - 1) + file_size(bytes, count - 1);
        if is_placed(bytes, memory, count - 1) && end > before {
            end
        } else {
            before
        }
    }
}

/// Erased flash with the first `count` segments written to it in turn.
pub open spec fn image_after(bytes: Seq<u8>, memory: MemoryLayout, count: int) -> Seq<u8>
    decreases count,
{
    if count <= 0 {
        blank(image_length(bytes, memory, header_count(bytes)))
    } else {
        let before = image_after(bytes, memory, count - 1);
        if is_placed(bytes, memory, count - 1) {
            overwritten(
                before,
                place_of(bytes, memory, count - 1),
                segment_data(bytes, count - 1),
            )
        } else {
            before
        }
    }
}

pub open spec fn image_error(bytes: Seq<u8>, memory: MemoryLayout) -> Option<ElfError> {
    if bytes.len() < ELF32_HEADER_SIZE || !(has_magic(bytes) && bytes[4] == 1 && bytes[5] == 1) {
        Some(ElfError::Identification)
    } else if header_table_error(bytes) is Some {
        header_table_error(bytes)
    } else if placements_error(bytes, memory, 0) is Some {
        placements_error(bytes, memory, 0)
    } else if image_length(bytes, memory, header_count(bytes)) == 0 {
        Some(ElfError::NoFlashSegments)
    } else {
        None
    }
}

struct Placement {
    place: usize,
    start: usize,
    size: usize,
}

impl Placement {
    spec fn of(self, bytes: Seq<u8>, memory: MemoryLayout, index: int) -> bool {
        &&& is_placed(bytes, memory, index)
        &&& self.place == place_of(bytes, memory, index)
        &&& self.start == file_offset(bytes, index)
        &&& self.size == file_size(bytes, index)
        &&& self.size > 0
        &&& self.start + self.size <= bytes.len()
        &&& self.place + self.size <= usize::MAX
    }
}

fn placement(
    bytes: &[u8],
    memory: &MemoryLayout,
    headers: &Headers,
    index: usize,
) -> (res: Result<Option<Placement>, ElfError>)
    requires
        headers.of(bytes@),
    ensures
        match placement_error(bytes@, *memory, index as int) {
            Some(error) => res == Err::<Option<Placement>, ElfError>(error),
            None => match res {
                Ok(Some(placement)) => placement.of(bytes@, *memory, index as int),
                Ok(None) => !is_placed(bytes@, *memory, index as int),
                Err(_) => false,
            },
        },
{
    let header: usize = match headers.at(bytes, index) {
        Ok(header) => header,
        Err(error) => {
            return Err(error);
        },
    };
    if read_u32(bytes, header) != PT_LOAD {
        return Ok(None);
    }
    let start: usize = read_u32(bytes, header + 4) as usize;
    let load: u64 = read_u32(bytes, header + 12) as u64;
    let size: usize = read_u32(bytes, header + 16) as usize;
    if size == 0 || !fits_flash(load, size as u64, memory) {
        return Ok(None);
    }
    let end: usize = match start.checked_add(size) {
        Some(end) => end,
        None => {
            return Err(ElfError::SegmentOverflow);
        },
    };
    if end > bytes.len() {
        return Err(ElfError::DataTruncated(index));
    }
    let place: u64 = load - memory.flash_base;
    if place > usize::MAX as u64 {
        return Err(ElfError::OffsetLimit);
    }
    match (place as usize).checked_add(size) {
        Some(_) => Ok(Some(Placement { place: place as usize, start, size })),
        None => Err(ElfError::ImageOverflow),
    }
}

proof fn lemma_image_length(bytes: Seq<u8>, memory: MemoryLayout, count: int)
    requires
        0 <= count <= header_count(bytes),
    ensures
        image_length(bytes, memory, count) >= 0,
        image_length(bytes, memory, count) <= image_length(bytes, memory, header_count(bytes)),
        forall|i: int|
            0 <= i < count && #[trigger] is_placed(bytes, memory, i) ==> 0 <= place_of(
                bytes,
                memory,
                i,
            ) && place_of(bytes, memory, i) + file_size(bytes, i) <= image_length(
                bytes,
                memory,
                count,
            ),
    decreases header_count(bytes) - count, count,
{
    lemma_image_prefix(bytes, memory, count);
    if count < header_count(bytes) {
        lemma_image_length(bytes, memory, count + 1);
    }
}

proof fn lemma_image_prefix(bytes: Seq<u8>, memory: MemoryLayout, count: int)
    requires
        0 <= count,
    ensures
        image_length(bytes, memory, count) >= 0,
        forall|i: int|
            0 <= i < count && #[trigger] is_placed(bytes, memory, i) ==> 0 <= place_of(
                bytes,
                memory,
                i,
            ) && place_of(bytes, memory, i) + file_size(bytes, i) <= image_length(
                bytes,
                memory,
                count,
            ),
    decreases count,
{
    if count > 0 {
        lemma_image_prefix(bytes, memory, count - 1);
    }
}

fn write_segment(image: &mut Vec<u8>, bytes: &[u8], placement: &Placement)
    requires
        placement.start + placement.size <= bytes@.len(),
        placement.place + placement.size <= old(image)@.len(),
    ensures
        final(image)@ == overwritten(
            old(image)@,
            placement.place as int,
            bytes@.subrange(placement.start as int, placement.start + placement.size),
        ),
{
    let ghost before = image@;
    let ghost data = bytes@.subrange(placement.start as int, placement.start + placement.size);
    let length: usize = image.len();
    let available: usize = bytes.len();
    let mut i: usize = 0;
    assert(image@ =~= overwritten(before, placement.place as int, data.take(0)));
    while i < placement.size
        invariant
            i <= placement.size,
            placement.start + placement.size <= bytes@.len(),
            bytes@.len() == available,
            placement.place + placement.size <= before.len(),
            before.len() == length,
            data == bytes@.subrange(placement.start as int, placement.start + placement.size),
            image@ == overwritten(before, placement.place as int, data.take(i as int)),
        decreases placement.size - i,
    {
        image[placement.place + i] = bytes[placement.start + i];
        i = i + 1;
        assert(image@ =~= overwritten(before, placement.place as int, data.take(i as int)));
    }
    assert(data.take(i as int) =~= data);
}

/// Flash as a programmer leaves it that writes the file's segments by their
/// load addresses, up to the last byte written.
pub fn flash_image(bytes: &[u8], memory: &MemoryLayout) -> (res: Result<Vec<u8>, ElfError>)
    ensures
        match image_error(bytes@, *memory) {
            Some(error) => res == Err::<Vec<u8>, ElfError>(error),
            None => res matches Ok(image) && image@ == image_after(
                bytes@,
                *memory,
                header_count(bytes@),
            ),
        },
{
    if bytes.len() < ELF32_HEADER_SIZE || !(identified(bytes) && bytes[4] == 1 && bytes[5] == 1) {
        return Err(ElfError::Identification);
    }
    let headers = match read_headers(bytes) {
        Ok(headers) => headers,
        Err(error) => {
            return Err(error);
        },
    };
    let mut placements: Vec<Option<Placement>> = Vec::new();
    let mut length: usize = 0;
    let mut index: usize = 0;
    while index < headers.count
        invariant
            headers.of(bytes@),
            index <= headers.count,
            bytes@.len() >= ELF32_HEADER_SIZE,
            has_magic(bytes@) && bytes@[4] == 1 && bytes@[5] == 1,
            header_table_error(bytes@) is None,
            placements_error(bytes@, *memory, 0) == placements_error(
                bytes@,
                *memory,
                index as int,
            ),
            length == image_length(bytes@, *memory, index as int),
            placements@.len() == index,
            forall|k: int|
                0 <= k < index ==> match #[trigger] placements@[k] {
                    Some(placement) => placement.of(bytes@, *memory, k),
                    None => !is_placed(bytes@, *memory, k),
                },
        decreases headers.count - index,
    {
        match placement(bytes, memory, &headers, index) {
            Ok(Some(placement)) => {
                let end: usize = placement.place + placement.size;
                if end > length {
                    length = end;
                }
                placements.push(Some(placement));
            },
            Ok(None) => {
                placements.push(None);
            },
            Err(error) => {
                return Err(error);
            },
        }
        index = index + 1;
    }
    if length == 0 {
        return Err(ElfError::NoFlashSegments);
    }
    let mut image: Vec<u8> = vec![0xff;length];
    assert(image@ =~= image_after(bytes@, *memory, 0));
    let mut written: usize = 0;
    while written < placements.len()
        invariant
            headers.of(bytes@),
            placements@.len() == headers.count,
            written <= headers.count,
            length == image_length(bytes@, *memory, header_count(bytes@)),
            image@.len() == length,
            image@ == image_after(bytes@, *memory, written as int),
            forall|k: int|
                0 <= k < headers.count ==> match #[trigger] placements@[k] {
                    Some(placement) => placement.of(bytes@, *memory, k),
                    None => !is_placed(bytes@, *memory, k),
                },
        decreases headers.count - written,
    {
        proof {
            lemma_image_length(bytes@, *memory, header_count(bytes@));
        }
        match &placements[written] {
            Some(placement) => {
                write_segment(&mut image, bytes, placement);
            },
            None => {},
        }
        written = written + 1;
    }
    Ok(image)
}

// ---------------------------------------------------------------------------
// What an accepted file gives
// ---------------------------------------------------------------------------

proof fn lemma_segments_error(bytes: Seq<u8>, memory: MemoryLayout, from: int, index: int)
    requires
        0 <= from <= index < header_count(bytes),
        segments_error(bytes, memory, from) is None,
    ensures
        segment_error(bytes, memory, index) is None,
    decreases index - from,
{
    if from < index {
        lemma_segments_error(bytes, memory, from + 1, index);
    }
}

/// In an accepted file every loaded segment runs inside one physical flash or
/// RAM region, and so does whatever of it is loaded from the file.
pub proof fn law_accepted_segments_are_physical(bytes: Seq<u8>, memory: MemoryLayout, index: int)
    requires
        elf_error(bytes, memory) is None,
        0 <= index < header_count(bytes),
        is_load(bytes, index),
    ensures
        in_physical(virtual_address(bytes, index), memory_size(bytes, index), memory),
        file_size(bytes, index) <= memory_size(bytes, index),
        file_offset(bytes, index) + file_size(bytes, index) <= bytes.len(),
        file_size(bytes, index) > 0 ==> in_physical(
            physical_address(bytes, index),
            file_size(bytes, index),
            memory,
        ),
{
    lemma_segments_error(bytes, memory, 0, index);
}

/// An accepted file starts in flash.
pub proof fn law_accepted_entry_is_in_flash(bytes: Seq<u8>, memory: MemoryLayout)
    requires
        elf_error(bytes, memory) is None,
    ensures
        memory.flash_base <= entry_of(bytes) < memory.flash_base + memory.flash_size,
{
}

proof fn lemma_vector_from(bytes: Seq<u8>, memory: MemoryLayout, at: int, end: int)
    ensures
        match vector_from(bytes, memory, at, end) {
            Some(found) => at <= found && found + 8 <= end && vector_at(bytes, memory, found),
            None => true,
        },
    decreases end - at,
{
    if at + 8 <= end && !vector_at(bytes, memory, at) {
        lemma_vector_from(bytes, memory, at + 4, end);
    }
}

proof fn lemma_vector_in_segments(bytes: Seq<u8>, memory: MemoryLayout, index: int)
    ensures
        match vector_in_segments(bytes, memory, index) {
            Ok((stack, reset, _)) => stack_top(stack as int, memory) && reset == entry_of(bytes),
            Err(_) => true,
        },
    decreases header_count(bytes) - index,
{
    if 0 <= index < header_count(bytes) {
        let start = file_offset(bytes, index);
        let end = start + file_size(bytes, index);
        lemma_vector_from(bytes, memory, start, end);
        lemma_vector_in_segments(bytes, memory, index + 1);
    }
}

/// A vector table that is found has its stack in RAM and resets to the file's
/// entry point.
pub proof fn law_reset_vector_matches_the_entry(bytes: Seq<u8>, memory: MemoryLayout)
    ensures
        match vector_of(bytes, memory) {
            Ok((stack, reset, _)) => stack_top(stack as int, memory) && reset == entry_of(bytes),
            Err(_) => true,
        },
{
    lemma_vector_in_segments(bytes, memory, 0);
}

/// Segment `index` writes the image's byte at `at`.
pub open spec fn writes(bytes: Seq<u8>, memory: MemoryLayout, index: int, at: int) -> bool {
    &&& is_placed(bytes, memory, index)
    &&& place_of(bytes, memory, index) <= at < place_of(bytes, memory, index) + file_size(
        bytes,
        index,
    )
}

proof fn lemma_placements_error(bytes: Seq<u8>, memory: MemoryLayout, from: int, index: int)
    requires
        0 <= from <= index < header_count(bytes),
        placements_error(bytes, memory, from) is None,
    ensures
        placement_error(bytes, memory, index) is None,
    decreases index - from,
{
    if from < index {
        lemma_placements_error(bytes, memory, from + 1, index);
    }
}

proof fn lemma_image_after(bytes: Seq<u8>, memory: MemoryLayout, count: int, at: int)
    requires
        image_error(bytes, memory) is None,
        0 <= count <= header_count(bytes),
        0 <= at < image_length(bytes, memory, header_count(bytes)),
    ensures
        image_after(bytes, memory, count).len() == image_length(
            bytes,
            memory,
            header_count(bytes),
        ),
        (forall|i: int| 0 <= i < count ==> !#[trigger] writes(bytes, memory, i, at))
            ==> image_after(bytes, memory, count)[at] == 0xff,
        forall|last: int|
            0 <= last < count && #[trigger] writes(bytes, memory, last, at) && (forall|i: int|
                last < i < count ==> !#[trigger] writes(bytes, memory, i, at)) ==> image_after(
                bytes,
                memory,
                count,
            )[at] == segment_data(bytes, last)[at - place_of(bytes, memory, last)],
    decreases count,
{
    if count > 0 {
        let index = count - 1;
        lemma_image_after(bytes, memory, index, at);
        lemma_image_length(bytes, memory, header_count(bytes));
        lemma_placements_error(bytes, memory, 0, index);
        let before = image_after(bytes, memory, index);
        let now = image_after(bytes, memory, count);
        if is_placed(bytes, memory, index) {
            let place = place_of(bytes, memory, index);
            let data = segment_data(bytes, index);
            assert(data.len() == file_size(bytes, index));
            assert(now == overwritten(before, place, data));
            assert(now[at] == if place <= at < place + data.len() {
                data[at - place]
            } else {
                before[at]
            });
        }
        assert(now[at] == if writes(bytes, memory, index, at) {
            segment_data(bytes, index)[at - place_of(bytes, memory, index)]
        } else {
            before[at]
        });
    }
}

/// The image is erased wherever no segment is loaded, and holds the last
/// segment's byte wherever one is.
pub proof fn law_image_is_erased_between_segments(
    bytes: Seq<u8>,
    memory: MemoryLayout,
    at: int,
)
    requires
        image_error(bytes, memory) is None,
        0 <= at < image_length(bytes, memory, header_count(bytes)),
    ensures
        image_after(bytes, memory, header_count(bytes)).len() == image_length(
            bytes,
            memory,
            header_count(bytes),
        ),
        (forall|i: int| 0 <= i < header_count(bytes) ==> !#[trigger] writes(bytes, memory, i, at))
            ==> image_after(bytes, memory, header_count(bytes))[at] == 0xff,
        forall|last: int|
            0 <= last < header_count(bytes) && #[trigger] writes(bytes, memory, last, at)
                && (forall|i: int|
                last < i < header_count(bytes) ==> !#[trigger] writes(bytes, memory, i, at))
                ==> image_after(bytes, memory, header_count(bytes))[at] == segment_data(
                bytes,
                last,
            )[at - place_of(bytes, memory, last)],
{
    lemma_image_after(bytes, memory, header_count(bytes), at);
}

proof fn lemma_image_within(bytes: Seq<u8>, memory: MemoryLayout, count: int)
    requires
        0 <= count,
    ensures
        0 <= image_length(bytes, memory, count) <= memory.flash_size,
    decreases count,
{
    if count > 0 {
        lemma_image_within(bytes, memory, count - 1);
    }
}

/// The image is never larger than flash.
pub proof fn law_image_fits_flash(bytes: Seq<u8>, memory: MemoryLayout)
    ensures
        image_length(bytes, memory, header_count(bytes)) <= memory.flash_size,
{
    lemma_image_within(bytes, memory, header_count(bytes));
}

// ---------------------------------------------------------------------------
// Files read by their format
// ---------------------------------------------------------------------------

/// The number that `width` bytes from `at` on denote, the lowest byte first.
pub open spec fn number_at(bytes: Seq<u8>, at: int, width: nat) -> int
    decreases width,
{
    if width == 0 {
        0
    } else {
        bytes[at] + 256 * number_at(bytes, at + 1, (width - 1) as nat)
    }
}

pub proof fn lemma_number_at(bytes: Seq<u8>, at: int)
    ensures
        number_at(bytes, at, 2) == le16(bytes, at),
        number_at(bytes, at, 4) == le32(bytes, at),
{
    reveal_with_fuel(number_at, 5);
}

/// Where program header `index` stands in the file.
pub open spec fn table_entry(bytes: Seq<u8>, index: int) -> int {
    number_at(bytes, 28, 4) + index * number_at(bytes, 42, 2)
}

/// All of the range lies between the two addresses. An empty range may stand
/// at either.
pub open spec fn lies_between(base: int, size: int, low: int, high: int) -> bool {
    low <= base && base + size <= high
}

/// The range lies in flash or in one of the RAM banks, whichever.
pub open spec fn lies_in_memory(base: int, size: int, memory: MemoryLayout) -> bool {
    ||| lies_between(
        base,
        size,
        memory.flash_base as int,
        memory.flash_base + memory.flash_size,
    )
    ||| exists|i: int|
        0 <= i < memory.ram_regions@.len() && lies_between(
            base,
            size,
            (#[trigger] memory.ram_regions@[i]).base as int,
            memory.ram_regions@[i].base + memory.ram_regions@[i].size,
        )
}

/// Flash and every RAM bank end inside the address space.
pub open spec fn memory_ends(memory: MemoryLayout) -> bool {
    &&& memory.flash_base + memory.flash_size <= u64::MAX
    &&& forall|i: int|
        0 <= i < memory.ram_regions@.len() ==> (#[trigger] memory.ram_regions@[i]).base
            + memory.ram_regions@[i].size <= u64::MAX
}

proof fn lemma_physical(base: int, size: int, memory: MemoryLayout)
    requires
        memory_ends(memory),
    ensures
        in_physical(base, size, memory) <==> lies_in_memory(base, size, memory),
{
    if in_ram(base, size, memory) {
        let i = choose|i: int|
            0 <= i < memory.ram_regions@.len() && #[trigger] in_region(
                base,
                size,
                memory.ram_regions@[i],
            );
        assert(memory.ram_regions@[i].base + memory.ram_regions@[i].size <= u64::MAX);
    }
    if lies_in_memory(base, size, memory) && !lies_between(
        base,
        size,
        memory.flash_base as int,
        memory.flash_base + memory.flash_size,
    ) {
        let i = choose|i: int|
            0 <= i < memory.ram_regions@.len() && lies_between(
                base,
                size,
                (#[trigger] memory.ram_regions@[i]).base as int,
                memory.ram_regions@[i].base + memory.ram_regions@[i].size,
            );
        assert(in_region(base, size, memory.ram_regions@[i]));
    }
}

/// A range is physical exactly where it lies in flash or in any one of the
/// declared RAM banks.
pub proof fn law_every_bank_is_physical(base: u64, size: u64, memory: MemoryLayout)
    requires
        memory_ends(memory),
    ensures
        in_physical(base as int, size as int, memory) <==> {
            ||| memory.flash_base <= base && base + size <= memory.flash_base + memory.flash_size
            ||| exists|i: int|
                0 <= i < memory.ram_regions@.len() && (#[trigger] memory.ram_regions@[i]).base
                    <= base && base + size <= memory.ram_regions@[i].base
                    + memory.ram_regions@[i].size
        },
{
    lemma_physical(base as int, size as int, memory);
    if lies_in_memory(base as int, size as int, memory) {
        if !(memory.flash_base <= base && base + size <= memory.flash_base + memory.flash_size) {
            let i = choose|i: int|
                0 <= i < memory.ram_regions@.len() && lies_between(
                    base as int,
                    size as int,
                    (#[trigger] memory.ram_regions@[i]).base as int,
                    memory.ram_regions@[i].base + memory.ram_regions@[i].size,
                );
            assert(memory.ram_regions@[i].base <= base);
        }
    }
}

/// What a loaded segment must meet: it is no shorter in memory than in the
/// file, the file holds all of it, and it lies in memory both where it runs
/// and, as far as the file gives it, where it is loaded.
pub open spec fn segment_sound(bytes: Seq<u8>, memory: MemoryLayout, index: int) -> bool {
    let at = table_entry(bytes, index);
    &&& number_at(bytes, at + 16, 4) <= number_at(bytes, at + 20, 4)
    &&& number_at(bytes, at + 4, 4) + number_at(bytes, at + 16, 4) <= bytes.len()
    &&& lies_in_memory(number_at(bytes, at + 8, 4), number_at(bytes, at + 20, 4), memory)
    &&& number_at(bytes, at + 16, 4) == 0 || lies_in_memory(
        number_at(bytes, at + 12, 4),
        number_at(bytes, at + 16, 4),
        memory,
    )
}

proof fn lemma_fields(bytes: Seq<u8>, index: int)
    ensures
        table_entry(bytes, index) == header_at(bytes, index),
        number_at(bytes, table_entry(bytes, index), 4) == le32(bytes, header_at(bytes, index)),
        number_at(bytes, table_entry(bytes, index) + 4, 4) == file_offset(bytes, index),
        number_at(bytes, table_entry(bytes, index) + 8, 4) == virtual_address(bytes, index),
        number_at(bytes, table_entry(bytes, index) + 12, 4) == physical_address(bytes, index),
        number_at(bytes, table_entry(bytes, index) + 16, 4) == file_size(bytes, index),
        number_at(bytes, table_entry(bytes, index) + 20, 4) == memory_size(bytes, index),
        number_at(bytes, 24, 4) == entry_of(bytes),
        number_at(bytes, 42, 2) == header_size(bytes),
        number_at(bytes, 44, 2) == header_count(bytes),
{
    lemma_number_at(bytes, 28);
    lemma_number_at(bytes, 42);
    lemma_number_at(bytes, 44);
    lemma_number_at(bytes, 24);
    let at = header_at(bytes, index);
    lemma_number_at(bytes, at);
    lemma_number_at(bytes, at + 4);
    lemma_number_at(bytes, at + 8);
    lemma_number_at(bytes, at + 12);
    lemma_number_at(bytes, at + 16);
    lemma_number_at(bytes, at + 20);
}

proof fn lemma_segments_sound(bytes: Seq<u8>, memory: MemoryLayout, from: int)
    requires
        0 <= from,
        forall|i: int|
            from <= i < header_count(bytes) ==> #[trigger] segment_error(bytes, memory, i) is None,
    ensures
        segments_error(bytes, memory, from) is None,
    decreases header_count(bytes) - from,
{
    if from < header_count(bytes) {
        assert(segment_error(bytes, memory, from) is None);
        lemma_segments_sound(bytes, memory, from + 1);
    }
}

/// A file is accepted exactly where it is a 32-bit little-endian ELF file
/// whose entry point lies in flash, whose table of at least one program header
/// is whole, and all of whose loaded segments are sound.
pub proof fn law_sound_files_are_accepted(bytes: Seq<u8>, memory: MemoryLayout)
    requires
        memory_ends(memory),
        bytes.len() <= usize::MAX,
    ensures
        elf_error(bytes, memory) is None <==> {
            &&& bytes.len() >= 52
            &&& bytes.take(6) == seq![0x7fu8, 0x45u8, 0x4cu8, 0x46u8, 1u8, 1u8]
            &&& memory.flash_base <= number_at(bytes, 24, 4) < memory.flash_base
                + memory.flash_size
            &&& number_at(bytes, 42, 2) >= 32
            &&& number_at(bytes, 44, 2) > 0
            &&& forall|i: int|
                0 <= i < number_at(bytes, 44, 2) ==> (#[trigger] table_entry(bytes, i)) + 32
                    <= bytes.len() && (number_at(bytes, table_entry(bytes, i), 4) == 1
                    ==> segment_sound(bytes, memory, i))
        },
{
    lemma_fields(bytes, 0);
    if bytes.len() >= 52 {
        let magic = seq![0x7fu8, 0x45u8, 0x4cu8, 0x46u8, 1u8, 1u8];
        assert((bytes.take(6) == magic) <==> has_magic(bytes) && bytes[4] == 1 && bytes[5] == 1) by {
            if has_magic(bytes) && bytes[4] == 1 && bytes[5] == 1 {
                assert(bytes.take(6) =~= magic);
            }
            if bytes.take(6) == magic {
                assert(bytes.take(6)[0] == bytes[0] && bytes.take(6)[1] == bytes[1]);
                assert(bytes.take(6)[2] == bytes[2] && bytes.take(6)[3] == bytes[3]);
                assert(bytes.take(6)[4] == bytes[4] && bytes.take(6)[5] == bytes[5]);
            }
        }
    }
    assert forall|i: int| 0 <= i < header_count(bytes) implies (segment_error(
        bytes,
        memory,
        i,
    ) is None <==> (#[trigger] table_entry(bytes, i)) + 32 <= bytes.len() && (number_at(
        bytes,
        table_entry(bytes, i),
        4,
    ) == 1 ==> segment_sound(bytes, memory, i))) by {
        lemma_fields(bytes, i);
        lemma_physical(virtual_address(bytes, i), memory_size(bytes, i), memory);
        lemma_physical(physical_address(bytes, i), file_size(bytes, i), memory);
    }
    if elf_error(bytes, memory) is None {
        assert forall|i: int| 0 <= i < number_at(bytes, 44, 2) implies (#[trigger] table_entry(
            bytes,
            i,
        )) + 32 <= bytes.len() && (number_at(bytes, table_entry(bytes, i), 4) == 1
            ==> segment_sound(bytes, memory, i)) by {
            lemma_segments_error(bytes, memory, 0, i);
        }
    }
    if forall|i: int|
        0 <= i < number_at(bytes, 44, 2) ==> (#[trigger] table_entry(bytes, i)) + 32 <= bytes.len()
            && (number_at(bytes, table_entry(bytes, i), 4) == 1 ==> segment_sound(
            bytes,
            memory,
            i,
        )) {
        assert forall|i: int| 0 <= i < header_count(bytes) implies #[trigger] segment_error(
            bytes,
            memory,
            i,
        ) is None by {
            assert(table_entry(bytes, i) + 32 <= bytes.len());
        }
        lemma_segments_sound(bytes, memory, 0);
    }
}

/// A RAM bank of the memory map starts and ends where `bank` does.
pub open spec fn has_bank(memory: MemoryLayout, bank: MemoryRegion) -> bool {
    exists|j: int|
        0 <= j < memory.ram_regions@.len() && (#[trigger] memory.ram_regions@[j]).base == bank.base
            && memory.ram_regions@[j].size == bank.size
}

/// More memory refuses nothing: a file that is accepted on one memory map is
/// accepted on every map with the same flash and all the same RAM banks among
/// its own, in whatever order.
pub proof fn law_more_banks_refuse_nothing(bytes: Seq<u8>, less: MemoryLayout, more: MemoryLayout)
    requires
        memory_ends(less),
        memory_ends(more),
        bytes.len() <= usize::MAX,
        less.flash_base == more.flash_base,
        less.flash_size == more.flash_size,
        forall|i: int|
            0 <= i < less.ram_regions@.len() ==> has_bank(more, #[trigger] less.ram_regions@[i]),
        elf_error(bytes, less) is None,
    ensures
        elf_error(bytes, more) is None,
{
    law_sound_files_are_accepted(bytes, less);
    law_sound_files_are_accepted(bytes, more);
    assert forall|i: int| 0 <= i < number_at(bytes, 44, 2) implies (#[trigger] table_entry(bytes, i))
        + 32 <= bytes.len() && (number_at(bytes, table_entry(bytes, i), 4) == 1 ==> segment_sound(
        bytes,
        more,
        i,
    )) by {
        let at = table_entry(bytes, i);
        lemma_more_memory(number_at(bytes, at + 8, 4), number_at(bytes, at + 20, 4), less, more);
        lemma_more_memory(number_at(bytes, at + 12, 4), number_at(bytes, at + 16, 4), less, more);
    }
}

proof fn lemma_more_memory(base: int, size: int, less: MemoryLayout, more: MemoryLayout)
    requires
        less.flash_base == more.flash_base,
        less.flash_size == more.flash_size,
        forall|i: int|
            0 <= i < less.ram_regions@.len() ==> has_bank(more, #[trigger] less.ram_regions@[i]),
    ensures
        lies_in_memory(base, size, less) ==> lies_in_memory(base, size, more),
{
    if lies_in_memory(base, size, less) && !lies_between(
        base,
        size,
        less.flash_base as int,
        less.flash_base + less.flash_size,
    ) {
        let i = choose|i: int|
            0 <= i < less.ram_regions@.len() && lies_between(
                base,
                size,
                (#[trigger] less.ram_regions@[i]).base as int,
                less.ram_regions@[i].base + less.ram_regions@[i].size,
            );
        assert(has_bank(more, less.ram_regions@[i]));
        let j = choose|j: int|
            0 <= j < more.ram_regions@.len() && (#[trigger] more.ram_regions@[j]).base
                == less.ram_regions@[i].base && more.ram_regions@[j].size
                == less.ram_regions@[i].size;
        assert(lies_between(
            base,
            size,
            more.ram_regions@[j].base as int,
            more.ram_regions@[j].base + more.ram_regions@[j].size,
        ));
    }
}

/// `step` words into the loaded segment `index` stand a stack pointer inside a
/// RAM bank, or right behind one, and the entry point.
pub open spec fn table_starts(bytes: Seq<u8>, memory: MemoryLayout, index: int, step: int) -> bool {
    let header = table_entry(bytes, index);
    let at = number_at(bytes, header + 4, 4) + 4 * step;
    &&& number_at(bytes, header, 4) == 1
    &&& 0 <= step
    &&& 4 * step + 8 <= number_at(bytes, header + 16, 4)
    &&& number_at(bytes, at + 4, 4) == number_at(bytes, 24, 4)
    &&& exists|i: int|
        0 <= i < memory.ram_regions@.len() && (#[trigger] memory.ram_regions@[i]).base
            <= number_at(bytes, at, 4) <= memory.ram_regions@[i].base + memory.ram_regions@[i].size
}

proof fn lemma_table_starts(bytes: Seq<u8>, memory: MemoryLayout, index: int, step: int)
    requires
        0 <= step,
        is_load(bytes, index),
        4 * step + 8 <= file_size(bytes, index),
    ensures
        table_starts(bytes, memory, index, step) <==> vector_at(
            bytes,
            memory,
            file_offset(bytes, index) + 4 * step,
        ),
{
    lemma_fields(bytes, index);
    let at = file_offset(bytes, index) + 4 * step;
    lemma_number_at(bytes, at);
    lemma_number_at(bytes, at + 4);
    if stack_top(le32(bytes, at), memory) {
        let i = choose|i: int|
            0 <= i < memory.ram_regions@.len() && #[trigger] stack_in(
                le32(bytes, at),
                memory.ram_regions@[i],
            );
        assert(memory.ram_regions@[i].base <= le32(bytes, at));
    }
    if exists|i: int|
        0 <= i < memory.ram_regions@.len() && (#[trigger] memory.ram_regions@[i]).base
            <= number_at(bytes, at, 4) <= memory.ram_regions@[i].base
            + memory.ram_regions@[i].size {
        let i = choose|i: int|
            0 <= i < memory.ram_regions@.len() && (#[trigger] memory.ram_regions@[i]).base
                <= number_at(bytes, at, 4) <= memory.ram_regions@[i].base
                + memory.ram_regions@[i].size;
        assert(stack_in(le32(bytes, at), memory.ram_regions@[i]));
    }
}

proof fn lemma_first_vector(bytes: Seq<u8>, memory: MemoryLayout, index: int, step: int)
    requires
        is_load(bytes, index),
        0 <= step,
    ensures
        ({
            let start = file_offset(bytes, index);
            match vector_from(bytes, memory, start + 4 * step, start + file_size(bytes, index)) {
                Some(found) => exists|s: int|
                    step <= s && found == start + 4 * s && #[trigger] table_starts(
                        bytes,
                        memory,
                        index,
                        s,
                    ) && forall|k: int|
                        step <= k < s ==> !#[trigger] table_starts(bytes, memory, index, k),
                None => forall|k: int|
                    step <= k ==> !#[trigger] table_starts(bytes, memory, index, k),
            }
        }),
    decreases file_size(bytes, index) - 4 * step,
{
    lemma_fields(bytes, index);
    let start = file_offset(bytes, index);
    if 4 * step + 8 <= file_size(bytes, index) {
        lemma_table_starts(bytes, memory, index, step);
        if !vector_at(bytes, memory, start + 4 * step) {
            lemma_first_vector(bytes, memory, index, step + 1);
            assert(start + 4 * (step + 1) == start + 4 * step + 4);
        }
    }
}

proof fn lemma_first_table(bytes: Seq<u8>, memory: MemoryLayout, from: int)
    requires
        bytes.len() <= usize::MAX,
        0 <= from,
        forall|i: int|
            from <= i < header_count(bytes) ==> header_error(
                #[trigger] header_at(bytes, i),
                bytes.len() as int,
            ) is None && (is_load(bytes, i) ==> file_offset(bytes, i) + file_size(bytes, i)
                <= bytes.len()),
    ensures
        match vector_in_segments(bytes, memory, from) {
            Ok((stack, reset, table)) => exists|i: int, s: int|
                from <= i < header_count(bytes) && #[trigger] table_starts(bytes, memory, i, s)
                    && stack == number_at(bytes, file_offset(bytes, i) + 4 * s, 4) && reset
                    == entry_of(bytes) && table == physical_address(bytes, i) + 4 * s
                    && (forall|k: int|
                    0 <= k < s ==> !#[trigger] table_starts(bytes, memory, i, k)) && (forall|
                    j: int,
                    k: int,
                |
                    from <= j < i ==> !#[trigger] table_starts(bytes, memory, j, k)),
            Err(error) => {
                &&& error == ElfError::VectorTableOverflow || error == ElfError::NoVectorTable(
                    entry_of(bytes) as u32,
                )
                &&& error is NoVectorTable <==> forall|j: int, k: int|
                    from <= j < header_count(bytes) ==> !#[trigger] table_starts(
                        bytes,
                        memory,
                        j,
                        k,
                    )
            },
        },
    decreases header_count(bytes) - from,
{
    if from < header_count(bytes) {
        assert(header_error(header_at(bytes, from), bytes.len() as int) is None);
        lemma_first_table(bytes, memory, from + 1);
        lemma_fields(bytes, from);
        if is_load(bytes, from) {
            lemma_first_vector(bytes, memory, from, 0);
            let start = file_offset(bytes, from);
            match vector_from(bytes, memory, start, start + file_size(bytes, from)) {
                Some(found) => {
                    let s = choose|s: int|
                        0 <= s && found == start + 4 * s && #[trigger] table_starts(
                            bytes,
                            memory,
                            from,
                            s,
                        ) && forall|k: int|
                            0 <= k < s ==> !#[trigger] table_starts(bytes, memory, from, k);
                    lemma_number_at(bytes, found);
                    lemma_number_at(bytes, found + 4);
                    assert(table_starts(bytes, memory, from, s));
                },
                None => {
                    assert forall|k: int| !#[trigger] table_starts(bytes, memory, from, k) by {}
                },
            }
        } else {
            assert forall|k: int| !#[trigger] table_starts(bytes, memory, from, k) by {}
        }
        if let Ok((stack, reset, table)) = vector_in_segments(bytes, memory, from + 1) {
            if forall|k: int| !#[trigger] table_starts(bytes, memory, from, k) {
                let (i, s) = choose|i: int, s: int|
                    from + 1 <= i < header_count(bytes) && #[trigger] table_starts(
                        bytes,
                        memory,
                        i,
                        s,
                    ) && stack == number_at(bytes, file_offset(bytes, i) + 4 * s, 4) && reset
                        == entry_of(bytes) && table == physical_address(bytes, i) + 4 * s
                        && (forall|k: int|
                        0 <= k < s ==> !#[trigger] table_starts(bytes, memory, i, k)) && (forall|
                        j: int,
                        k: int,
                    |
                        from + 1 <= j < i ==> !#[trigger] table_starts(bytes, memory, j, k));
                assert(table_starts(bytes, memory, i, s));
            }
        }
    }
}

/// In an accepted file the first vector table is found, wherever it stands in
/// the loaded segments: the stack pointer and the reset handler are the two
/// words there, and the table's address is where those words are loaded. Only
/// a file without any such table has none.
pub proof fn law_the_first_vector_table_is_found(bytes: Seq<u8>, memory: MemoryLayout)
    requires
        bytes.len() <= usize::MAX,
        elf_error(bytes, memory) is None,
    ensures
        match vector_of(bytes, memory) {
            Ok((stack, reset, table)) => exists|i: int, s: int|
                0 <= i < number_at(bytes, 44, 2) && #[trigger] table_starts(bytes, memory, i, s)
                    && stack == number_at(
                    bytes,
                    number_at(bytes, table_entry(bytes, i) + 4, 4) + 4 * s,
                    4,
                ) && reset == number_at(bytes, 24, 4) && table == number_at(
                    bytes,
                    table_entry(bytes, i) + 12,
                    4,
                ) + 4 * s && (forall|k: int|
                    0 <= k < s ==> !#[trigger] table_starts(bytes, memory, i, k)) && (forall|
                    j: int,
                    k: int,
                |
                    0 <= j < i ==> !#[trigger] table_starts(bytes, memory, j, k)),
            Err(error) => {
                &&& error is VectorTableOverflow || error is NoVectorTable
                &&& error is NoVectorTable <==> forall|j: int, k: int|
                    0 <= j < number_at(bytes, 44, 2) ==> !#[trigger] table_starts(
                        bytes,
                        memory,
                        j,
                        k,
                    )
            },
        },
{
    lemma_fields(bytes, 0);
    assert forall|i: int| 0 <= i < header_count(bytes) implies header_error(
        #[trigger] header_at(bytes, i),
        bytes.len() as int,
    ) is None && (is_load(bytes, i) ==> file_offset(bytes, i) + file_size(bytes, i)
        <= bytes.len()) by {
        lemma_segments_error(bytes, memory, 0, i);
    }
    lemma_first_table(bytes, memory, 0);
    if let Ok((stack, reset, table)) = vector_of(bytes, memory) {
        let (i, s) = choose|i: int, s: int|
            0 <= i < header_count(bytes) && #[trigger] table_starts(bytes, memory, i, s) && stack
                == number_at(bytes, file_offset(bytes, i) + 4 * s, 4) && reset == entry_of(bytes)
                && table == physical_address(bytes, i) + 4 * s && (forall|k: int|
                0 <= k < s ==> !#[trigger] table_starts(bytes, memory, i, k)) && (forall|
                j: int,
                k: int,
            |
                0 <= j < i ==> !#[trigger] table_starts(bytes, memory, j, k));
        lemma_fields(bytes, i);
        assert(table_starts(bytes, memory, i, s));
    }
}

/// Segment `index` of the file gives the byte of flash at `address`.
pub open spec fn gives(bytes: Seq<u8>, memory: MemoryLayout, index: int, address: int) -> bool {
    let at = table_entry(bytes, index);
    let load = number_at(bytes, at + 12, 4);
    let size = number_at(bytes, at + 16, 4);
    &&& 0 <= index < number_at(bytes, 44, 2)
    &&& number_at(bytes, at, 4) == 1
    &&& memory.flash_base <= load && load + size <= memory.flash_base + memory.flash_size
    &&& load <= address < load + size
}

/// The image starts where flash does and ends with the last byte that a
/// segment gives. Each byte is the one that the last segment to give it holds
/// in the file, and ones where none does.
pub proof fn law_the_image_holds_the_segments(bytes: Seq<u8>, memory: MemoryLayout, address: int)
    requires
        memory_ends(memory),
        image_error(bytes, memory) is None,
        memory.flash_base <= address,
    ensures
        ({
            let image = image_after(bytes, memory, header_count(bytes));
            let at = address - memory.flash_base;
            &&& (exists|i: int| #[trigger] gives(bytes, memory, i, address)) ==> at < image.len()
            &&& at == image.len() - 1 ==> exists|i: int| #[trigger]
                gives(bytes, memory, i, address)
            &&& at < image.len() && !(exists|i: int| #[trigger] gives(bytes, memory, i, address))
                ==> image[at] == 0xff
            &&& forall|i: int| #[trigger]
                gives(bytes, memory, i, address) && (forall|j: int|
                    i < j ==> !#[trigger] gives(bytes, memory, j, address)) ==> image[at]
                    == bytes[number_at(bytes, table_entry(bytes, i) + 4, 4) + address - number_at(
                    bytes,
                    table_entry(bytes, i) + 12,
                    4,
                )]
        }),
{
    lemma_fields(bytes, 0);
    let count = header_count(bytes);
    let image = image_after(bytes, memory, count);
    let at = address - memory.flash_base;
    assert forall|i: int| #![trigger gives(bytes, memory, i, address)]
        #![trigger writes(bytes, memory, i, at)]
        0 <= i < count implies (gives(bytes, memory, i, address) <==> writes(
        bytes,
        memory,
        i,
        at,
    )) by {
        lemma_fields(bytes, i);
    }
    lemma_image_length(bytes, memory, count);
    lemma_image_ends(bytes, memory, count);
    lemma_image_size(bytes, memory);
    if exists|i: int| #[trigger] gives(bytes, memory, i, address) {
        let i = choose|i: int| #[trigger] gives(bytes, memory, i, address);
        assert(writes(bytes, memory, i, at));
        lemma_image_covers(bytes, memory, i, count);
    }
    if at < image.len() {
        law_image_is_erased_between_segments(bytes, memory, at);
        if at == image.len() - 1 {
            let i = choose|i: int|
                0 <= i < count && is_placed(bytes, memory, i) && #[trigger] place_of(
                    bytes,
                    memory,
                    i,
                ) + file_size(bytes, i) == image_length(bytes, memory, count);
            assert(writes(bytes, memory, i, at));
            assert(gives(bytes, memory, i, address));
        }
    }
    assert forall|i: int| #[trigger]
        gives(bytes, memory, i, address) && (forall|j: int|
            i < j ==> !#[trigger] gives(bytes, memory, j, address)) implies image[at]
        == bytes[number_at(bytes, table_entry(bytes, i) + 4, 4) + address - number_at(
        bytes,
        table_entry(bytes, i) + 12,
        4,
    )] by {
        lemma_fields(bytes, i);
        assert(writes(bytes, memory, i, at));
        lemma_image_covers(bytes, memory, i, count);
        assert forall|j: int| i < j < count implies !#[trigger] writes(bytes, memory, j, at) by {
            assert(!gives(bytes, memory, j, address));
        }
        lemma_placements_error(bytes, memory, 0, i);
    }
}

proof fn lemma_image_size(bytes: Seq<u8>, memory: MemoryLayout)
    requires
        image_error(bytes, memory) is None,
    ensures
        image_after(bytes, memory, header_count(bytes)).len() == image_length(
            bytes,
            memory,
            header_count(bytes),
        ),
        image_length(bytes, memory, header_count(bytes)) > 0,
{
    lemma_image_within(bytes, memory, header_count(bytes));
    lemma_image_after(bytes, memory, header_count(bytes), 0);
}

proof fn lemma_image_covers(bytes: Seq<u8>, memory: MemoryLayout, index: int, count: int)
    requires
        0 <= index < count,
        is_placed(bytes, memory, index),
    ensures
        place_of(bytes, memory, index) + file_size(bytes, index) <= image_length(
            bytes,
            memory,
            count,
        ),
    decreases count,
{
    if index < count - 1 {
        lemma_image_covers(bytes, memory, index, count - 1);
    }
}

proof fn lemma_image_ends(bytes: Seq<u8>, memory: MemoryLayout, count: int)
    requires
        0 <= count,
    ensures
        image_length(bytes, memory, count) > 0 ==> exists|i: int|
            0 <= i < count && is_placed(bytes, memory, i) && #[trigger] place_of(bytes, memory, i)
                + file_size(bytes, i) == image_length(bytes, memory, count),
    decreases count,
{
    if count > 0 {
        lemma_image_ends(bytes, memory, count - 1);
        if image_length(bytes, memory, count) > 0 {
            if image_length(bytes, memory, count) == image_length(bytes, memory, count - 1) {
                let i = choose|i: int|
                    0 <= i < count - 1 && is_placed(bytes, memory, i) && #[trigger] place_of(
                        bytes,
                        memory,
                        i,
                    ) + file_size(bytes, i) == image_length(bytes, memory, count - 1);
                assert(place_of(bytes, memory, i) + file_size(bytes, i) == image_length(
                    bytes,
                    memory,
                    count,
                ));
            } else {
                assert(place_of(bytes, memory, count - 1) + file_size(bytes, count - 1)
                    == image_length(bytes, memory, count));
            }
        }
    }
}

proof fn lemma_no_placement_error(bytes: Seq<u8>, memory: MemoryLayout, from: int)
    requires
        0 <= from,
        forall|i: int|
            from <= i < header_count(bytes) ==> #[trigger] placement_error(bytes, memory, i) is None,
    ensures
        placements_error(bytes, memory, from) is None,
    decreases header_count(bytes) - from,
{
    if from < header_count(bytes) {
        assert(placement_error(bytes, memory, from) is None);
        lemma_no_placement_error(bytes, memory, from + 1);
    }
}

/// Every accepted file that gives flash a byte has an image, and one that
/// gives it none has none.
pub proof fn law_accepted_files_have_an_image(bytes: Seq<u8>, memory: MemoryLayout)
    requires
        memory_ends(memory),
        bytes.len() <= usize::MAX,
        memory.flash_size <= usize::MAX,
        elf_error(bytes, memory) is None,
    ensures
        image_error(bytes, memory) is None <==> exists|i: int, address: int| #[trigger]
            gives(bytes, memory, i, address),
        image_error(bytes, memory) is Some ==> image_error(bytes, memory) == Some(
            ElfError::NoFlashSegments,
        ),
{
    let count = header_count(bytes);
    lemma_fields(bytes, 0);
    assert forall|i: int| 0 <= i < count implies #[trigger] placement_error(
        bytes,
        memory,
        i,
    ) is None by {
        lemma_segments_error(bytes, memory, 0, i);
    }
    lemma_no_placement_error(bytes, memory, 0);
    lemma_image_within(bytes, memory, count);
    lemma_image_ends(bytes, memory, count);
    if image_length(bytes, memory, count) > 0 {
        let i = choose|i: int|
            0 <= i < count && is_placed(bytes, memory, i) && #[trigger] place_of(bytes, memory, i)
                + file_size(bytes, i) == image_length(bytes, memory, count);
        lemma_fields(bytes, i);
        assert(gives(bytes, memory, i, physical_address(bytes, i)));
    }
    if exists|i: int, address: int| #[trigger] gives(bytes, memory, i, address) {
        let (i, address) = choose|i: int, address: int| #[trigger]
            gives(bytes, memory, i, address);
        lemma_fields(bytes, i);
        assert(is_placed(bytes, memory, i));
        lemma_image_covers(bytes, memory, i, count);
    }
}

proof fn lemma_segment_fault(bytes: Seq<u8>, memory: MemoryLayout, from: int)
    requires
        0 <= from,
    ensures
        segments_error(bytes, memory, from) matches Some(error) ==> exists|i: int|
            from <= i < header_count(bytes) && #[trigger] segment_error(bytes, memory, i) == Some(
                error,
            ),
    decreases header_count(bytes) - from,
{
    if from < header_count(bytes) {
        lemma_segment_fault(bytes, memory, from + 1);
        if segment_error(bytes, memory, from) is None && segments_error(bytes, memory, from) is Some {
            let error = segments_error(bytes, memory, from)->0;
            let i = choose|i: int|
                from + 1 <= i < header_count(bytes) && #[trigger] segment_error(bytes, memory, i)
                    == Some(error);
            assert(segment_error(bytes, memory, i) == Some(error));
        }
    }
}

/// What a file is refused for is wrong with it.
pub proof fn law_files_are_refused_for_what_is_wrong(bytes: Seq<u8>, memory: MemoryLayout)
    requires
        memory_ends(memory),
        bytes.len() <= usize::MAX,
    ensures
        match elf_error(bytes, memory) {
            None => true,
            Some(ElfError::HeaderTruncated) => bytes.len() < 52,
            Some(ElfError::Magic) => bytes.take(4) != seq![0x7fu8, 0x45u8, 0x4cu8, 0x46u8],
            Some(ElfError::Class) => bytes[4] != 1,
            Some(ElfError::Endianness) => bytes[5] != 1,
            Some(ElfError::EntryOutside(entry)) => entry == number_at(bytes, 24, 4) && !(
            memory.flash_base <= entry < memory.flash_base + memory.flash_size),
            Some(ElfError::ProgramHeaderSize) => number_at(bytes, 42, 2) < 32,
            Some(ElfError::NoProgramHeaders) => number_at(bytes, 44, 2) == 0,
            Some(ElfError::ProgramHeaderOverflow) => true,
            Some(ElfError::ProgramHeaderTruncated) => exists|i: int|
                0 <= i < number_at(bytes, 44, 2) && #[trigger] table_entry(bytes, i) + 32
                    > bytes.len(),
            Some(ElfError::FileSize(i)) => {
                let at = table_entry(bytes, i as int);
                i < number_at(bytes, 44, 2) && number_at(bytes, at + 16, 4) > number_at(
                    bytes,
                    at + 20,
                    4,
                )
            },
            Some(ElfError::DataTruncated(i)) => {
                let at = table_entry(bytes, i as int);
                i < number_at(bytes, 44, 2) && number_at(bytes, at + 4, 4) + number_at(
                    bytes,
                    at + 16,
                    4,
                ) > bytes.len()
            },
            Some(ElfError::VirtualRange { index, base, end }) => {
                let at = table_entry(bytes, index as int);
                &&& index < number_at(bytes, 44, 2)
                &&& base == number_at(bytes, at + 8, 4)
                &&& end == base + number_at(bytes, at + 20, 4)
                &&& !lies_in_memory(base as int, end - base, memory)
            },
            Some(ElfError::LoadRange { index, base, end }) => {
                let at = table_entry(bytes, index as int);
                &&& index < number_at(bytes, 44, 2)
                &&& base == number_at(bytes, at + 12, 4)
                &&& end == base + number_at(bytes, at + 16, 4)
                &&& !lies_in_memory(base as int, end - base, memory)
            },
            Some(_) => false,
        },
{
    lemma_fields(bytes, 0);
    if bytes.len() >= 52 {
        assert(has_magic(bytes) <==> bytes.take(4) =~= seq![0x7fu8, 0x45u8, 0x4cu8, 0x46u8]);
    }
    lemma_segment_fault(bytes, memory, 0);
    lemma_small_fields(bytes);
    if segments_error(bytes, memory, 0) is Some {
        let error = segments_error(bytes, memory, 0)->0;
        let i = choose|i: int|
            0 <= i < header_count(bytes) && #[trigger] segment_error(bytes, memory, i) == Some(
                error,
            );
        lemma_fields(bytes, i);
        lemma_le32_bounds(bytes, header_at(bytes, i) + 8);
        lemma_le32_bounds(bytes, header_at(bytes, i) + 12);
        lemma_le32_bounds(bytes, header_at(bytes, i) + 16);
        lemma_le32_bounds(bytes, header_at(bytes, i) + 20);
        lemma_physical(virtual_address(bytes, i), memory_size(bytes, i), memory);
        lemma_physical(physical_address(bytes, i), file_size(bytes, i), memory);
        assert(table_entry(bytes, i) == header_at(bytes, i));
    }
}

proof fn lemma_le32_bounds(bytes: Seq<u8>, at: int)
    ensures
        0 <= le32(bytes, at) < 0x1_0000_0000,
{
}

proof fn lemma_small_fields(bytes: Seq<u8>)
    ensures
        0 <= header_count(bytes) < 0x1_0000,
        0 <= entry_of(bytes) < 0x1_0000_0000,
{
}

} // verus!
