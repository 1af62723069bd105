//! Reading the loadable segments of a 64-bit little-endian ELF image.
//!
//! Each field that the loader needs is a little-endian integer at a fixed
//! offset, of the header or of a program header.

use vstd::bytes::{spec_u16_from_le_bytes, spec_u32_from_le_bytes, spec_u64_from_le_bytes};
use vstd::prelude::*;

verus! {

pub open spec fn le_u16(data: Seq<u8>, off: int) -> u16 {
    spec_u16_from_le_bytes(data.subrange(off, off + 2))
}

pub open spec fn le_u32(data: Seq<u8>, off: int) -> u32 {
    spec_u32_from_le_bytes(data.subrange(off, off + 4))
}

pub open spec fn le_u64(data: Seq<u8>, off: int) -> u64 {
    spec_u64_from_le_bytes(data.subrange(off, off + 8))
}

/// `e_entry`: the entry point.
pub open spec fn elf_entry_point(data: Seq<u8>) -> u64 {
    le_u64(data, 24)
}

/// `e_phoff`: where the program header table starts.
pub open spec fn elf_ph_offset(data: Seq<u8>) -> u64 {
    le_u64(data, 32)
}

/// `e_phentsize`: the size of one program header.
pub open spec fn elf_ph_entry_size(data: Seq<u8>) -> u16 {
    le_u16(data, 54)
}

/// `e_phnum`: the number of program headers.
pub open spec fn elf_ph_count(data: Seq<u8>) -> u16 {
    le_u16(data, 56)
}

/// Where program header `i` starts.
pub open spec fn ph_base(data: Seq<u8>, i: u16) -> int {
    elf_ph_offset(data) + i * elf_ph_entry_size(data)
}

/// `p_type == PT_LOAD`.
pub open spec fn elf_ph_is_load(data: Seq<u8>, i: u16) -> bool {
    le_u32(data, ph_base(data, i)) == PT_LOAD
}

/// `p_flags`.
pub open spec fn elf_ph_flags(data: Seq<u8>, i: u16) -> u32 {
    le_u32(data, ph_base(data, i) + 4)
}

/// `p_offset`.
pub open spec fn elf_ph_file_offset(data: Seq<u8>, i: u16) -> u64 {
    le_u64(data, ph_base(data, i) + 8)
}

/// `p_vaddr`.
pub open spec fn elf_ph_vaddr(data: Seq<u8>, i: u16) -> u64 {
    le_u64(data, ph_base(data, i) + 16)
}

/// `p_filesz`.
pub open spec fn elf_ph_file_size(data: Seq<u8>, i: u16) -> u64 {
    le_u64(data, ph_base(data, i) + 32)
}

/// `p_memsz`.
pub open spec fn elf_ph_mem_size(data: Seq<u8>, i: u16) -> u64 {
    le_u64(data, ph_base(data, i) + 40)
}

/// The ELF magic number.
pub const ELF_MAGIC: [u8; 4] = [0x7f, 0x45, 0x4c, 0x46];

/// The program header type of a loadable segment.
pub const PT_LOAD: u32 = 1;

/// Segment flag bits.
pub const PF_X: u32 = 1;

pub const PF_W: u32 = 2;

pub const PF_R: u32 = 4;

/// The image starts with the ELF magic number.
pub open spec fn elf_magic_ok(data: Seq<u8>) -> bool {
    data.len() >= 4 && data[0] == 0x7f && data[1] == 0x45 && data[2] == 0x4c && data[3] == 0x46
}

/// A 64-bit ELF header: 64 bytes at least, the magic number, class 2.
pub open spec fn elf64_header_ok(data: Seq<u8>) -> bool {
    &&& data.len() >= 64
    &&& elf_magic_ok(data)
    &&& data[4] == 2
}

/// The program header table lies inside the image, and its entries are
/// large enough for 64-bit program headers.
pub open spec fn ph_table_ok(data: Seq<u8>) -> bool {
    &&& elf64_header_ok(data)
    &&& elf_ph_entry_size(data) >= 56
    &&& elf_ph_offset(data) + elf_ph_count(data) * elf_ph_entry_size(data) <= data.len()
}

fn read_u16(data: &[u8], off: usize) -> (r: u16)
    requires
        off + 2 <= data@.len(),
    ensures
        r == le_u16(data@, off as int),
{
    let _len = data.len();
    vstd::bytes::u16_from_le_bytes(vstd::slice::slice_subrange(data, off, off + 2))
}

fn read_u32(data: &[u8], off: usize) -> (r: u32)
    requires
        off + 4 <= data@.len(),
    ensures
        r == le_u32(data@, off as int),
{
    let _len = data.len();
    vstd::bytes::u32_from_le_bytes(vstd::slice::slice_subrange(data, off, off + 4))
}

fn read_u64(data: &[u8], off: usize) -> (r: u64)
    requires
        off + 8 <= data@.len(),
    ensures
        r == le_u64(data@, off as int),
{
    let _len = data.len();
    vstd::bytes::u64_from_le_bytes(vstd::slice::slice_subrange(data, off, off + 8))
}

/// A loadable segment: where it goes, how large it is in memory, where
/// its bytes are in the image, and its R/W/X flags.
#[derive(Clone, Copy, Debug, PartialEq, Eq, Structural)]
pub struct ElfSegment {
    pub vaddr: u64,
    pub mem_size: u64,
    pub offset: u64,
    pub file_size: u64,
    pub flags: u32,
}

pub open spec fn segment_at(data: Seq<u8>, i: u16) -> ElfSegment {
    ElfSegment {
        vaddr: elf_ph_vaddr(data, i),
        mem_size: elf_ph_mem_size(data, i),
        offset: elf_ph_file_offset(data, i),
        file_size: elf_ph_file_size(data, i),
        flags: elf_ph_flags(data, i),
    }
}

/// The LOAD segments among the first `n` program headers, in order.
pub open spec fn load_segments_upto(data: Seq<u8>, n: int) -> Seq<ElfSegment>
    decreases n,
{
    if n <= 0 {
        Seq::empty()
    } else {
        let prev = load_segments_upto(data, n - 1);
        if elf_ph_is_load(data, (n - 1) as u16) {
            prev.push(segment_at(data, (n - 1) as u16))
        } else {
            prev
        }
    }
}

/// Whether `data` starts with the ELF magic number.
pub fn has_elf_magic(data: &[u8]) -> (r: bool)
    ensures
        r == elf_magic_ok(data@),
{
    data.len() >= 4 && data[0] == ELF_MAGIC[0] && data[1] == ELF_MAGIC[1] && data[2] == ELF_MAGIC[2]
        && data[3] == ELF_MAGIC[3]
}

/// Whether `data` starts with a 64-bit ELF header.
pub fn is_elf64(data: &[u8]) -> (r: bool)
    ensures
        r == elf64_header_ok(data@),
{
    has_elf_magic(data) && data.len() >= 64 && data[4] == 2
}

/// The LOAD segments of a 64-bit ELF image, in the order of its program
/// headers; `None` when the header or the program header table is bad.
pub fn load_segments(data: &[u8]) -> (r: Option<Vec<ElfSegment>>)
    ensures
        r is Some <==> ph_table_ok(data@),
        r is Some ==> r->Some_0@ == load_segments_upto(data@, elf_ph_count(data@) as int),
{
    if !is_elf64(data) {
        return None;
    }
    let phoff = read_u64(data, 32);
    let entsize = read_u16(data, 54);
    let count = read_u16(data, 56);
    proof {
        assert((count as u64) * (entsize as u64) <= 0xffff * 0xffff) by (nonlinear_arith)
            requires count <= 0xffff, entsize <= 0xffff;
    }
    let table = (count as u64) * (entsize as u64);
    if entsize < 56 || phoff > data.len() as u64 || table > data.len() as u64 - phoff {
        return None;
    }
    let mut segs: Vec<ElfSegment> = Vec::new();
    let mut i: u16 = 0;
    while i < count
        invariant
            i <= count,
            count == elf_ph_count(data@),
            phoff == elf_ph_offset(data@),
            entsize == elf_ph_entry_size(data@),
            data@.len() == data.len(),
            ph_table_ok(data@),
            segs@ == load_segments_upto(data@, i as int),
        decreases count - i,
    {
        proof {
            assert((i + 1) * elf_ph_entry_size(data@) <= count * elf_ph_entry_size(data@)) by (nonlinear_arith)
                requires i + 1 <= count;
        }
        proof {
            assert((i as u64) * (entsize as u64) + entsize <= count * entsize) by (nonlinear_arith)
                requires i + 1 <= count;
        }
        let _len = data.len();
        let base = (phoff + (i as u64) * (entsize as u64)) as usize;
        proof {
            assert(base + 56 <= data@.len());
            assert(base as int == ph_base(data@, i));
        }
        if read_u32(data, base) == PT_LOAD {
            let seg = ElfSegment {
                vaddr: read_u64(data, base + 16),
                mem_size: read_u64(data, base + 40),
                offset: read_u64(data, base + 8),
                file_size: read_u64(data, base + 32),
                flags: read_u32(data, base + 4),
            };
            segs.push(seg);
        }
        i = i + 1;
    }
    Some(segs)
}

/// The entry point of a 64-bit ELF image.
pub fn entry_point(data: &[u8]) -> (r: Option<u64>)
    ensures
        r is Some <==> elf64_header_ok(data@),
        r is Some ==> r->Some_0 == elf_entry_point(data@),
{
    if !is_elf64(data) {
        return None;
    }
    Some(read_u64(data, 24))
}

} // verus!
