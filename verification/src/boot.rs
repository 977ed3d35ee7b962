//! Boot-information parser: validates and walks the tagged record list that
//! the boot loader leaves in memory, and recovers the physical memory map
//! and the loaded kernel's section table from it.
//!
//! The block starts with an eight-byte header (`total_size`, reserved),
//! followed by records of the form `tag_type: u32`, `tag_size: u32` (header
//! included), payload, each padded to eight-byte alignment, and ends with a
//! sentinel record of type 0 and size 8. All integers are little-endian.

use crate::error::AxiomOsErr;
use vstd::prelude::*;

verus! {

/// Tag type of the sentinel record that terminates the list.
pub const TAG_END: u32 = 0;

/// Tag type of one memory-area record.
pub const TAG_MEMORY_AREA: u32 = 6;

/// Tag type of one ELF-section record.
pub const TAG_ELF_SECTION: u32 = 9;

/// Byte size of a memory-area record: 8-byte tag header, base address,
/// length, area type, reserved padding.
pub const MEMORY_AREA_TAG_SIZE: usize = 32;

/// Byte size of an ELF-section record: 8-byte tag header, name index,
/// section type, flags, address, offset, size.
pub const ELF_SECTION_TAG_SIZE: usize = 48;

/// A contiguous physical memory range with a usage classification.
#[derive(Clone, Copy, Debug, PartialEq, Eq, Structural)]
pub struct MemoryArea {
    pub base_addr: u64,
    pub length: u64,
    pub typ: u32,
}

impl MemoryArea {
    /// The first physical address of the area.
    pub fn start_address(&self) -> (r: u64)
        ensures
            r == self.base_addr,
    {
        self.base_addr
    }

    /// The length of the area in bytes.
    pub fn size(&self) -> (r: u64)
        ensures
            r == self.length,
    {
        self.length
    }
}

/// A named region of the loaded kernel image.
#[derive(Clone, Copy, Debug, PartialEq, Eq, Structural)]
pub struct ElfSection {
    pub name_index: u32,
    pub section_type: u32,
    pub flags: u64,
    pub addr: u64,
    pub offset: u64,
    pub size: u64,
}

impl ElfSection {
    /// The virtual address the section is loaded at.
    pub fn start_address(&self) -> (r: u64)
        ensures
            r == self.addr,
    {
        self.addr
    }

    /// The size of the section in bytes.
    pub fn size(&self) -> (r: u64)
        ensures
            r == self.size,
    {
        self.size
    }

    /// The section's attribute flags.
    pub fn flags(&self) -> (r: u64)
        ensures
            r == self.flags,
    {
        self.flags
    }
}

/// The little-endian 32-bit value of four bytes.
pub open spec fn le32(b0: u8, b1: u8, b2: u8, b3: u8) -> u32 {
    (b0 as u32 | (b1 as u32) << 8 | (b2 as u32) << 16 | (b3 as u32) << 24) as u32
}

/// The little-endian 32-bit value stored at a byte offset.
pub open spec fn u32_at(d: Seq<u8>, off: int) -> u32 {
    le32(d[off], d[off + 1], d[off + 2], d[off + 3])
}

/// The little-endian 64-bit value stored at a byte offset.
pub open spec fn u64_at(d: Seq<u8>, off: int) -> u64 {
    (u32_at(d, off) as u64 | (u32_at(d, off + 4) as u64) << 32) as u64
}

/// The next multiple of eight at or above `n`.
pub open spec fn align8(n: int) -> int {
    if n % 8 == 0 {
        n
    } else {
        n + 8 - n % 8
    }
}

/// The declared total size of the block, read from its header.
pub open spec fn total_of(d: Seq<u8>) -> int {
    u32_at(d, 0) as int
}

/// Structural validity of the tag chain from `off` on: every record fits
/// inside the declared bound, recognized records are large enough for their
/// payload, and the chain reaches the sentinel record before the bound.
pub open spec fn wf_from(d: Seq<u8>, off: int) -> bool
    decreases total_of(d) - off,
{
    let total = total_of(d);
    if off + 8 > total {
        false
    } else {
        let t = u32_at(d, off);
        let s = u32_at(d, off + 4) as int;
        if t == TAG_END && s == 8 {
            true
        } else if s < 8 {
            false
        } else if off + s > total {
            false
        } else if t == TAG_MEMORY_AREA && s < MEMORY_AREA_TAG_SIZE {
            false
        } else if t == TAG_ELF_SECTION && s < ELF_SECTION_TAG_SIZE {
            false
        } else {
            let off2 = off + align8(s);
            off2 <= total && wf_from(d, off2)
        }
    }
}

/// Structural validity of a whole block: the header is present, the
/// declared size fits in the supplied bytes, and the tag chain is valid.
pub open spec fn wf_block(d: Seq<u8>) -> bool {
    &&& d.len() >= 8
    &&& 8 <= total_of(d) <= d.len()
    &&& wf_from(d, 8)
}

/// The memory-area record starting at a byte offset.
pub open spec fn area_at(d: Seq<u8>, off: int) -> MemoryArea {
    MemoryArea {
        base_addr: u64_at(d, off + 8),
        length: u64_at(d, off + 16),
        typ: u32_at(d, off + 24),
    }
}

/// The ELF-section record starting at a byte offset.
pub open spec fn section_at(d: Seq<u8>, off: int) -> ElfSection {
    ElfSection {
        name_index: u32_at(d, off + 8),
        section_type: u32_at(d, off + 12),
        flags: u64_at(d, off + 16),
        addr: u64_at(d, off + 24),
        offset: u64_at(d, off + 32),
        size: u64_at(d, off + 40),
    }
}

/// The memory areas of the tag chain from `off` on, in storage order.
pub open spec fn areas_from(d: Seq<u8>, off: int) -> Seq<MemoryArea>
    decreases total_of(d) - off,
{
    let total = total_of(d);
    if off + 8 > total {
        Seq::empty()
    } else {
        let t = u32_at(d, off);
        let s = u32_at(d, off + 4) as int;
        if t == TAG_END && s == 8 {
            Seq::empty()
        } else if s < 8 || off + s > total {
            Seq::empty()
        } else {
            let off2 = off + align8(s);
            if off2 <= total {
                if t == TAG_MEMORY_AREA && s >= MEMORY_AREA_TAG_SIZE {
                    seq![area_at(d, off)] + areas_from(d, off2)
                } else {
                    areas_from(d, off2)
                }
            } else {
                Seq::empty()
            }
        }
    }
}

/// The ELF sections of the tag chain from `off` on, in storage order.
pub open spec fn sections_from(d: Seq<u8>, off: int) -> Seq<ElfSection>
    decreases total_of(d) - off,
{
    let total = total_of(d);
    if off + 8 > total {
        Seq::empty()
    } else {
        let t = u32_at(d, off);
        let s = u32_at(d, off + 4) as int;
        if t == TAG_END && s == 8 {
            Seq::empty()
        } else if s < 8 || off + s > total {
            Seq::empty()
        } else {
            let off2 = off + align8(s);
            if off2 <= total {
                if t == TAG_ELF_SECTION && s >= ELF_SECTION_TAG_SIZE {
                    seq![section_at(d, off)] + sections_from(d, off2)
                } else {
                    sections_from(d, off2)
                }
            } else {
                Seq::empty()
            }
        }
    }
}

/// Reads the little-endian 32-bit value at a byte offset.
fn read_u32(d: &Vec<u8>, off: usize) -> (r: u32)
    requires
        off + 4 <= d@.len(),
    ensures
        r == u32_at(d@, off as int),
{
    let n = d.len();
    let b0 = d[off];
    let b1 = d[off + 1];
    let b2 = d[off + 2];
    let b3 = d[off + 3];
    b0 as u32 | (b1 as u32) << 8 | (b2 as u32) << 16 | (b3 as u32) << 24
}

/// Reads the little-endian 64-bit value at a byte offset.
fn read_u64(d: &Vec<u8>, off: usize) -> (r: u64)
    requires
        off + 8 <= d@.len(),
    ensures
        r == u64_at(d@, off as int),
{
    let n = d.len();
    let lo = read_u32(d, off);
    let hi = read_u32(d, off + 4);
    lo as u64 | (hi as u64) << 32
}

/// A validated boot-information block. Holding one is proof that the tag
/// chain inside is structurally sound, so every later walk is in bounds.
pub struct BootInfo {
    data: Vec<u8>,
}

impl View for BootInfo {
    type V = Seq<u8>;

    closed spec fn view(&self) -> Seq<u8> {
        self.data@
    }
}

impl BootInfo {
    /// The block invariant: the held bytes form a structurally valid block.
    pub open spec fn wf(self) -> bool {
        wf_block(self@)
    }

    /// Validates the supplied bytes as a boot-information block. Returns the
    /// block exactly when it is structurally valid: the header fits, the
    /// declared total size does not overrun the bytes, no record overruns
    /// the declared bound or its own payload, and the sentinel is reached.
    pub fn load(data: Vec<u8>) -> (r: Result<BootInfo, AxiomOsErr>)
        ensures
            match r {
                Ok(info) => wf_block(data@) && info@ == data@ && info.wf(),
                Err(e) => !wf_block(data@) && e == AxiomOsErr::MalformedBootInfo,
            },
    {
        let n = data.len();
        if n < 8 {
            return Err(AxiomOsErr::MalformedBootInfo);
        }
        let total = read_u32(&data, 0) as usize;
        if total < 16 || total > n {
            return Err(AxiomOsErr::MalformedBootInfo);
        }
        let mut off: usize = 8;
        loop
            invariant
                data@.len() == n,
                n >= 8,
                total == total_of(data@),
                16 <= total <= n,
                8 <= off <= total,
                wf_from(data@, 8) <==> wf_from(data@, off as int),
            decreases total_of(data@) - off,
        {
            if off > total - 8 {
                return Err(AxiomOsErr::MalformedBootInfo);
            }
            let t = read_u32(&data, off);
            let size = read_u32(&data, off + 4) as usize;
            if t == TAG_END && size == 8 {
                return Ok(BootInfo { data });
            }
            if size < 8 {
                return Err(AxiomOsErr::MalformedBootInfo);
            }
            if size > total - off {
                return Err(AxiomOsErr::MalformedBootInfo);
            }
            if t == TAG_MEMORY_AREA && size < MEMORY_AREA_TAG_SIZE {
                return Err(AxiomOsErr::MalformedBootInfo);
            }
            if t == TAG_ELF_SECTION && size < ELF_SECTION_TAG_SIZE {
                return Err(AxiomOsErr::MalformedBootInfo);
            }
            let rem = size % 8;
            let padded = if rem == 0 {
                size
            } else {
                size + (8 - rem)
            };
            proof {
                assert(padded as int == align8(size as int));
            }
            if padded > total - off {
                return Err(AxiomOsErr::MalformedBootInfo);
            }
            off = off + padded;
        }
    }

    /// The memory map: `None` when the block holds no memory-area record,
    /// otherwise every memory area in storage order. No ordering of the
    /// areas themselves is imposed or assumed.
    pub fn memory_map(&self) -> (r: Option<Vec<MemoryArea>>)
        requires
            self.wf(),
        ensures
            match r {
                Some(v) => v@ == areas_from(self@, 8) && v@.len() > 0,
                None => areas_from(self@, 8).len() == 0,
            },
    {
        let total = read_u32(&self.data, 0) as usize;
        let mut acc: Vec<MemoryArea> = Vec::new();
        let mut off: usize = 8;
        loop
            invariant
                self.wf(),
                total == total_of(self@),
                total <= self@.len(),
                8 <= off <= total,
                wf_from(self@, off as int),
                areas_from(self@, 8) == acc@ + areas_from(self@, off as int),
            decreases total_of(self@) - off,
        {
            let t = read_u32(&self.data, off);
            let size = read_u32(&self.data, off + 4) as usize;
            if t == TAG_END && size == 8 {
                proof {
                    assert(areas_from(self@, off as int) =~= Seq::<MemoryArea>::empty());
                    assert(acc@ =~= areas_from(self@, 8));
                }
                if acc.len() == 0 {
                    return None;
                }
                return Some(acc);
            }
            let ghost prev = acc@;
            if t == TAG_MEMORY_AREA {
                let base_addr = read_u64(&self.data, off + 8);
                let length = read_u64(&self.data, off + 16);
                let typ = read_u32(&self.data, off + 24);
                acc.push(MemoryArea { base_addr, length, typ });
                proof {
                    assert(acc@ =~= prev.push(area_at(self@, off as int)));
                }
            }
            let rem = size % 8;
            let padded = if rem == 0 {
                size
            } else {
                size + (8 - rem)
            };
            proof {
                assert(padded as int == align8(size as int));
                if t == TAG_MEMORY_AREA {
                    assert(areas_from(self@, off as int) == seq![area_at(self@, off as int)]
                        + areas_from(self@, off as int + padded as int));
                    assert(acc@ + areas_from(self@, off as int + padded as int) =~= prev
                        + areas_from(self@, off as int));
                } else {
                    assert(areas_from(self@, off as int) == areas_from(
                        self@,
                        off as int + padded as int,
                    ));
                }
            }
            off = off + padded;
        }
    }

    /// The section table: `None` when the block holds no ELF-section record,
    /// otherwise every section in storage order.
    pub fn elf_sections(&self) -> (r: Option<Vec<ElfSection>>)
        requires
            self.wf(),
        ensures
            match r {
                Some(v) => v@ == sections_from(self@, 8) && v@.len() > 0,
                None => sections_from(self@, 8).len() == 0,
            },
    {
        let total = read_u32(&self.data, 0) as usize;
        let mut acc: Vec<ElfSection> = Vec::new();
        let mut off: usize = 8;
        loop
            invariant
                self.wf(),
                total == total_of(self@),
                total <= self@.len(),
                8 <= off <= total,
                wf_from(self@, off as int),
                sections_from(self@, 8) == acc@ + sections_from(self@, off as int),
            decreases total_of(self@) - off,
        {
            let t = read_u32(&self.data, off);
            let size = read_u32(&self.data, off + 4) as usize;
            if t == TAG_END && size == 8 {
                proof {
                    assert(sections_from(self@, off as int) =~= Seq::<ElfSection>::empty());
                    assert(acc@ =~= sections_from(self@, 8));
                }
                if acc.len() == 0 {
                    return None;
                }
                return Some(acc);
            }
            let ghost prev = acc@;
            if t == TAG_ELF_SECTION {
                let name_index = read_u32(&self.data, off + 8);
                let section_type = read_u32(&self.data, off + 12);
                let flags = read_u64(&self.data, off + 16);
                let addr = read_u64(&self.data, off + 24);
                let offset = read_u64(&self.data, off + 32);
                let size_field = read_u64(&self.data, off + 40);
                acc.push(
                    ElfSection {
                        name_index,
                        section_type,
                        flags,
                        addr,
                        offset,
                        size: size_field,
                    },
                );
                proof {
                    assert(acc@ =~= prev.push(section_at(self@, off as int)));
                }
            }
            let rem = size % 8;
            let padded = if rem == 0 {
                size
            } else {
                size + (8 - rem)
            };
            proof {
                assert(padded as int == align8(size as int));
                if t == TAG_ELF_SECTION {
                    assert(sections_from(self@, off as int) == seq![section_at(self@, off as int)]
                        + sections_from(self@, off as int + padded as int));
                    assert(acc@ + sections_from(self@, off as int + padded as int) =~= prev
                        + sections_from(self@, off as int));
                } else {
                    assert(sections_from(self@, off as int) == sections_from(
                        self@,
                        off as int + padded as int,
                    ));
                }
            }
            off = off + padded;
        }
    }
}

/// The four little-endian bytes of a 32-bit value.
pub open spec fn le4(x: u32) -> Seq<u8> {
    seq![x as u8, (x >> 8) as u8, (x >> 16) as u8, (x >> 24) as u8]
}

/// The eight little-endian bytes of a 64-bit value.
pub open spec fn le8x(x: u64) -> Seq<u8> {
    le4(x as u32) + le4((x >> 32) as u32)
}

/// The encoded form of one memory-area record.
pub open spec fn area_bytes(a: MemoryArea) -> Seq<u8> {
    le4(TAG_MEMORY_AREA) + le4(MEMORY_AREA_TAG_SIZE as u32) + le8x(a.base_addr) + le8x(a.length)
        + le4(a.typ) + le4(0)
}

/// The encoded form of one ELF-section record.
pub open spec fn section_bytes(s: ElfSection) -> Seq<u8> {
    le4(TAG_ELF_SECTION) + le4(ELF_SECTION_TAG_SIZE as u32) + le4(s.name_index) + le4(
        s.section_type,
    ) + le8x(s.flags) + le8x(s.addr) + le8x(s.offset) + le8x(s.size)
}

/// The encoded form of the sentinel record.
pub open spec fn sentinel_bytes() -> Seq<u8> {
    le4(TAG_END) + le4(8)
}

/// The encoded form of a list of memory-area records.
pub open spec fn areas_bytes(l: Seq<MemoryArea>) -> Seq<u8>
    decreases l.len(),
{
    if l.len() == 0 {
        Seq::empty()
    } else {
        area_bytes(l[0]) + areas_bytes(l.drop_first())
    }
}

/// The encoded form of a list of ELF-section records.
pub open spec fn sections_bytes(l: Seq<ElfSection>) -> Seq<u8>
    decreases l.len(),
{
    if l.len() == 0 {
        Seq::empty()
    } else {
        section_bytes(l[0]) + sections_bytes(l.drop_first())
    }
}

proof fn lemma_areas_bytes_len(l: Seq<MemoryArea>)
    ensures
        areas_bytes(l).len() == 32 * l.len(),
    decreases l.len(),
{
    if l.len() > 0 {
        lemma_areas_bytes_len(l.drop_first());
    }
}

proof fn lemma_sections_bytes_len(l: Seq<ElfSection>)
    ensures
        sections_bytes(l).len() == 48 * l.len(),
    decreases l.len(),
{
    if l.len() > 0 {
        lemma_sections_bytes_len(l.drop_first());
    }
}

proof fn lemma_areas_bytes_snoc(l: Seq<MemoryArea>, x: MemoryArea)
    ensures
        areas_bytes(l.push(x)) == areas_bytes(l) + area_bytes(x),
    decreases l.len(),
{
    if l.len() == 0 {
        assert(l.push(x)[0] == x);
        assert(l.push(x).drop_first() =~= Seq::<MemoryArea>::empty());
        assert(areas_bytes(Seq::<MemoryArea>::empty()) =~= Seq::<u8>::empty());
        assert(areas_bytes(l.push(x)) == area_bytes(x) + areas_bytes(l.push(x).drop_first()));
        assert(areas_bytes(l) =~= Seq::<u8>::empty());
        assert(areas_bytes(l.push(x)) =~= areas_bytes(l) + area_bytes(x));
    } else {
        assert(l.push(x)[0] == l[0]);
        assert(l.push(x).drop_first() =~= l.drop_first().push(x));
        lemma_areas_bytes_snoc(l.drop_first(), x);
        assert(areas_bytes(l.push(x)) == area_bytes(l[0]) + areas_bytes(l.push(x).drop_first()));
        assert(areas_bytes(l) == area_bytes(l[0]) + areas_bytes(l.drop_first()));
        assert(areas_bytes(l.push(x)) =~= areas_bytes(l) + area_bytes(x));
    }
}

proof fn lemma_sections_bytes_snoc(l: Seq<ElfSection>, x: ElfSection)
    ensures
        sections_bytes(l.push(x)) == sections_bytes(l) + section_bytes(x),
    decreases l.len(),
{
    if l.len() == 0 {
        assert(l.push(x)[0] == x);
        assert(l.push(x).drop_first() =~= Seq::<ElfSection>::empty());
        assert(sections_bytes(Seq::<ElfSection>::empty()) =~= Seq::<u8>::empty());
        assert(sections_bytes(l.push(x)) == section_bytes(x) + sections_bytes(
            l.push(x).drop_first(),
        ));
        assert(sections_bytes(l) =~= Seq::<u8>::empty());
        assert(sections_bytes(l.push(x)) =~= sections_bytes(l) + section_bytes(x));
    } else {
        assert(l.push(x)[0] == l[0]);
        assert(l.push(x).drop_first() =~= l.drop_first().push(x));
        lemma_sections_bytes_snoc(l.drop_first(), x);
        assert(sections_bytes(l.push(x)) == section_bytes(l[0]) + sections_bytes(
            l.push(x).drop_first(),
        ));
        assert(sections_bytes(l) == section_bytes(l[0]) + sections_bytes(l.drop_first()));
        assert(sections_bytes(l.push(x)) =~= sections_bytes(l) + section_bytes(x));
    }
}

/// A window of a byte sequence that equals a known sequence can be split:
/// any sub-window equals the matching subrange of the known sequence.
proof fn lemma_subrange_shift(d: Seq<u8>, off: int, end: int, t: Seq<u8>, lo: int, hi: int)
    requires
        0 <= off <= end <= d.len(),
        d.subrange(off, end) == t,
        0 <= lo <= hi <= t.len(),
    ensures
        d.subrange(off + lo, off + hi) == t.subrange(lo, hi),
{
    assert(t.len() == end - off);
    assert forall|i: int| 0 <= i < hi - lo implies d.subrange(off + lo, off + hi)[i] == t.subrange(
        lo,
        hi,
    )[i] by {
        assert(d.subrange(off + lo, off + hi)[i] == d[off + lo + i]);
        assert(d.subrange(off, end)[lo + i] == d[off + lo + i]);
        assert(t.subrange(lo, hi)[i] == t[lo + i]);
    };
    assert(d.subrange(off + lo, off + hi) =~= t.subrange(lo, hi));
}

proof fn lemma_concat_split(x: Seq<u8>, y: Seq<u8>)
    ensures
        (x + y).subrange(0, x.len() as int) == x,
        (x + y).subrange(x.len() as int, (x + y).len() as int) == y,
{
    assert((x + y).subrange(0, x.len() as int) =~= x);
    assert((x + y).subrange(x.len() as int, (x + y).len() as int) =~= y);
}

/// Four bytes that are the little-endian encoding of a value read back as
/// that value.
proof fn lemma_read_le4(d: Seq<u8>, off: int, x: u32)
    requires
        0 <= off,
        off + 4 <= d.len(),
        d.subrange(off, off + 4) == le4(x),
    ensures
        u32_at(d, off) == x,
{
    let b0 = d[off];
    let b1 = d[off + 1];
    let b2 = d[off + 2];
    let b3 = d[off + 3];
    assert(b0 == d.subrange(off, off + 4)[0]);
    assert(b1 == d.subrange(off, off + 4)[1]);
    assert(b2 == d.subrange(off, off + 4)[2]);
    assert(b3 == d.subrange(off, off + 4)[3]);
    assert((b0 as u32 | (b1 as u32) << 8 | (b2 as u32) << 16 | (b3 as u32) << 24) == x)
        by (bit_vector)
        requires
            b0 == x as u8,
            b1 == (x >> 8) as u8,
            b2 == (x >> 16) as u8,
            b3 == (x >> 24) as u8,
    ;
}

/// Eight bytes that are the little-endian encoding of a value read back as
/// that value.
proof fn lemma_read_le8(d: Seq<u8>, off: int, x: u64)
    requires
        0 <= off,
        off + 8 <= d.len(),
        d.subrange(off, off + 8) == le8x(x),
    ensures
        u64_at(d, off) == x,
{
    lemma_concat_split(le4(x as u32), le4((x >> 32) as u32));
    lemma_subrange_shift(d, off, off + 8, le8x(x), 0, 4);
    lemma_subrange_shift(d, off, off + 8, le8x(x), 4, 8);
    assert(le8x(x).subrange(0, 4) == le4(x as u32));
    assert(le8x(x).subrange(4, 8) == le4((x >> 32) as u32));
    lemma_read_le4(d, off, x as u32);
    lemma_read_le4(d, off + 4, (x >> 32) as u32);
    let lo = u32_at(d, off);
    let hi = u32_at(d, off + 4);
    assert((lo as u64 | (hi as u64) << 32) == x)
        by (bit_vector)
        requires
            lo == x as u32,
            hi == (x >> 32) as u32,
    ;
}

/// The header and fields of an encoded memory-area record read back.
proof fn lemma_decode_area(d: Seq<u8>, off: int, a: MemoryArea)
    requires
        0 <= off,
        off + 32 <= d.len(),
        d.subrange(off, off + 32) == area_bytes(a),
    ensures
        u32_at(d, off) == TAG_MEMORY_AREA,
        u32_at(d, off + 4) == MEMORY_AREA_TAG_SIZE as u32,
        area_at(d, off) == a,
{
    assert(area_bytes(a).subrange(0, 4) =~= le4(TAG_MEMORY_AREA));
    assert(area_bytes(a).subrange(4, 8) =~= le4(MEMORY_AREA_TAG_SIZE as u32));
    assert(area_bytes(a).subrange(8, 16) =~= le8x(a.base_addr));
    assert(area_bytes(a).subrange(16, 24) =~= le8x(a.length));
    assert(area_bytes(a).subrange(24, 28) =~= le4(a.typ));
    lemma_subrange_shift(d, off, off + 32, area_bytes(a), 0, 4);
    lemma_subrange_shift(d, off, off + 32, area_bytes(a), 4, 8);
    lemma_subrange_shift(d, off, off + 32, area_bytes(a), 8, 16);
    lemma_subrange_shift(d, off, off + 32, area_bytes(a), 16, 24);
    lemma_subrange_shift(d, off, off + 32, area_bytes(a), 24, 28);
    lemma_read_le4(d, off, TAG_MEMORY_AREA);
    lemma_read_le4(d, off + 4, MEMORY_AREA_TAG_SIZE as u32);
    lemma_read_le8(d, off + 8, a.base_addr);
    lemma_read_le8(d, off + 16, a.length);
    lemma_read_le4(d, off + 24, a.typ);
}

/// The header and fields of an encoded ELF-section record read back.
proof fn lemma_decode_section(d: Seq<u8>, off: int, s0: ElfSection)
    requires
        0 <= off,
        off + 48 <= d.len(),
        d.subrange(off, off + 48) == section_bytes(s0),
    ensures
        u32_at(d, off) == TAG_ELF_SECTION,
        u32_at(d, off + 4) == ELF_SECTION_TAG_SIZE as u32,
        section_at(d, off) == s0,
{
    assert(section_bytes(s0).subrange(0, 4) =~= le4(TAG_ELF_SECTION));
    assert(section_bytes(s0).subrange(4, 8) =~= le4(ELF_SECTION_TAG_SIZE as u32));
    assert(section_bytes(s0).subrange(8, 12) =~= le4(s0.name_index));
    assert(section_bytes(s0).subrange(12, 16) =~= le4(s0.section_type));
    assert(section_bytes(s0).subrange(16, 24) =~= le8x(s0.flags));
    assert(section_bytes(s0).subrange(24, 32) =~= le8x(s0.addr));
    assert(section_bytes(s0).subrange(32, 40) =~= le8x(s0.offset));
    assert(section_bytes(s0).subrange(40, 48) =~= le8x(s0.size));
    lemma_subrange_shift(d, off, off + 48, section_bytes(s0), 0, 4);
    lemma_subrange_shift(d, off, off + 48, section_bytes(s0), 4, 8);
    lemma_subrange_shift(d, off, off + 48, section_bytes(s0), 8, 12);
    lemma_subrange_shift(d, off, off + 48, section_bytes(s0), 12, 16);
    lemma_subrange_shift(d, off, off + 48, section_bytes(s0), 16, 24);
    lemma_subrange_shift(d, off, off + 48, section_bytes(s0), 24, 32);
    lemma_subrange_shift(d, off, off + 48, section_bytes(s0), 32, 40);
    lemma_subrange_shift(d, off, off + 48, section_bytes(s0), 40, 48);
    lemma_read_le4(d, off, TAG_ELF_SECTION);
    lemma_read_le4(d, off + 4, ELF_SECTION_TAG_SIZE as u32);
    lemma_read_le4(d, off + 8, s0.name_index);
    lemma_read_le4(d, off + 12, s0.section_type);
    lemma_read_le8(d, off + 16, s0.flags);
    lemma_read_le8(d, off + 24, s0.addr);
    lemma_read_le8(d, off + 32, s0.offset);
    lemma_read_le8(d, off + 40, s0.size);
}

/// The header of the encoded sentinel record read back.
proof fn lemma_decode_sentinel(d: Seq<u8>, off: int)
    requires
        0 <= off,
        off + 8 <= d.len(),
        d.subrange(off, off + 8) == sentinel_bytes(),
    ensures
        u32_at(d, off) == TAG_END,
        u32_at(d, off + 4) == 8,
{
    assert(sentinel_bytes().subrange(0, 4) =~= le4(TAG_END));
    assert(sentinel_bytes().subrange(4, 8) =~= le4(8));
    lemma_subrange_shift(d, off, off + 8, sentinel_bytes(), 0, 4);
    lemma_subrange_shift(d, off, off + 8, sentinel_bytes(), 4, 8);
    lemma_read_le4(d, off, TAG_END);
    lemma_read_le4(d, off + 4, 8);
}

/// A chain of encoded records followed by the sentinel parses back to
/// exactly the records that were encoded, in storage order.
#[verifier::rlimit(100)]
proof fn lemma_parse_encoded(
    d: Seq<u8>,
    off: int,
    areas: Seq<MemoryArea>,
    sections: Seq<ElfSection>,
)
    requires
        total_of(d) == d.len(),
        8 <= off <= d.len(),
        d.subrange(off, d.len() as int) == areas_bytes(areas) + sections_bytes(sections)
            + sentinel_bytes(),
    ensures
        wf_from(d, off),
        areas_from(d, off) == areas,
        sections_from(d, off) == sections,
    decreases areas.len() + sections.len(),
{
    let total = d.len() as int;
    let tail = areas_bytes(areas) + sections_bytes(sections) + sentinel_bytes();
    assert(tail.len() == total - off) by {
        assert(d.subrange(off, total).len() == total - off);
    }
    assert(sentinel_bytes().len() == 8);
    if areas.len() > 0 {
        let a = areas[0];
        let rest = areas.drop_first();
        let tail2 = areas_bytes(rest) + sections_bytes(sections) + sentinel_bytes();
        assert(areas_bytes(areas) == area_bytes(a) + areas_bytes(rest));
        assert(area_bytes(a).len() == 32);
        assert(tail =~= area_bytes(a) + tail2);
        lemma_concat_split(area_bytes(a), tail2);
        lemma_subrange_shift(d, off, total, tail, 0, 32);
        lemma_subrange_shift(d, off, total, tail, 32, tail.len() as int);
        assert(d.subrange(off, off + 32) == area_bytes(a));
        assert(d.subrange(off + 32, total) == tail2);
        lemma_decode_area(d, off, a);
        assert(align8(32) == 32);
        lemma_parse_encoded(d, off + 32, rest, sections);
        assert(areas_from(d, off) =~= areas);
    } else if sections.len() > 0 {
        let s0 = sections[0];
        let rest = sections.drop_first();
        let tail2 = sections_bytes(rest) + sentinel_bytes();
        assert(areas_bytes(areas) =~= Seq::<u8>::empty());
        assert(sections_bytes(sections) == section_bytes(s0) + sections_bytes(rest));
        assert(section_bytes(s0).len() == 48);
        assert(tail =~= section_bytes(s0) + tail2);
        lemma_concat_split(section_bytes(s0), tail2);
        lemma_subrange_shift(d, off, total, tail, 0, 48);
        lemma_subrange_shift(d, off, total, tail, 48, tail.len() as int);
        assert(d.subrange(off, off + 48) == section_bytes(s0));
        assert(d.subrange(off + 48, total) =~= areas_bytes(Seq::<MemoryArea>::empty())
            + sections_bytes(rest) + sentinel_bytes());
        lemma_decode_section(d, off, s0);
        assert(align8(48) == 48);
        lemma_parse_encoded(d, off + 48, Seq::<MemoryArea>::empty(), rest);
        assert(sections_from(d, off) =~= sections);
        assert(areas_from(d, off) =~= areas);
    } else {
        assert(areas_bytes(areas) =~= Seq::<u8>::empty());
        assert(sections_bytes(sections) =~= Seq::<u8>::empty());
        assert(tail =~= sentinel_bytes());
        assert(tail.len() == 8);
        assert(d.subrange(off, off + 8) == tail);
        lemma_decode_sentinel(d, off);
        assert(wf_from(d, off));
        assert(areas_from(d, off) =~= areas);
        assert(sections_from(d, off) =~= sections);
    }
}

/// Appends the four little-endian bytes of a 32-bit value.
fn push_u32(out: &mut Vec<u8>, x: u32)
    ensures
        final(out)@ == old(out)@ + le4(x),
{
    out.push(#[verifier::truncate] (x as u8));
    out.push(#[verifier::truncate] ((x >> 8) as u8));
    out.push(#[verifier::truncate] ((x >> 16) as u8));
    out.push(#[verifier::truncate] ((x >> 24) as u8));
    proof {
        assert(out@ =~= old(out)@ + le4(x));
    }
}

/// Appends the eight little-endian bytes of a 64-bit value.
fn push_u64(out: &mut Vec<u8>, x: u64)
    ensures
        final(out)@ == old(out)@ + le8x(x),
{
    push_u32(out, #[verifier::truncate] (x as u32));
    push_u32(out, #[verifier::truncate] ((x >> 32) as u32));
    proof {
        assert(out@ =~= old(out)@ + le8x(x));
    }
}

/// Appends one encoded memory-area record.
fn push_area_tag(out: &mut Vec<u8>, a: MemoryArea)
    ensures
        final(out)@ == old(out)@ + area_bytes(a),
{
    push_u32(out, TAG_MEMORY_AREA);
    push_u32(out, MEMORY_AREA_TAG_SIZE as u32);
    push_u64(out, a.base_addr);
    push_u64(out, a.length);
    push_u32(out, a.typ);
    push_u32(out, 0);
    proof {
        assert(out@ =~= old(out)@ + area_bytes(a));
    }
}

/// Appends one encoded ELF-section record.
fn push_section_tag(out: &mut Vec<u8>, s: ElfSection)
    ensures
        final(out)@ == old(out)@ + section_bytes(s),
{
    push_u32(out, TAG_ELF_SECTION);
    push_u32(out, ELF_SECTION_TAG_SIZE as u32);
    push_u32(out, s.name_index);
    push_u32(out, s.section_type);
    push_u64(out, s.flags);
    push_u64(out, s.addr);
    push_u64(out, s.offset);
    push_u64(out, s.size);
    proof {
        assert(out@ =~= old(out)@ + section_bytes(s));
    }
}

/// Builds a boot-information block that carries exactly the given memory
/// areas and ELF sections, in that order, terminated by the sentinel. The
/// result is structurally valid and parses back to exactly the given
/// records in storage order: the memory-map round trip, proved for every
/// input.
pub fn build_block(areas: &Vec<MemoryArea>, sections: &Vec<ElfSection>) -> (r: Vec<u8>)
    requires
        16 + 32 * areas@.len() + 48 * sections@.len() <= u32::MAX,
    ensures
        wf_block(r@),
        total_of(r@) == r@.len(),
        r@.len() == 16 + 32 * areas@.len() + 48 * sections@.len(),
        areas_from(r@, 8) == areas@,
        sections_from(r@, 8) == sections@,
{
    let n_a = areas.len();
    let n_s = sections.len();
    let total: u32 = 16 + 32 * (n_a as u32) + 48 * (n_s as u32);
    let mut out: Vec<u8> = Vec::new();
    push_u32(&mut out, total);
    push_u32(&mut out, 0);
    let mut i: usize = 0;
    while i < n_a
        invariant
            i <= n_a,
            n_a == areas@.len(),
            out@ == le4(total) + le4(0) + areas_bytes(areas@.take(i as int)),
        decreases n_a - i,
    {
        push_area_tag(&mut out, areas[i]);
        proof {
            lemma_areas_bytes_snoc(areas@.take(i as int), areas@[i as int]);
            assert(areas@.take(i as int).push(areas@[i as int]) =~= areas@.take(i + 1));
            assert(out@ =~= le4(total) + le4(0) + areas_bytes(areas@.take(i + 1)));
        }
        i = i + 1;
    }
    proof {
        assert(areas@.take(n_a as int) =~= areas@);
    }
    let mut j: usize = 0;
    while j < n_s
        invariant
            j <= n_s,
            n_s == sections@.len(),
            out@ == le4(total) + le4(0) + areas_bytes(areas@) + sections_bytes(
                sections@.take(j as int),
            ),
        decreases n_s - j,
    {
        push_section_tag(&mut out, sections[j]);
        proof {
            lemma_sections_bytes_snoc(sections@.take(j as int), sections@[j as int]);
            assert(sections@.take(j as int).push(sections@[j as int]) =~= sections@.take(j + 1));
            assert(out@ =~= le4(total) + le4(0) + areas_bytes(areas@) + sections_bytes(
                sections@.take(j + 1),
            ));
        }
        j = j + 1;
    }
    proof {
        assert(sections@.take(n_s as int) =~= sections@);
    }
    push_u32(&mut out, TAG_END);
    push_u32(&mut out, 8);
    proof {
        let d = out@;
        let body = areas_bytes(areas@) + sections_bytes(sections@) + sentinel_bytes();
        assert(d =~= le4(total) + le4(0) + areas_bytes(areas@) + sections_bytes(sections@)
            + sentinel_bytes());
        lemma_areas_bytes_len(areas@);
        lemma_sections_bytes_len(sections@);
        assert(d.len() == 16 + 32 * areas@.len() + 48 * sections@.len());
        assert(d.len() == total as int);
        assert(d.subrange(0, 4) =~= le4(total));
        lemma_read_le4(d, 0, total);
        assert(total_of(d) == d.len());
        assert(d.subrange(8, d.len() as int) =~= body);
        lemma_parse_encoded(d, 8, areas@, sections@);
    }
    out
}

/// The offsets of the records a walk of the tag chain visits, the sentinel
/// included.
pub open spec fn tag_offsets(d: Seq<u8>, off: int) -> Seq<int>
    decreases total_of(d) - off,
{
    let total = total_of(d);
    if off + 8 > total {
        Seq::empty()
    } else {
        let t = u32_at(d, off);
        let s = u32_at(d, off + 4) as int;
        if t == TAG_END && s == 8 {
            seq![off]
        } else if s < 8 || off + s > total {
            seq![off]
        } else {
            let off2 = off + align8(s);
            if off2 <= total {
                seq![off] + tag_offsets(d, off2)
            } else {
                seq![off]
            }
        }
    }
}

/// Tag-walk termination: over a valid chain the walk visits strictly
/// increasing offsets — every record exactly once, each with room for its
/// header inside the declared bound — and stops at the sentinel, which is
/// the last record visited.
pub proof fn lemma_tag_walk(d: Seq<u8>, off: int)
    requires
        0 <= off,
        wf_from(d, off),
    ensures
        tag_offsets(d, off).len() > 0,
        tag_offsets(d, off)[0] == off,
        forall|i: int|
            0 <= i < tag_offsets(d, off).len() - 1 ==> #[trigger] tag_offsets(d, off)[i]
                < tag_offsets(d, off)[i + 1],
        forall|i: int|
            0 <= i < tag_offsets(d, off).len() ==> off <= #[trigger] tag_offsets(d, off)[i]
                && tag_offsets(d, off)[i] + 8 <= total_of(d),
        u32_at(d, tag_offsets(d, off).last()) == TAG_END,
        u32_at(d, tag_offsets(d, off).last() + 4) == 8,
    decreases total_of(d) - off,
{
    let total = total_of(d);
    let t = u32_at(d, off);
    let s = u32_at(d, off + 4) as int;
    if t == TAG_END && s == 8 {
        assert(tag_offsets(d, off) =~= seq![off]);
    } else {
        let off2 = off + align8(s);
        let offs = tag_offsets(d, off);
        let rec = tag_offsets(d, off2);
        lemma_tag_walk(d, off2);
        assert(offs =~= seq![off] + rec);
        assert(offs.last() == rec.last());
        assert forall|i: int| 0 <= i < offs.len() - 1 implies #[trigger] offs[i] < offs[i + 1] by {
            if i == 0 {
                assert(offs[0] == off);
                assert(offs[1] == rec[0]);
                assert(rec[0] == off2);
            } else {
                assert(offs[i] == rec[i - 1]);
                assert(offs[i + 1] == rec[i]);
                assert(rec[i - 1] < rec[i]);
            }
        };
        assert forall|i: int| 0 <= i < offs.len() implies off <= #[trigger] offs[i] && offs[i] + 8
            <= total by {
            if i > 0 {
                assert(offs[i] == rec[i - 1]);
                assert(off2 <= rec[i - 1]);
            }
        };
    }
}

} // verus!
