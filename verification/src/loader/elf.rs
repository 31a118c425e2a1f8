//! ELF64 headers and program headers of the kernel image.

use vstd::prelude::*;

use crate::bytes::{le_u16, le_u32, le_u64, spec_le_u16, spec_le_u32, spec_le_u64};

verus! {

pub const ELF_CLASS_64: u8 = 2;
pub const ELF_DATA_LE: u8 = 1;
pub const ELF_MACHINE_X86_64: u16 = 0x3e;
pub const ELF_TYPE_EXEC: u16 = 2;
pub const ELF_TYPE_DYN: u16 = 3;
pub const PT_LOAD: u32 = 1;

/// A parsing failure, named by the check that failed.
#[derive(Clone, Copy, Debug)]
pub struct ElfError {
    pub stage: &'static str,
}

/// A loadable segment as its program header describes it.
#[derive(Clone, Copy, Debug, PartialEq, Eq, Structural)]
pub struct LoadSegment {
    pub file_offset: u64,
    pub virtual_address: u64,
    pub file_size: u64,
    pub memory_size: u64,
    pub flags: u32,
    pub align: u64,
}

/// `value` capped at `usize::MAX`.
pub open spec fn saturate(value: int) -> int {
    if value > usize::MAX { usize::MAX as int } else { value }
}

/// The first failed check of the ELF header's fixed part, if any: size, magic,
/// class, byte order, type, machine and header size, in that order.
pub open spec fn spec_header_prefix_error(b: Seq<u8>) -> Option<&'static str> {
    if b.len() < 64 {
        Some("ehdr_size")
    } else if !(b[0] == 0x7f && b[1] == 0x45 && b[2] == 0x4c && b[3] == 0x46) {
        Some("magic")
    } else if b[4] != ELF_CLASS_64 {
        Some("class")
    } else if b[5] != ELF_DATA_LE {
        Some("endianness")
    } else if spec_le_u16(b, 16) != ELF_TYPE_EXEC && spec_le_u16(b, 16) != ELF_TYPE_DYN {
        Some("type")
    } else if spec_le_u16(b, 18) != ELF_MACHINE_X86_64 {
        Some("machine")
    } else if spec_le_u16(b, 52) < 64 {
        Some("ehsize")
    } else {
        None
    }
}

/// The program-header table's offset, entry size and entry count.
pub open spec fn spec_phoff(b: Seq<u8>) -> int {
    (spec_le_u64(b, 32) as u64) as usize as int
}

pub open spec fn spec_phentsize(b: Seq<u8>) -> int {
    spec_le_u16(b, 54)
}

pub open spec fn spec_phnum(b: Seq<u8>) -> int {
    spec_le_u16(b, 56)
}

/// What `required_header_bytes` gives: the end of the program-header table (capped
/// at `usize::MAX`), or the stage whose check failed.
pub open spec fn spec_required_header_bytes(b: Seq<u8>) -> Result<int, &'static str> {
    match spec_header_prefix_error(b) {
        Some(stage) => Err(stage),
        None => if spec_phentsize(b) < 56 {
            Err("phentsize")
        } else {
            Ok(saturate(spec_phoff(b) + saturate(spec_phentsize(b) * spec_phnum(b))))
        },
    }
}

/// An ELF64 header is accepted exactly when it is at least 64 bytes long, has the
/// magic bytes, class 64-bit, little-endian data, type executable (2) or shared
/// object (3), machine x86_64 and a header size of at least 64, and names program
/// headers of at least 56 bytes; the size it needs is then the end of the
/// program-header table. A header that passes the earlier checks but has any other
/// type is refused for its type.
pub proof fn lemma_header_acceptance(b: Seq<u8>)
    ensures
        ({
            let checks = b.len() >= 64 && b[0] == 0x7f && b[1] == 0x45 && b[2] == 0x4c && b[3] == 0x46 && b[4] == 2 && b[5] == 1
                && (spec_le_u16(b, 16) == 2 || spec_le_u16(b, 16) == 3) && spec_le_u16(b, 18) == 0x3e && spec_le_u16(b, 52) >= 64;
            &&& spec_header_prefix_error(b) is None <==> checks
            &&& checks && spec_le_u16(b, 54) >= 56 ==> spec_required_header_bytes(b) == Ok::<int, &'static str>(
                saturate(spec_phoff(b) + saturate(spec_le_u16(b, 54) * spec_le_u16(b, 56))),
            )
            &&& checks ==> spec_required_header_bytes(b) is Ok || spec_le_u16(b, 54) < 56
            &&& b.len() >= 64 && b[0] == 0x7f && b[1] == 0x45 && b[2] == 0x4c && b[3] == 0x46 && b[4] == 2 && b[5] == 1
                && spec_le_u16(b, 16) != 2 && spec_le_u16(b, 16) != 3 ==> spec_header_prefix_error(b) == Some("type")
        }),
{
}

fn read_u16(bytes: &[u8], offset: usize) -> (result: Result<u16, ElfError>)
    ensures
        offset + 2 <= bytes@.len() ==> (result matches Ok(v) && v == spec_le_u16(bytes@, offset as int)),
        offset + 2 > bytes@.len() ==> (result matches Err(e) && e.stage == "u16_bounds"),
{
    let len = bytes.len();
    if offset > len || len - offset < 2 {
        return Err(ElfError { stage: "u16_bounds" });
    }
    Ok(le_u16(bytes, offset))
}

fn read_u32(bytes: &[u8], offset: usize) -> (result: Result<u32, ElfError>)
    ensures
        offset + 4 <= bytes@.len() ==> (result matches Ok(v) && v == spec_le_u32(bytes@, offset as int)),
        offset + 4 > bytes@.len() ==> (result matches Err(e) && e.stage == "u32_bounds"),
{
    let len = bytes.len();
    if offset > len || len - offset < 4 {
        return Err(ElfError { stage: "u32_bounds" });
    }
    Ok(le_u32(bytes, offset))
}

fn read_u64(bytes: &[u8], offset: usize) -> (result: Result<u64, ElfError>)
    ensures
        offset + 8 <= bytes@.len() ==> (result matches Ok(v) && v == spec_le_u64(bytes@, offset as int)),
        offset + 8 > bytes@.len() ==> (result matches Err(e) && e.stage == "u64_bounds"),
{
    let len = bytes.len();
    if offset > len || len - offset < 8 {
        return Err(ElfError { stage: "u64_bounds" });
    }
    Ok(le_u64(bytes, offset))
}

/// Checks the fixed part of the ELF header.
fn validate_header_prefix(bytes: &[u8]) -> (result: Result<(), ElfError>)
    ensures
        match spec_header_prefix_error(bytes@) {
            None => result is Ok,
            Some(stage) => result matches Err(e) && e.stage == stage,
        },
{
    if bytes.len() < 64 {
        return Err(ElfError { stage: "ehdr_size" });
    }
    if !(bytes[0] == 0x7f && bytes[1] == 0x45 && bytes[2] == 0x4c && bytes[3] == 0x46) {
        return Err(ElfError { stage: "magic" });
    }
    if bytes[4] != ELF_CLASS_64 {
        return Err(ElfError { stage: "class" });
    }
    if bytes[5] != ELF_DATA_LE {
        return Err(ElfError { stage: "endianness" });
    }
    let elf_type = match read_u16(bytes, 16) {
        Ok(v) => v,
        Err(e) => {
            return Err(e);
        },
    };
    if elf_type != ELF_TYPE_EXEC && elf_type != ELF_TYPE_DYN {
        return Err(ElfError { stage: "type" });
    }
    let machine = match read_u16(bytes, 18) {
        Ok(v) => v,
        Err(e) => {
            return Err(e);
        },
    };
    if machine != ELF_MACHINE_X86_64 {
        return Err(ElfError { stage: "machine" });
    }
    let ehsize = match read_u16(bytes, 52) {
        Ok(v) => v,
        Err(e) => {
            return Err(e);
        },
    };
    if (ehsize as usize) < 64 {
        return Err(ElfError { stage: "ehsize" });
    }
    Ok(())
}

/// The bytes from the start of the file to the end of the program-header table,
/// after checking the header.
pub fn required_header_bytes(bytes: &[u8]) -> (result: Result<usize, ElfError>)
    ensures
        match spec_required_header_bytes(bytes@) {
            Ok(n) => result == Ok::<usize, ElfError>(n as usize),
            Err(stage) => result matches Err(e) && e.stage == stage,
        },
{
    match validate_header_prefix(bytes) {
        Ok(()) => {},
        Err(e) => {
            return Err(e);
        },
    }
    let phentsize = match read_u16(bytes, 54) {
        Ok(v) => v as usize,
        Err(e) => {
            return Err(e);
        },
    };
    if phentsize < 56 {
        return Err(ElfError { stage: "phentsize" });
    }
    let phoff = match read_u64(bytes, 32) {
        Ok(v) => v as usize,
        Err(e) => {
            return Err(e);
        },
    };
    let phnum = match read_u16(bytes, 56) {
        Ok(v) => v as usize,
        Err(e) => {
            return Err(e);
        },
    };
    let table = match phentsize.checked_mul(phnum) {
        Some(n) => n,
        None => usize::MAX,
    };
    let end = match phoff.checked_add(table) {
        Some(n) => n,
        None => usize::MAX,
    };
    Ok(end)
}

/// A kernel image whose ELF header checks out and whose program-header table lies
/// within its bytes.
#[derive(Clone, Copy)]
pub struct ElfImage<'a> {
    bytes: &'a [u8],
}

impl<'a> ElfImage<'a> {
    #[verifier::type_invariant]
    spec fn wf(self) -> bool {
        &&& spec_required_header_bytes(self.bytes@) matches Ok(n) && n <= self.bytes@.len()
        &&& self.bytes@.len() <= isize::MAX
    }

    /// The image's bytes.
    pub closed spec fn spec_bytes(self) -> Seq<u8> {
        self.bytes@
    }

    /// Checks the header and that the program-header table fits in `bytes`.
    pub fn parse(bytes: &'a [u8]) -> (result: Result<Self, ElfError>)
        requires
            bytes@.len() <= isize::MAX,
        ensures
            match spec_required_header_bytes(bytes@) {
                Ok(n) => if n <= bytes@.len() {
                    result matches Ok(image) && image.spec_bytes() == bytes@
                } else {
                    result matches Err(e) && e.stage == "ph_table_bounds"
                },
                Err(stage) => result matches Err(e) && e.stage == stage,
            },
    {
        let ph_table_end = match required_header_bytes(bytes) {
            Ok(n) => n,
            Err(e) => {
                return Err(e);
            },
        };
        if ph_table_end > bytes.len() {
            return Err(ElfError { stage: "ph_table_bounds" });
        }
        Ok(ElfImage { bytes })
    }

    /// The entry point recorded in the header.
    pub fn entry_point(&self) -> (result: Result<u64, ElfError>)
        ensures
            result == Ok::<u64, ElfError>(spec_le_u64(self.spec_bytes(), 24) as u64),
    {
        proof {
            use_type_invariant(self);
        }
        read_u64(self.bytes, 24)
    }

    /// Walks the program headers from the first.
    pub fn load_segments(&self) -> (iter: LoadSegmentIter<'a>)
        ensures
            iter.spec_bytes() == self.spec_bytes(),
            iter.spec_phoff() == spec_phoff(self.spec_bytes()),
            iter.spec_phentsize() == spec_phentsize(self.spec_bytes()),
            iter.spec_phnum() == spec_phnum(self.spec_bytes()),
            iter.spec_index() == 0,
    {
        proof {
            use_type_invariant(self);
            let b = self.bytes@;
            let ps = spec_phentsize(b);
            let pn = spec_phnum(b);
            assert(ps * pn >= 0 && ps * pn == pn * ps) by (nonlinear_arith)
                requires
                    ps >= 0,
                    pn >= 0,
            ;
        }
        let phoff = match read_u64(self.bytes, 32) {
            Ok(v) => v as usize,
            Err(_) => 0,
        };
        let phentsize = match read_u16(self.bytes, 54) {
            Ok(v) => v as usize,
            Err(_) => 0,
        };
        let phnum = match read_u16(self.bytes, 56) {
            Ok(v) => v as usize,
            Err(_) => 0,
        };
        LoadSegmentIter { bytes: self.bytes, phoff, phentsize, index: 0, phnum }
    }
}

/// Program header `i` of a table at `phoff` with entries of `phentsize` bytes.
pub open spec fn ph_offset(phoff: int, phentsize: int, i: int) -> int {
    phoff + i * phentsize
}

/// The loadable segment the program header at byte `off` describes.
pub open spec fn spec_segment_at(b: Seq<u8>, off: int) -> LoadSegment {
    LoadSegment {
        file_offset: spec_le_u64(b, off + 8) as u64,
        virtual_address: spec_le_u64(b, off + 16) as u64,
        file_size: spec_le_u64(b, off + 32) as u64,
        memory_size: spec_le_u64(b, off + 40) as u64,
        flags: spec_le_u32(b, off + 4) as u32,
        align: spec_le_u64(b, off + 48) as u64,
    }
}

/// The first loadable program header at or after `i`, if any.
pub open spec fn first_load_from(b: Seq<u8>, phoff: int, phentsize: int, phnum: int, i: int) -> Option<int>
    decreases phnum - i,
{
    if i >= phnum {
        None
    } else if spec_le_u32(b, ph_offset(phoff, phentsize, i)) == PT_LOAD {
        Some(i)
    } else {
        first_load_from(b, phoff, phentsize, phnum, i + 1)
    }
}

/// A walk over the loadable segments of an image.
pub struct LoadSegmentIter<'a> {
    bytes: &'a [u8],
    phoff: usize,
    phentsize: usize,
    index: usize,
    phnum: usize,
}

impl<'a> LoadSegmentIter<'a> {
    #[verifier::type_invariant]
    spec fn wf(self) -> bool {
        &&& self.phentsize >= 56
        &&& self.index <= self.phnum
        &&& self.phoff + self.phnum * self.phentsize <= self.bytes@.len()
        &&& self.bytes@.len() <= isize::MAX
    }

    pub closed spec fn spec_bytes(self) -> Seq<u8> {
        self.bytes@
    }

    pub closed spec fn spec_phoff(self) -> int {
        self.phoff as int
    }

    pub closed spec fn spec_phentsize(self) -> int {
        self.phentsize as int
    }

    pub closed spec fn spec_phnum(self) -> int {
        self.phnum as int
    }

    pub closed spec fn spec_index(self) -> int {
        self.index as int
    }

    /// The next loadable segment: the first program header of type `PT_LOAD` at or
    /// after the current one. Reading a header never fails here, since the table
    /// lies within the image.
    pub fn next(&mut self) -> (segment: Option<Result<LoadSegment, ElfError>>)
        ensures
            final(self).spec_bytes() == old(self).spec_bytes(),
            final(self).spec_phoff() == old(self).spec_phoff(),
            final(self).spec_phentsize() == old(self).spec_phentsize(),
            final(self).spec_phnum() == old(self).spec_phnum(),
            match first_load_from(
                old(self).spec_bytes(),
                old(self).spec_phoff(),
                old(self).spec_phentsize(),
                old(self).spec_phnum(),
                old(self).spec_index(),
            ) {
                Some(i) => {
                    &&& segment == Some(Ok::<LoadSegment, ElfError>(spec_segment_at(
                        old(self).spec_bytes(),
                        ph_offset(old(self).spec_phoff(), old(self).spec_phentsize(), i),
                    )))
                    &&& final(self).spec_index() == i + 1
                },
                None => segment is None && final(self).spec_index() == old(self).spec_phnum(),
            },
    {
        proof {
            use_type_invariant(&*self);
        }
        let ghost b = self.bytes@;
        let ghost start = self.index as int;
        while self.index < self.phnum
            invariant_except_break
                self.bytes@ == b,
                b == old(self).bytes@,
                start == old(self).index,
                self.phoff == old(self).phoff,
                self.phentsize == old(self).phentsize,
                self.phnum == old(self).phnum,
                start <= self.index <= self.phnum,
                self.phentsize >= 56,
                self.phoff + self.phnum * self.phentsize <= b.len(),
                b.len() <= isize::MAX,
                first_load_from(b, self.phoff as int, self.phentsize as int, self.phnum as int, start)
                    == first_load_from(b, self.phoff as int, self.phentsize as int, self.phnum as int, self.index as int),
            ensures
                self.bytes@ == b,
                b == old(self).bytes@,
                start == old(self).index,
                self.phoff == old(self).phoff,
                self.phentsize == old(self).phentsize,
                self.phnum == old(self).phnum,
                self.index == self.phnum,
                first_load_from(b, self.phoff as int, self.phentsize as int, self.phnum as int, start) is None,
            decreases self.phnum - self.index,
        {
            proof {
                let i = self.index as int;
                assert(i * self.phentsize + self.phentsize <= self.phnum * self.phentsize) by (nonlinear_arith)
                    requires
                        i < self.phnum,
                        self.phentsize >= 0,
                ;
                assert(i * self.phentsize >= 0) by (nonlinear_arith)
                    requires
                        i >= 0,
                        self.phentsize >= 0,
                ;
            }
            let offset = self.phoff + self.index * self.phentsize;
            let i = self.index;
            self.index = self.index + 1;
            let typ = match read_u32(self.bytes, offset) {
                Ok(v) => v,
                Err(e) => {
                    return Some(Err(e));
                },
            };
            if typ == PT_LOAD {
                let file_offset = match read_u64(self.bytes, offset + 8) {
                    Ok(v) => v,
                    Err(e) => {
                        return Some(Err(e));
                    },
                };
                let virtual_address = match read_u64(self.bytes, offset + 16) {
                    Ok(v) => v,
                    Err(e) => {
                        return Some(Err(e));
                    },
                };
                let file_size = match read_u64(self.bytes, offset + 32) {
                    Ok(v) => v,
                    Err(e) => {
                        return Some(Err(e));
                    },
                };
                let memory_size = match read_u64(self.bytes, offset + 40) {
                    Ok(v) => v,
                    Err(e) => {
                        return Some(Err(e));
                    },
                };
                let flags = match read_u32(self.bytes, offset + 4) {
                    Ok(v) => v,
                    Err(e) => {
                        return Some(Err(e));
                    },
                };
                let align = match read_u64(self.bytes, offset + 48) {
                    Ok(v) => v,
                    Err(e) => {
                        return Some(Err(e));
                    },
                };
                assert(first_load_from(b, self.phoff as int, self.phentsize as int, self.phnum as int, i as int) == Some(i as int));
                return Some(Ok(LoadSegment { file_offset, virtual_address, file_size, memory_size, flags, align }));
            }
        }
        None
    }
}

} // verus!
