//! Where the kernel's loadable segments go in physical memory.

use vstd::prelude::*;

use crate::boot::uefi::{EfiStatus, EFI_ABORTED};
use crate::loader::elf::{
    first_load_from, ph_offset, spec_segment_at, ElfImage, LoadSegment, LoadSegmentIter,
};

verus! {

/// Most loadable segments a kernel image may have.
pub const MAX_LOAD_SEGMENTS: usize = 16;

/// A segment placed in physical memory.
#[derive(Clone, Copy, Debug, PartialEq, Eq, Structural)]
pub struct LoadedSegment {
    pub file_offset: u64,
    pub physical_start: u64,
    pub physical_end: u64,
    pub virtual_address: u64,
    pub file_size: u64,
    pub memory_size: u64,
    pub flags: u32,
    pub align: u64,
}

impl LoadedSegment {
    /// The segment with every field zero.
    pub open spec fn spec_empty() -> LoadedSegment {
        LoadedSegment {
            file_offset: 0,
            physical_start: 0,
            physical_end: 0,
            virtual_address: 0,
            file_size: 0,
            memory_size: 0,
            flags: 0,
            align: 0,
        }
    }

    pub fn empty() -> (segment: Self)
        ensures
            segment == Self::spec_empty(),
    {
        LoadedSegment {
            file_offset: 0,
            physical_start: 0,
            physical_end: 0,
            virtual_address: 0,
            file_size: 0,
            memory_size: 0,
            flags: 0,
            align: 0,
        }
    }
}

/// `placed` followed by empty segments up to `MAX_LOAD_SEGMENTS` entries.
pub open spec fn padded_segments(placed: Seq<LoadedSegment>) -> Seq<LoadedSegment> {
    placed + Seq::new((MAX_LOAD_SEGMENTS - placed.len()) as nat, |i: int| LoadedSegment::spec_empty())
}

/// The kernel image as placed: its physical extent, file size, entry point and
/// segments (the first `segment_count` of `MAX_LOAD_SEGMENTS` entries; the rest
/// are empty).
#[derive(Clone, Debug)]
pub struct LoadedKernelImage {
    pub physical_start: u64,
    pub physical_end: u64,
    pub file_size: usize,
    pub entry_point: u64,
    pub segment_count: usize,
    pub segments: Vec<LoadedSegment>,
}

/// A failure to load the kernel: the step that failed and the firmware status.
#[derive(Clone, Copy, Debug)]
pub struct LoadError {
    pub stage: &'static str,
    pub status: EfiStatus,
}

/// `a + b`, capped at `u64::MAX`.
pub open spec fn sat_add(a: int, b: int) -> u64 {
    if a + b > u64::MAX { u64::MAX } else { (a + b) as u64 }
}

/// `a - b`, floored at zero.
pub open spec fn sat_sub(a: int, b: int) -> u64 {
    if a >= b { (a - b) as u64 } else { 0 }
}

/// The loadable segments from program header `i` on, in order.
pub open spec fn load_segments_from(b: Seq<u8>, phoff: int, phentsize: int, phnum: int, i: int) -> Seq<LoadSegment>
    decreases phnum - i,
{
    if i >= phnum {
        Seq::empty()
    } else if crate::bytes::spec_le_u32(b, ph_offset(phoff, phentsize, i)) == crate::loader::elf::PT_LOAD {
        seq![spec_segment_at(b, ph_offset(phoff, phentsize, i))] + load_segments_from(b, phoff, phentsize, phnum, i + 1)
    } else {
        load_segments_from(b, phoff, phentsize, phnum, i + 1)
    }
}

proof fn lemma_load_segments_step(b: Seq<u8>, phoff: int, phentsize: int, phnum: int, i: int)
    ensures
        first_load_from(b, phoff, phentsize, phnum, i) matches Some(j) ==> i <= j < phnum,
        match first_load_from(b, phoff, phentsize, phnum, i) {
            Some(j) => load_segments_from(b, phoff, phentsize, phnum, i) == seq![spec_segment_at(b, ph_offset(phoff, phentsize, j))]
                + load_segments_from(b, phoff, phentsize, phnum, j + 1),
            None => load_segments_from(b, phoff, phentsize, phnum, i) == Seq::<LoadSegment>::empty(),
        },
    decreases phnum - i,
{
    if i < phnum {
        lemma_load_segments_step(b, phoff, phentsize, phnum, i + 1);
    }
}

/// The loadable segments of an image, in program-header order.
pub open spec fn image_load_segments(bytes: Seq<u8>) -> Seq<LoadSegment> {
    load_segments_from(
        bytes,
        crate::loader::elf::spec_phoff(bytes),
        crate::loader::elf::spec_phentsize(bytes),
        crate::loader::elf::spec_phnum(bytes),
        0,
    )
}

/// Checking the first `n` segments: each must fit in the file and in its memory
/// size, and there may be at most `MAX_LOAD_SEGMENTS`; on success, the lowest
/// virtual address and the highest virtual end seen.
pub open spec fn scan_segments(segs: Seq<LoadSegment>, n: int, file_size: int) -> Result<(u64, u64), &'static str>
    decreases n,
{
    if n <= 0 {
        Ok((u64::MAX, 0u64))
    } else {
        match scan_segments(segs, n - 1, file_size) {
            Err(stage) => Err(stage),
            Ok((lowest, highest)) => {
                let s = segs[n - 1];
                if n - 1 >= MAX_LOAD_SEGMENTS {
                    Err("segment_capacity")
                } else if sat_add(s.file_offset as int, s.file_size as int) > file_size || s.memory_size < s.file_size {
                    Err("segment_bounds")
                } else {
                    let end = sat_add(s.virtual_address as int, s.memory_size as int);
                    Ok((
                        if s.virtual_address < lowest { s.virtual_address } else { lowest },
                        if end > highest { end } else { highest },
                    ))
                }
            },
        }
    }
}

/// Where a segment lands: at its offset from the lowest virtual address, above
/// `physical_start`; refused when it would end past the image's span.
pub open spec fn place_segment(s: LoadSegment, lowest: u64, physical_start: u64, total_span: u64) -> Result<LoadedSegment, &'static str> {
    let start = sat_add(physical_start as int, sat_sub(s.virtual_address as int, lowest as int) as int);
    let end = sat_add(start as int, s.memory_size as int);
    if end > sat_add(physical_start as int, total_span as int) {
        Err("segment_span")
    } else {
        Ok(LoadedSegment {
            file_offset: s.file_offset,
            physical_start: start,
            physical_end: end,
            virtual_address: s.virtual_address,
            file_size: s.file_size,
            memory_size: s.memory_size,
            flags: s.flags,
            align: s.align,
        })
    }
}

/// Placing the first `n` segments: the placed segments, or the first refusal.
pub open spec fn place_segments(segs: Seq<LoadSegment>, n: int, lowest: u64, physical_start: u64, total_span: u64) -> Result<Seq<LoadedSegment>, &'static str>
    decreases n,
{
    if n <= 0 {
        Ok(Seq::empty())
    } else {
        match place_segments(segs, n - 1, lowest, physical_start, total_span) {
            Err(stage) => Err(stage),
            Ok(placed) => match place_segment(segs[n - 1], lowest, physical_start, total_span) {
                Err(stage) => Err(stage),
                Ok(p) => Ok(placed.push(p)),
            },
        }
    }
}

/// The highest physical end among placed segments, and at least `start`.
pub open spec fn placed_end(placed: Seq<LoadedSegment>, n: int, start: u64) -> u64
    decreases n,
{
    if n <= 0 {
        start
    } else {
        let below = placed_end(placed, n - 1, start);
        if placed[n - 1].physical_end > below { placed[n - 1].physical_end } else { below }
    }
}

/// What planning the kernel image gives for an image whose loadable segments are
/// `segs`, read from a file of `file_size` bytes, to be placed from
/// `physical_start` in at most `max_size` bytes: the placed segments, or the stage
/// that refused.
pub open spec fn spec_plan(segs: Seq<LoadSegment>, file_size: usize, physical_start: u64, max_size: usize) -> Result<Seq<LoadedSegment>, &'static str> {
    match scan_segments(segs, segs.len() as int, file_size as int) {
        Err(stage) => Err(stage),
        Ok((lowest, highest)) => if segs.len() == 0 || lowest >= highest {
            Err("segment_plan")
        } else if highest - lowest > max_size {
            Err("bounds_check")
        } else {
            place_segments(segs, segs.len() as int, lowest, physical_start, (highest - lowest) as u64)
        },
    }
}

proof fn lemma_scan_prefix(s1: Seq<LoadSegment>, s2: Seq<LoadSegment>, n: int, file_size: int)
    requires
        n <= s1.len(),
        n <= s2.len(),
        forall|k: int| 0 <= k < n ==> s1[k] == s2[k],
    ensures
        scan_segments(s1, n, file_size) == scan_segments(s2, n, file_size),
    decreases n,
{
    if n > 0 {
        lemma_scan_prefix(s1, s2, n - 1, file_size);
    }
}

proof fn lemma_scan_err_stays(s: Seq<LoadSegment>, n: int, m: int, file_size: int)
    requires
        n <= m,
        scan_segments(s, n, file_size) is Err,
    ensures
        scan_segments(s, m, file_size) == scan_segments(s, n, file_size),
    decreases m - n,
{
    if n < m {
        lemma_scan_err_stays(s, n, m - 1, file_size);
    }
}

proof fn lemma_place_err_stays(s: Seq<LoadSegment>, n: int, m: int, lowest: u64, physical_start: u64, total: u64)
    requires
        n <= m,
        place_segments(s, n, lowest, physical_start, total) is Err,
    ensures
        place_segments(s, m, lowest, physical_start, total) == place_segments(s, n, lowest, physical_start, total),
    decreases m - n,
{
    if n < m {
        lemma_place_err_stays(s, n, m - 1, lowest, physical_start, total);
    }
}

/// Checks the image's loadable segments against the file and places them from
/// `physical_start`; the bytes themselves are copied by the caller.
pub fn plan_kernel_image(image: &ElfImage, file_size: usize, physical_start: u64, max_size: usize) -> (result: Result<
    LoadedKernelImage,
    LoadError,
>)
    ensures
        match spec_plan(image_load_segments(image.spec_bytes()), file_size, physical_start, max_size) {
            Err(stage) => result matches Err(e) && e.stage == stage && e.status == EFI_ABORTED,
            Ok(placed) => result matches Ok(loaded) && {
                &&& placed.len() <= MAX_LOAD_SEGMENTS
                &&& loaded.segments@ == padded_segments(placed)
                &&& loaded.segment_count == placed.len()
                &&& loaded.physical_start == physical_start
                &&& loaded.physical_end == placed_end(placed, placed.len() as int, physical_start)
                &&& loaded.file_size == file_size
                &&& loaded.entry_point == crate::bytes::spec_le_u64(image.spec_bytes(), 24)
            },
        },
{
    let entry_point = match image.entry_point() {
        Ok(v) => v,
        Err(e) => {
            return Err(LoadError { stage: e.stage, status: EFI_ABORTED });
        },
    };
    let ghost b = image.spec_bytes();
    let ghost all = image_load_segments(b);
    let mut iter = image.load_segments();
    let ghost phoff = iter.spec_phoff();
    let ghost phentsize = iter.spec_phentsize();
    let ghost phnum = iter.spec_phnum();
    let mut raw: Vec<LoadSegment> = Vec::new();
    let mut lowest: u64 = u64::MAX;
    let mut highest: u64 = 0;
    assert(raw@ + load_segments_from(b, phoff, phentsize, phnum, iter.spec_index()) =~= all);
    loop
        invariant_except_break
            iter.spec_bytes() == b,
            iter.spec_phoff() == phoff,
            iter.spec_phentsize() == phentsize,
            iter.spec_phnum() == phnum,
            all == image_load_segments(b),
            b == image.spec_bytes(),
            raw@ + load_segments_from(b, phoff, phentsize, phnum, iter.spec_index()) == all,
            scan_segments(raw@, raw@.len() as int, file_size as int) == Ok::<(u64, u64), &'static str>((lowest, highest)),
            raw@.len() <= MAX_LOAD_SEGMENTS,
            0 <= iter.spec_index() <= phnum,
        ensures
            raw@ == all,
            all == image_load_segments(b),
            b == image.spec_bytes(),
            scan_segments(raw@, raw@.len() as int, file_size as int) == Ok::<(u64, u64), &'static str>((lowest, highest)),
        decreases phnum - iter.spec_index(),
    {
        let ghost before = iter.spec_index();
        proof {
            lemma_load_segments_step(b, phoff, phentsize, phnum, before);
        }
        let segment = match iter.next() {
            None => {
                assert(raw@ =~= all);
                break;
            },
            Some(Err(e)) => {
                return Err(LoadError { stage: e.stage, status: EFI_ABORTED });
            },
            Some(Ok(segment)) => segment,
        };
        let ghost next = raw@.push(segment);
        proof {
            assert(next + load_segments_from(b, phoff, phentsize, phnum, iter.spec_index()) =~= all);
            assert(next.len() <= all.len()) by {
                assert((next + load_segments_from(b, phoff, phentsize, phnum, iter.spec_index())).len() == all.len());
            }
            lemma_scan_prefix(raw@, next, raw@.len() as int, file_size as int);
            assert forall|k: int| 0 <= k < next.len() implies next[k] == all[k] by {
                assert(all[k] == (next + load_segments_from(b, phoff, phentsize, phnum, iter.spec_index()))[k]);
            }
            lemma_scan_prefix(next, all, next.len() as int, file_size as int);
        }
        if raw.len() == MAX_LOAD_SEGMENTS {
            proof {
                lemma_scan_err_stays(all, next.len() as int, all.len() as int, file_size as int);
            }
        return Err(LoadError { stage: "segment_capacity", status: EFI_ABORTED });
        }
        let file_end = match segment.file_offset.checked_add(segment.file_size) {
            Some(v) => v,
            None => u64::MAX,
        };
        if file_end > file_size as u64 || segment.memory_size < segment.file_size {
            proof {
                lemma_scan_err_stays(all, next.len() as int, all.len() as int, file_size as int);
            }
        return Err(LoadError { stage: "segment_bounds", status: EFI_ABORTED });
        }
        let end = match segment.virtual_address.checked_add(segment.memory_size) {
            Some(v) => v,
            None => u64::MAX,
        };
        if segment.virtual_address < lowest {
            lowest = segment.virtual_address;
        }
        if end > highest {
            highest = end;
        }
        raw.push(segment);
    }
    if raw.len() == 0 || lowest >= highest {
        return Err(LoadError { stage: "segment_plan", status: EFI_ABORTED });
    }
    let total_span = highest - lowest;
    if total_span > max_size as u64 {
        return Err(LoadError { stage: "bounds_check", status: EFI_ABORTED });
    }
    let span_end = match physical_start.checked_add(total_span) {
        Some(v) => v,
        None => u64::MAX,
    };
    let mut segments: Vec<LoadedSegment> = Vec::new();
    let mut loaded_end = physical_start;
    let mut k: usize = 0;
    while k < raw.len()
        invariant
            k <= raw@.len(),
            raw@ == all,
            all == image_load_segments(b),
            b == image.spec_bytes(),
            scan_segments(all, all.len() as int, file_size as int) == Ok::<(u64, u64), &'static str>((lowest, highest)),
            all.len() > 0,
            lowest < highest,
            total_span == highest - lowest,
            total_span <= max_size,
            span_end == sat_add(physical_start as int, total_span as int),
            place_segments(all, k as int, lowest, physical_start, total_span) == Ok::<Seq<LoadedSegment>, &'static str>(segments@),
            loaded_end == placed_end(segments@, k as int, physical_start),
            segments@.len() == k,
        decreases raw@.len() - k,
    {
        let segment = raw[k];
        let offset = segment.virtual_address.saturating_sub(lowest);
        let start = match physical_start.checked_add(offset) {
            Some(v) => v,
            None => u64::MAX,
        };
        let end = match start.checked_add(segment.memory_size) {
            Some(v) => v,
            None => u64::MAX,
        };
        if end > span_end {
            proof {
                lemma_place_err_stays(all, k + 1, all.len() as int, lowest, physical_start, total_span);
            }
        return Err(LoadError { stage: "segment_span", status: EFI_ABORTED });
        }
        let placed = LoadedSegment {
            file_offset: segment.file_offset,
            physical_start: start,
            physical_end: end,
            virtual_address: segment.virtual_address,
            file_size: segment.file_size,
            memory_size: segment.memory_size,
            flags: segment.flags,
            align: segment.align,
        };
        let ghost prev = segments@;
        segments.push(placed);
        proof {
            assert(segments@.drop_last() =~= prev);
            assert forall|j: int| 0 <= j < k implies segments@[j] == prev[j] by {}
            lemma_placed_end_prefix(prev, segments@, k as int, physical_start);
        }
        if end > loaded_end {
            loaded_end = end;
        }
        k = k + 1;
    }
    let count = segments.len();
    let ghost placed = segments@;
    while segments.len() < MAX_LOAD_SEGMENTS
        invariant
            count == placed.len(),
            count <= segments@.len() <= MAX_LOAD_SEGMENTS,
            segments@.subrange(0, count as int) == placed,
            forall|j: int| count <= j < segments@.len() ==> segments@[j] == LoadedSegment::spec_empty(),
        decreases MAX_LOAD_SEGMENTS - segments.len(),
    {
        segments.push(LoadedSegment::empty());
        proof {
            assert(segments@.subrange(0, count as int) =~= segments@.drop_last().subrange(0, count as int));
        }
    }
    proof {
        assert(segments@ =~= padded_segments(placed));
    }
    Ok(LoadedKernelImage { physical_start, physical_end: loaded_end, file_size, entry_point, segment_count: count, segments })
}

proof fn lemma_placed_end_prefix(s1: Seq<LoadedSegment>, s2: Seq<LoadedSegment>, n: int, start: u64)
    requires
        n <= s1.len(),
        n <= s2.len(),
        forall|k: int| 0 <= k < n ==> s1[k] == s2[k],
    ensures
        placed_end(s1, n, start) == placed_end(s2, n, start),
    decreases n,
{
    if n > 0 {
        lemma_placed_end_prefix(s1, s2, n - 1, start);
    }
}


/// How many bytes of the file the headers take, from the ELF header read from its
/// first bytes; `EFI_ABORTED` when the header does not check out or names a
/// program-header table that ends inside the ELF header.
pub fn header_size_from_prefix(header: &[u8]) -> (size: Result<usize, EfiStatus>)
    ensures
        match crate::loader::elf::spec_required_header_bytes(header@) {
            Ok(n) => if n >= 64 { size == Ok::<usize, EfiStatus>(n as usize) } else { size == Err::<usize, EfiStatus>(EFI_ABORTED) },
            Err(_) => size == Err::<usize, EfiStatus>(EFI_ABORTED),
        },
{
    let required = match crate::loader::elf::required_header_bytes(header) {
        Ok(n) => n,
        Err(_) => {
            return Err(EFI_ABORTED);
        },
    };
    if required < 64 {
        return Err(EFI_ABORTED);
    }
    Ok(required)
}

} // verus!
