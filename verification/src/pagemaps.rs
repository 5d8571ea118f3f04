//! The page-level introspection layer: the decoder for 8-byte page-table
//! entries, the process snapshot bound to a process id, region lookup, and
//! the per-region page iterator's decision logic.
//!
//! The iterator coordinates three backing tables: the per-process page-table
//! snapshot (one 8-byte entry per virtual page, read sequentially), and the
//! two global per-frame tables (flags and reference counts, each seeked by
//! physical frame number).  Reading the files is the caller's business; the
//! functions here take the bytes that were read and make every decision:
//! which frame to look up, which stride to advance by, and what descriptor
//! to emit.

use vstd::prelude::*;
use vstd::arithmetic::div_mod::lemma_fundamental_div_mod;
use crate::error::Error;
use crate::kpageflags::{KPageFlags, flag_bit, HUGE_BIT};
use crate::maps::column::{AddressRange, PathName, PermSet, range_contains};
use crate::maps::{MappedRegion, Maps, parse_table, region_lookup};
use crate::text::{chars_eq_str, chars_of_str, trim_chars, trim_text};

verus! {

/// The byte size of one entry of each binary backing table.
pub const ENTRY_SIZE: usize = 8;

/// The normal page size.
pub const NORMAL_PAGE_SIZE: usize = 4096;

/// How many normal pages one huge page covers.
pub const LEVEL_SIZE: usize = 512;

/// The huge page size: `LEVEL_SIZE` normal pages.
pub const HUGE_PAGE_SIZE: usize = 2097152;

/// The giant page size, reachable only through the override.
pub const GIGA_PAGE_SIZE: usize = 1073741824;

/// The page sizes an iteration may be asked to assume.
#[derive(Copy, Clone, Debug, PartialEq, Eq, Structural)]
pub enum PageSize {
    Normal,
    Huge,
    Giga,
}

impl PageSize {
    /// The byte size of one page of this size.
    pub open spec fn spec_bytes(&self) -> usize {
        match self {
            PageSize::Normal => NORMAL_PAGE_SIZE,
            PageSize::Huge => HUGE_PAGE_SIZE,
            PageSize::Giga => GIGA_PAGE_SIZE,
        }
    }

    pub fn bytes(&self) -> (r: usize)
        ensures
            r == self.spec_bytes(),
    {
        match self {
            PageSize::Normal => NORMAL_PAGE_SIZE,
            PageSize::Huge => HUGE_PAGE_SIZE,
            PageSize::Giga => GIGA_PAGE_SIZE,
        }
    }

    /// Parses a page-size name: one of `normal`, `huge`, `giga`, after
    /// trimming.
    pub fn parse(s: &str) -> (r: Result<PageSize, Error>)
        ensures
            match r {
                Ok(p) => (trim_text(s@) == "normal"@ && p is Normal) || (trim_text(s@) == "huge"@
                    && p is Huge) || (trim_text(s@) == "giga"@ && p is Giga),
                Err(e) => trim_text(s@) != "normal"@ && trim_text(s@) != "huge"@ && trim_text(s@)
                    != "giga"@ && (e matches Error::Parse { typename, .. } && typename@
                    == "PageSize"@),
            },
    {
        let cs = chars_of_str(s);
        let t = trim_chars(cs.as_slice());
        if chars_eq_str(t.as_slice(), "normal") {
            Ok(PageSize::Normal)
        } else if chars_eq_str(t.as_slice(), "huge") {
            Ok(PageSize::Huge)
        } else if chars_eq_str(t.as_slice(), "giga") {
            Ok(PageSize::Giga)
        } else {
            Err(Error::Parse {
                value: String::from_str(s),
                typename: "PageSize",
                reason: String::from_str("value was not one of: normal, huge, giga"),
            })
        }
    }
}

impl Default for PageSize {
    /// The default page size is the normal one.
    fn default() -> (r: Self)
        ensures
            r is Normal,
    {
        PageSize::Normal
    }
}

// === PageTableEntry ===

/// The mask selecting the physical-frame-number bits of an entry.
pub const PFN_MASK: u64 = 0x007f_ffff_ffff_ffff;

/// The bit that reports a page written since the last soft-dirty reset.
pub const SOFT_DIRTY_BIT: u64 = 55;

/// The bit that reports a page present in memory.
pub const PRESENT_BIT: u64 = 63;

/// One record of the per-process page-table snapshot: a 64-bit value whose
/// low 55 bits carry the physical frame number (zero when the page is not
/// present or the caller lacks the privilege to see frame numbers), with
/// the soft-dirty and present bits above them.
#[derive(Copy, Clone, Debug, PartialEq, Eq, Structural)]
pub struct PageTableEntry(pub u64);

impl PageTableEntry {
    pub fn new(n: u64) -> (r: Self)
        ensures
            r.0 == n,
    {
        PageTableEntry(n)
    }

    /// The physical frame number the entry exposes, if any.  A zero frame
    /// field means "absent" — the page is unmapped, or privilege was
    /// insufficient and the kernel zeroed the field — never a valid frame.
    pub open spec fn spec_page_frame_number(&self) -> Option<u64> {
        if self.0 & PFN_MASK == 0 {
            None
        } else {
            Some(self.0 & PFN_MASK)
        }
    }

    pub fn page_frame_number(&self) -> (r: Option<u64>)
        ensures
            r == self.spec_page_frame_number(),
            r matches Some(p) ==> 0 < p < 0x0080_0000_0000_0000u64,
    {
        let m = self.0 & PFN_MASK;
        proof {
            let v = self.0;
            assert(v & 0x007f_ffff_ffff_ffffu64 < 0x0080_0000_0000_0000u64) by (bit_vector);
        }
        if m == 0 {
            None
        } else {
            Some(m)
        }
    }

    pub fn is_soft_dirty(&self) -> (r: bool)
        ensures
            r == flag_bit(self.0, SOFT_DIRTY_BIT),
    {
        self.0 & (1u64 << SOFT_DIRTY_BIT) != 0
    }

    pub fn is_present(&self) -> (r: bool)
        ensures
            r == flag_bit(self.0, PRESENT_BIT),
    {
        self.0 & (1u64 << PRESENT_BIT) != 0
    }
}

/// An entry holding only the present bit and a frame-number pattern reports
/// present, reports not soft-dirty, and decodes exactly that pattern from
/// the frame field.
pub proof fn lemma_present_entry_decodes(p: u64)
    requires
        p < 0x0080_0000_0000_0000u64,
    ensures
        flag_bit((1u64 << PRESENT_BIT) | p, PRESENT_BIT),
        !flag_bit((1u64 << PRESENT_BIT) | p, SOFT_DIRTY_BIT),
        ((1u64 << PRESENT_BIT) | p) & PFN_MASK == p,
{
    assert(((1u64 << 63u64) | p) & (1u64 << 63u64) != 0) by (bit_vector);
    assert(p < 0x0080_0000_0000_0000u64 ==> ((1u64 << 63u64) | p) & (1u64 << 55u64) == 0)
        by (bit_vector);
    assert(p < 0x0080_0000_0000_0000u64 ==> ((1u64 << 63u64) | p) & 0x007f_ffff_ffff_ffffu64
        == p) by (bit_vector);
}

// === ProcessVMA ===

/// A process id bound to an immutable snapshot of its region table.
#[derive(Debug, Clone)]
pub struct ProcessVMA {
    pub pid: usize,
    pub path: Option<String>,
    pub maps: Maps,
}

impl ProcessVMA {
    /// Attaches to a process: binds the id to the parsed snapshot of the
    /// region-table text that was read for it.
    pub fn from_maps_text(pid: usize, text: &str) -> (r: Result<ProcessVMA, Error>)
        ensures
            match r {
                Ok(vm) => vm.pid == pid && parse_table(text@) == Some(vm.maps.models())
                    && vm.maps.wf() && crate::maps::sorted_by_start(vm.maps.models()),
                Err(e) => parse_table(text@) is None && (e matches Error::Parse { .. }),
            },
    {
        let maps = match Maps::parse(text) {
            Ok(m) => m,
            Err(e) => {
                return Err(e);
            },
        };
        let path = crate::paths::proc_pid_maps_path(Some(pid));
        Ok(ProcessVMA { pid, path: Some(path), maps })
    }

    pub fn pid(&self) -> (r: usize)
        ensures
            r == self.pid,
    {
        self.pid
    }

    pub fn maps(&self) -> (r: &Maps)
        ensures
            r == &self.maps,
    {
        &self.maps
    }

    /// The region owning the given address, bound to this process's id.
    pub fn region(&self, addr: usize) -> (r: Option<VMARegion<'_>>)
        ensures
            match r {
                Some(vr) => vr.pid == self.pid && region_lookup(self.maps.models(), addr) == Some(
                    vr.region@,
                ),
                None => region_lookup(self.maps.models(), addr) is None,
            },
    {
        match self.maps.region(addr) {
            Some(region) => Some(VMARegion { pid: self.pid, region }),
            None => None,
        }
    }

    /// Replaces the snapshot with one parsed from freshly read text for the
    /// same process; on failure the old snapshot stays untouched.
    pub fn reload(&mut self, text: &str) -> (r: Result<(), Error>)
        ensures
            match r {
                Ok(()) => final(self).pid == old(self).pid && parse_table(text@) == Some(
                    final(self).maps.models(),
                ) && final(self).maps.wf() && crate::maps::sorted_by_start(
                    final(self).maps.models(),
                ),
                Err(e) => *final(self) == *old(self) && parse_table(text@) is None && (
                e matches Error::Parse { .. }),
            },
    {
        match ProcessVMA::from_maps_text(self.pid, text) {
            Ok(vm) => {
                *self = vm;
                Ok(())
            },
            Err(e) => Err(e),
        }
    }
}

// === the page descriptor and iterator ===

/// What one iteration step reports for one page: its exact span, the
/// decoded page-table entry, the optional per-frame flags and reference
/// count, and the owning region's permissions and pathname, borrowed.
#[derive(Copy, Clone, Debug)]
pub struct PageDescriptor<'a> {
    pub addr_range: AddressRange,
    pub offset: usize,
    pub perms: &'a PermSet,
    pub pathame: &'a PathName,
    pub pte: PageTableEntry,
    pub kpageflags: Option<KPageFlags>,
    pub kpagecount: Option<u64>,
}

/// One region of one process, ready to be iterated.
#[derive(Debug, Clone, Copy)]
pub struct VMARegion<'a> {
    pub pid: usize,
    pub region: &'a MappedRegion,
}

impl<'a> VMARegion<'a> {
    pub fn region(&self) -> (r: &'a MappedRegion)
        ensures
            r == self.region,
    {
        self.region
    }

    pub fn pid(&self) -> (r: usize)
        ensures
            r == self.pid,
    {
        self.pid
    }

    /// Where the page-table snapshot must be seeked before reading this
    /// region's entries: one entry per normal page below the region start.
    pub fn pagemap_seek_offset(&self) -> (r: usize)
        ensures
            r == (self.region.addr_range.start / NORMAL_PAGE_SIZE) * ENTRY_SIZE,
    {
        let pages = self.region.addr_range.start / NORMAL_PAGE_SIZE;
        proof {
            let s = self.region.addr_range.start as int;
            lemma_fundamental_div_mod(s, NORMAL_PAGE_SIZE as int);
            assert((s / 4096) * 8 <= (s / 4096) * 4096) by (nonlinear_arith)
                requires
                    s >= 0,
            ;
        }
        pages * ENTRY_SIZE
    }

    /// The iteration state for this region.
    pub fn iter_state(
        &self,
        page_size_override: Option<PageSize>,
        kpageflags_available: bool,
        kpagecount_available: bool,
    ) -> (it: PageIter<'a>)
        ensures
            it.region == self.region,
            it.addr_range == self.region.addr_range,
            it.current_addr == self.region.addr_range.start,
            it.page_size_override == page_size_override,
            it.kpageflags_available == kpageflags_available,
            it.kpagecount_available == kpagecount_available,
    {
        PageIter {
            region: self.region,
            addr_range: self.region.addr_range,
            current_addr: self.region.addr_range.start,
            page_size_override,
            kpageflags_available,
            kpagecount_available,
        }
    }
}

/// Where a frame's entry lies in a per-frame table.
pub fn kpage_entry_offset(pfn: u64) -> (r: u64)
    requires
        pfn < 0x0080_0000_0000_0000u64,
    ensures
        r == pfn * 8,
{
    pfn * 8
}

/// The stride one step advances by: the override if one was given, else the
/// huge page size when the frame's flags mark it part of a huge page, else
/// the normal page size.
pub open spec fn stride(page_size_override: Option<PageSize>, kpageflags: Option<KPageFlags>) -> usize {
    match page_size_override {
        Some(sz) => sz.spec_bytes(),
        None => if (kpageflags matches Some(f) && flag_bit(f.0, HUGE_BIT)) {
            HUGE_PAGE_SIZE
        } else {
            NORMAL_PAGE_SIZE
        },
    }
}

/// The state of one in-progress iteration over one region.
#[derive(Debug, Clone, Copy)]
pub struct PageIter<'a> {
    pub region: &'a MappedRegion,
    pub addr_range: AddressRange,
    pub current_addr: usize,
    pub page_size_override: Option<PageSize>,
    pub kpageflags_available: bool,
    pub kpagecount_available: bool,
}

impl<'a> PageIter<'a> {
    /// Whether another page remains: the sequence ends exactly when the
    /// current address leaves the region.
    pub fn wants_next(&self) -> (r: bool)
        ensures
            r == range_contains(self.addr_range, self.current_addr),
    {
        self.current_addr >= self.addr_range.start && self.current_addr < self.addr_range.end
    }

    /// Consumes one decoded page-table entry (with the optional per-frame
    /// data the caller fetched for its frame) and emits the page's
    /// descriptor, advancing the current address by the chosen stride.
    /// Address arithmetic that would wrap is a fatal defect in the backing
    /// data and is reported as an error, never wrapped silently.
    pub fn step(
        &mut self,
        pte: PageTableEntry,
        kpageflags: Option<KPageFlags>,
        kpagecount: Option<u64>,
    ) -> (r: Result<PageDescriptor<'a>, Error>)
        requires
            range_contains(old(self).addr_range, old(self).current_addr),
        ensures
            ({
                let st = stride(old(self).page_size_override, kpageflags);
                if old(self).current_addr + st <= usize::MAX {
                    &&& r matches Ok(d) && d.addr_range == (AddressRange {
                        start: old(self).current_addr,
                        end: (old(self).current_addr + st) as usize,
                    }) && d.offset == 0 && d.pte == pte && d.kpageflags == kpageflags
                        && d.kpagecount == (match kpagecount {
                        Some(c) => if c == 0 {
                            None
                        } else {
                            Some(c)
                        },
                        None => None,
                    }) && d.perms == &old(self).region.perms && d.pathame == &old(
                        self,
                    ).region.pathname
                    &&& final(self).current_addr == old(self).current_addr + st
                    &&& final(self).region == old(self).region && final(self).addr_range == old(
                        self,
                    ).addr_range && final(self).page_size_override == old(self).page_size_override
                        && final(self).kpageflags_available == old(self).kpageflags_available
                        && final(self).kpagecount_available == old(self).kpagecount_available
                } else {
                    &&& r matches Err(e) && e is Number
                    &&& *final(self) == *old(self)
                }
            }),
    {
        let st: usize = match self.page_size_override {
            Some(sz) => sz.bytes(),
            None => {
                let huge = match &kpageflags {
                    Some(f) => f.huge(),
                    None => false,
                };
                if huge {
                    HUGE_PAGE_SIZE
                } else {
                    NORMAL_PAGE_SIZE
                }
            },
        };
        match self.current_addr.checked_add(st) {
            None => Err(Error::Number),
            Some(next) => {
                let low = self.current_addr;
                self.current_addr = next;
                let region = self.region;
                Ok(
                    PageDescriptor {
                        addr_range: AddressRange { start: low, end: next },
                        offset: 0,
                        perms: &region.perms,
                        pathame: &region.pathname,
                        pte,
                        kpageflags,
                        kpagecount: match kpagecount {
                            Some(c) => if c == 0 {
                                None
                            } else {
                                Some(c)
                            },
                            None => None,
                        },
                    },
                )
            },
        }
    }
}

// === iterating over in-memory table snapshots ===

/// The count of strides needed to cover `d` addresses at the normal page
/// size: `d` divided by the page size, rounded up.
pub open spec fn normal_page_count(d: int) -> int {
    (d + (NORMAL_PAGE_SIZE - 1)) / (NORMAL_PAGE_SIZE as int)
}

/// A stride count that reaches `d` and whose predecessor does not is the
/// rounded-up quotient.
proof fn lemma_normal_page_count_unique(d: int, k: int)
    requires
        d >= 0,
        k >= 0,
        4096 * k >= d,
        k > 0 ==> 4096 * (k - 1) < d,
    ensures
        k == normal_page_count(d),
{
    lemma_fundamental_div_mod(d + 4095, 4096);
    vstd::arithmetic::div_mod::lemma_mod_division_less_than_divisor(d + 4095, 4096);
    let q = (d + 4095) / 4096;
    let rr = (d + 4095) % 4096;
    assert(d + 4095 == 4096 * q + rr);
    if k > q {
        assert(4096 * (k - 1) >= 4096 * q) by (nonlinear_arith)
            requires
                k - 1 >= q,
        ;
        assert(false);
    }
    if k < q {
        assert(4096 * k <= 4096 * (q - 1)) by (nonlinear_arith)
            requires
                k <= q - 1,
        ;
        assert(false);
    }
}

/// The bytes of an optional backing table.
pub open spec fn table_view(t: Option<&[u8]>) -> Option<Seq<u8>> {
    match t {
        Some(tb) => Some(tb@),
        None => None,
    }
}

/// The descriptor at position `i` of an iteration faithfully decodes the
/// backing tables: its entry is the `i`-th record of the page-table bytes,
/// and its per-frame data, when a table is available and the entry exposes
/// a frame, is that frame's record of the table (a zero reference count
/// reads back as absent).
pub open spec fn descriptor_reflects_tables<'a>(
    d: PageDescriptor<'a>,
    i: int,
    pagemap: Seq<u8>,
    kpageflags_table: Option<Seq<u8>>,
    kpagecount_table: Option<Seq<u8>>,
) -> bool {
    &&& 8 * i + 8 <= pagemap.len()
    &&& d.pte.0 as nat == crate::io::le_u64_val(pagemap.subrange(8 * i, 8 * i + 8))
    &&& (match (d.pte.spec_page_frame_number(), kpageflags_table) {
        (Some(p), Some(tb)) => 8 * p + 8 <= tb.len() && (d.kpageflags matches Some(f) && f.0 as nat
            == crate::io::le_u64_val(tb.subrange(8 * p as int, 8 * p + 8))),
        _ => d.kpageflags is None,
    })
    &&& (match (d.pte.spec_page_frame_number(), kpagecount_table) {
        (Some(p), Some(tb)) => 8 * p + 8 <= tb.len() && ({
            let c = crate::io::le_u64_val(tb.subrange(8 * p as int, 8 * p + 8));
            (d.kpagecount matches Some(cnt) && cnt as nat == c && c != 0) || (
            d.kpagecount is None && c == 0)
        }),
        _ => d.kpagecount is None,
    })
}

/// Runs one whole iteration over a region against in-memory copies of the
/// three backing tables, exactly as a file-backed run would: one sequential
/// 8-byte entry per step from the page-table bytes, one seek into each
/// available per-frame table per exposed frame, strides chosen per page.
/// A short page-table read ends the sequence silently; a short per-frame
/// read or an address overflow is an error.  The descriptors tile the
/// region from its start upward, in strictly increasing address order,
/// without gaps; with both per-frame tables unavailable and no override,
/// every page is normal-sized and the region is covered exactly.
pub fn iterate_region<'a>(
    region: &'a MappedRegion,
    page_size_override: Option<PageSize>,
    pagemap: &[u8],
    kpageflags_table: Option<&[u8]>,
    kpagecount_table: Option<&[u8]>,
) -> (r: Result<Vec<PageDescriptor<'a>>, Error>)
    ensures
        ({
            let start = region.addr_range.start;
            let end = region.addr_range.end;
            match r {
                Ok(v) => {
                    &&& (forall|i: int|
                        0 <= i < v@.len() ==> (#[trigger] v@[i]).addr_range.start as int == (
                        if i == 0 {
                            start as int
                        } else {
                            v@[i - 1].addr_range.end as int
                        }))
                    &&& (forall|i: int|
                        0 <= i < v@.len() ==> range_contains(
                            region.addr_range,
                            (#[trigger] v@[i]).addr_range.start,
                        ))
                    &&& (forall|i: int|
                        0 <= i < v@.len() ==> (#[trigger] v@[i]).addr_range.start < v@[
                            i].addr_range.end)
                    &&& (forall|i: int|
                        0 <= i < v@.len() ==> (#[trigger] v@[i]).offset == 0 && v@[i].perms
                            == &region.perms && v@[i].pathame == &region.pathname)
                    &&& (kpagecount_table is None ==> (forall|i: int|
                        0 <= i < v@.len() ==> (#[trigger] v@[i]).kpagecount is None))
                    &&& (kpageflags_table is None ==> (forall|i: int|
                        0 <= i < v@.len() ==> (#[trigger] v@[i]).kpageflags is None))
                    &&& (kpageflags_table is None && page_size_override is None ==> (forall|i: int|
                        0 <= i < v@.len() ==> (#[trigger] v@[i]).addr_range.end as int == v@[
                            i].addr_range.start + NORMAL_PAGE_SIZE))
                    &&& (kpageflags_table is None && page_size_override is None && start <= end
                        && end <= usize::MAX - NORMAL_PAGE_SIZE && pagemap@.len() >= ENTRY_SIZE
                        * normal_page_count(end - start) ==> v@.len() == normal_page_count(
                        end - start,
                    ))
                    &&& (forall|i: int|
                        0 <= i < v@.len() ==> descriptor_reflects_tables(
                            #[trigger] v@[i],
                            i,
                            pagemap@,
                            table_view(kpageflags_table),
                            table_view(kpagecount_table),
                        ))
                },
                Err(e) => e is IO || e is Number,
            }
        }),
        kpageflags_table is None && kpagecount_table is None && page_size_override is None
            && region.addr_range.end <= usize::MAX - NORMAL_PAGE_SIZE ==> r is Ok,
{
    let ghost start = region.addr_range.start;
    let ghost end = region.addr_range.end;
    let ghost bare = kpageflags_table is None && page_size_override is None;
    let mut out: Vec<PageDescriptor<'a>> = Vec::new();
    let mut it = PageIter {
        region,
        addr_range: region.addr_range,
        current_addr: region.addr_range.start,
        page_size_override,
        kpageflags_available: match kpageflags_table {
            Some(_) => true,
            None => false,
        },
        kpagecount_available: match kpagecount_table {
            Some(_) => true,
            None => false,
        },
    };
    let mut k: usize = 0;
    loop
        invariant
            it.region == region,
            it.addr_range == region.addr_range,
            it.page_size_override == page_size_override,
            start == region.addr_range.start,
            end == region.addr_range.end,
            bare == (kpageflags_table is None && page_size_override is None),
            out@.len() == k,
            start <= it.current_addr,
            it.current_addr as int == (if k == 0 {
                start as int
            } else {
                out@[k - 1].addr_range.end as int
            }),
            forall|i: int|
                0 <= i < out@.len() ==> (#[trigger] out@[i]).addr_range.start as int == (if i == 0 {
                    start as int
                } else {
                    out@[i - 1].addr_range.end as int
                }),
            forall|i: int|
                0 <= i < out@.len() ==> range_contains(
                    region.addr_range,
                    (#[trigger] out@[i]).addr_range.start,
                ),
            forall|i: int|
                0 <= i < out@.len() ==> (#[trigger] out@[i]).addr_range.start < out@[
                    i].addr_range.end,
            forall|i: int|
                0 <= i < out@.len() ==> (#[trigger] out@[i]).offset == 0 && out@[i].perms
                    == &region.perms && out@[i].pathame == &region.pathname,
            kpagecount_table is None ==> (forall|i: int|
                0 <= i < out@.len() ==> (#[trigger] out@[i]).kpagecount is None),
            kpageflags_table is None ==> (forall|i: int|
                0 <= i < out@.len() ==> (#[trigger] out@[i]).kpageflags is None),
            bare ==> (forall|i: int|
                0 <= i < out@.len() ==> (#[trigger] out@[i]).addr_range.end as int == out@[
                    i].addr_range.start + NORMAL_PAGE_SIZE),
            bare ==> it.current_addr as int == start + 4096 * k,
            bare && k > 0 ==> start + 4096 * (k - 1) < end,
            forall|i: int|
                0 <= i < out@.len() ==> descriptor_reflects_tables(
                    #[trigger] out@[i],
                    i,
                    pagemap@,
                    table_view(kpageflags_table),
                    table_view(kpagecount_table),
                ),
        ensures
            it.region == region,
            out@.len() == k,
            !range_contains(region.addr_range, it.current_addr) || k >= pagemap@.len() / 8,
            forall|i: int|
                0 <= i < out@.len() ==> (#[trigger] out@[i]).addr_range.start as int == (if i == 0 {
                    start as int
                } else {
                    out@[i - 1].addr_range.end as int
                }),
            forall|i: int|
                0 <= i < out@.len() ==> range_contains(
                    region.addr_range,
                    (#[trigger] out@[i]).addr_range.start,
                ),
            forall|i: int|
                0 <= i < out@.len() ==> (#[trigger] out@[i]).addr_range.start < out@[
                    i].addr_range.end,
            forall|i: int|
                0 <= i < out@.len() ==> (#[trigger] out@[i]).offset == 0 && out@[i].perms
                    == &region.perms && out@[i].pathame == &region.pathname,
            kpagecount_table is None ==> (forall|i: int|
                0 <= i < out@.len() ==> (#[trigger] out@[i]).kpagecount is None),
            kpageflags_table is None ==> (forall|i: int|
                0 <= i < out@.len() ==> (#[trigger] out@[i]).kpageflags is None),
            bare ==> (forall|i: int|
                0 <= i < out@.len() ==> (#[trigger] out@[i]).addr_range.end as int == out@[
                    i].addr_range.start + NORMAL_PAGE_SIZE),
            bare ==> it.current_addr as int == start + 4096 * k,
            bare && k > 0 ==> start + 4096 * (k - 1) < end,
            forall|i: int|
                0 <= i < out@.len() ==> descriptor_reflects_tables(
                    #[trigger] out@[i],
                    i,
                    pagemap@,
                    table_view(kpageflags_table),
                    table_view(kpagecount_table),
                ),
            bare && end <= usize::MAX - NORMAL_PAGE_SIZE && pagemap@.len() >= ENTRY_SIZE
                * normal_page_count(end - start) && start <= end ==> !range_contains(
                region.addr_range,
                it.current_addr,
            ),
        decreases (if it.current_addr >= it.addr_range.end {
            0int
        } else {
            it.addr_range.end - it.current_addr
        }),
    {
        if !it.wants_next() {
            break ;
        }
        if k >= pagemap.len() / ENTRY_SIZE {
            proof {
                if bare && end <= usize::MAX - NORMAL_PAGE_SIZE && pagemap@.len() >= ENTRY_SIZE
                    * normal_page_count(end - start) && start <= end {
                    // With enough bytes for the whole region this exit cannot
                    // happen: the stride count is still below the total.
                    let d = end - start;
                    assert(start + 4096 * k < end);
                    assert(4096 * k < d);
                    lemma_fundamental_div_mod(d + 4095, 4096);
                    vstd::arithmetic::div_mod::lemma_mod_division_less_than_divisor(d + 4095, 4096);
                    let q = normal_page_count(d);
                    assert(4096 * k < 4096 * q) by (nonlinear_arith)
                        requires
                            4096 * k < d,
                            d + 4095 == 4096 * q + (d + 4095) % 4096,
                            0 <= (d + 4095) % 4096 < 4096,
                    ;
                    assert(k < q) by (nonlinear_arith)
                        requires
                            4096 * k < 4096 * q,
                    ;
                    assert(pagemap@.len() >= 8 * q);
                    assert(pagemap@.len() / 8 >= q) by (nonlinear_arith)
                        requires
                            pagemap@.len() >= 8 * q,
                            q >= 0,
                    ;
                    assert(false);
                }
            }
            break ;
        }
        proof {
            lemma_fundamental_div_mod(pagemap@.len() as int, 8);
            assert(8 * (k + 1) <= 8 * (pagemap@.len() / 8)) by (nonlinear_arith)
                requires
                    k + 1 <= pagemap@.len() / 8,
            ;
        }
        let off = k * ENTRY_SIZE;
        let entry_bytes = vstd::slice::slice_subrange(pagemap, off, off + ENTRY_SIZE);
        let pte_value = match crate::io::read_u64(entry_bytes) {
            Ok(v) => v,
            Err(e) => {
                // The slice holds exactly one 8-byte record, so the read
                // cannot come up short.
                proof {
                    assert(false);
                }
                return Err(e);
            },
        };
        let pte = PageTableEntry::new(pte_value);
        let pfn = pte.page_frame_number();
        let kpageflags: Option<KPageFlags> = match (pfn, kpageflags_table) {
            (Some(p), Some(tb)) => {
                match read_frame_entry(tb, p) {
                    Ok(v) => Some(KPageFlags::new(v)),
                    Err(e) => {
                        return Err(e);
                    },
                }
            },
            _ => None,
        };
        let kpagecount: Option<u64> = match (pfn, kpagecount_table) {
            (Some(p), Some(tb)) => {
                match read_frame_entry(tb, p) {
                    Ok(v) => Some(v),
                    Err(e) => {
                        return Err(e);
                    },
                }
            },
            _ => None,
        };
        let d = match it.step(pte, kpageflags, kpagecount) {
            Ok(d) => d,
            Err(e) => {
                return Err(e);
            },
        };
        out.push(d);
        proof {
            if bare {
                assert(stride(page_size_override, kpageflags) == NORMAL_PAGE_SIZE);
            }
            assert(out@[k as int] == d);
            assert(descriptor_reflects_tables(
                d,
                k as int,
                pagemap@,
                table_view(kpageflags_table),
                table_view(kpagecount_table),
            )) by {
                assert(entry_bytes@ == pagemap@.subrange(8 * (k as int), 8 * (k as int) + 8));
            }
        }
        k = k + 1;
    }
    proof {
        if bare && region.addr_range.start <= region.addr_range.end && region.addr_range.end
            <= usize::MAX - NORMAL_PAGE_SIZE && pagemap@.len() >= ENTRY_SIZE * normal_page_count(
            end - start,
        ) {
            let d = end - start;
            assert(start + 4096 * k >= end);
            if k > 0 {
                assert(start + 4096 * (k - 1) < end);
            }
            lemma_normal_page_count_unique(d, k as int);
        }
    }
    Ok(out)
}

/// Reads the 8-byte entry of frame `pfn` from a per-frame table held in
/// memory, mirroring a seek to the frame's offset followed by one read; a
/// table too short for the frame is an error, as a failed read would be.
fn read_frame_entry(table: &[u8], pfn: u64) -> (r: Result<u64, Error>)
    requires
        pfn < 0x0080_0000_0000_0000u64,
    ensures
        match r {
            Ok(v) => 8 * pfn + 8 <= table@.len() && v as nat == crate::io::le_u64_val(
                table@.subrange(8 * pfn as int, 8 * pfn + 8),
            ),
            Err(e) => e is IO && table@.len() < 8 * pfn + 8,
        },
{
    let off = kpage_entry_offset(pfn);
    if (table.len() as u64) < off + 8 {
        return Err(
            Error::IO {
                message: String::from_str("read past the end of a physical-frame table"),
            },
        );
    }
    let ou = off as usize;
    proof {
        assert(off + 8 <= table@.len());
    }
    let bytes = vstd::slice::slice_subrange(table, ou, ou + 8);
    match crate::io::read_u64(bytes) {
        Ok(v) => Ok(v),
        Err(e) => {
            // The slice holds exactly one 8-byte record, so the read cannot
            // come up short.
            proof {
                assert(false);
            }
            Err(e)
        },
    }
}

// === the CLI's soft-dirty check ===

/// How mismatches between a page's soft-dirty bit and an expected value are
/// treated.
#[derive(Copy, Clone, Debug, PartialEq, Eq, Structural)]
pub enum Assert {
    Off,
    Warn,
    Panic,
}

/// What the caller must do after one check.
#[derive(Copy, Clone, Debug, PartialEq, Eq, Structural)]
pub enum AssertAction {
    Ignore,
    Report,
    Fail,
}

impl Assert {
    /// Checks one page's soft-dirty bit against the expected value and says
    /// what to do: nothing when checking is off or the values agree, a
    /// report on mismatch in warning mode, a failure on mismatch in
    /// panicking mode.
    pub fn do_assert(&self, page: &PageDescriptor, expected_value: bool) -> (r: AssertAction)
        ensures
            ({
                let mismatch = flag_bit(page.pte.0, SOFT_DIRTY_BIT) != expected_value;
                r == (match self {
                    Assert::Off => AssertAction::Ignore,
                    Assert::Warn => if mismatch {
                        AssertAction::Report
                    } else {
                        AssertAction::Ignore
                    },
                    Assert::Panic => if mismatch {
                        AssertAction::Fail
                    } else {
                        AssertAction::Ignore
                    },
                })
            }),
    {
        let mismatch = page.pte.is_soft_dirty() != expected_value;
        match self {
            Assert::Off => AssertAction::Ignore,
            Assert::Warn => if mismatch {
                AssertAction::Report
            } else {
                AssertAction::Ignore
            },
            Assert::Panic => if mismatch {
                AssertAction::Fail
            } else {
                AssertAction::Ignore
            },
        }
    }

    /// Parses a mode name: one of `off`, `warn`, `panic`, after trimming.
    pub fn parse(s: &str) -> (r: Result<Assert, Error>)
        ensures
            match r {
                Ok(a) => (trim_text(s@) == "off"@ && a is Off) || (trim_text(s@) == "warn"@
                    && a is Warn) || (trim_text(s@) == "panic"@ && a is Panic),
                Err(e) => trim_text(s@) != "off"@ && trim_text(s@) != "warn"@ && trim_text(s@)
                    != "panic"@ && (e matches Error::Parse { typename, .. } && typename@
                    == "Assert"@),
            },
    {
        let cs = chars_of_str(s);
        let t = trim_chars(cs.as_slice());
        if chars_eq_str(t.as_slice(), "off") {
            Ok(Assert::Off)
        } else if chars_eq_str(t.as_slice(), "warn") {
            Ok(Assert::Warn)
        } else if chars_eq_str(t.as_slice(), "panic") {
            Ok(Assert::Panic)
        } else {
            Err(Error::Parse {
                value: String::from_str(s),
                typename: "Assert",
                reason: String::from_str("value was not one of: off, warn, panic"),
            })
        }
    }
}

} // verus!
