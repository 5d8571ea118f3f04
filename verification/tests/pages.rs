//! The process snapshot and the per-region page iterator, run against
//! in-memory copies of the backing tables.

use beholder::error::Error;
use beholder::maps::Maps;
use beholder::pagemaps::{
    iterate_region, Assert, AssertAction, PageSize, ProcessVMA,
};

fn little_endian_entries(values: &[u64]) -> Vec<u8> {
    let mut out = Vec::new();
    for v in values {
        out.extend_from_slice(&v.to_le_bytes());
    }
    out
}

#[test]
fn empty_text_is_an_empty_table() {
    let maps = Maps::parse("").unwrap();
    assert_eq!(maps.iter().len(), 0);
    assert_eq!(maps.to_string(), "");
    assert!(maps.region(0x1000).is_none());
}

#[test]
fn duplicate_start_addresses_replace() {
    let table = "00001000-00002000 rw-p 00000000 00:00 0\n\
                 00001000-00003000 r--p 00000000 00:00 0\n";
    let maps = Maps::parse(table).unwrap();
    assert_eq!(maps.iter().len(), 1);
    let region = maps.region(0x1000).unwrap();
    assert_eq!(region.addr_range().end(), 0x3000);
    assert_eq!(region.perms().to_string(), "r--p");
}

#[test]
fn region_lookup_exact_containing_and_missing() {
    let table = "00001000-00005000 rw-p 00000000 00:00 0\n";
    let maps = Maps::parse(table).unwrap();
    let at_start = maps.region(0x1000).expect("start address is owned");
    assert_eq!(at_start.addr_range().start(), 0x1000);
    let near_end = maps.region(0x4fff).expect("last address is owned");
    assert_eq!(near_end.addr_range().start(), 0x1000);
    assert!(maps.region(0x5000).is_none());
    assert!(maps.region(0xfff).is_none());
}

#[test]
fn region_lookup_end_owned_by_next_region() {
    let table = "00001000-00005000 rw-p 00000000 00:00 0\n\
                 00005000-00006000 r--p 00000000 00:00 0\n";
    let maps = Maps::parse(table).unwrap();
    let next = maps.region(0x5000).expect("the next region starts there");
    assert_eq!(next.addr_range().start(), 0x5000);
}

#[test]
fn addrs_for_pathname_buckets() {
    let table = "00001000-00002000 r-xp 00000000 08:02 11 /usr/bin/zsh\n\
                 00003000-00004000 rw-p 00000000 00:00 0 [heap]\n\
                 00005000-00006000 r--p 00001000 08:02 11 /usr/bin/zsh\n";
    let maps = Maps::parse(table).unwrap();
    let zsh = maps.addrs_for_pathname("/usr/bin/zsh").unwrap();
    assert_eq!(zsh.len(), 2);
    assert_eq!(zsh[0].start(), 0x1000);
    assert_eq!(zsh[1].start(), 0x5000);
    let heap = maps.addrs_for_pathname("[heap]").unwrap();
    assert_eq!(heap.len(), 1);
    assert!(maps.addrs_for_pathname("/no/such/file").is_none());
}

#[test]
fn unprivileged_iteration_covers_three_normal_pages() {
    let table = "00001000-00004000 rw-p 00000000 00:00 0\n";
    let maps = Maps::parse(table).unwrap();
    let region = maps.region(0x1000).unwrap();
    let pagemap = little_endian_entries(&[0, 1 << 55, 1 << 55]);
    let pages = iterate_region(region, None, &pagemap, None, None).unwrap();
    assert_eq!(pages.len(), 3);
    for (i, page) in pages.iter().enumerate() {
        assert_eq!(page.addr_range.start(), 0x1000 + i * 4096);
        assert_eq!(page.addr_range.end(), 0x1000 + (i + 1) * 4096);
        assert!(page.kpageflags.is_none());
        assert!(page.kpagecount.is_none());
        assert_eq!(page.offset, 0);
    }
    assert!(!pages[0].pte.is_soft_dirty());
    assert!(pages[1].pte.is_soft_dirty());
}

#[test]
fn short_page_table_read_ends_the_sequence_silently() {
    let table = "00001000-00004000 rw-p 00000000 00:00 0\n";
    let maps = Maps::parse(table).unwrap();
    let region = maps.region(0x1000).unwrap();
    let pagemap = little_endian_entries(&[0]);
    let pages = iterate_region(region, None, &pagemap, None, None).unwrap();
    assert_eq!(pages.len(), 1);
}

#[test]
fn huge_flag_changes_the_stride_mid_stream() {
    // A region of one huge page followed by one normal page.  The first
    // entry exposes frame 1, whose flags mark it huge; the second exposes
    // frame 2, unflagged.
    let table = "00400000-00601000 rw-p 00000000 00:00 0\n";
    let maps = Maps::parse(table).unwrap();
    let region = maps.region(0x400000).unwrap();
    let present: u64 = 1 << 63;
    let pagemap = little_endian_entries(&[present | 1, present | 2]);
    let kpageflags = little_endian_entries(&[0, 1 << 17, 0]);
    let kpagecount = little_endian_entries(&[0, 3, 0]);
    let pages =
        iterate_region(region, None, &pagemap, Some(&kpageflags), Some(&kpagecount)).unwrap();
    assert_eq!(pages.len(), 2);
    assert_eq!(pages[0].addr_range.len(), 2 * 1024 * 1024);
    assert!(pages[0].kpageflags.unwrap().huge());
    assert_eq!(pages[0].kpagecount, Some(3));
    assert_eq!(pages[1].addr_range.len(), 4096);
    assert!(!pages[1].kpageflags.unwrap().huge());
    // A zero reference count reads back as absent, never as a valid count.
    assert_eq!(pages[1].kpagecount, None);
}

#[test]
fn page_size_override_fixes_the_stride() {
    let table = "00001000-00004000 rw-p 00000000 00:00 0\n";
    let maps = Maps::parse(table).unwrap();
    let region = maps.region(0x1000).unwrap();
    let pagemap = little_endian_entries(&[0, 0, 0]);
    let pages =
        iterate_region(region, Some(PageSize::Huge), &pagemap, None, None).unwrap();
    assert_eq!(pages.len(), 1);
    assert_eq!(pages[0].addr_range.len(), 2 * 1024 * 1024);
}

#[test]
fn short_frame_table_is_a_fatal_error() {
    let table = "00001000-00002000 rw-p 00000000 00:00 0\n";
    let maps = Maps::parse(table).unwrap();
    let region = maps.region(0x1000).unwrap();
    let present: u64 = 1 << 63;
    let pagemap = little_endian_entries(&[present | 7]);
    let kpageflags = little_endian_entries(&[0, 0]);
    match iterate_region(region, None, &pagemap, Some(&kpageflags), None) {
        Err(Error::IO { .. }) => {},
        _ => panic!("expected an io error for a frame beyond the table"),
    }
}

#[test]
fn address_overflow_is_reported_not_wrapped() {
    let start = usize::MAX - 0x800;
    let table = format!("{:x}-{:x} rw-p 00000000 00:00 0\n", start, usize::MAX);
    let maps = Maps::parse(&table).unwrap();
    let region = maps.region(start).unwrap();
    let pagemap = little_endian_entries(&[0]);
    match iterate_region(region, None, &pagemap, None, None) {
        Err(Error::Number) => {},
        _ => panic!("expected the overflow to be reported"),
    }
}

#[test]
fn process_vma_attach_lookup_and_reload() {
    let first = "00001000-00002000 rw-p 00000000 00:00 0 [heap]\n";
    let second = "00003000-00004000 r--p 00000000 00:00 0 [stack]\n";
    let mut vm = ProcessVMA::from_maps_text(42, first).unwrap();
    assert_eq!(vm.pid(), 42);
    let region = vm.region(0x1800).unwrap();
    assert_eq!(region.region().addr_range().start(), 0x1000);
    assert_eq!(region.pid(), 42);
    vm.reload(second).unwrap();
    assert_eq!(vm.pid(), 42);
    assert!(vm.region(0x1800).is_none());
    assert!(vm.region(0x3000).is_some());
    // A malformed snapshot leaves the old one untouched.
    assert!(vm.reload("garbage line").is_err());
    assert!(vm.region(0x3000).is_some());
}

#[test]
fn pagemap_seek_offset_counts_entries_below_the_region() {
    let table = "00003000-00004000 rw-p 00000000 00:00 0\n";
    let maps = Maps::parse(table).unwrap();
    let vm = ProcessVMA { pid: 1, path: None, maps };
    let region = vm.region(0x3000).unwrap();
    assert_eq!(region.pagemap_seek_offset(), (0x3000 / 4096) * 8);
}

#[test]
fn do_assert_reports_per_mode() {
    let table = "00001000-00002000 rw-p 00000000 00:00 0\n";
    let maps = Maps::parse(table).unwrap();
    let region = maps.region(0x1000).unwrap();
    let dirty = little_endian_entries(&[1 << 55]);
    let pages = iterate_region(region, None, &dirty, None, None).unwrap();
    let page = &pages[0];
    assert_eq!(Assert::Off.do_assert(page, false), AssertAction::Ignore);
    assert_eq!(Assert::Off.do_assert(page, true), AssertAction::Ignore);
    assert_eq!(Assert::Warn.do_assert(page, true), AssertAction::Ignore);
    assert_eq!(Assert::Warn.do_assert(page, false), AssertAction::Report);
    assert_eq!(Assert::Panic.do_assert(page, true), AssertAction::Ignore);
    assert_eq!(Assert::Panic.do_assert(page, false), AssertAction::Fail);
}

#[test]
fn page_size_names_and_bytes() {
    assert_eq!(PageSize::parse("normal").unwrap(), PageSize::Normal);
    assert_eq!(PageSize::parse(" huge ").unwrap(), PageSize::Huge);
    assert_eq!(PageSize::parse("giga").unwrap(), PageSize::Giga);
    assert!(matches!(PageSize::parse("big"), Err(Error::Parse { .. })));
    assert_eq!(PageSize::Normal.bytes(), 4096);
    assert_eq!(PageSize::Huge.bytes(), 2 * 1024 * 1024);
    assert_eq!(PageSize::Giga.bytes(), 1 << 30);
    assert_eq!(PageSize::default(), PageSize::Normal);
}

#[test]
fn assert_mode_names() {
    assert_eq!(Assert::parse("off").unwrap(), Assert::Off);
    assert_eq!(Assert::parse("warn").unwrap(), Assert::Warn);
    assert_eq!(Assert::parse(" panic\n").unwrap(), Assert::Panic);
    assert!(Assert::parse("loud").is_err());
}
