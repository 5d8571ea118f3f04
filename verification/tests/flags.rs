//! The two binary decoders: each of the 26 physical-flag bits answers its
//! own query and no other, and page-table entries decode their fields.

use beholder::kpageflags::KPageFlags;
use beholder::pagemaps::PageTableEntry;

fn all_queries(f: &KPageFlags) -> Vec<bool> {
    vec![
        f.locked(),
        f.error(),
        f.referenced(),
        f.uptodate(),
        f.dirty(),
        f.lru(),
        f.active(),
        f.slab(),
        f.writeback(),
        f.reclaim(),
        f.buddy(),
        f.mmap(),
        f.anon(),
        f.swapcache(),
        f.swapbacked(),
        f.compound_head(),
        f.compound_tail(),
        f.huge(),
        f.unevictable(),
        f.hwpoison(),
        f.nopage(),
        f.ksm(),
        f.thp(),
        f.balloon(),
        f.zero_page(),
        f.idle(),
    ]
}

#[test]
fn each_flag_bit_reports_only_itself() {
    for bit in 0..26u64 {
        let f = KPageFlags::new(1u64 << bit);
        let answers = all_queries(&f);
        for (i, answer) in answers.iter().enumerate() {
            assert_eq!(
                *answer,
                i as u64 == bit,
                "flag value with only bit {} set answered {} for query {}",
                bit,
                answer,
                i
            );
        }
    }
}

#[test]
fn zero_flags_report_nothing() {
    let f = KPageFlags::new(0);
    assert!(all_queries(&f).iter().all(|b| !b));
}

#[test]
fn combined_flags_report_each_set_bit() {
    let f = KPageFlags::new((1 << 4) | (1 << 17));
    assert!(f.dirty());
    assert!(f.huge());
    assert!(!f.locked());
    assert!(!f.thp());
}

#[test]
fn describe_lists_set_bits_in_ascending_order() {
    let f = KPageFlags::new((1 << 4) | (1 << 5));
    assert_eq!(f.describe(), "KPageFlags { value: 0b110000, bits: [ DIRTY LRU ] }");
    let none = KPageFlags::new(0);
    assert_eq!(none.describe(), "KPageFlags { value: 0b0, bits: [ ] }");
    let hw = KPageFlags::new(1 << 19);
    assert_eq!(
        hw.describe(),
        "KPageFlags { value: 0b10000000000000000000, bits: [ HWPOISON ] }"
    );
}

#[test]
fn present_entry_decodes_pattern() {
    let pattern: u64 = 0xabc;
    let pte = PageTableEntry::new((1u64 << 63) | pattern);
    assert!(pte.is_present());
    assert!(!pte.is_soft_dirty());
    assert_eq!(pte.page_frame_number(), Some(pattern));
}

#[test]
fn soft_dirty_bit_decodes() {
    let pte = PageTableEntry::new(1u64 << 55);
    assert!(pte.is_soft_dirty());
    assert!(!pte.is_present());
    assert_eq!(pte.page_frame_number(), None);
}

#[test]
fn zero_frame_field_is_absent_not_zero() {
    let pte = PageTableEntry::new(1u64 << 63);
    assert!(pte.is_present());
    assert_eq!(pte.page_frame_number(), None);
}

#[test]
fn frame_field_ignores_high_bits() {
    let pte = PageTableEntry::new((1u64 << 63) | (1u64 << 55) | 42);
    assert_eq!(pte.page_frame_number(), Some(42));
    assert!(pte.is_soft_dirty());
}
