//! Decoder for the 8-byte per-physical-frame flag records of the global
//! physical-flags table.
//!
//! Each record is a 64-bit value holding 26 boolean flags at fixed bit
//! positions.  The positions are kernel ABI and must not be renumbered.

use vstd::prelude::*;

verus! {

pub const LOCKED_BIT: u64 = 0;
pub const ERROR_BIT: u64 = 1;
pub const REFERENCED_BIT: u64 = 2;
pub const UPTODATE_BIT: u64 = 3;
pub const DIRTY_BIT: u64 = 4;
pub const LRU_BIT: u64 = 5;
pub const ACTIVE_BIT: u64 = 6;
pub const SLAB_BIT: u64 = 7;
pub const WRITEBACK_BIT: u64 = 8;
pub const RECLAIM_BIT: u64 = 9;
pub const BUDDY_BIT: u64 = 10;
pub const MMAP_BIT: u64 = 11;
pub const ANON_BIT: u64 = 12;
pub const SWAPCACHE_BIT: u64 = 13;
pub const SWAPBACKED_BIT: u64 = 14;
pub const COMPOUND_HEAD_BIT: u64 = 15;
pub const COMPOUND_TAIL_BIT: u64 = 16;
pub const HUGE_BIT: u64 = 17;
pub const UNEVICTABLE_BIT: u64 = 18;
pub const HWPOISON_BIT: u64 = 19;
pub const NOPAGE_BIT: u64 = 20;
pub const KSM_BIT: u64 = 21;
pub const THP_BIT: u64 = 22;
pub const BALLOON_BIT: u64 = 23;
pub const ZERO_PAGE_BIT: u64 = 24;
pub const IDLE_BIT: u64 = 25;

/// The number of defined flag bits.
pub const FLAG_BIT_COUNT: u64 = 26;

/// Whether bit `i` of `v` is set.
pub open spec fn flag_bit(v: u64, i: u64) -> bool {
    v & (1u64 << i) != 0
}

/// One record of the global physical-flags table: a 64-bit set of flags for
/// one physical frame, indexed by physical frame number.
#[derive(Copy, Clone, Debug, PartialEq, Eq, Structural)]
pub struct KPageFlags(pub u64);

impl KPageFlags {
    pub fn new(n: u64) -> (r: Self)
        ensures
            r.0 == n,
    {
        KPageFlags(n)
    }

    pub fn locked(&self) -> (r: bool)
        ensures
            r == flag_bit(self.0, LOCKED_BIT),
    {
        self.0 & (1u64 << LOCKED_BIT) != 0
    }

    pub fn error(&self) -> (r: bool)
        ensures
            r == flag_bit(self.0, ERROR_BIT),
    {
        self.0 & (1u64 << ERROR_BIT) != 0
    }

    pub fn referenced(&self) -> (r: bool)
        ensures
            r == flag_bit(self.0, REFERENCED_BIT),
    {
        self.0 & (1u64 << REFERENCED_BIT) != 0
    }

    pub fn uptodate(&self) -> (r: bool)
        ensures
            r == flag_bit(self.0, UPTODATE_BIT),
    {
        self.0 & (1u64 << UPTODATE_BIT) != 0
    }

    pub fn dirty(&self) -> (r: bool)
        ensures
            r == flag_bit(self.0, DIRTY_BIT),
    {
        self.0 & (1u64 << DIRTY_BIT) != 0
    }

    pub fn lru(&self) -> (r: bool)
        ensures
            r == flag_bit(self.0, LRU_BIT),
    {
        self.0 & (1u64 << LRU_BIT) != 0
    }

    pub fn active(&self) -> (r: bool)
        ensures
            r == flag_bit(self.0, ACTIVE_BIT),
    {
        self.0 & (1u64 << ACTIVE_BIT) != 0
    }

    pub fn slab(&self) -> (r: bool)
        ensures
            r == flag_bit(self.0, SLAB_BIT),
    {
        self.0 & (1u64 << SLAB_BIT) != 0
    }

    pub fn writeback(&self) -> (r: bool)
        ensures
            r == flag_bit(self.0, WRITEBACK_BIT),
    {
        self.0 & (1u64 << WRITEBACK_BIT) != 0
    }

    pub fn reclaim(&self) -> (r: bool)
        ensures
            r == flag_bit(self.0, RECLAIM_BIT),
    {
        self.0 & (1u64 << RECLAIM_BIT) != 0
    }

    pub fn buddy(&self) -> (r: bool)
        ensures
            r == flag_bit(self.0, BUDDY_BIT),
    {
        self.0 & (1u64 << BUDDY_BIT) != 0
    }

    pub fn mmap(&self) -> (r: bool)
        ensures
            r == flag_bit(self.0, MMAP_BIT),
    {
        self.0 & (1u64 << MMAP_BIT) != 0
    }

    pub fn anon(&self) -> (r: bool)
        ensures
            r == flag_bit(self.0, ANON_BIT),
    {
        self.0 & (1u64 << ANON_BIT) != 0
    }

    pub fn swapcache(&self) -> (r: bool)
        ensures
            r == flag_bit(self.0, SWAPCACHE_BIT),
    {
        self.0 & (1u64 << SWAPCACHE_BIT) != 0
    }

    pub fn swapbacked(&self) -> (r: bool)
        ensures
            r == flag_bit(self.0, SWAPBACKED_BIT),
    {
        self.0 & (1u64 << SWAPBACKED_BIT) != 0
    }

    pub fn compound_head(&self) -> (r: bool)
        ensures
            r == flag_bit(self.0, COMPOUND_HEAD_BIT),
    {
        self.0 & (1u64 << COMPOUND_HEAD_BIT) != 0
    }

    pub fn compound_tail(&self) -> (r: bool)
        ensures
            r == flag_bit(self.0, COMPOUND_TAIL_BIT),
    {
        self.0 & (1u64 << COMPOUND_TAIL_BIT) != 0
    }

    pub fn huge(&self) -> (r: bool)
        ensures
            r == flag_bit(self.0, HUGE_BIT),
    {
        self.0 & (1u64 << HUGE_BIT) != 0
    }

    pub fn unevictable(&self) -> (r: bool)
        ensures
            r == flag_bit(self.0, UNEVICTABLE_BIT),
    {
        self.0 & (1u64 << UNEVICTABLE_BIT) != 0
    }

    pub fn hwpoison(&self) -> (r: bool)
        ensures
            r == flag_bit(self.0, HWPOISON_BIT),
    {
        self.0 & (1u64 << HWPOISON_BIT) != 0
    }

    pub fn nopage(&self) -> (r: bool)
        ensures
            r == flag_bit(self.0, NOPAGE_BIT),
    {
        self.0 & (1u64 << NOPAGE_BIT) != 0
    }

    pub fn ksm(&self) -> (r: bool)
        ensures
            r == flag_bit(self.0, KSM_BIT),
    {
        self.0 & (1u64 << KSM_BIT) != 0
    }

    pub fn thp(&self) -> (r: bool)
        ensures
            r == flag_bit(self.0, THP_BIT),
    {
        self.0 & (1u64 << THP_BIT) != 0
    }

    pub fn balloon(&self) -> (r: bool)
        ensures
            r == flag_bit(self.0, BALLOON_BIT),
    {
        self.0 & (1u64 << BALLOON_BIT) != 0
    }

    pub fn zero_page(&self) -> (r: bool)
        ensures
            r == flag_bit(self.0, ZERO_PAGE_BIT),
    {
        self.0 & (1u64 << ZERO_PAGE_BIT) != 0
    }

    pub fn idle(&self) -> (r: bool)
        ensures
            r == flag_bit(self.0, IDLE_BIT),
    {
        self.0 & (1u64 << IDLE_BIT) != 0
    }
}

/// The contribution of one flag to the diagnostic rendering: its name and a
/// trailing space when the bit is set, nothing otherwise.
pub open spec fn flag_name_part(v: u64, i: u64, name: Seq<char>) -> Seq<char> {
    if flag_bit(v, i) {
        name + seq![' ']
    } else {
        Seq::empty()
    }
}

/// The name at each defined bit position: the one table shared by the
/// decoder's queries and the diagnostic renderer.
pub open spec fn flag_name(i: u64) -> Seq<char> {
    if i == LOCKED_BIT {
        "LOCKED"@
    } else if i == ERROR_BIT {
        "ERROR"@
    } else if i == REFERENCED_BIT {
        "REFERENCED"@
    } else if i == UPTODATE_BIT {
        "UPTODATE"@
    } else if i == DIRTY_BIT {
        "DIRTY"@
    } else if i == LRU_BIT {
        "LRU"@
    } else if i == ACTIVE_BIT {
        "ACTIVE"@
    } else if i == SLAB_BIT {
        "SLAB"@
    } else if i == WRITEBACK_BIT {
        "WRITEBACK"@
    } else if i == RECLAIM_BIT {
        "RECLAIM"@
    } else if i == BUDDY_BIT {
        "BUDDY"@
    } else if i == MMAP_BIT {
        "MMAP"@
    } else if i == ANON_BIT {
        "ANON"@
    } else if i == SWAPCACHE_BIT {
        "SWAPCACHE"@
    } else if i == SWAPBACKED_BIT {
        "SWAPBACKED"@
    } else if i == COMPOUND_HEAD_BIT {
        "COMPOUND_HEAD"@
    } else if i == COMPOUND_TAIL_BIT {
        "COMPOUND_TAIL"@
    } else if i == HUGE_BIT {
        "HUGE"@
    } else if i == UNEVICTABLE_BIT {
        "UNEVICTABLE"@
    } else if i == HWPOISON_BIT {
        "HWPOISON"@
    } else if i == NOPAGE_BIT {
        "NOPAGE"@
    } else if i == KSM_BIT {
        "KSM"@
    } else if i == THP_BIT {
        "THP"@
    } else if i == BALLOON_BIT {
        "BALLOON"@
    } else if i == ZERO_PAGE_BIT {
        "ZERO_PAGE"@
    } else if i == IDLE_BIT {
        "IDLE"@
    } else {
        Seq::empty()
    }
}

/// The names of the set flags among bit positions `lo <= i < hi`, in
/// ascending bit order, each followed by one space.
pub open spec fn flag_names_range(v: u64, lo: int, hi: int) -> Seq<char>
    decreases hi - lo,
{
    if lo >= hi {
        Seq::empty()
    } else {
        flag_names_range(v, lo, hi - 1) + flag_name_part(v, (hi - 1) as u64, flag_name((hi - 1) as u64))
    }
}

/// Consecutive ranges of flag names concatenate.
pub proof fn lemma_flag_names_range_split(v: u64, lo: int, mid: int, hi: int)
    requires
        lo <= mid <= hi,
    ensures
        flag_names_range(v, lo, hi) == flag_names_range(v, lo, mid) + flag_names_range(v, mid, hi),
    decreases hi - mid,
{
    if mid == hi {
        Seq::<char>::add_empty_right(flag_names_range(v, lo, hi), flag_names_range(v, hi, hi));
    } else {
        lemma_flag_names_range_split(v, lo, mid, hi - 1);
        vstd::seq_lib::lemma_concat_associative(
            flag_names_range(v, lo, mid),
            flag_names_range(v, mid, hi - 1),
            flag_name_part(v, (hi - 1) as u64, flag_name((hi - 1) as u64)),
        );
    }
}

/// The names of all set flags, in ascending bit order.
pub open spec fn set_flag_names(v: u64) -> Seq<char> {
    flag_names_range(v, 0, FLAG_BIT_COUNT as int)
}

/// The whole diagnostic rendering: the raw value in binary alongside the
/// names of all set bits, each flag tested once, in ascending bit order.
pub open spec fn describe_text(v: u64) -> Seq<char> {
    "KPageFlags { value: 0b"@ + crate::text::render_num(v as nat, 2) + ", bits: [ "@
        + set_flag_names(v) + "] }"@
}

impl KPageFlags {
    /// Renders the record for diagnostics: the binary value and the names
    /// of the set bits, in ascending bit order.
    /// Whether bit `i` is set: the one query behind every named accessor.
    pub fn flag_is_set(&self, i: u64) -> (r: bool)
        requires
            i < 64,
        ensures
            r == flag_bit(self.0, i),
    {
        self.0 & (1u64 << i) != 0
    }

    /// Appends the names of the set flags, in ascending bit order, each
    /// followed by one space.
    fn append_flag_names(&self, s: &mut String)
        ensures
            final(s)@ == old(s)@ + set_flag_names(self.0),
    {
        proof {
            Seq::<char>::add_empty_right(old(s)@, Seq::<char>::empty());
        }
        let mut i: u64 = 0;
        while i < FLAG_BIT_COUNT
            invariant
                i <= FLAG_BIT_COUNT,
                s@ == old(s)@ + flag_names_range(self.0, 0, i as int),
            decreases FLAG_BIT_COUNT - i,
        {
            if self.flag_is_set(i) {
                let spaced = flag_name_spaced(i);
                s.append(spaced);
            }
            proof {
                if !flag_bit(self.0, i) {
                    Seq::<char>::add_empty_right(
                        flag_names_range(self.0, 0, i as int),
                        Seq::<char>::empty(),
                    );
                }
                vstd::seq_lib::lemma_concat_associative(
                    old(s)@,
                    flag_names_range(self.0, 0, i as int),
                    flag_name_part(self.0, i, flag_name(i)),
                );
                assert(s@ == old(s)@ + flag_names_range(self.0, 0, i as int + 1));
            }
            i = i + 1;
        }
    }

    /// Renders the record for diagnostics: the binary value and the names
    /// of the set bits, each flag tested once, in ascending bit order.
    pub fn describe(&self) -> (r: String)
        ensures
            r@ == describe_text(self.0),
    {
        let mut s = String::from_str("KPageFlags { value: 0b");
        let digits = crate::text::render_digits(self.0, 2);
        let bin = crate::text::string_of_chars(digits.as_slice());
        s.append(bin.as_str());
        s.append(", bits: [ ");
        self.append_flag_names(&mut s);
        s.append("] }");
        proof {
            assert(s@ == describe_text(self.0));
        }
        s
    }
}

/// The table row for one bit position: the flag's name followed by one
/// space (a bare space beyond the defined positions, where the name is
/// empty).
#[verifier::rlimit(100)]
pub fn flag_name_spaced(i: u64) -> (r: &'static str)
    ensures
        r@ == flag_name(i) + seq![' '],
{
        if i == 0 {
            proof {
                reveal_strlit("LOCKED ");
                reveal_strlit("LOCKED");
                assert(("LOCKED "@) =~= ("LOCKED"@) + seq![' ']);
            }
            "LOCKED "
        } else if i == 1 {
            proof {
                reveal_strlit("ERROR ");
                reveal_strlit("ERROR");
                assert(("ERROR "@) =~= ("ERROR"@) + seq![' ']);
            }
            "ERROR "
        } else if i == 2 {
            proof {
                reveal_strlit("REFERENCED ");
                reveal_strlit("REFERENCED");
                assert(("REFERENCED "@) =~= ("REFERENCED"@) + seq![' ']);
            }
            "REFERENCED "
        } else if i == 3 {
            proof {
                reveal_strlit("UPTODATE ");
                reveal_strlit("UPTODATE");
                assert(("UPTODATE "@) =~= ("UPTODATE"@) + seq![' ']);
            }
            "UPTODATE "
        } else if i == 4 {
            proof {
                reveal_strlit("DIRTY ");
                reveal_strlit("DIRTY");
                assert(("DIRTY "@) =~= ("DIRTY"@) + seq![' ']);
            }
            "DIRTY "
        } else if i == 5 {
            proof {
                reveal_strlit("LRU ");
                reveal_strlit("LRU");
                assert(("LRU "@) =~= ("LRU"@) + seq![' ']);
            }
            "LRU "
        } else if i == 6 {
            proof {
                reveal_strlit("ACTIVE ");
                reveal_strlit("ACTIVE");
                assert(("ACTIVE "@) =~= ("ACTIVE"@) + seq![' ']);
            }
            "ACTIVE "
        } else if i == 7 {
            proof {
                reveal_strlit("SLAB ");
                reveal_strlit("SLAB");
                assert(("SLAB "@) =~= ("SLAB"@) + seq![' ']);
            }
            "SLAB "
        } else if i == 8 {
            proof {
                reveal_strlit("WRITEBACK ");
                reveal_strlit("WRITEBACK");
                assert(("WRITEBACK "@) =~= ("WRITEBACK"@) + seq![' ']);
            }
            "WRITEBACK "
        } else if i == 9 {
            proof {
                reveal_strlit("RECLAIM ");
                reveal_strlit("RECLAIM");
                assert(("RECLAIM "@) =~= ("RECLAIM"@) + seq![' ']);
            }
            "RECLAIM "
        } else if i == 10 {
            proof {
                reveal_strlit("BUDDY ");
                reveal_strlit("BUDDY");
                assert(("BUDDY "@) =~= ("BUDDY"@) + seq![' ']);
            }
            "BUDDY "
        } else if i == 11 {
            proof {
                reveal_strlit("MMAP ");
                reveal_strlit("MMAP");
                assert(("MMAP "@) =~= ("MMAP"@) + seq![' ']);
            }
            "MMAP "
        } else if i == 12 {
            proof {
                reveal_strlit("ANON ");
                reveal_strlit("ANON");
                assert(("ANON "@) =~= ("ANON"@) + seq![' ']);
            }
            "ANON "
        } else if i == 13 {
            proof {
                reveal_strlit("SWAPCACHE ");
                reveal_strlit("SWAPCACHE");
                assert(("SWAPCACHE "@) =~= ("SWAPCACHE"@) + seq![' ']);
            }
            "SWAPCACHE "
        } else if i == 14 {
            proof {
                reveal_strlit("SWAPBACKED ");
                reveal_strlit("SWAPBACKED");
                assert(("SWAPBACKED "@) =~= ("SWAPBACKED"@) + seq![' ']);
            }
            "SWAPBACKED "
        } else if i == 15 {
            proof {
                reveal_strlit("COMPOUND_HEAD ");
                reveal_strlit("COMPOUND_HEAD");
                assert(("COMPOUND_HEAD "@) =~= ("COMPOUND_HEAD"@) + seq![' ']);
            }
            "COMPOUND_HEAD "
        } else if i == 16 {
            proof {
                reveal_strlit("COMPOUND_TAIL ");
                reveal_strlit("COMPOUND_TAIL");
                assert(("COMPOUND_TAIL "@) =~= ("COMPOUND_TAIL"@) + seq![' ']);
            }
            "COMPOUND_TAIL "
        } else if i == 17 {
            proof {
                reveal_strlit("HUGE ");
                reveal_strlit("HUGE");
                assert(("HUGE "@) =~= ("HUGE"@) + seq![' ']);
            }
            "HUGE "
        } else if i == 18 {
            proof {
                reveal_strlit("UNEVICTABLE ");
                reveal_strlit("UNEVICTABLE");
                assert(("UNEVICTABLE "@) =~= ("UNEVICTABLE"@) + seq![' ']);
            }
            "UNEVICTABLE "
        } else if i == 19 {
            proof {
                reveal_strlit("HWPOISON ");
                reveal_strlit("HWPOISON");
                assert(("HWPOISON "@) =~= ("HWPOISON"@) + seq![' ']);
            }
            "HWPOISON "
        } else if i == 20 {
            proof {
                reveal_strlit("NOPAGE ");
                reveal_strlit("NOPAGE");
                assert(("NOPAGE "@) =~= ("NOPAGE"@) + seq![' ']);
            }
            "NOPAGE "
        } else if i == 21 {
            proof {
                reveal_strlit("KSM ");
                reveal_strlit("KSM");
                assert(("KSM "@) =~= ("KSM"@) + seq![' ']);
            }
            "KSM "
        } else if i == 22 {
            proof {
                reveal_strlit("THP ");
                reveal_strlit("THP");
                assert(("THP "@) =~= ("THP"@) + seq![' ']);
            }
            "THP "
        } else if i == 23 {
            proof {
                reveal_strlit("BALLOON ");
                reveal_strlit("BALLOON");
                assert(("BALLOON "@) =~= ("BALLOON"@) + seq![' ']);
            }
            "BALLOON "
        } else if i == 24 {
            proof {
                reveal_strlit("ZERO_PAGE ");
                reveal_strlit("ZERO_PAGE");
                assert(("ZERO_PAGE "@) =~= ("ZERO_PAGE"@) + seq![' ']);
            }
            "ZERO_PAGE "
        } else if i == 25 {
            proof {
                reveal_strlit("IDLE ");
                reveal_strlit("IDLE");
                assert(("IDLE "@) =~= ("IDLE"@) + seq![' ']);
            }
            "IDLE "
        } else {
            proof {
                Seq::<char>::add_empty_right(flag_name(i), Seq::<char>::empty());
                reveal_strlit(" ");
                assert((" "@) =~= Seq::<char>::empty() + seq![' ']);
            }
            " "
        }
}

/// A value with exactly one of the defined flag bits set answers `true` for
/// the query at that bit position and `false` for the query at every other
/// position.
pub proof fn lemma_single_flag_bit(b: u64, i: u64)
    requires
        b < FLAG_BIT_COUNT,
        i < FLAG_BIT_COUNT,
    ensures
        flag_bit(1u64 << b, i) == (b == i),
{
    assert((1u64 << b) & (1u64 << i) != 0 <==> b == i) by (bit_vector)
        requires
            b < 26 && i < 26,
    ;
}

} // verus!
