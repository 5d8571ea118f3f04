//! The process region table: one record per mapped region, parsed from the
//! kernel's text format and printed back to it, with a proved round-trip
//! law, plus the dual-indexed table container (by start address and by
//! pathname) and region lookup by address.

pub mod column;

use vstd::prelude::*;
use crate::error::Error;
use crate::maps::column::{
    AddressRange, Device, Inode, Offset, PathModel, PathName, Perm, PermSet, classify_path,
    device_text, inode_text, offset_text, parse_device_token, parse_inode_token,
    parse_offset_token, parse_perms_token, parse_range_token, path_text, path_wf, perms_text,
    range_contains, range_text, token_safe, lemma_range_roundtrip, lemma_perms_roundtrip,
    lemma_offset_roundtrip, lemma_device_roundtrip, lemma_inode_roundtrip, lemma_path_roundtrip,
    parse_range_chars, parse_perms_chars, parse_device_chars, classify_path_chars, range_chars,
    perms_chars, device_chars,
};
use crate::text::{
    chars_of_str, is_ws, parse_num, render_digits, render_digits_padded, split_lines,
    split_lines_chars, string_of_chars, tokenize, tokenize_chars, lemma_tokenize_token,
    lemma_tokenize_skip_ws, lemma_split_lines_step,
};

verus! {

/// The column a nonempty pathname is padded out to before printing.
pub const PATHNAME_DISPLAY_RIGHT_PADDING: usize = 73;

/// A run of `n` space characters.
pub open spec fn spaces(n: nat) -> Seq<char> {
    Seq::new(n, |i: int| ' ')
}

/// Free of newline characters.
pub open spec fn nl_free(s: Seq<char>) -> bool {
    forall|i: int| 0 <= i < s.len() ==> #[trigger] s[i] != '\n'
}

proof fn lemma_nl_free_concat(a: Seq<char>, b: Seq<char>)
    requires
        nl_free(a),
        nl_free(b),
    ensures
        nl_free(a + b),
{
    let c = a + b;
    assert forall|i: int| 0 <= i < c.len() implies #[trigger] c[i] != '\n' by {
        if i < a.len() {
            assert(c[i] == a[i]);
        } else {
            assert(c[i] == b[i - a.len()]);
        }
    }
}

proof fn lemma_token_safe_nl_free(s: Seq<char>)
    requires
        token_safe(s),
    ensures
        nl_free(s),
{
    assert forall|i: int| 0 <= i < s.len() implies #[trigger] s[i] != '\n' by {
        assert(!is_ws(s[i]));
    }
}

// === MappedRegion ===

/// The mathematical value of one region record.
#[verifier::ext_equal]
pub struct RegionModel {
    pub range: AddressRange,
    pub perms: Seq<Perm>,
    pub offset: Offset,
    pub device: Device,
    pub inode: Inode,
    pub pathname: PathModel,
    pub extra: Seq<Seq<char>>,
}

/// One line of the region table: an address range, its permissions, the
/// backing file offset, device and inode, the pathname, and any tokens
/// beyond the six expected columns (kept, never rejected).
#[derive(Clone, Debug)]
pub struct MappedRegion {
    pub addr_range: AddressRange,
    pub perms: PermSet,
    pub offset: Offset,
    pub device: Device,
    pub inode: Inode,
    pub pathname: PathName,
    pub extra: Vec<String>,
}

impl View for MappedRegion {
    type V = RegionModel;

    open spec fn view(&self) -> RegionModel {
        RegionModel {
            range: self.addr_range,
            perms: self.perms.0@,
            offset: self.offset,
            device: self.device,
            inode: self.inode,
            pathname: self.pathname@,
            extra: self.extra.deep_view(),
        }
    }
}

/// The text of the line's first five columns, single-space separated.
pub open spec fn region_prefix_text(m: RegionModel) -> Seq<char> {
    range_text(m.range) + seq![' '] + perms_text(m.perms) + seq![' '] + offset_text(m.offset)
        + seq![' '] + device_text(m.device) + seq![' '] + inode_text(m.inode)
}

/// The text of a whole line: a blank pathname prints nothing after the
/// inode; otherwise the pathname is padded out to the display column (or one
/// space past the prefix when the prefix is already that wide or wider —
/// then no separating space remains and the line is not re-parseable, which
/// is why the round-trip law bounds the prefix).
pub open spec fn region_text(m: RegionModel) -> Seq<char> {
    let pre = region_prefix_text(m);
    if m.pathname is Empty {
        pre
    } else {
        let pad = if pre.len() >= PATHNAME_DISPLAY_RIGHT_PADDING {
            0nat
        } else {
            (PATHNAME_DISPLAY_RIGHT_PADDING - pre.len()) as nat
        };
        pre + spaces(pad) + path_text(m.pathname)
    }
}

/// The region a line denotes, if any: five mandatory columns, an optional
/// pathname column, and any remaining tokens collected as extras.
pub open spec fn parse_line(s: Seq<char>) -> Option<RegionModel> {
    let toks = tokenize(s);
    if toks.len() < 5 {
        None
    } else {
        let r0 = parse_range_token(toks[0]);
        let r1 = parse_perms_token(toks[1]);
        let r2 = parse_offset_token(toks[2]);
        let r3 = parse_device_token(toks[3]);
        let r4 = parse_inode_token(toks[4]);
        if r0 is Some && r1 is Some && r2 is Some && r3 is Some && r4 is Some {
            Some(
                (RegionModel {
                    range: r0.unwrap(),
                    perms: r1.unwrap(),
                    offset: r2.unwrap(),
                    device: r3.unwrap(),
                    inode: r4.unwrap(),
                    pathname: if toks.len() >= 6 {
                        classify_path(toks[5])
                    } else {
                        PathModel::Empty
                    },
                    extra: if toks.len() > 6 {
                        toks.skip(6)
                    } else {
                        Seq::empty()
                    },
                }),
            )
        } else {
            None
        }
    }
}

impl MappedRegion {
    pub fn addr_range(&self) -> (r: &AddressRange)
        ensures
            r == self.addr_range,
    {
        &self.addr_range
    }

    pub fn perms(&self) -> (r: &PermSet)
        ensures
            r.0@ == self@.perms,
    {
        &self.perms
    }

    pub fn offset(&self) -> (r: Offset)
        ensures
            r == self.offset,
    {
        self.offset
    }

    pub fn device(&self) -> (r: &Device)
        ensures
            r == self.device,
    {
        &self.device
    }

    pub fn inode(&self) -> (r: Inode)
        ensures
            r == self.inode,
    {
        self.inode
    }

    pub fn pathname(&self) -> (r: &PathName)
        ensures
            r@ == self@.pathname,
    {
        &self.pathname
    }

    pub fn extra(&self) -> (r: &[String])
        ensures
            r.deep_view() == self@.extra,
    {
        self.extra.as_slice()
    }

    /// Parses one line of the table.
    pub fn parse(s: &str) -> (r: Result<MappedRegion, Error>)
        ensures
            match r {
                Ok(m) => parse_line(s@) == Some(m@),
                Err(e) => parse_line(s@) is None && (e matches Error::Parse { .. }),
            },
            (tokenize(s@).len() == 0 ==> (r matches Err(e) && (e matches Error::Parse {
                reason,
                ..
            } && reason@ == "blank string"@))),
    {
        let cs = chars_of_str(s);
        parse_line_chars(cs.as_slice())
    }

    /// The canonical text of the line.
    pub fn to_string(&self) -> (r: String)
        ensures
            r@ == region_text(self@),
    {
        let chars = self.to_line_chars();
        string_of_chars(chars.as_slice())
    }

    /// The canonical character rendering of the line.
    pub fn to_line_chars(&self) -> (r: Vec<char>)
        ensures
            r@ == region_text(self@),
    {
        let mut v = range_chars(&self.addr_range);
        v.push(' ');
        let b = perms_chars(&self.perms);
        push_all(&mut v, b.as_slice());
        v.push(' ');
        let c = render_digits_padded(self.offset.0 as u64, 8, 16);
        push_all(&mut v, c.as_slice());
        v.push(' ');
        let d = device_chars(&self.device);
        push_all(&mut v, d.as_slice());
        v.push(' ');
        let e = render_digits(self.inode.0 as u64, 10);
        push_all(&mut v, e.as_slice());
        proof {
            assert(v@ =~= region_prefix_text(self@));
        }
        match &self.pathname {
            PathName::Empty => {
                proof {
                    assert(v@ =~= region_text(self@));
                }
                v
            },
            _ => {
                let mut pad: usize = 0;
                if v.len() < PATHNAME_DISPLAY_RIGHT_PADDING {
                    pad = PATHNAME_DISPLAY_RIGHT_PADDING - v.len();
                }
                let ghost pre = v@;
                let mut k: usize = 0;
                while k < pad
                    invariant
                        k <= pad,
                        v@ =~= pre + spaces(k as nat),
                    decreases pad - k,
                {
                    v.push(' ');
                    proof {
                        assert(pre + spaces(k as nat) + seq![' '] =~= pre + spaces(k as nat + 1));
                    }
                    k = k + 1;
                }
                let p = chars_of_str(self.pathname.as_str());
                push_all(&mut v, p.as_slice());
                proof {
                    assert(v@ =~= region_text(self@));
                }
                v
            },
        }
    }
}

/// Appends every character of `s` to `v`.
pub fn push_all(v: &mut Vec<char>, s: &[char])
    ensures
        final(v)@ == old(v)@ + s@,
{
    let mut i: usize = 0;
    while i < s.len()
        invariant
            i <= s@.len(),
            v@ =~= old(v)@ + s@.take(i as int),
        decreases s@.len() - i,
    {
        let c = s[i];
        v.push(c);
        proof {
            assert(old(v)@ + s@.take(i as int) + seq![s@[i as int]] =~= old(v)@ + s@.take(
                i as int + 1,
            ));
        }
        i = i + 1;
    }
    proof {
        assert(s@.take(s@.len() as int) =~= s@);
    }
}

/// Parses one line of the table, given as characters.
pub fn parse_line_chars(t: &[char]) -> (r: Result<MappedRegion, Error>)
    ensures
        match r {
            Ok(m) => parse_line(t@) == Some(m@),
            Err(e) => parse_line(t@) is None && (e matches Error::Parse { .. }),
        },
        (tokenize(t@).len() == 0 ==> (r matches Err(e) && (e matches Error::Parse {
            reason,
            ..
        } && reason@ == "blank string"@))),
{
    let toks = tokenize_chars(t);
    if toks.len() == 0 {
        return Err(Error::Parse {
            value: string_of_chars(t),
            typename: "MappedRegion",
            reason: String::from_str("blank string"),
        });
    }
    if toks.len() < 5 {
        return Err(Error::Parse {
            value: string_of_chars(t),
            typename: "MappedRegion",
            reason: String::from_str("line has fewer than the five mandatory columns"),
        });
    }
    proof {
        assert(toks@[0]@ =~= tokenize(t@)[0]);
        assert(toks@[1]@ =~= tokenize(t@)[1]);
        assert(toks@[2]@ =~= tokenize(t@)[2]);
        assert(toks@[3]@ =~= tokenize(t@)[3]);
        assert(toks@[4]@ =~= tokenize(t@)[4]);
    }
    let addr_range = match parse_range_chars(toks[0].as_slice()) {
        Some(a) => a,
        None => {
            return Err(Error::Parse {
                value: string_of_chars(toks[0].as_slice()),
                typename: "AddressRange",
                reason: String::from_str(
                    "address range string was not two hexadecimal numbers joined by a dash",
                ),
            });
        },
    };
    let perms = match parse_perms_chars(toks[1].as_slice()) {
        Ok(p) => p,
        Err(e) => {
            return Err(e);
        },
    };
    let offset = match parse_num(toks[2].as_slice(), 16) {
        Some(n) => Offset(n),
        None => {
            return Err(Error::Parse {
                value: string_of_chars(toks[2].as_slice()),
                typename: "Offset",
                reason: String::from_str("Offset string was not valid base 16 usize"),
            });
        },
    };
    let device = match parse_device_chars(toks[3].as_slice()) {
        Some(d) => d,
        None => {
            return Err(Error::Parse {
                value: string_of_chars(toks[3].as_slice()),
                typename: "Device",
                reason: String::from_str(
                    "device string was not two hexadecimal numbers joined by a colon",
                ),
            });
        },
    };
    let inode = match parse_num(toks[4].as_slice(), 10) {
        Some(n) => Inode(n),
        None => {
            return Err(Error::Parse {
                value: string_of_chars(toks[4].as_slice()),
                typename: "Inode",
                reason: String::from_str("Inode string was not valid base 10 usize"),
            });
        },
    };
    let pathname = if toks.len() >= 6 {
        proof {
            assert(toks@[5]@ =~= tokenize(t@)[5]);
        }
        classify_path_chars(&toks[5])
    } else {
        PathName::Empty
    };
    let mut extra: Vec<String> = Vec::new();
    let mut i: usize = 6;
    if toks.len() > 6 {
        while i < toks.len()
            invariant
                6 <= i <= toks@.len(),
                toks.deep_view() == tokenize(t@),
                extra.deep_view() =~= tokenize(t@).skip(6).take(i - 6),
            decreases toks@.len() - i,
        {
            let ghost before = extra.deep_view();
            let s = string_of_chars(toks[i].as_slice());
            extra.push(s);
            proof {
                assert(toks@[i as int]@ =~= tokenize(t@)[i as int]);
                assert(extra.deep_view() =~~= before.push(tokenize(t@)[i as int]));
                assert(before.push(tokenize(t@)[i as int]) =~= tokenize(t@).skip(6).take(
                    i - 6 + 1,
                ));
            }
            i = i + 1;
        }
    }
    let m = MappedRegion { addr_range, perms, offset, device, inode, pathname, extra };
    proof {
        let want = parse_line(t@).unwrap();
        if tokenize(t@).len() > 6 {
            assert(extra.deep_view() =~= tokenize(t@).skip(6));
        } else {
            assert(extra.deep_view() =~= Seq::<Seq<char>>::empty());
        }
        assert(m@ =~~= want);
    }
    Ok(m)
}

// === the round-trip law for one line ===

/// A region record as the parser itself would produce it from a canonical
/// line: at least one permission column, a parser-shaped pathname, no extra
/// tokens, and — when a pathname is present — a prefix short enough to
/// leave at least one space before it.
pub open spec fn region_wf(m: RegionModel) -> bool {
    &&& m.perms.len() > 0
    &&& path_wf(m.pathname)
    &&& m.extra.len() == 0
    &&& (m.pathname is Empty || region_prefix_text(m).len()
        < PATHNAME_DISPLAY_RIGHT_PADDING)
}

/// Printing a well-formed region record and parsing the printed line yields
/// the record back, and the line holds no newline character.
#[verifier::rlimit(100)]
pub proof fn lemma_region_roundtrip(m: RegionModel)
    requires
        region_wf(m),
    ensures
        parse_line(region_text(m)) == Some(m),
        nl_free(region_text(m)),
{
    let ta = range_text(m.range);
    let tb = perms_text(m.perms);
    let tc = offset_text(m.offset);
    let td = device_text(m.device);
    let te = inode_text(m.inode);
    lemma_range_roundtrip(m.range);
    lemma_perms_roundtrip(m.perms);
    lemma_offset_roundtrip(m.offset);
    lemma_device_roundtrip(m.device);
    lemma_inode_roundtrip(m.inode);
    let text = region_text(m);
    let pre = region_prefix_text(m);

    // Tokenization of the tail, innermost first.
    let tail = if m.pathname is Empty {
        Seq::<char>::empty()
    } else {
        let pad = (PATHNAME_DISPLAY_RIGHT_PADDING - pre.len()) as nat;
        spaces(pad) + path_text(m.pathname)
    };
    if m.pathname is Empty {
        lemma_tokenize_token(te, tail);
        assert(te + tail =~= te);
        assert(tokenize(te + tail) == seq![te]);
    } else {
        let pad = (PATHNAME_DISPLAY_RIGHT_PADDING - pre.len()) as nat;
        let tp = path_text(m.pathname);
        assert(token_safe(tp));
        lemma_tokenize_token(tp, Seq::<char>::empty());
        assert(tp + Seq::<char>::empty() =~= tp);
        assert(tokenize(tp) == seq![tp]);
        lemma_tokenize_skip_ws(spaces(pad), tp);
        assert(tokenize(tail) == seq![tp]);
        assert(pad >= 1);
        assert(tail[0] == ' ');
        lemma_tokenize_token(te, tail);
        assert(tokenize(te + tail) == seq![te] + seq![tp]);
    }
    let r5 = te + tail;
    let r4 = td + (seq![' '] + r5);
    lemma_tokenize_skip_ws(seq![' '], r5);
    assert((seq![' '] + r5)[0] == ' ');
    lemma_tokenize_token(td, seq![' '] + r5);
    let r3 = tc + (seq![' '] + r4);
    lemma_tokenize_skip_ws(seq![' '], r4);
    assert((seq![' '] + r4)[0] == ' ');
    lemma_tokenize_token(tc, seq![' '] + r4);
    let r2 = tb + (seq![' '] + r3);
    lemma_tokenize_skip_ws(seq![' '], r3);
    assert((seq![' '] + r3)[0] == ' ');
    lemma_tokenize_token(tb, seq![' '] + r3);
    let r1 = ta + (seq![' '] + r2);
    lemma_tokenize_skip_ws(seq![' '], r2);
    assert((seq![' '] + r2)[0] == ' ');
    lemma_tokenize_token(ta, seq![' '] + r2);
    assert(text =~= r1);
    let toks = tokenize(text);
    if m.pathname is Empty {
        assert(toks =~= seq![ta, tb, tc, td, te]);
    } else {
        assert(toks =~= seq![ta, tb, tc, td, te, path_text(m.pathname)]);
    }

    // Each column parses back to its value.
    lemma_path_roundtrip(m.pathname);
    let got = parse_line(text);
    if m.pathname is Empty {
        assert(got.unwrap() =~~= m);
    } else {
        assert(tokenize(text).skip(6) =~= Seq::<Seq<char>>::empty());
        assert(got.unwrap() =~~= m);
    }

    // No newline anywhere in the line.
    lemma_region_text_nl_free(m);
}

/// The printed line of a well-formed region holds no newline character.
proof fn lemma_region_text_nl_free(m: RegionModel)
    requires
        region_wf(m),
    ensures
        nl_free(region_text(m)),
{
    let ta = range_text(m.range);
    let tb = perms_text(m.perms);
    let tc = offset_text(m.offset);
    let td = device_text(m.device);
    let te = inode_text(m.inode);
    lemma_range_roundtrip(m.range);
    lemma_perms_roundtrip(m.perms);
    lemma_offset_roundtrip(m.offset);
    lemma_device_roundtrip(m.device);
    lemma_inode_roundtrip(m.inode);
    let text = region_text(m);
    let pre = region_prefix_text(m);
    lemma_token_safe_nl_free(ta);
    lemma_token_safe_nl_free(tb);
    lemma_token_safe_nl_free(tc);
    lemma_token_safe_nl_free(td);
    lemma_token_safe_nl_free(te);
    assert(nl_free(seq![' ']));
    lemma_nl_free_concat(ta, seq![' ']);
    lemma_nl_free_concat(ta + seq![' '], tb);
    lemma_nl_free_concat(ta + seq![' '] + tb, seq![' ']);
    lemma_nl_free_concat(ta + seq![' '] + tb + seq![' '], tc);
    lemma_nl_free_concat(ta + seq![' '] + tb + seq![' '] + tc, seq![' ']);
    lemma_nl_free_concat(ta + seq![' '] + tb + seq![' '] + tc + seq![' '], td);
    lemma_nl_free_concat(ta + seq![' '] + tb + seq![' '] + tc + seq![' '] + td, seq![' ']);
    lemma_nl_free_concat(ta + seq![' '] + tb + seq![' '] + tc + seq![' '] + td + seq![' '], te);
    assert(nl_free(pre));
    if m.pathname is Empty {
        assert(nl_free(text));
    } else {
        let pad = (PATHNAME_DISPLAY_RIGHT_PADDING - pre.len()) as nat;
        let tp = path_text(m.pathname);
        assert(nl_free(spaces(pad)));
        lemma_token_safe_nl_free(tp);
        lemma_nl_free_concat(pre, spaces(pad));
        lemma_nl_free_concat(pre + spaces(pad), tp);
        assert(nl_free(text));
    }
}

// === the whole table ===

/// The mathematical values of a sequence of region records.
pub open spec fn models_of(rs: Seq<MappedRegion>) -> Seq<RegionModel> {
    Seq::new(rs.len(), |i: int| rs[i]@)
}

/// The canonical text of a table: one line per region in primary-index
/// order, each line ended by a newline.
pub open spec fn table_text(ms: Seq<RegionModel>) -> Seq<char>
    decreases ms.len(),
{
    if ms.len() == 0 {
        Seq::empty()
    } else {
        region_text(ms[0]) + seq!['\n'] + table_text(ms.drop_first())
    }
}

/// Where the primary index places a newly parsed region: before the first
/// region that starts at the same or a higher address, replacing one that
/// starts at the same address.
pub open spec fn insert_model(ms: Seq<RegionModel>, m: RegionModel) -> Seq<RegionModel>
    decreases ms.len(),
{
    if ms.len() == 0 {
        seq![m]
    } else if m.range.start < ms[0].range.start {
        seq![m] + ms
    } else if m.range.start == ms[0].range.start {
        seq![m] + ms.drop_first()
    } else {
        seq![ms[0]] + insert_model(ms.drop_first(), m)
    }
}

/// The table a sequence of lines denotes: every line must parse, and each
/// parsed region is placed into the primary index in turn.
pub open spec fn parse_lines_models(lines: Seq<Seq<char>>) -> Option<Seq<RegionModel>>
    decreases lines.len(),
{
    if lines.len() == 0 {
        Some(Seq::empty())
    } else {
        let prev = parse_lines_models(lines.drop_last());
        if prev is None {
            None
        } else {
            let pm = parse_line(lines.last());
            if pm is None {
                None
            } else {
                Some(insert_model(prev.unwrap(), pm.unwrap()))
            }
        }
    }
}

/// The table a whole text denotes, line by line; any malformed line makes
/// the whole parse fail.
pub open spec fn parse_table(s: Seq<char>) -> Option<Seq<RegionModel>> {
    parse_lines_models(split_lines(s))
}

/// The address ranges of the regions whose pathname is `p`, in primary
/// order.
pub open spec fn ranges_for(ms: Seq<RegionModel>, p: PathModel) -> Seq<AddressRange>
    decreases ms.len(),
{
    if ms.len() == 0 {
        Seq::empty()
    } else {
        let rest = ranges_for(ms.drop_last(), p);
        if ms.last().pathname == p {
            rest.push(ms.last().range)
        } else {
            rest
        }
    }
}

/// The secondary index is faithful to the regions: distinct pathname keys,
/// each bucket holding exactly the ranges of the regions with that
/// pathname, and a bucket for every region's pathname.
pub open spec fn index_wf(ms: Seq<RegionModel>, idx: Seq<(PathModel, Seq<AddressRange>)>) -> bool {
    &&& (forall|i: int, j: int| 0 <= i < j < idx.len() ==> (#[trigger] idx[i]).0 != (
    #[trigger] idx[j]).0)
    &&& (forall|i: int| 0 <= i < idx.len() ==> (#[trigger] idx[i]).1 == ranges_for(ms, idx[i].0))
    &&& (forall|i: int|
        0 <= i < ms.len() ==> exists|j: int|
            0 <= j < idx.len() && (#[trigger] idx[j]).0 == (#[trigger] ms[i]).pathname)
}

/// The first region whose span starts exactly at `addr`.
pub open spec fn find_exact(ms: Seq<RegionModel>, addr: usize) -> Option<RegionModel>
    decreases ms.len(),
{
    if ms.len() == 0 {
        None
    } else if ms[0].range.start == addr {
        Some(ms[0])
    } else {
        find_exact(ms.drop_first(), addr)
    }
}

/// The first region whose span contains `addr`.
pub open spec fn find_containing(ms: Seq<RegionModel>, addr: usize) -> Option<RegionModel>
    decreases ms.len(),
{
    if ms.len() == 0 {
        None
    } else if range_contains(ms[0].range, addr) {
        Some(ms[0])
    } else {
        find_containing(ms.drop_first(), addr)
    }
}

/// Region lookup: an exact start-address match wins; otherwise the first
/// region containing the address.
pub open spec fn region_lookup(ms: Seq<RegionModel>, addr: usize) -> Option<RegionModel> {
    if find_exact(ms, addr) is Some {
        find_exact(ms, addr)
    } else {
        find_containing(ms, addr)
    }
}

/// Strictly ascending by start address: the order of the kernel's own
/// emission, which the primary index mirrors.
pub open spec fn sorted_by_start(ms: Seq<RegionModel>) -> bool {
    forall|i: int, j: int|
        0 <= i < j < ms.len() ==> (#[trigger] ms[i]).range.start < (#[trigger] ms[j]).range.start
}

/// Everything placed by an insertion is the new region or one of the old
/// ones, so a strict lower bound on their starts is kept.
proof fn lemma_insert_model_lower(ms: Seq<RegionModel>, m: RegionModel, b: usize)
    requires
        forall|i: int| 0 <= i < ms.len() ==> b < (#[trigger] ms[i]).range.start,
        b < m.range.start,
    ensures
        forall|i: int|
            0 <= i < insert_model(ms, m).len() ==> b < (#[trigger] insert_model(ms, m)[
                i]).range.start,
    decreases ms.len(),
{
    if ms.len() == 0 {
    } else if m.range.start <= ms[0].range.start {
    } else {
        let t = ms.drop_first();
        assert(forall|i: int| 0 <= i < t.len() ==> #[trigger] t[i] == ms[i + 1]);
        lemma_insert_model_lower(t, m, b);
        let r = insert_model(ms, m);
        assert(forall|i: int| 1 <= i < r.len() ==> #[trigger] r[i] == insert_model(t, m)[i - 1]);
    }
}

/// Insertion keeps the primary index strictly ascending.
proof fn lemma_insert_model_sorted(ms: Seq<RegionModel>, m: RegionModel)
    requires
        sorted_by_start(ms),
    ensures
        sorted_by_start(insert_model(ms, m)),
    decreases ms.len(),
{
    let r = insert_model(ms, m);
    if ms.len() == 0 {
    } else if m.range.start < ms[0].range.start {
        assert(forall|i: int| 1 <= i < r.len() ==> #[trigger] r[i] == ms[i - 1]);
    } else if m.range.start == ms[0].range.start {
        let t = ms.drop_first();
        assert(forall|i: int| 0 <= i < t.len() ==> #[trigger] t[i] == ms[i + 1]);
        assert(forall|i: int| 1 <= i < r.len() ==> #[trigger] r[i] == t[i - 1]);
    } else {
        let t = ms.drop_first();
        assert(forall|i: int| 0 <= i < t.len() ==> #[trigger] t[i] == ms[i + 1]);
        lemma_insert_model_sorted(t, m);
        lemma_insert_model_lower(t, m, ms[0].range.start);
        assert(forall|i: int| 1 <= i < r.len() ==> #[trigger] r[i] == insert_model(t, m)[i - 1]);
    }
}

/// Whatever the parser builds is strictly ascending by start address.
proof fn lemma_parse_lines_sorted(lines: Seq<Seq<char>>)
    requires
        parse_lines_models(lines) is Some,
    ensures
        sorted_by_start(parse_lines_models(lines).unwrap()),
    decreases lines.len(),
{
    if lines.len() == 0 {
    } else {
        lemma_parse_lines_sorted(lines.drop_last());
        lemma_insert_model_sorted(
            parse_lines_models(lines.drop_last()).unwrap(),
            parse_line(lines.last()).unwrap(),
        );
    }
}

/// The bucket of the first index entry keyed by `p`.
pub open spec fn find_bucket(idx: Seq<(PathModel, Seq<AddressRange>)>, p: PathModel) -> Option<
    Seq<AddressRange>,
>
    decreases idx.len(),
{
    if idx.len() == 0 {
        None
    } else if idx[0].0 == p {
        Some(idx[0].1)
    } else {
        find_bucket(idx.drop_first(), p)
    }
}

/// The whole region table of one process: the primary index ordered by
/// start address, and the secondary index from pathname to the ranges
/// mapped under it.
#[derive(Debug, Clone)]
pub struct Maps {
    regions: Vec<MappedRegion>,
    pathname_index: Vec<(PathName, Vec<AddressRange>)>,
}

impl Maps {
    /// The regions of the primary index, in order.
    pub closed spec fn models(&self) -> Seq<RegionModel> {
        models_of(self.regions@)
    }

    /// The entries of the secondary index, in insertion order.
    pub closed spec fn index_models(&self) -> Seq<(PathModel, Seq<AddressRange>)> {
        Seq::new(
            self.pathname_index@.len(),
            |i: int| (self.pathname_index@[i].0@, self.pathname_index@[i].1@),
        )
    }

    /// The container invariant: the secondary index is faithful to the
    /// primary one.
    pub open spec fn wf(&self) -> bool {
        index_wf(self.models(), self.index_models())
    }

    /// Parses a whole region-table text, one region per line.
    pub fn parse(text: &str) -> (r: Result<Maps, Error>)
        ensures
            match r {
                Ok(m) => parse_table(text@) == Some(m.models()) && m.wf() && sorted_by_start(
                    m.models(),
                ),
                Err(e) => parse_table(text@) is None && (e matches Error::Parse { .. }),
            },
    {
        let cs = chars_of_str(text);
        let lines = split_lines_chars(cs.as_slice());
        let mut regions: Vec<MappedRegion> = Vec::new();
        let mut i: usize = 0;
        proof {
            assert(split_lines(text@).take(0) =~= Seq::<Seq<char>>::empty());
            assert(models_of(regions@) =~= Seq::<RegionModel>::empty());
        }
        while i < lines.len()
            invariant
                i <= lines@.len(),
                lines.deep_view() == split_lines(text@),
                parse_lines_models(split_lines(text@).take(i as int)) == Some(
                    models_of(regions@),
                ),
            decreases lines@.len() - i,
        {
            proof {
                assert(lines@[i as int]@ =~= split_lines(text@)[i as int]);
            }
            let m = match parse_line_chars(lines[i].as_slice()) {
                Ok(m) => m,
                Err(e) => {
                    proof {
                        lemma_parse_lines_prefix_none(split_lines(text@), i as int);
                    }
                    return Err(e);
                },
            };
            insert_region(&mut regions, m);
            proof {
                assert(split_lines(text@).take(i as int + 1).drop_last() =~= split_lines(
                    text@,
                ).take(i as int));
                assert(split_lines(text@).take(i as int + 1).last() == split_lines(text@)[
                    i as int]);
            }
            i = i + 1;
        }
        proof {
            assert(split_lines(text@).take(lines@.len() as int) =~= split_lines(text@));
            lemma_parse_lines_sorted(split_lines(text@));
        }
        let pathname_index = build_index(&regions);
        Ok(Maps { regions, pathname_index })
    }

    /// The canonical text of the whole table.
    pub fn to_string(&self) -> (r: String)
        ensures
            r@ == table_text(self.models()),
    {
        let mut out: Vec<char> = Vec::new();
        let mut i: usize = 0;
        proof {
            assert(table_text(self.models().take(0)) =~= Seq::<char>::empty());
            assert(out@ =~= table_text(self.models().take(0)));
        }
        while i < self.regions.len()
            invariant
                i <= self.regions@.len(),
                self.models() == models_of(self.regions@),
                out@ == table_text(self.models().take(i as int)),
            decreases self.regions@.len() - i,
        {
            let line = self.regions[i].to_line_chars();
            push_all(&mut out, line.as_slice());
            out.push('\n');
            proof {
                lemma_table_text_snoc(self.models(), i as int);
                assert(out@ =~= table_text(self.models().take(i as int)) + region_text(
                    self.models()[i as int],
                ) + seq!['\n']);
            }
            i = i + 1;
        }
        proof {
            assert(self.models().take(self.regions@.len() as int) =~= self.models());
        }
        string_of_chars(out.as_slice())
    }

    /// The regions in primary-index order.
    pub fn iter(&self) -> (r: &Vec<MappedRegion>)
        ensures
            models_of(r@) == self.models(),
    {
        &self.regions
    }

    /// The primary index itself.
    pub fn primary_index(&self) -> (r: &Vec<MappedRegion>)
        ensures
            models_of(r@) == self.models(),
    {
        &self.regions
    }

    /// The region owning the given address, if any: an exact start-address
    /// match wins, else the first region containing the address.
    pub fn region(&self, address: usize) -> (r: Option<&MappedRegion>)
        ensures
            match r {
                Some(reg) => region_lookup(self.models(), address) == Some(reg@),
                None => region_lookup(self.models(), address) is None,
            },
    {
        let n = self.regions.len();
        let mut i: usize = 0;
        proof {
            assert(self.models().skip(0) =~= self.models());
        }
        while i < n
            invariant
                i <= n,
                n == self.regions@.len(),
                self.models() == models_of(self.regions@),
                find_exact(self.models(), address) == find_exact(
                    self.models().skip(i as int),
                    address,
                ),
            decreases n - i,
        {
            if self.regions[i].addr_range.start == address {
                proof {
                    assert(self.models().skip(i as int)[0] == self.models()[i as int]);
                }
                return Some(&self.regions[i]);
            }
            proof {
                assert(self.models().skip(i as int).drop_first() =~= self.models().skip(
                    i as int + 1,
                ));
                assert(self.models().skip(i as int)[0] == self.models()[i as int]);
            }
            i = i + 1;
        }
        proof {
            assert(self.models().skip(n as int) =~= Seq::<RegionModel>::empty());
        }
        let mut j: usize = 0;
        proof {
            assert(self.models().skip(0) =~= self.models());
        }
        while j < n
            invariant
                j <= n,
                n == self.regions@.len(),
                self.models() == models_of(self.regions@),
                find_exact(self.models(), address) is None,
                find_containing(self.models(), address) == find_containing(
                    self.models().skip(j as int),
                    address,
                ),
            decreases n - j,
        {
            if self.regions[j].addr_range.contains(address) {
                proof {
                    assert(self.models().skip(j as int)[0] == self.models()[j as int]);
                }
                return Some(&self.regions[j]);
            }
            proof {
                assert(self.models().skip(j as int).drop_first() =~= self.models().skip(
                    j as int + 1,
                ));
                assert(self.models().skip(j as int)[0] == self.models()[j as int]);
            }
            j = j + 1;
        }
        proof {
            assert(self.models().skip(n as int) =~= Seq::<RegionModel>::empty());
        }
        None
    }

    /// The ranges mapped under the given pathname, if the table has any.
    pub fn addrs_for_pathname(&self, path: &str) -> (r: Option<&Vec<AddressRange>>)
        ensures
            match r {
                Some(v) => find_bucket(
                    self.index_models(),
                    classify_path(crate::text::trim_text(path@)),
                ) == Some(v@),
                None => find_bucket(
                    self.index_models(),
                    classify_path(crate::text::trim_text(path@)),
                ) is None,
            },
    {
        let p = PathName::parse(path);
        let ghost key = classify_path(crate::text::trim_text(path@));
        let n = self.pathname_index.len();
        let mut i: usize = 0;
        proof {
            assert(self.index_models().skip(0) =~= self.index_models());
        }
        while i < n
            invariant
                i <= n,
                n == self.pathname_index@.len(),
                p@ == key,
                key == classify_path(crate::text::trim_text(path@)),
                find_bucket(self.index_models(), key) == find_bucket(
                    self.index_models().skip(i as int),
                    key,
                ),
            decreases n - i,
        {
            if self.pathname_index[i].0.matches(&p) {
                proof {
                    let idxm = self.index_models();
                    assert(idxm.skip(i as int)[0] == idxm[i as int]);
                    assert(idxm[i as int].0 == key);
                    assert(find_bucket(idxm.skip(i as int), key) == Some(
                        idxm.skip(i as int)[0].1,
                    ));
                    assert(idxm[i as int].1 == self.pathname_index@[i as int].1@);
                }
                let bucket: &Vec<AddressRange> = &self.pathname_index[i].1;
                proof {
                    assert(bucket@ == self.pathname_index@[i as int].1@);
                    assert(find_bucket(
                        self.index_models(),
                        classify_path(crate::text::trim_text(path@)),
                    ) == Some(bucket@));
                }
                return Some(bucket);
            }
            proof {
                assert(self.index_models().skip(i as int).drop_first() =~= self.index_models()
                    .skip(i as int + 1));
                assert(self.index_models().skip(i as int)[0] == self.index_models()[i as int]);
            }
            i = i + 1;
        }
        proof {
            assert(self.index_models().skip(n as int) =~= Seq::<
                (PathModel, Seq<AddressRange>),
            >::empty());
        }
        None
    }
}

/// A failed line makes every longer prefix fail too.
proof fn lemma_parse_lines_prefix_none(lines: Seq<Seq<char>>, i: int)
    requires
        0 <= i < lines.len(),
        parse_line(lines[i]) is None,
    ensures
        parse_lines_models(lines) is None,
    decreases lines.len(),
{
    if lines.len() > 0 {
        if i == lines.len() - 1 {
            assert(lines.last() == lines[i]);
        } else {
            assert(lines.drop_last()[i] == lines[i]);
            lemma_parse_lines_prefix_none(lines.drop_last(), i);
        }
    }
}

/// One more region in a table's text appends one more line.
proof fn lemma_table_text_snoc(ms: Seq<RegionModel>, i: int)
    requires
        0 <= i < ms.len(),
    ensures
        table_text(ms.take(i + 1)) == table_text(ms.take(i)) + region_text(ms[i]) + seq!['\n'],
    decreases i,
{
    if i == 0 {
        assert(ms.take(1) =~= seq![ms[0]]);
        assert(ms.take(1).drop_first() =~= Seq::<RegionModel>::empty());
        assert(table_text(ms.take(0)) =~= Seq::<char>::empty());
        assert(table_text(ms.take(1)) == region_text(ms[0]) + seq!['\n'] + table_text(
            Seq::<RegionModel>::empty(),
        ));
        assert(table_text(ms.take(1)) =~= table_text(ms.take(0)) + region_text(ms[0])
            + seq!['\n']);
    } else {
        let t = ms.drop_first();
        lemma_table_text_snoc(t, i - 1);
        assert(ms.take(i + 1).drop_first() =~= t.take(i));
        assert(ms.take(i).drop_first() =~= t.take(i - 1));
        assert(ms.take(i + 1)[0] == ms[0]);
        assert(ms.take(i)[0] == ms[0]);
        assert(t[i - 1] == ms[i]);
        assert(table_text(ms.take(i + 1)) == region_text(ms[0]) + seq!['\n'] + table_text(
            t.take(i),
        ));
        assert(table_text(ms.take(i)) == region_text(ms[0]) + seq!['\n'] + table_text(
            t.take(i - 1),
        ));
        assert(region_text(ms[0]) + seq!['\n'] + (table_text(t.take(i - 1)) + region_text(t[i
            - 1]) + seq!['\n']) =~= (region_text(ms[0]) + seq!['\n'] + table_text(t.take(i - 1)))
            + region_text(t[i - 1]) + seq!['\n']);
    }
}

/// Splitting the primary index at a point where every earlier region starts
/// below the new one: the insertion happens wholly in the tail.
proof fn lemma_insert_model_split(ms: Seq<RegionModel>, x: RegionModel, i: int)
    requires
        0 <= i <= ms.len(),
        forall|k: int| 0 <= k < i ==> (#[trigger] ms[k]).range.start < x.range.start,
    ensures
        insert_model(ms, x) == ms.take(i) + insert_model(ms.skip(i), x),
    decreases i,
{
    if i == 0 {
        assert(ms.take(0) =~= Seq::<RegionModel>::empty());
        assert(ms.skip(0) =~= ms);
        assert(ms.take(0) + insert_model(ms, x) =~= insert_model(ms, x));
    } else {
        let t = ms.drop_first();
        assert(forall|k: int| 0 <= k < i - 1 ==> (#[trigger] t[k]).range.start
            < x.range.start) by {
            assert(forall|k: int| 0 <= k < t.len() ==> #[trigger] t[k] == ms[k + 1]);
        }
        lemma_insert_model_split(t, x, i - 1);
        assert(ms[0].range.start < x.range.start);
        assert(insert_model(ms, x) == seq![ms[0]] + insert_model(t, x));
        assert(t.take(i - 1) =~= ms.take(i).drop_first());
        assert(t.skip(i - 1) =~= ms.skip(i));
        assert(seq![ms[0]] + (ms.take(i).drop_first() + insert_model(ms.skip(i), x)) =~= ms.take(
            i,
        ) + insert_model(ms.skip(i), x));
    }
}

/// Places a region into the primary index.
fn insert_region(regions: &mut Vec<MappedRegion>, m: MappedRegion)
    ensures
        models_of(final(regions)@) == insert_model(models_of(old(regions)@), m@),
{
    let n = regions.len();
    let mut i: usize = 0;
    while i < n && regions[i].addr_range.start < m.addr_range.start
        invariant
            i <= n,
            n == regions@.len(),
            regions@ == old(regions)@,
            forall|k: int| 0 <= k < i ==> (#[trigger] models_of(regions@)[k]).range.start
                < m@.range.start,
        decreases n - i,
    {
        i = i + 1;
    }
    let ghost ms = models_of(old(regions)@);
    proof {
        lemma_insert_model_split(ms, m@, i as int);
    }
    if i < n && regions[i].addr_range.start == m.addr_range.start {
        regions.remove(i);
        regions.insert(i, m);
        proof {
            assert(ms.skip(i as int)[0] == ms[i as int]);
            assert(insert_model(ms.skip(i as int), m@) == seq![m@] + ms.skip(i as int)
                .drop_first());
            assert(ms.skip(i as int).drop_first() =~= ms.skip(i as int + 1));
            assert(models_of(regions@) =~= ms.take(i as int) + (seq![m@] + ms.skip(
                i as int + 1,
            )));
        }
    } else {
        regions.insert(i, m);
        proof {
            if i < n {
                assert(ms.skip(i as int)[0] == ms[i as int]);
                assert(insert_model(ms.skip(i as int), m@) == seq![m@] + ms.skip(i as int));
            } else {
                assert(ms.skip(i as int) =~= Seq::<RegionModel>::empty());
                assert(insert_model(ms.skip(i as int), m@) == seq![m@]);
            }
            assert(models_of(regions@) =~= ms.take(i as int) + (seq![m@] + ms.skip(i as int)));
        }
    }
}

/// No region carries pathname `p`, so `p` owns no ranges.
proof fn lemma_ranges_for_absent(ms: Seq<RegionModel>, p: PathModel)
    requires
        forall|k: int| 0 <= k < ms.len() ==> (#[trigger] ms[k]).pathname != p,
    ensures
        ranges_for(ms, p) == Seq::<AddressRange>::empty(),
    decreases ms.len(),
{
    if ms.len() > 0 {
        let t = ms.drop_last();
        assert(forall|k: int| 0 <= k < t.len() ==> #[trigger] t[k] == ms[k]);
        lemma_ranges_for_absent(t, p);
    }
}

/// Extending the regions by one extends exactly the bucket of its pathname.
proof fn lemma_ranges_for_snoc(ms: Seq<RegionModel>, i: int, p: PathModel)
    requires
        0 <= i < ms.len(),
    ensures
        ranges_for(ms.take(i + 1), p) == if ms[i].pathname == p {
            ranges_for(ms.take(i), p).push(ms[i].range)
        } else {
            ranges_for(ms.take(i), p)
        },
{
    assert(ms.take(i + 1).drop_last() =~= ms.take(i));
    assert(ms.take(i + 1).last() == ms[i]);
}

/// Builds the secondary index over the given regions.
fn build_index(regions: &Vec<MappedRegion>) -> (r: Vec<(PathName, Vec<AddressRange>)>)
    ensures
        index_wf(
            models_of(regions@),
            Seq::new(r@.len(), |i: int| (r@[i].0@, r@[i].1@)),
        ),
{
    let ghost ms = models_of(regions@);
    let mut idx: Vec<(PathName, Vec<AddressRange>)> = Vec::new();
    let mut i: usize = 0;
    proof {
        assert(ms.take(0) =~= Seq::<RegionModel>::empty());
    }
    while i < regions.len()
        invariant
            i <= regions@.len(),
            ms == models_of(regions@),
            index_wf(
                ms.take(i as int),
                Seq::new(idx@.len(), |k: int| (idx@[k].0@, idx@[k].1@)),
            ),
        decreases regions@.len() - i,
    {
        let ghost iview = Seq::new(idx@.len(), |k: int| (idx@[k].0@, idx@[k].1@));
        let pathname = &regions[i].pathname;
        let range = regions[i].addr_range;
        proof {
            assert(ms[i as int].pathname == pathname@);
            assert(ms[i as int].range == range);
            lemma_ranges_for_snoc(ms, i as int, pathname@);
        }
        let n = idx.len();
        let found = find_bucket_pos(&idx, pathname);
        if found < n {
            let jj = found;
            let ghost pre_idx = idx@;
            let (key, mut ranges) = idx.remove(jj);
            ranges.push(range);
            idx.insert(jj, (key, ranges));
            proof {
                assert(idx@ =~= pre_idx.update(jj as int, (key, ranges)));
                let iview2 = Seq::new(idx@.len(), |k: int| (idx@[k].0@, idx@[k].1@));
                assert(iview2[jj as int].0 == iview[jj as int].0);
                assert(iview2[jj as int].1 =~= iview[jj as int].1.push(range));
                assert(forall|k: int|
                    0 <= k < iview2.len() && k != jj ==> #[trigger] iview2[k] == iview[k]);
                assert(iview[jj as int].0 == pathname@);
                lemma_index_wf_update(ms, i as int, iview, iview2, jj as int, pathname@, range);
            }
        } else {
            let key = duplicate_pathname(pathname);
            let mut ranges: Vec<AddressRange> = Vec::new();
            ranges.push(range);
            idx.push((key, ranges));
            proof {
                let iview2 = Seq::new(idx@.len(), |k: int| (idx@[k].0@, idx@[k].1@));
                assert(forall|k: int|
                    0 <= k < iview.len() ==> #[trigger] iview2[k] == iview[k]);
                assert(iview2[iview.len() as int].0 == pathname@);
                assert(iview2[iview.len() as int].1 =~= seq![range]);
                assert(forall|k: int| 0 <= k < iview.len() ==> (#[trigger] iview[k]).0
                    != pathname@);
                lemma_index_wf_extend(ms, i as int, iview, iview2, pathname@, range);
            }
        }
        i = i + 1;
    }
    proof {
        assert(ms.take(regions@.len() as int) =~= ms);
    }
    idx
}

/// The position of the first index entry keyed by `p`, or the index length
/// if none is.
fn find_bucket_pos(idx: &Vec<(PathName, Vec<AddressRange>)>, p: &PathName) -> (r: usize)
    ensures
        r <= idx@.len(),
        r < idx@.len() ==> idx@[r as int].0@ == p@,
        forall|k: int| 0 <= k < r ==> (#[trigger] idx@[k]).0@ != p@,
{
    let mut j: usize = 0;
    while j < idx.len()
        invariant
            j <= idx@.len(),
            forall|k: int| 0 <= k < j ==> (#[trigger] idx@[k]).0@ != p@,
        decreases idx@.len() - j,
    {
        if idx[j].0.matches(p) {
            return j;
        }
        j = j + 1;
    }
    j
}

/// A copy of a pathname whose text is known to match.
fn duplicate_pathname(p: &PathName) -> (r: PathName)
    ensures
        r@ == p@,
{
    match p {
        PathName::Empty => PathName::Empty,
        PathName::Pseudo(s) => PathName::Pseudo(s.clone()),
        PathName::Real(s) => PathName::Real(s.clone()),
    }
}

/// Pushing region `i`'s range onto its existing bucket keeps the index
/// faithful through region `i`.
proof fn lemma_index_wf_update(
    ms: Seq<RegionModel>,
    i: int,
    iview: Seq<(PathModel, Seq<AddressRange>)>,
    iview2: Seq<(PathModel, Seq<AddressRange>)>,
    jj: int,
    p: PathModel,
    range: AddressRange,
)
    requires
        0 <= i < ms.len(),
        ms[i].pathname == p,
        ms[i].range == range,
        index_wf(ms.take(i), iview),
        0 <= jj < iview.len(),
        iview[jj].0 == p,
        iview2.len() == iview.len(),
        iview2[jj].0 == p,
        iview2[jj].1 == iview[jj].1.push(range),
        forall|k: int| 0 <= k < iview2.len() && k != jj ==> #[trigger] iview2[k] == iview[k],
    ensures
        index_wf(ms.take(i + 1), iview2),
{
    let pre = ms.take(i);
    let post = ms.take(i + 1);
    assert(forall|k: int| 0 <= k < pre.len() ==> #[trigger] post[k] == pre[k]);
    assert(post[i] == ms[i]);
    assert forall|k: int| 0 <= k < iview2.len() implies (#[trigger] iview2[k]).1 == ranges_for(
        post,
        iview2[k].0,
    ) by {
        lemma_ranges_for_snoc(ms, i, iview2[k].0);
        if k == jj {
            assert(iview2[k].0 == p);
            assert(ranges_for(post, p) == ranges_for(pre, p).push(range));
        } else {
            assert(iview2[k] == iview[k]);
            assert(iview[k].0 != p) by {
                if iview[k].0 == p {
                    if k < jj {
                        assert(iview[k].0 != iview[jj].0);
                    } else {
                        assert(iview[jj].0 != iview[k].0);
                    }
                }
            }
            assert(ranges_for(post, iview[k].0) == ranges_for(pre, iview[k].0));
        }
    }
    assert forall|k: int| 0 <= k < post.len() implies exists|j: int|
        0 <= j < iview2.len() && (#[trigger] iview2[j]).0 == (#[trigger] post[k]).pathname by {
        if k < i {
            let j = choose|j: int|
                0 <= j < iview.len() && (#[trigger] iview[j]).0 == pre[k].pathname;
            assert(iview2[j].0 == iview[j].0);
        } else {
            assert(iview2[jj].0 == post[k].pathname);
        }
    }
    assert(forall|a: int, b: int| 0 <= a < b < iview2.len() ==> (#[trigger] iview2[a]).0 != (
    #[trigger] iview2[b]).0) by {
        assert(forall|k: int| 0 <= k < iview2.len() ==> (#[trigger] iview2[k]).0 == iview[k].0);
    }
}

/// Appending a fresh bucket for region `i`'s pathname keeps the index
/// faithful through region `i`.
proof fn lemma_index_wf_extend(
    ms: Seq<RegionModel>,
    i: int,
    iview: Seq<(PathModel, Seq<AddressRange>)>,
    iview2: Seq<(PathModel, Seq<AddressRange>)>,
    p: PathModel,
    range: AddressRange,
)
    requires
        0 <= i < ms.len(),
        ms[i].pathname == p,
        ms[i].range == range,
        index_wf(ms.take(i), iview),
        forall|k: int| 0 <= k < iview.len() ==> (#[trigger] iview[k]).0 != p,
        iview2.len() == iview.len() + 1,
        forall|k: int| 0 <= k < iview.len() ==> #[trigger] iview2[k] == iview[k],
        iview2[iview.len() as int].0 == p,
        iview2[iview.len() as int].1 == seq![range],
    ensures
        index_wf(ms.take(i + 1), iview2),
{
    let pre = ms.take(i);
    let post = ms.take(i + 1);
    assert(forall|k: int| 0 <= k < pre.len() ==> #[trigger] post[k] == pre[k]);
    assert(post[i] == ms[i]);
    assert(forall|k: int| 0 <= k < pre.len() ==> (#[trigger] pre[k]).pathname != p) by {
        assert forall|k: int| 0 <= k < pre.len() implies (#[trigger] pre[k]).pathname != p by {
            let j = choose|j: int|
                0 <= j < iview.len() && (#[trigger] iview[j]).0 == pre[k].pathname;
        }
    }
    assert forall|k: int| 0 <= k < iview2.len() implies (#[trigger] iview2[k]).1 == ranges_for(
        post,
        iview2[k].0,
    ) by {
        lemma_ranges_for_snoc(ms, i, iview2[k].0);
        if k == iview.len() {
            lemma_ranges_for_absent(pre, p);
            assert(ranges_for(post, p) == ranges_for(pre, p).push(range));
            assert(ranges_for(pre, p).push(range) =~= seq![range]);
        } else {
            assert(iview2[k] == iview[k]);
            assert(iview[k].0 != p);
            assert(ranges_for(post, iview[k].0) == ranges_for(pre, iview[k].0));
        }
    }
    assert forall|k: int| 0 <= k < post.len() implies exists|j: int|
        0 <= j < iview2.len() && (#[trigger] iview2[j]).0 == (#[trigger] post[k]).pathname by {
        if k < i {
            let j = choose|j: int|
                0 <= j < iview.len() && (#[trigger] iview[j]).0 == pre[k].pathname;
            assert(iview2[j].0 == iview[j].0);
        } else {
            assert(iview2[iview.len() as int].0 == post[k].pathname);
        }
    }
}

// === the round-trip law for the whole table ===

/// A table as the parser itself would produce it from its own printed text:
/// every region well formed, and the primary index strictly ascending by
/// start address.
pub open spec fn table_wf(ms: Seq<RegionModel>) -> bool {
    &&& (forall|i: int| 0 <= i < ms.len() ==> region_wf(#[trigger] ms[i]))
    &&& (forall|i: int, j: int|
        0 <= i < j < ms.len() ==> (#[trigger] ms[i]).range.start < (
        #[trigger] ms[j]).range.start)
}

/// The lines of a printed table are exactly the printed regions, in order.
proof fn lemma_table_lines(ms: Seq<RegionModel>)
    requires
        forall|i: int| 0 <= i < ms.len() ==> region_wf(#[trigger] ms[i]),
    ensures
        split_lines(table_text(ms)) == Seq::new(ms.len(), |i: int| region_text(ms[i])),
    decreases ms.len(),
{
    if ms.len() == 0 {
        assert(split_lines(table_text(ms)) =~= Seq::new(ms.len(), |i: int| region_text(ms[i])));
    } else {
        let t = ms.drop_first();
        assert(forall|i: int| 0 <= i < t.len() ==> #[trigger] t[i] == ms[i + 1]);
        lemma_table_lines(t);
        lemma_region_roundtrip(ms[0]);
        lemma_split_lines_step(region_text(ms[0]), table_text(t));
        assert(region_text(ms[0]) + seq!['\n'] + table_text(t) =~= table_text(ms));
        assert(seq![region_text(ms[0])] + Seq::new(t.len(), |i: int| region_text(t[i])) =~= Seq::new(
            ms.len(),
            |i: int| region_text(ms[i]),
        ));
    }
}

/// Inserting a region that starts above every region of a sorted table
/// appends it.
proof fn lemma_insert_model_append(ms: Seq<RegionModel>, m: RegionModel)
    requires
        forall|k: int| 0 <= k < ms.len() ==> (#[trigger] ms[k]).range.start < m.range.start,
    ensures
        insert_model(ms, m) == ms.push(m),
    decreases ms.len(),
{
    if ms.len() == 0 {
        assert(insert_model(ms, m) =~= ms.push(m));
    } else {
        let t = ms.drop_first();
        assert(forall|k: int| 0 <= k < t.len() ==> #[trigger] t[k] == ms[k + 1]);
        lemma_insert_model_append(t, m);
        assert(seq![ms[0]] + t.push(m) =~= ms.push(m));
    }
}

/// Parsing the printed lines of a well-formed table reproduces the table.
proof fn lemma_parse_printed_lines(ms: Seq<RegionModel>)
    requires
        table_wf(ms),
    ensures
        parse_lines_models(Seq::new(ms.len(), |i: int| region_text(ms[i]))) == Some(ms),
    decreases ms.len(),
{
    let lines = Seq::new(ms.len(), |i: int| region_text(ms[i]));
    if ms.len() == 0 {
        assert(parse_lines_models(lines) =~= Some(Seq::<RegionModel>::empty()));
        assert(Seq::<RegionModel>::empty() =~= ms);
    } else {
        let t = ms.drop_last();
        assert(forall|i: int| 0 <= i < t.len() ==> #[trigger] t[i] == ms[i]);
        lemma_parse_printed_lines(t);
        assert(lines.drop_last() =~= Seq::new(t.len(), |i: int| region_text(t[i])));
        lemma_region_roundtrip(ms.last());
        assert(lines.last() == region_text(ms.last()));
        assert(forall|k: int| 0 <= k < t.len() ==> (#[trigger] t[k]).range.start
            < ms.last().range.start);
        lemma_insert_model_append(t, ms.last());
        assert(t.push(ms.last()) =~= ms);
    }
}

/// The round-trip law, value side: printing any well-formed table and
/// parsing the printed text yields exactly the same table back.
pub proof fn lemma_table_roundtrip(ms: Seq<RegionModel>)
    requires
        table_wf(ms),
    ensures
        parse_table(table_text(ms)) == Some(ms),
{
    lemma_table_lines(ms);
    lemma_parse_printed_lines(ms);
}

/// The round-trip law, text side: any text that some well-formed table
/// prints to parses successfully, and printing the parsed table reproduces
/// the text byte for byte.
pub proof fn lemma_parse_print_roundtrip(text: Seq<char>)
    requires
        exists|ms: Seq<RegionModel>| table_wf(ms) && table_text(ms) == text,
    ensures
        parse_table(text) is Some,
        table_text(parse_table(text).unwrap()) == text,
{
    let ms = choose|ms: Seq<RegionModel>| table_wf(ms) && table_text(ms) == text;
    lemma_table_roundtrip(ms);
}

} // verus!
