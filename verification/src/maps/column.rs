//! The column value types of the region table, in the order they appear on a
//! line: address range, permission set, offset, device, inode and pathname.
//! Each column parses from its text form and prints back to it; the
//! round-trip lemmas here feed the table-level round-trip law.

use vstd::prelude::*;
use crate::error::Error;
use crate::text::{
    all_digits, chars_of_str, find_char, find_char_exec, is_digit, is_ws, num_val,
    parse_num, render_digits_padded, render_padded, lemma_render_padded, lemma_find_char_is,
    string_of_chars, trim_chars, trim_text,
};

verus! {

/// A nonempty sequence of characters free of whitespace: safe to stand as
/// one whitespace-delimited token.
pub open spec fn token_safe(s: Seq<char>) -> bool {
    s.len() > 0 && (forall|i: int| 0 <= i < s.len() ==> !is_ws(#[trigger] s[i]))
}

// === AddressRange ===

/// A half-open span `[start, end)` of virtual addresses.
#[derive(Copy, Clone, Debug, PartialEq, Eq, Hash, Structural)]
pub struct AddressRange {
    pub start: usize,
    pub end: usize,
}

/// Whether `n` falls inside the half-open span of `a`.
pub open spec fn range_contains(a: AddressRange, n: usize) -> bool {
    a.start <= n < a.end
}

/// The canonical text of an address range: both bounds in lowercase
/// hexadecimal, zero-padded to at least eight digits, joined by a dash.
pub open spec fn range_text(a: AddressRange) -> Seq<char> {
    render_padded(a.start as nat, 8, 16) + seq!['-'] + render_padded(a.end as nat, 8, 16)
}

/// The address range a whitespace-free token denotes, if any: two nonempty
/// hexadecimal numbers that fit the platform's address width, joined by the
/// first dash; tokens shorter than three characters are rejected.
pub open spec fn parse_range_token(t: Seq<char>) -> Option<AddressRange> {
    if t.len() < 3 {
        None
    } else {
        let k = find_char(t, '-');
        if k == t.len() {
            None
        } else {
            let left = t.take(k);
            let right = t.skip(k + 1);
            if left.len() > 0 && all_digits(left, 16) && num_val(left, 16) <= usize::MAX
                && right.len() > 0 && all_digits(right, 16) && num_val(right, 16) <= usize::MAX {
                Some(
                    (AddressRange {
                        start: num_val(left, 16) as usize,
                        end: num_val(right, 16) as usize,
                    }),
                )
            } else {
                None
            }
        }
    }
}

/// What `AddressRange::parse` accepts: the trimmed input as a range token,
/// except that a fully blank input is rejected.
pub open spec fn parse_range_text(s: Seq<char>) -> Option<AddressRange> {
    parse_range_token(trim_text(s))
}

impl AddressRange {
    pub fn new(start: usize, end: usize) -> (r: Self)
        ensures
            r.start == start,
            r.end == end,
    {
        AddressRange { start, end }
    }

    pub fn contains(&self, n: usize) -> (r: bool)
        ensures
            r == range_contains(*self, n),
    {
        n >= self.start && n < self.end
    }

    pub fn start(&self) -> (r: usize)
        ensures
            r == self.start,
    {
        self.start
    }

    pub fn end(&self) -> (r: usize)
        ensures
            r == self.end,
    {
        self.end
    }

    /// The number of addresses the span covers.
    pub fn len(&self) -> (r: usize)
        requires
            self.start <= self.end,
        ensures
            r == self.end - self.start,
    {
        self.end - self.start
    }

    /// How far the span's base lies above the given lower address.
    pub fn offset_from(&self, low_addr: usize) -> (r: usize)
        requires
            low_addr <= self.start,
        ensures
            r == self.start - low_addr,
    {
        self.start - low_addr
    }

    /// Parses the canonical `start-end` hexadecimal form.
    pub fn parse(s: &str) -> (r: Result<AddressRange, Error>)
        ensures
            match r {
                Ok(a) => parse_range_text(s@) == Some(a),
                Err(e) => parse_range_text(s@) is None && (e matches Error::Parse { typename, .. }
                    && typename@ == "AddressRange"@),
            },
            (trim_text(s@).len() == 0 ==> (r matches Err(e) && (e matches Error::Parse {
                reason,
                ..
            } && reason@ == "blank string"@))),
    {
        let cs = chars_of_str(s);
        let t = trim_chars(cs.as_slice());
        if t.len() == 0 {
            return Err(Error::Parse {
                value: String::from_str(s),
                typename: "AddressRange",
                reason: String::from_str("blank string"),
            });
        }
        if t.len() < 3 {
            return Err(Error::Parse {
                value: String::from_str(s),
                typename: "AddressRange",
                reason: String::from_str(
                    "address range string was shorter than the minimum number of characters (3)",
                ),
            });
        }
        match parse_range_chars(t.as_slice()) {
            Some(a) => Ok(a),
            None => Err(Error::Parse {
                value: String::from_str(s),
                typename: "AddressRange",
                reason: String::from_str("address range string was not two hexadecimal numbers joined by a dash"),
            }),
        }
    }

    /// The canonical text of the range.
    pub fn to_string(&self) -> (r: String)
        ensures
            r@ == range_text(*self),
    {
        let chars = range_chars(self);
        string_of_chars(chars.as_slice())
    }
}

/// Parses a whitespace-free token as an address range.
pub fn parse_range_chars(t: &[char]) -> (r: Option<AddressRange>)
    ensures
        r == parse_range_token(t@),
{
    if t.len() < 3 {
        return None;
    }
    let k = find_char_exec(t, '-');
    proof {
        crate::text::lemma_find_char_bounds(t@, '-');
    }
    if k == t.len() {
        return None;
    }
    let left = vstd::slice::slice_subrange(t, 0, k);
    let right = vstd::slice::slice_subrange(t, k + 1, t.len());
    proof {
        assert(left@ =~= t@.take(k as int));
        assert(right@ =~= t@.skip(k as int + 1));
    }
    let start = match parse_num(left, 16) {
        Some(n) => n,
        None => {
            return None;
        },
    };
    let end = match parse_num(right, 16) {
        Some(n) => n,
        None => {
            return None;
        },
    };
    Some(AddressRange { start, end })
}

/// The canonical character rendering of a range.
pub fn range_chars(a: &AddressRange) -> (r: Vec<char>)
    ensures
        r@ == range_text(*a),
{
    let mut v = render_digits_padded(a.start as u64, 8, 16);
    v.push('-');
    let tail = render_digits_padded(a.end as u64, 8, 16);
    let mut i: usize = 0;
    let ghost mid = v@;
    while i < tail.len()
        invariant
            i <= tail@.len(),
            v@ == mid + tail@.take(i as int),
        decreases tail@.len() - i,
    {
        let c = tail[i];
        v.push(c);
        proof {
            assert(mid + tail@.take(i as int) + seq![tail@[i as int]] =~= mid + tail@.take(
                i as int + 1,
            ));
        }
        i = i + 1;
    }
    proof {
        assert(tail@.take(tail@.len() as int) =~= tail@);
        assert(v@ =~= range_text(*a));
    }
    v
}

/// Printing an address range and parsing the result yields the range back,
/// and the text is a single whitespace-free token.
#[verifier::rlimit(50)]
pub proof fn lemma_range_roundtrip(a: AddressRange)
    ensures
        parse_range_token(range_text(a)) == Some(a),
        token_safe(range_text(a)),
{
    let l = render_padded(a.start as nat, 8, 16);
    let rr = render_padded(a.end as nat, 8, 16);
    lemma_render_padded(a.start as nat, 8, 16);
    lemma_render_padded(a.end as nat, 8, 16);
    let t = l + seq!['-'] + rr;
    assert(forall|i: int| 0 <= i < l.len() ==> #[trigger] t[i] == l[i]);
    assert(t[l.len() as int] == '-');
    assert(forall|i: int|
        l.len() + 1 <= i < t.len() ==> #[trigger] t[i] == rr[i - l.len() - 1]);
    assert(forall|i: int| 0 <= i < l.len() ==> #[trigger] l[i] != '-') by {
        assert(forall|i: int| 0 <= i < l.len() ==> is_digit(#[trigger] l[i], 16));
    }
    lemma_find_char_is(t, '-', l.len() as int);
    assert(t.take(l.len() as int) =~= l);
    assert(t.skip(l.len() as int + 1) =~= rr);
    assert(num_val(l, 16) == a.start as nat);
    assert(num_val(rr, 16) == a.end as nat);
    assert(parse_range_token(t) == Some(a));
    assert(forall|i: int| 0 <= i < t.len() ==> !is_ws(#[trigger] t[i])) by {
        assert(forall|i: int| 0 <= i < l.len() ==> is_digit(#[trigger] l[i], 16));
        assert(forall|i: int| 0 <= i < rr.len() ==> is_digit(#[trigger] rr[i], 16));
        assert(forall|i: int| 0 <= i < t.len() ==> is_digit(#[trigger] t[i], 16) || t[i] == '-');
    }
}

/// A constructed range with `start < end` contains its start and its last
/// address, and does not contain its end.
pub proof fn lemma_range_contains_bounds(a: AddressRange)
    requires
        a.start < a.end,
    ensures
        range_contains(a, a.start),
        !range_contains(a, a.end),
        range_contains(a, (a.end - 1) as usize),
{
}

// === Perm and PermSet ===

/// One permission column position of a region.
#[derive(Copy, Clone, Debug, PartialEq, Eq, PartialOrd, Ord, Hash, Structural)]
pub enum Perm {
    Read,
    Write,
    Execute,
    Private,
    Shared,
    Nil,
}

/// The canonical (lowercase) character of a permission.
pub open spec fn perm_char(p: Perm) -> char {
    match p {
        Perm::Read => 'r',
        Perm::Write => 'w',
        Perm::Execute => 'x',
        Perm::Private => 'p',
        Perm::Shared => 's',
        Perm::Nil => '-',
    }
}

/// The permission a character denotes, accepting either case.
pub open spec fn perm_of_char(c: char) -> Option<Perm> {
    if c == 'r' || c == 'R' {
        Some(Perm::Read)
    } else if c == 'w' || c == 'W' {
        Some(Perm::Write)
    } else if c == 'x' || c == 'X' {
        Some(Perm::Execute)
    } else if c == 'p' || c == 'P' {
        Some(Perm::Private)
    } else if c == 's' || c == 'S' {
        Some(Perm::Shared)
    } else if c == '-' {
        Some(Perm::Nil)
    } else {
        None
    }
}

pub proof fn lemma_perm_char_roundtrip(p: Perm)
    ensures
        perm_of_char(perm_char(p)) == Some(p),
        !is_ws(perm_char(p)),
        perm_char(p) != '\n',
{
}

impl Perm {
    pub fn to_char(&self) -> (r: char)
        ensures
            r == perm_char(*self),
    {
        match self {
            Perm::Read => 'r',
            Perm::Write => 'w',
            Perm::Execute => 'x',
            Perm::Private => 'p',
            Perm::Shared => 's',
            Perm::Nil => '-',
        }
    }

    /// Parses one permission character, accepting either case.
    pub fn parse_char(c: char) -> (r: Result<Perm, Error>)
        ensures
            match r {
                Ok(p) => perm_of_char(c) == Some(p),
                Err(e) => perm_of_char(c) is None && (e matches Error::Parse { typename, .. }
                    && typename@ == "Perm"@),
            },
    {
        if c == 'r' || c == 'R' {
            Ok(Perm::Read)
        } else if c == 'w' || c == 'W' {
            Ok(Perm::Write)
        } else if c == 'x' || c == 'X' {
            Ok(Perm::Execute)
        } else if c == 'p' || c == 'P' {
            Ok(Perm::Private)
        } else if c == 's' || c == 'S' {
            Ok(Perm::Shared)
        } else if c == '-' {
            Ok(Perm::Nil)
        } else {
            let mut value = String::new();
            crate::text::push_char(&mut value, c);
            Err(Error::Parse {
                value,
                typename: "Perm",
                reason: String::from_str("character was not one of r, w, x, s, p, -"),
            })
        }
    }
}

/// The permission columns of a region, in the order the kernel prints them.
#[derive(Clone, Debug)]
pub struct PermSet(pub Vec<Perm>);

/// The canonical text of a permission sequence.
pub open spec fn perms_text(ps: Seq<Perm>) -> Seq<char> {
    Seq::new(ps.len(), |i: int| perm_char(ps[i]))
}

/// The permissions a whitespace-free token denotes, if every character is a
/// permission character.
pub open spec fn parse_perms_token(t: Seq<char>) -> Option<Seq<Perm>> {
    if t.len() > 0 && (forall|i: int| 0 <= i < t.len() ==> perm_of_char(#[trigger] t[i]) is Some) {
        Some(Seq::new(t.len(), |i: int| perm_of_char(t[i]).unwrap()))
    } else {
        None
    }
}

/// What `PermSet::parse` accepts: the trimmed input as a permission token.
pub open spec fn parse_perms_text(s: Seq<char>) -> Option<Seq<Perm>> {
    parse_perms_token(trim_text(s))
}

impl PermSet {
    /// Parses a permission column, one permission per character.
    pub fn parse(s: &str) -> (r: Result<PermSet, Error>)
        ensures
            match r {
                Ok(ps) => parse_perms_text(s@) == Some(ps.0@),
                Err(e) => parse_perms_text(s@) is None && (e matches Error::Parse { .. }),
            },
            (trim_text(s@).len() == 0 ==> (r matches Err(e) && (e matches Error::Parse {
                reason,
                ..
            } && reason@ == "blank string"@))),
    {
        let cs = chars_of_str(s);
        let t = trim_chars(cs.as_slice());
        if t.len() == 0 {
            return Err(Error::Parse {
                value: String::from_str(s),
                typename: "PermSet",
                reason: String::from_str("blank string"),
            });
        }
        match parse_perms_chars(t.as_slice()) {
            Ok(ps) => Ok(ps),
            Err(e) => Err(e),
        }
    }

    /// The canonical text of the permission column.
    pub fn to_string(&self) -> (r: String)
        ensures
            r@ == perms_text(self.0@),
    {
        let chars = perms_chars(self);
        string_of_chars(chars.as_slice())
    }
}

/// Parses a whitespace-free token as a permission sequence.
pub fn parse_perms_chars(t: &[char]) -> (r: Result<PermSet, Error>)
    ensures
        match r {
            Ok(ps) => parse_perms_token(t@) == Some(ps.0@),
            Err(e) => parse_perms_token(t@) is None && (e matches Error::Parse { .. }),
        },
{
    if t.len() == 0 {
        return Err(Error::Parse {
            value: String::new(),
            typename: "PermSet",
            reason: String::from_str("blank string"),
        });
    }
    let mut out: Vec<Perm> = Vec::new();
    let mut i: usize = 0;
    while i < t.len()
        invariant
            i <= t@.len(),
            out@.len() == i,
            forall|k: int| 0 <= k < i ==> perm_of_char(#[trigger] t@[k]) == Some(out@[k]),
        decreases t@.len() - i,
    {
        match Perm::parse_char(t[i]) {
            Ok(p) => {
                out.push(p);
            },
            Err(e) => {
                return Err(e);
            },
        }
        i = i + 1;
    }
    proof {
        let parsed = parse_perms_token(t@);
        assert(parsed is Some);
        assert(out@ =~= parsed.unwrap());
    }
    Ok(PermSet(out))
}

/// The canonical character rendering of a permission column.
pub fn perms_chars(ps: &PermSet) -> (r: Vec<char>)
    ensures
        r@ == perms_text(ps.0@),
{
    let mut out: Vec<char> = Vec::new();
    let mut i: usize = 0;
    while i < ps.0.len()
        invariant
            i <= ps.0@.len(),
            out@.len() == i,
            forall|k: int| 0 <= k < i ==> out@[k] == perm_char(#[trigger] ps.0@[k]),
        decreases ps.0@.len() - i,
    {
        let c = ps.0[i].to_char();
        out.push(c);
        i = i + 1;
    }
    proof {
        assert(out@ =~= perms_text(ps.0@));
    }
    out
}

/// Printing a nonempty permission sequence and parsing the result yields
/// the sequence back, and the text is a single whitespace-free token.
pub proof fn lemma_perms_roundtrip(ps: Seq<Perm>)
    requires
        ps.len() > 0,
    ensures
        parse_perms_token(perms_text(ps)) == Some(ps),
        token_safe(perms_text(ps)),
{
    let t = perms_text(ps);
    assert(forall|i: int| 0 <= i < t.len() ==> #[trigger] t[i] == perm_char(ps[i]));
    assert(forall|i: int| 0 <= i < t.len() ==> perm_of_char(#[trigger] t[i]) is Some) by {
        assert(forall|i: int| 0 <= i < ps.len() ==> perm_of_char(perm_char(#[trigger] ps[i]))
            == Some(ps[i]));
    }
    let parsed = parse_perms_token(t);
    assert(parsed.unwrap() =~= ps) by {
        assert(forall|i: int| 0 <= i < ps.len() ==> perm_of_char(perm_char(#[trigger] ps[i]))
            == Some(ps[i]));
    }
    assert(forall|i: int| 0 <= i < t.len() ==> !is_ws(#[trigger] t[i])) by {
        assert(forall|i: int| 0 <= i < ps.len() ==> !is_ws(perm_char(#[trigger] ps[i])));
    }
}

// === Offset ===

/// The file offset column: a fixed-width hexadecimal unsigned integer.
#[derive(Copy, Clone, Debug, PartialEq, Eq, PartialOrd, Ord, Hash, Structural)]
pub struct Offset(pub usize);

/// The canonical text of an offset.
pub open spec fn offset_text(o: Offset) -> Seq<char> {
    render_padded(o.0 as nat, 8, 16)
}

/// The offset a whitespace-free token denotes: a nonempty hexadecimal
/// number that fits the platform's address width.
pub open spec fn parse_offset_token(t: Seq<char>) -> Option<Offset> {
    if t.len() > 0 && all_digits(t, 16) && num_val(t, 16) <= usize::MAX {
        Some((Offset(num_val(t, 16) as usize)))
    } else {
        None
    }
}

pub open spec fn parse_offset_text(s: Seq<char>) -> Option<Offset> {
    parse_offset_token(trim_text(s))
}

impl Offset {
    pub fn parse(s: &str) -> (r: Result<Offset, Error>)
        ensures
            match r {
                Ok(o) => parse_offset_text(s@) == Some(o),
                Err(e) => parse_offset_text(s@) is None && (e matches Error::Parse { typename, .. }
                    && typename@ == "Offset"@),
            },
            (trim_text(s@).len() == 0 ==> (r matches Err(e) && (e matches Error::Parse {
                reason,
                ..
            } && reason@ == "blank string"@))),
    {
        let cs = chars_of_str(s);
        let t = trim_chars(cs.as_slice());
        if t.len() == 0 {
            return Err(Error::Parse {
                value: String::from_str(s),
                typename: "Offset",
                reason: String::from_str("blank string"),
            });
        }
        match parse_num(t.as_slice(), 16) {
            Some(n) => Ok(Offset(n)),
            None => Err(Error::Parse {
                value: String::from_str(s),
                typename: "Offset",
                reason: String::from_str("Offset string was not valid base 16 usize"),
            }),
        }
    }

    pub fn to_string(&self) -> (r: String)
        ensures
            r@ == offset_text(*self),
    {
        let chars = render_digits_padded(self.0 as u64, 8, 16);
        string_of_chars(chars.as_slice())
    }
}

pub proof fn lemma_offset_roundtrip(o: Offset)
    ensures
        parse_offset_token(offset_text(o)) == Some(o),
        token_safe(offset_text(o)),
{
    lemma_render_padded(o.0 as nat, 8, 16);
    let t = offset_text(o);
    assert(forall|i: int| 0 <= i < t.len() ==> !is_ws(#[trigger] t[i])) by {
        assert(forall|i: int| 0 <= i < t.len() ==> is_digit(#[trigger] t[i], 16));
    }
}

// === Device ===

/// The device column: major and minor numbers in fixed-width hexadecimal,
/// joined by a colon.
#[derive(Copy, Clone, Debug, PartialEq, Eq, PartialOrd, Ord, Hash, Structural)]
pub struct Device {
    pub major: usize,
    pub minor: usize,
}

/// The canonical text of a device: both numbers zero-padded to at least two
/// hexadecimal digits.
pub open spec fn device_text(d: Device) -> Seq<char> {
    render_padded(d.major as nat, 2, 16) + seq![':'] + render_padded(d.minor as nat, 2, 16)
}

/// The device a whitespace-free token denotes: two nonempty hexadecimal
/// numbers joined by the first colon; tokens shorter than three characters
/// are rejected.
pub open spec fn parse_device_token(t: Seq<char>) -> Option<Device> {
    if t.len() < 3 {
        None
    } else {
        let k = find_char(t, ':');
        if k == t.len() {
            None
        } else {
            let left = t.take(k);
            let right = t.skip(k + 1);
            if left.len() > 0 && all_digits(left, 16) && num_val(left, 16) <= usize::MAX
                && right.len() > 0 && all_digits(right, 16) && num_val(right, 16) <= usize::MAX {
                Some(
                    (Device {
                        major: num_val(left, 16) as usize,
                        minor: num_val(right, 16) as usize,
                    }),
                )
            } else {
                None
            }
        }
    }
}

pub open spec fn parse_device_text(s: Seq<char>) -> Option<Device> {
    parse_device_token(trim_text(s))
}

impl Device {
    pub fn parse(s: &str) -> (r: Result<Device, Error>)
        ensures
            match r {
                Ok(d) => parse_device_text(s@) == Some(d),
                Err(e) => parse_device_text(s@) is None && (e matches Error::Parse { typename, .. }
                    && typename@ == "Device"@),
            },
            (trim_text(s@).len() == 0 ==> (r matches Err(e) && (e matches Error::Parse {
                reason,
                ..
            } && reason@ == "blank string"@))),
    {
        let cs = chars_of_str(s);
        let t = trim_chars(cs.as_slice());
        if t.len() == 0 {
            return Err(Error::Parse {
                value: String::from_str(s),
                typename: "Device",
                reason: String::from_str("blank string"),
            });
        }
        if t.len() < 3 {
            return Err(Error::Parse {
                value: String::from_str(s),
                typename: "Device",
                reason: String::from_str(
                    "device string was shorter than the minimum number of characters (3)",
                ),
            });
        }
        match parse_device_chars(t.as_slice()) {
            Some(d) => Ok(d),
            None => Err(Error::Parse {
                value: String::from_str(s),
                typename: "Device",
                reason: String::from_str(
                    "device string was not two hexadecimal numbers joined by a colon",
                ),
            }),
        }
    }

    pub fn to_string(&self) -> (r: String)
        ensures
            r@ == device_text(*self),
    {
        let chars = device_chars(self);
        string_of_chars(chars.as_slice())
    }
}

/// Parses a whitespace-free token as a device.
pub fn parse_device_chars(t: &[char]) -> (r: Option<Device>)
    ensures
        r == parse_device_token(t@),
{
    if t.len() < 3 {
        return None;
    }
    let k = find_char_exec(t, ':');
    proof {
        crate::text::lemma_find_char_bounds(t@, ':');
    }
    if k == t.len() {
        return None;
    }
    let left = vstd::slice::slice_subrange(t, 0, k);
    let right = vstd::slice::slice_subrange(t, k + 1, t.len());
    proof {
        assert(left@ =~= t@.take(k as int));
        assert(right@ =~= t@.skip(k as int + 1));
    }
    let major = match parse_num(left, 16) {
        Some(n) => n,
        None => {
            return None;
        },
    };
    let minor = match parse_num(right, 16) {
        Some(n) => n,
        None => {
            return None;
        },
    };
    Some(Device { major, minor })
}

/// The canonical character rendering of a device.
pub fn device_chars(d: &Device) -> (r: Vec<char>)
    ensures
        r@ == device_text(*d),
{
    let mut v = render_digits_padded(d.major as u64, 2, 16);
    v.push(':');
    let tail = render_digits_padded(d.minor as u64, 2, 16);
    let mut i: usize = 0;
    let ghost mid = v@;
    while i < tail.len()
        invariant
            i <= tail@.len(),
            v@ == mid + tail@.take(i as int),
        decreases tail@.len() - i,
    {
        let c = tail[i];
        v.push(c);
        proof {
            assert(mid + tail@.take(i as int) + seq![tail@[i as int]] =~= mid + tail@.take(
                i as int + 1,
            ));
        }
        i = i + 1;
    }
    proof {
        assert(tail@.take(tail@.len() as int) =~= tail@);
        assert(v@ =~= device_text(*d));
    }
    v
}

#[verifier::rlimit(50)]
pub proof fn lemma_device_roundtrip(d: Device)
    ensures
        parse_device_token(device_text(d)) == Some(d),
        token_safe(device_text(d)),
{
    let l = render_padded(d.major as nat, 2, 16);
    let rr = render_padded(d.minor as nat, 2, 16);
    lemma_render_padded(d.major as nat, 2, 16);
    lemma_render_padded(d.minor as nat, 2, 16);
    let t = l + seq![':'] + rr;
    assert(forall|i: int| 0 <= i < l.len() ==> #[trigger] t[i] == l[i]);
    assert(t[l.len() as int] == ':');
    assert(forall|i: int|
        l.len() + 1 <= i < t.len() ==> #[trigger] t[i] == rr[i - l.len() - 1]);
    assert(forall|i: int| 0 <= i < l.len() ==> #[trigger] l[i] != ':') by {
        assert(forall|i: int| 0 <= i < l.len() ==> is_digit(#[trigger] l[i], 16));
    }
    lemma_find_char_is(t, ':', l.len() as int);
    assert(t.take(l.len() as int) =~= l);
    assert(t.skip(l.len() as int + 1) =~= rr);
    assert(parse_device_token(t) == Some(d));
    assert(forall|i: int| 0 <= i < t.len() ==> !is_ws(#[trigger] t[i])) by {
        assert(forall|i: int| 0 <= i < l.len() ==> is_digit(#[trigger] l[i], 16));
        assert(forall|i: int| 0 <= i < rr.len() ==> is_digit(#[trigger] rr[i], 16));
        assert(forall|i: int| 0 <= i < t.len() ==> is_digit(#[trigger] t[i], 16) || t[i] == ':');
    }
}

// === Inode ===

/// The inode column: a decimal unsigned integer.
#[derive(Copy, Clone, Debug, PartialEq, Eq, PartialOrd, Ord, Hash, Structural)]
pub struct Inode(pub usize);

/// The canonical text of an inode: minimal-length decimal digits.
pub open spec fn inode_text(n: Inode) -> Seq<char> {
    crate::text::render_num(n.0 as nat, 10)
}

/// The inode a whitespace-free token denotes: a nonempty decimal number
/// that fits the platform's address width.
pub open spec fn parse_inode_token(t: Seq<char>) -> Option<Inode> {
    if t.len() > 0 && all_digits(t, 10) && num_val(t, 10) <= usize::MAX {
        Some((Inode(num_val(t, 10) as usize)))
    } else {
        None
    }
}

pub open spec fn parse_inode_text(s: Seq<char>) -> Option<Inode> {
    parse_inode_token(trim_text(s))
}

impl Inode {
    pub fn parse(s: &str) -> (r: Result<Inode, Error>)
        ensures
            match r {
                Ok(n) => parse_inode_text(s@) == Some(n),
                Err(e) => parse_inode_text(s@) is None && (e matches Error::Parse { typename, .. }
                    && typename@ == "Inode"@),
            },
            (trim_text(s@).len() == 0 ==> (r matches Err(e) && (e matches Error::Parse {
                reason,
                ..
            } && reason@ == "blank string"@))),
    {
        let cs = chars_of_str(s);
        let t = trim_chars(cs.as_slice());
        if t.len() == 0 {
            return Err(Error::Parse {
                value: String::from_str(s),
                typename: "Inode",
                reason: String::from_str("blank string"),
            });
        }
        match parse_num(t.as_slice(), 10) {
            Some(n) => Ok(Inode(n)),
            None => Err(Error::Parse {
                value: String::from_str(s),
                typename: "Inode",
                reason: String::from_str("Inode string was not valid base 10 usize"),
            }),
        }
    }

    pub fn to_string(&self) -> (r: String)
        ensures
            r@ == inode_text(*self),
    {
        let chars = crate::text::render_digits(self.0 as u64, 10);
        string_of_chars(chars.as_slice())
    }
}

pub proof fn lemma_inode_roundtrip(n: Inode)
    ensures
        parse_inode_token(inode_text(n)) == Some(n),
        token_safe(inode_text(n)),
{
    crate::text::lemma_render_num_val(n.0 as nat, 10);
    let t = inode_text(n);
    assert(forall|i: int| 0 <= i < t.len() ==> !is_ws(#[trigger] t[i])) by {
        assert(forall|i: int| 0 <= i < t.len() ==> is_digit(#[trigger] t[i], 10));
    }
}

// === PathName ===

/// The mathematical form of a pathname column: blank, a bracketed kernel
/// pseudo-path, or a filesystem path.
#[verifier::ext_equal]
pub enum PathModel {
    Empty,
    Pseudo(Seq<char>),
    Real(Seq<char>),
}

/// The pathname column of a region.
#[derive(Clone, Debug)]
pub enum PathName {
    Empty,
    Pseudo(String),
    Real(String),
}

impl View for PathName {
    type V = PathModel;

    open spec fn view(&self) -> PathModel {
        match self {
            PathName::Empty => PathModel::Empty,
            PathName::Pseudo(s) => PathModel::Pseudo(s@),
            PathName::Real(s) => PathModel::Real(s@),
        }
    }
}

/// How a trimmed pathname column is classified: blank text is the blank
/// variant, text within square brackets is a pseudo-path, anything else is
/// a filesystem path.
pub open spec fn classify_path(t: Seq<char>) -> PathModel {
    if t.len() == 0 {
        PathModel::Empty
    } else if t[0] == '[' && t.last() == ']' {
        PathModel::Pseudo(t)
    } else {
        PathModel::Real(t)
    }
}

/// The text a pathname prints as.
pub open spec fn path_text(p: PathModel) -> Seq<char> {
    match p {
        PathModel::Empty => Seq::empty(),
        PathModel::Pseudo(s) => s,
        PathModel::Real(s) => s,
    }
}

/// A pathname as the parser itself would produce it: trimmed, whitespace
/// free, and classified by its brackets.
pub open spec fn path_wf(p: PathModel) -> bool {
    match p {
        PathModel::Empty => true,
        PathModel::Pseudo(s) => token_safe(s) && s[0] == '[' && s.last() == ']',
        PathModel::Real(s) => token_safe(s) && !(s[0] == '[' && s.last() == ']'),
    }
}

/// Classification leaves the text itself alone, so printing a well-formed
/// pathname and classifying the result yields the pathname back.
pub proof fn lemma_path_roundtrip(p: PathModel)
    requires
        path_wf(p),
    ensures
        classify_path(path_text(p)) == p,
{
}

impl PathName {
    /// The pathname's text; blank for the blank variant.
    pub fn as_str(&self) -> (r: &str)
        ensures
            r@ == path_text(self@),
    {
        match self {
            PathName::Empty => {
                proof {
                    reveal_strlit("");
                }
                ""
            },
            PathName::Real(s) => s.as_str(),
            PathName::Pseudo(s) => s.as_str(),
        }
    }

    /// Classifies a pathname column.  Never fails: blank text is the blank
    /// variant.
    pub fn parse(s: &str) -> (r: PathName)
        ensures
            r@ == classify_path(trim_text(s@)),
    {
        let cs = chars_of_str(s);
        let t = trim_chars(cs.as_slice());
        classify_path_chars(&t)
    }

    /// Whether two pathnames hold the same variant and text.
    pub fn matches(&self, other: &PathName) -> (r: bool)
        ensures
            r == (self@ == other@),
    {
        match self {
            PathName::Empty => matches!(other, PathName::Empty),
            PathName::Pseudo(a) => match other {
                PathName::Pseudo(b) => a.eq(b),
                _ => false,
            },
            PathName::Real(a) => match other {
                PathName::Real(b) => a.eq(b),
                _ => false,
            },
        }
    }
}

/// Classifies an already-trimmed pathname column.
pub fn classify_path_chars(t: &Vec<char>) -> (r: PathName)
    ensures
        r@ == classify_path(t@),
{
    if t.len() == 0 {
        PathName::Empty
    } else if t[0] == '[' && t[t.len() - 1] == ']' {
        PathName::Pseudo(string_of_chars(t.as_slice()))
    } else {
        PathName::Real(string_of_chars(t.as_slice()))
    }
}

} // verus!
