//! Character-level text machinery shared by the region-table parser and
//! printer: character classes, digit conversions in bases 2, 10 and 16,
//! trimming, whitespace tokenization and line splitting, each with an exact
//! specification and round-trip lemmas.

use vstd::prelude::*;
use vstd::arithmetic::div_mod::{lemma_div_decreases, lemma_fundamental_div_mod};
use vstd::arithmetic::mul::lemma_mul_inequality;
use vstd::slice::slice_subrange;
use crate::error::Error;

verus! {

// === character classes ===

/// The characters the kernel's text format treats as field separators.
pub open spec fn is_ws(c: char) -> bool {
    c == ' ' || c == '\t' || c == '\n' || c == '\r' || c == '\u{c}'
}

pub fn is_ws_char(c: char) -> (r: bool)
    ensures
        r == is_ws(c),
{
    c == ' ' || c == '\t' || c == '\n' || c == '\r' || c == '\u{c}'
}

// === digits ===

/// The value a character denotes as a digit; 16 when it denotes none.
pub open spec fn digit_val(c: char) -> nat {
    if c == '0' { 0 } else if c == '1' { 1 } else if c == '2' { 2 } else if c == '3' { 3 }
    else if c == '4' { 4 } else if c == '5' { 5 } else if c == '6' { 6 } else if c == '7' { 7 }
    else if c == '8' { 8 } else if c == '9' { 9 }
    else if c == 'a' || c == 'A' { 10 } else if c == 'b' || c == 'B' { 11 }
    else if c == 'c' || c == 'C' { 12 } else if c == 'd' || c == 'D' { 13 }
    else if c == 'e' || c == 'E' { 14 } else if c == 'f' || c == 'F' { 15 }
    else { 16 }
}

pub open spec fn is_digit(c: char, base: nat) -> bool {
    digit_val(c) < base
}

pub open spec fn all_digits(s: Seq<char>, base: nat) -> bool {
    forall|i: int| 0 <= i < s.len() ==> is_digit(#[trigger] s[i], base)
}

/// The canonical (lowercase) character for a digit value below 16.
pub open spec fn digit_char(v: nat) -> char {
    if v == 0 { '0' } else if v == 1 { '1' } else if v == 2 { '2' } else if v == 3 { '3' }
    else if v == 4 { '4' } else if v == 5 { '5' } else if v == 6 { '6' } else if v == 7 { '7' }
    else if v == 8 { '8' } else if v == 9 { '9' } else if v == 10 { 'a' } else if v == 11 { 'b' }
    else if v == 12 { 'c' } else if v == 13 { 'd' } else if v == 14 { 'e' } else { 'f' }
}

pub proof fn lemma_digit_char_val(v: nat)
    requires
        v < 16,
    ensures
        digit_val(digit_char(v)) == v,
        !is_ws(digit_char(v)),
        digit_char(v) != '-',
        digit_char(v) != ':',
        digit_char(v) != '[',
        digit_char(v) != ']',
{
}

/// The numeric value of a digit string, most significant digit first.
pub open spec fn num_val(s: Seq<char>, base: nat) -> nat
    decreases s.len(),
{
    if s.len() == 0 {
        0
    } else {
        num_val(s.drop_last(), base) * base + digit_val(s.last())
    }
}

/// The canonical rendering of `n` in the given base: minimal-length,
/// lowercase digits, most significant first.
pub open spec fn render_num(n: nat, base: nat) -> Seq<char>
    recommends
        2 <= base,
    decreases n,
    via render_num_dec
{
    if base < 2 {
        Seq::empty()
    } else if n < base {
        seq![digit_char(n)]
    } else {
        render_num(n / base, base).push(digit_char(n % base))
    }
}

#[via_fn]
proof fn render_num_dec(n: nat, base: nat) {
    if base >= 2 && n >= base {
        lemma_div_decreases(n as int, base as int);
    }
}

/// `render_num` renders to valid digits and parses back to the same value.
pub proof fn lemma_render_num_val(n: nat, base: nat)
    requires
        2 <= base <= 16,
    ensures
        render_num(n, base).len() >= 1,
        all_digits(render_num(n, base), base),
        num_val(render_num(n, base), base) == n,
    decreases n,
{
    if n < base {
        lemma_digit_char_val(n);
        let r = seq![digit_char(n)];
        assert(render_num(n, base) == r);
        assert(r.drop_last() =~= Seq::<char>::empty());
        assert(r.last() == digit_char(n));
        assert(num_val(Seq::<char>::empty(), base) == 0);
        assert(num_val(r, base) == 0 * base + digit_val(digit_char(n)));
    } else {
        lemma_div_decreases(n as int, base as int);
        lemma_render_num_val(n / base, base);
        lemma_fundamental_div_mod(n as int, base as int);
        vstd::arithmetic::div_mod::lemma_mod_division_less_than_divisor(n as int, base as int);
        lemma_digit_char_val(n % base);
        let rr = render_num(n / base, base);
        let d = digit_char(n % base);
        let r = rr.push(d);
        assert(r.drop_last() =~= rr);
        assert(r.last() == d);
        assert(num_val(r, base) == num_val(rr, base) * base + digit_val(d));
        assert((n / base) * base == base * (n / base)) by (nonlinear_arith);
        assert(num_val(r, base) == n);
        assert(forall|i: int| 0 <= i < r.len() ==> is_digit(#[trigger] r[i], base)) by {
            assert(forall|i: int| 0 <= i < rr.len() ==> is_digit(#[trigger] rr[i], base));
        }
    }
}

/// Prepending a zero digit does not change the parsed value.
pub proof fn lemma_prepend_zero(s: Seq<char>, base: nat)
    requires
        base >= 1,
    ensures
        num_val(seq!['0'] + s, base) == num_val(s, base),
    decreases s.len(),
{
    let z = seq!['0'] + s;
    if s.len() == 0 {
        assert(z =~= seq!['0']);
        assert(z.drop_last() =~= Seq::<char>::empty());
        assert(z.last() == '0');
        assert(num_val(Seq::<char>::empty(), base) == 0);
        assert(num_val(z, base) == 0 * base + digit_val('0'));
    } else {
        assert(z.drop_last() =~= seq!['0'] + s.drop_last());
        assert(z.last() == s.last());
        lemma_prepend_zero(s.drop_last(), base);
        assert(num_val(z, base) == num_val(z.drop_last(), base) * base + digit_val(z.last()));
        assert(num_val(s, base) == num_val(s.drop_last(), base) * base + digit_val(s.last()));
    }
}

/// `s` left-padded with zero digits to width at least `w`.
pub open spec fn zero_pad(s: Seq<char>, w: nat) -> Seq<char>
    decreases w,
{
    if s.len() >= w {
        s
    } else {
        seq!['0'] + zero_pad(s, (w - 1) as nat)
    }
}

pub proof fn lemma_zero_pad(s: Seq<char>, w: nat, base: nat)
    requires
        2 <= base <= 16,
        all_digits(s, base),
    ensures
        zero_pad(s, w).len() >= w,
        zero_pad(s, w).len() >= s.len(),
        all_digits(zero_pad(s, w), base),
        num_val(zero_pad(s, w), base) == num_val(s, base),
    decreases w,
{
    if s.len() >= w {
    } else {
        lemma_zero_pad(s, (w - 1) as nat, base);
        let inner = zero_pad(s, (w - 1) as nat);
        lemma_prepend_zero(inner, base);
        let z = seq!['0'] + inner;
        assert(forall|i: int| 0 <= i < z.len() ==> is_digit(#[trigger] z[i], base)) by {
            assert(z[0] == '0');
            assert(forall|i: int| 1 <= i < z.len() ==> z[i] == inner[i - 1]);
        }
    }
}

/// The canonical zero-padded rendering used by the table's fixed-width
/// columns.
pub open spec fn render_padded(n: nat, w: nat, base: nat) -> Seq<char> {
    zero_pad(render_num(n, base), w)
}

pub proof fn lemma_render_padded(n: nat, w: nat, base: nat)
    requires
        2 <= base <= 16,
    ensures
        render_padded(n, w, base).len() >= w,
        render_padded(n, w, base).len() >= 1,
        all_digits(render_padded(n, w, base), base),
        num_val(render_padded(n, w, base), base) == n,
{
    lemma_render_num_val(n, base);
    lemma_zero_pad(render_num(n, base), w, base);
}

/// Extending a digit string by one digit multiplies its value by the base
/// and adds the digit.
pub proof fn lemma_num_val_take_step(s: Seq<char>, base: nat, i: int)
    requires
        0 <= i < s.len(),
    ensures
        num_val(s.take(i + 1), base) == num_val(s.take(i), base) * base + digit_val(s[i]),
{
    assert(s.take(i + 1).drop_last() =~= s.take(i));
    assert(s.take(i + 1).last() == s[i]);
}

/// The value of a prefix never exceeds the value of the whole string.
pub proof fn lemma_num_val_prefix_le(s: Seq<char>, base: nat, i: int)
    requires
        base >= 1,
        0 <= i <= s.len(),
    ensures
        num_val(s.take(i), base) <= num_val(s, base),
    decreases s.len() - i,
{
    if i == s.len() {
        assert(s.take(i) =~= s);
    } else {
        lemma_num_val_take_step(s, base, i);
        lemma_num_val_prefix_le(s, base, i + 1);
        let p = num_val(s.take(i), base);
        lemma_mul_inequality(1, base as int, p as int);
        assert(p * 1 == p) by (nonlinear_arith);
        assert(p * base >= p * 1) by (nonlinear_arith)
            requires
                base >= 1,
                p >= 0,
        ;
    }
}

pub fn digit_char_exec(v: u64) -> (r: char)
    requires
        v < 16,
    ensures
        r == digit_char(v as nat),
{
    if v == 0 { '0' } else if v == 1 { '1' } else if v == 2 { '2' } else if v == 3 { '3' }
    else if v == 4 { '4' } else if v == 5 { '5' } else if v == 6 { '6' } else if v == 7 { '7' }
    else if v == 8 { '8' } else if v == 9 { '9' } else if v == 10 { 'a' } else if v == 11 { 'b' }
    else if v == 12 { 'c' } else if v == 13 { 'd' } else if v == 14 { 'e' } else { 'f' }
}

pub fn digit_val_exec(c: char, base: usize) -> (r: Option<usize>)
    requires
        2 <= base <= 16,
    ensures
        match r {
            Some(d) => is_digit(c, base as nat) && d as nat == digit_val(c),
            None => !is_digit(c, base as nat),
        },
{
    let v: usize = if c == '0' { 0 } else if c == '1' { 1 } else if c == '2' { 2 }
    else if c == '3' { 3 } else if c == '4' { 4 } else if c == '5' { 5 } else if c == '6' { 6 }
    else if c == '7' { 7 } else if c == '8' { 8 } else if c == '9' { 9 }
    else if c == 'a' || c == 'A' { 10 } else if c == 'b' || c == 'B' { 11 }
    else if c == 'c' || c == 'C' { 12 } else if c == 'd' || c == 'D' { 13 }
    else if c == 'e' || c == 'E' { 14 } else if c == 'f' || c == 'F' { 15 } else { 16 };
    if v < base {
        Some(v)
    } else {
        None
    }
}

/// Renders `n` in the given base: minimal-length lowercase digits.
pub fn render_digits(n: u64, base: u64) -> (r: Vec<char>)
    requires
        2 <= base <= 16,
    ensures
        r@ == render_num(n as nat, base as nat),
    decreases n,
{
    proof {
        if n >= base {
            lemma_div_decreases(n as int, base as int);
        }
    }
    if n < base {
        let mut v: Vec<char> = Vec::new();
        v.push(digit_char_exec(n));
        proof {
            assert(v@ =~= seq![digit_char(n as nat)]);
        }
        v
    } else {
        let mut v = render_digits(n / base, base);
        proof {
            lemma_fundamental_div_mod(n as int, base as int);
        }
        v.push(digit_char_exec(n % base));
        v
    }
}

/// Renders `n` in the given base, left-padded with zeros to width `w`.
pub fn render_digits_padded(n: u64, w: usize, base: u64) -> (r: Vec<char>)
    requires
        2 <= base <= 16,
    ensures
        r@ == render_padded(n as nat, w as nat, base as nat),
{
    let digits = render_digits(n, base);
    let mut v: Vec<char> = Vec::new();
    if digits.len() < w {
        let pad = w - digits.len();
        let mut i: usize = 0;
        while i < pad
            invariant
                i <= pad,
                pad == w - digits@.len(),
                digits@.len() < w,
                v@ =~= Seq::new(i as nat, |k: int| '0'),
                digits@ == render_num(n as nat, base as nat),
            decreases pad - i,
        {
            v.push('0');
            i = i + 1;
        }
        proof {
            lemma_pad_prefix(digits@, w as nat, (pad - 0) as nat);
            assert(v@ + digits@ =~= zero_pad(digits@, w as nat));
        }
    }
    let mut j: usize = 0;
    let ghost prefix = v@;
    while j < digits.len()
        invariant
            j <= digits@.len(),
            v@ == prefix + digits@.take(j as int),
        decreases digits@.len() - j,
    {
        let c = digits[j];
        v.push(c);
        proof {
            assert(prefix + digits@.take(j as int) + seq![digits@[j as int]] =~= prefix
                + digits@.take(j as int + 1));
        }
        j = j + 1;
    }
    proof {
        assert(digits@.take(digits@.len() as int) =~= digits@);
        if digits@.len() >= w {
            assert(v@ =~= digits@);
            assert(zero_pad(digits@, w as nat) == digits@);
        }
    }
    v
}

/// Zero-padding to width `w` is the sequence of `w - len` zeros followed by
/// the digits themselves.
proof fn lemma_pad_prefix(s: Seq<char>, w: nat, k: nat)
    requires
        s.len() < w,
    ensures
        zero_pad(s, w) =~= Seq::new((w - s.len()) as nat, |i: int| '0') + s,
    decreases w,
{
    if s.len() + 1 == w {
        assert(zero_pad(s, w) == seq!['0'] + zero_pad(s, (w - 1) as nat));
        assert(zero_pad(s, (w - 1) as nat) == s);
        assert(seq!['0'] + s =~= Seq::new(1, |i: int| '0') + s);
    } else {
        lemma_pad_prefix(s, (w - 1) as nat, k);
        assert(seq!['0'] + (Seq::new((w - 1 - s.len()) as nat, |i: int| '0') + s) =~= Seq::new(
            (w - s.len()) as nat,
            |i: int| '0',
        ) + s);
    }
}

/// Parses a digit string in the given base.  Succeeds exactly when the
/// string is nonempty, all characters are digits of the base, and the value
/// fits the platform's address width.
pub fn parse_num(t: &[char], base: usize) -> (r: Option<usize>)
    requires
        2 <= base <= 16,
    ensures
        match r {
            Some(n) => t@.len() > 0 && all_digits(t@, base as nat) && num_val(t@, base as nat)
                == n as nat,
            None => t@.len() == 0 || !all_digits(t@, base as nat) || num_val(t@, base as nat)
                > usize::MAX,
        },
{
    if t.len() == 0 {
        return None;
    }
    let mut acc: usize = 0;
    let mut i: usize = 0;
    while i < t.len()
        invariant
            2 <= base <= 16,
            0 < t@.len(),
            i <= t@.len(),
            all_digits(t@.take(i as int), base as nat),
            acc as nat == num_val(t@.take(i as int), base as nat),
        decreases t@.len() - i,
    {
        let c = t[i];
        proof {
            lemma_num_val_take_step(t@, base as nat, i as int);
        }
        match digit_val_exec(c, base) {
            None => {
                return None;
            },
            Some(d) => {
                match acc.checked_mul(base) {
                    None => {
                        proof {
                            overflow_means_too_big(t@, base as nat, i as int, acc as nat, d as nat);
                        }
                        return None;
                    },
                    Some(m) => {
                        match m.checked_add(d) {
                            None => {
                                proof {
                                    overflow_means_too_big(
                                        t@,
                                        base as nat,
                                        i as int,
                                        acc as nat,
                                        d as nat,
                                    );
                                }
                                return None;
                            },
                            Some(a) => {
                                acc = a;
                            },
                        }
                    },
                }
            },
        }
        proof {
            assert(forall|k: int|
                0 <= k < i + 1 ==> is_digit(#[trigger] t@.take(i as int + 1)[k], base as nat));
        }
        i = i + 1;
    }
    proof {
        assert(t@.take(t@.len() as int) =~= t@);
    }
    Some(acc)
}

/// If one parsing step overflows, the whole string's value is out of range.
proof fn overflow_means_too_big(s: Seq<char>, base: nat, i: int, acc: nat, d: nat)
    requires
        base >= 1,
        0 <= i < s.len(),
        acc == num_val(s.take(i), base),
        d == digit_val(s[i]),
        acc * base + d > usize::MAX,
    ensures
        num_val(s, base) > usize::MAX,
{
    lemma_num_val_take_step(s, base, i);
    lemma_num_val_prefix_le(s, base, i + 1);
}

/// Parses a whole string as an unsigned hexadecimal number, with no
/// trimming.  Succeeds exactly when the string is nonempty, purely
/// hexadecimal, and fits the platform's address width.
pub fn parse_hex(number: &str) -> (r: Result<usize, Error>)
    ensures
        match r {
            Ok(n) => number@.len() > 0 && all_digits(number@, 16) && num_val(number@, 16)
                == n as nat,
            Err(e) => (number@.len() == 0 || !all_digits(number@, 16) || num_val(number@, 16)
                > usize::MAX) && (e matches Error::Parse { typename, .. } && typename@
                == "usize"@),
        },
{
    let cs = chars_of_str(number);
    match parse_num(cs.as_slice(), 16) {
        Some(n) => Ok(n),
        None => Err(
            Error::Parse {
                value: String::from_str(number),
                typename: "usize",
                reason: String::from_str("value was not valid base 16 usize"),
            },
        ),
    }
}

// === trimming ===

pub open spec fn trim_start_text(s: Seq<char>) -> Seq<char>
    decreases s.len(),
{
    if s.len() > 0 && is_ws(s[0]) {
        trim_start_text(s.drop_first())
    } else {
        s
    }
}

pub open spec fn trim_end_text(s: Seq<char>) -> Seq<char>
    decreases s.len(),
{
    if s.len() > 0 && is_ws(s.last()) {
        trim_end_text(s.drop_last())
    } else {
        s
    }
}

/// `s` with leading and trailing whitespace removed.
pub open spec fn trim_text(s: Seq<char>) -> Seq<char> {
    trim_end_text(trim_start_text(s))
}

pub fn trim_chars(v: &[char]) -> (r: Vec<char>)
    ensures
        r@ == trim_text(v@),
{
    let mut lo: usize = 0;
    proof {
        assert(v@.skip(0) =~= v@);
    }
    while lo < v.len() && is_ws_char(v[lo])
        invariant
            lo <= v@.len(),
            trim_start_text(v@) == trim_start_text(v@.skip(lo as int)),
        decreases v@.len() - lo,
    {
        proof {
            assert(v@.skip(lo as int).drop_first() =~= v@.skip(lo as int + 1));
        }
        lo = lo + 1;
    }
    proof {
        if lo < v@.len() {
            assert(trim_start_text(v@) == v@.skip(lo as int));
        } else {
            assert(v@.skip(lo as int) =~= Seq::<char>::empty());
            assert(trim_start_text(v@) =~= Seq::<char>::empty());
        }
    }
    if lo == v.len() {
        let r: Vec<char> = Vec::new();
        proof {
            assert(r@ =~= trim_text(v@));
        }
        return r;
    }
    let ghost s1 = v@.skip(lo as int);
    let mut hi: usize = v.len();
    proof {
        assert(s1.take(hi - lo as int) =~= s1);
    }
    while hi > lo && is_ws_char(v[hi - 1])
        invariant
            lo < hi <= v@.len(),
            lo < v@.len(),
            !is_ws(v@[lo as int]),
            s1 == v@.skip(lo as int),
            trim_end_text(s1) == trim_end_text(s1.take(hi - lo as int)),
        decreases hi,
    {
        proof {
            assert(s1.take(hi - lo as int).drop_last() =~= s1.take(hi - 1 - lo as int));
            assert(s1.take(hi - lo as int).last() == v@[hi - 1]);
            assert(hi - 1 > lo) by {
                assert(v@[lo as int] == s1[0]);
            }
        }
        hi = hi - 1;
    }
    proof {
        let x = s1.take(hi - lo as int);
        assert(x.len() > 0);
        assert(x.last() == v@[hi - 1]);
        assert(trim_end_text(x) == x);
        assert(trim_end_text(s1) == x);
    }
    let out = slice_subrange(v, lo, hi);
    let r = vstd::slice::slice_to_vec(out);
    proof {
        assert(r@ =~= s1.take(hi - lo as int));
    }
    r
}

// === whitespace tokenization ===

/// The length of the leading run of non-whitespace characters.
pub open spec fn head_run_len(s: Seq<char>) -> int
    decreases s.len(),
{
    if s.len() == 0 || is_ws(s[0]) {
        0
    } else {
        1 + head_run_len(s.drop_first())
    }
}

pub proof fn lemma_head_run_len_bounds(s: Seq<char>)
    ensures
        0 <= head_run_len(s) <= s.len(),
        forall|i: int| 0 <= i < head_run_len(s) ==> !is_ws(#[trigger] s[i]),
        head_run_len(s) < s.len() ==> is_ws(s[head_run_len(s)]),
        s.len() > 0 && !is_ws(s[0]) ==> head_run_len(s) >= 1,
    decreases s.len(),
{
    if s.len() == 0 || is_ws(s[0]) {
    } else {
        lemma_head_run_len_bounds(s.drop_first());
        let t = s.drop_first();
        assert(forall|i: int| 1 <= i < s.len() ==> s[i] == t[i - 1]);
    }
}

/// If the first `k` characters are non-whitespace and position `k` is the
/// end or whitespace, the leading run has length exactly `k`.
pub proof fn lemma_head_run_len_is(s: Seq<char>, k: int)
    requires
        0 <= k <= s.len(),
        forall|i: int| 0 <= i < k ==> !is_ws(#[trigger] s[i]),
        k < s.len() ==> is_ws(s[k]),
    ensures
        head_run_len(s) == k,
    decreases s.len(),
{
    if k == 0 {
    } else {
        let t = s.drop_first();
        assert(forall|i: int| 0 <= i < t.len() ==> t[i] == s[i + 1]);
        lemma_head_run_len_is(t, k - 1);
    }
}

/// The whitespace-separated tokens of `s`, in order.
pub open spec fn tokenize(s: Seq<char>) -> Seq<Seq<char>>
    decreases s.len(),
    via tokenize_dec
{
    if s.len() == 0 {
        Seq::empty()
    } else if is_ws(s[0]) {
        tokenize(s.drop_first())
    } else {
        seq![s.take(head_run_len(s))] + tokenize(s.skip(head_run_len(s)))
    }
}

#[via_fn]
proof fn tokenize_dec(s: Seq<char>) {
    if s.len() > 0 && !is_ws(s[0]) {
        lemma_head_run_len_bounds(s);
    }
}

/// Tokenizing a nonempty whitespace-free token followed by either nothing or
/// a whitespace boundary yields that token and then the tokens of the rest.
pub proof fn lemma_tokenize_token(t: Seq<char>, rest: Seq<char>)
    requires
        t.len() > 0,
        forall|i: int| 0 <= i < t.len() ==> !is_ws(#[trigger] t[i]),
        rest.len() == 0 || is_ws(rest[0]),
    ensures
        tokenize(t + rest) == seq![t] + tokenize(rest),
{
    let s = t + rest;
    assert(forall|i: int| 0 <= i < t.len() ==> s[i] == t[i]);
    assert(forall|i: int| t.len() <= i < s.len() ==> s[i] == rest[i - t.len()]);
    lemma_head_run_len_is(s, t.len() as int);
    assert(s.take(t.len() as int) =~= t);
    assert(s.skip(t.len() as int) =~= rest);
}

/// Leading whitespace does not affect tokenization.
pub proof fn lemma_tokenize_skip_ws(pad: Seq<char>, rest: Seq<char>)
    requires
        forall|i: int| 0 <= i < pad.len() ==> is_ws(#[trigger] pad[i]),
    ensures
        tokenize(pad + rest) == tokenize(rest),
    decreases pad.len(),
{
    if pad.len() == 0 {
        assert(pad + rest =~= rest);
    } else {
        let s = pad + rest;
        assert(is_ws(s[0]));
        assert(s.drop_first() =~= pad.drop_first() + rest);
        lemma_tokenize_skip_ws(pad.drop_first(), rest);
    }
}

/// Splits `v` into its whitespace-separated tokens.
pub fn tokenize_chars(v: &[char]) -> (r: Vec<Vec<char>>)
    ensures
        r.deep_view() == tokenize(v@),
{
    let mut out: Vec<Vec<char>> = Vec::new();
    let mut i: usize = 0;
    proof {
        assert(v@.skip(0) =~= v@);
        assert(out.deep_view() + tokenize(v@.skip(0)) =~~= tokenize(v@));
    }
    while i < v.len()
        invariant
            i <= v@.len(),
            out.deep_view() + tokenize(v@.skip(i as int)) == tokenize(v@),
        decreases v@.len() - i,
    {
        if is_ws_char(v[i]) {
            proof {
                assert(v@.skip(i as int).drop_first() =~= v@.skip(i as int + 1));
            }
            i = i + 1;
        } else {
            let mut j: usize = i + 1;
            while j < v.len() && !is_ws_char(v[j])
                invariant
                    i < j <= v@.len(),
                    forall|k: int| i <= k < j ==> !is_ws(#[trigger] v@[k]),
                decreases v@.len() - j,
            {
                j = j + 1;
            }
            let ghost s = v@.skip(i as int);
            let ghost pre = out.deep_view();
            proof {
                assert(forall|k: int| 0 <= k < s.len() ==> s[k] == v@[k + i]);
                lemma_head_run_len_is(s, j - i as int);
                assert(s.take(j - i as int) =~= v@.subrange(i as int, j as int));
                assert(s.skip(j - i as int) =~= v@.skip(j as int));
            }
            let tok = vstd::slice::slice_to_vec(slice_subrange(v, i, j));
            out.push(tok);
            proof {
                assert(out.deep_view() =~~= pre.push(v@.subrange(i as int, j as int)));
                assert(out.deep_view() + tokenize(v@.skip(j as int)) =~~= tokenize(v@));
            }
            i = j;
        }
    }
    proof {
        assert(v@.skip(i as int) =~= Seq::<char>::empty());
        assert(out.deep_view() + tokenize(Seq::<char>::empty()) =~~= out.deep_view());
    }
    out
}

/// The index of the first occurrence of `c` in `s`, or `s.len()` if absent.
pub open spec fn find_char(s: Seq<char>, c: char) -> int
    decreases s.len(),
{
    if s.len() == 0 || s[0] == c {
        0
    } else {
        1 + find_char(s.drop_first(), c)
    }
}

pub proof fn lemma_find_char_bounds(s: Seq<char>, c: char)
    ensures
        0 <= find_char(s, c) <= s.len(),
        forall|i: int| 0 <= i < find_char(s, c) ==> #[trigger] s[i] != c,
        find_char(s, c) < s.len() ==> s[find_char(s, c)] == c,
    decreases s.len(),
{
    if s.len() == 0 || s[0] == c {
    } else {
        lemma_find_char_bounds(s.drop_first(), c);
        let t = s.drop_first();
        assert(forall|i: int| 1 <= i < s.len() ==> #[trigger] s[i] == t[i - 1]);
    }
}

pub proof fn lemma_find_char_is(s: Seq<char>, c: char, k: int)
    requires
        0 <= k <= s.len(),
        forall|i: int| 0 <= i < k ==> #[trigger] s[i] != c,
        k < s.len() ==> s[k] == c,
    ensures
        find_char(s, c) == k,
    decreases s.len(),
{
    if k == 0 {
    } else {
        let t = s.drop_first();
        assert(forall|i: int| 0 <= i < t.len() ==> t[i] == s[i + 1]);
        lemma_find_char_is(t, c, k - 1);
    }
}

/// The index of the first occurrence of `c` in `v`, or `v.len()` if absent.
pub fn find_char_exec(v: &[char], c: char) -> (r: usize)
    ensures
        r as int == find_char(v@, c),
{
    let mut i: usize = 0;
    while i < v.len() && v[i] != c
        invariant
            i <= v@.len(),
            forall|k: int| 0 <= k < i ==> #[trigger] v@[k] != c,
        decreases v@.len() - i,
    {
        i = i + 1;
    }
    proof {
        lemma_find_char_is(v@, c, i as int);
    }
    i
}

// === line splitting ===

/// The length of the leading run of characters before a newline.
pub open spec fn line_len(s: Seq<char>) -> int
    decreases s.len(),
{
    if s.len() == 0 || s[0] == '\n' {
        0
    } else {
        1 + line_len(s.drop_first())
    }
}

pub proof fn lemma_line_len_bounds(s: Seq<char>)
    ensures
        0 <= line_len(s) <= s.len(),
        forall|i: int| 0 <= i < line_len(s) ==> #[trigger] s[i] != '\n',
        line_len(s) < s.len() ==> s[line_len(s)] == '\n',
    decreases s.len(),
{
    if s.len() == 0 || s[0] == '\n' {
    } else {
        lemma_line_len_bounds(s.drop_first());
        let t = s.drop_first();
        assert(forall|i: int| 1 <= i < s.len() ==> s[i] == t[i - 1]);
    }
}

pub proof fn lemma_line_len_is(s: Seq<char>, k: int)
    requires
        0 <= k <= s.len(),
        forall|i: int| 0 <= i < k ==> #[trigger] s[i] != '\n',
        k < s.len() ==> s[k] == '\n',
    ensures
        line_len(s) == k,
    decreases s.len(),
{
    if k == 0 {
    } else {
        let t = s.drop_first();
        assert(forall|i: int| 0 <= i < t.len() ==> t[i] == s[i + 1]);
        lemma_line_len_is(t, k - 1);
    }
}

/// The lines of `s`, split on newline characters; a trailing newline ends
/// the last line and produces no further empty line.
pub open spec fn split_lines(s: Seq<char>) -> Seq<Seq<char>>
    decreases s.len(),
    via split_lines_dec
{
    if s.len() == 0 {
        Seq::empty()
    } else {
        let k = line_len(s);
        if k < s.len() {
            seq![s.take(k)] + split_lines(s.skip(k + 1))
        } else {
            seq![s]
        }
    }
}

#[via_fn]
proof fn split_lines_dec(s: Seq<char>) {
    lemma_line_len_bounds(s);
}

/// Splitting a newline-free line, a newline, and the rest yields that line
/// and then the lines of the rest.
pub proof fn lemma_split_lines_step(line: Seq<char>, rest: Seq<char>)
    requires
        forall|i: int| 0 <= i < line.len() ==> #[trigger] line[i] != '\n',
    ensures
        split_lines(line + seq!['\n'] + rest) == seq![line] + split_lines(rest),
{
    let s = line + seq!['\n'] + rest;
    assert(forall|i: int| 0 <= i < line.len() ==> s[i] == line[i]);
    assert(s[line.len() as int] == '\n');
    lemma_line_len_is(s, line.len() as int);
    assert(s.take(line.len() as int) =~= line);
    assert(s.skip(line.len() as int + 1) =~= rest);
}

/// Splits `v` into its lines.
pub fn split_lines_chars(v: &[char]) -> (r: Vec<Vec<char>>)
    ensures
        r.deep_view() == split_lines(v@),
{
    let mut out: Vec<Vec<char>> = Vec::new();
    let mut i: usize = 0;
    proof {
        assert(v@.skip(0) =~= v@);
        assert(out.deep_view() + split_lines(v@.skip(0)) =~~= split_lines(v@));
    }
    while i < v.len()
        invariant
            i <= v@.len(),
            out.deep_view() + split_lines(v@.skip(i as int)) == split_lines(v@),
        decreases v@.len() - i,
    {
        let mut j: usize = i;
        while j < v.len() && v[j] != '\n'
            invariant
                i <= j <= v@.len(),
                forall|k: int| i <= k < j ==> #[trigger] v@[k] != '\n',
            decreases v@.len() - j,
        {
            j = j + 1;
        }
        let ghost s = v@.skip(i as int);
        let ghost pre = out.deep_view();
        proof {
            assert(forall|k: int| 0 <= k < s.len() ==> s[k] == v@[k + i]);
            lemma_line_len_is(s, j - i as int);
            assert(s.take(j - i as int) =~= v@.subrange(i as int, j as int));
        }
        let line = vstd::slice::slice_to_vec(slice_subrange(v, i, j));
        out.push(line);
        proof {
            assert(out.deep_view() =~~= pre.push(v@.subrange(i as int, j as int)));
        }
        if j < v.len() {
            proof {
                assert(s.skip(j - i as int + 1) =~= v@.skip(j as int + 1));
                assert(out.deep_view() + split_lines(v@.skip(j as int + 1)) =~~= split_lines(v@));
            }
            i = j + 1;
        } else {
            proof {
                assert(s =~= v@.subrange(i as int, j as int));
                assert(split_lines(s) =~= seq![s]);
                assert(v@.skip(j as int) =~= Seq::<char>::empty());
                assert(out.deep_view() + split_lines(v@.skip(j as int)) =~~= split_lines(v@));
            }
            i = j;
        }
    }
    proof {
        assert(v@.skip(i as int) =~= Seq::<char>::empty());
        assert(out.deep_view() + split_lines(Seq::<char>::empty()) =~~= out.deep_view());
    }
    out
}

// === strings ===

/// Relies on `String::push`: appends exactly the given character.
#[verifier::external_body]
pub fn push_char(s: &mut String, c: char)
    ensures
        final(s)@ == old(s)@.push(c),
{
    s.push(c)
}

/// Builds a `String` holding exactly the given characters.
pub fn string_of_chars(v: &[char]) -> (r: String)
    ensures
        r@ == v@,
{
    let mut s = String::new();
    let mut i: usize = 0;
    while i < v.len()
        invariant
            i <= v@.len(),
            s@ =~= v@.take(i as int),
        decreases v@.len() - i,
    {
        push_char(&mut s, v[i]);
        i = i + 1;
    }
    proof {
        assert(v@.take(v@.len() as int) =~= v@);
    }
    s
}

/// The characters of `s`, as a vector.
pub fn chars_of_str(s: &str) -> (r: Vec<char>)
    ensures
        r@ == s@,
{
    let n = s.unicode_len();
    let mut v: Vec<char> = Vec::new();
    let mut i: usize = 0;
    while i < n
        invariant
            i <= n,
            n == s@.len(),
            v@ =~= s@.take(i as int),
        decreases n - i,
    {
        v.push(s.get_char(i));
        i = i + 1;
    }
    proof {
        assert(s@.take(n as int) =~= s@);
    }
    v
}

/// Whether the characters of `v` spell exactly the string `s`.
pub fn chars_eq_str(v: &[char], s: &str) -> (r: bool)
    ensures
        r == (v@ == s@),
{
    let n = s.unicode_len();
    if v.len() != n {
        return false;
    }
    let mut i: usize = 0;
    while i < n
        invariant
            i <= n,
            n == s@.len(),
            n == v@.len(),
            forall|k: int| 0 <= k < i ==> v@[k] == s@[k],
        decreases n - i,
    {
        if v[i] != s.get_char(i) {
            return false;
        }
        i = i + 1;
    }
    proof {
        assert(v@ =~= s@);
    }
    true
}

} // verus!
