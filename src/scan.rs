//! Byte-level scanning shared by the wire parser, the chunked codec and the router:
//! searching, splitting, trimming, ASCII case folding and unsigned number text.
use vstd::prelude::*;
use vstd::string::StringSliceAdditionalSpecFns;
use vstd::utf8::*;

verus! {

pub const LF: u8 = 10;
pub const CR: u8 = 13;
pub const SPACE: u8 = 32;
pub const TAB: u8 = 9;
pub const PLUS: u8 = 43;
pub const COMMA: u8 = 44;
pub const SLASH: u8 = 47;
pub const COLON: u8 = 58;
pub const SEMICOLON: u8 = 59;

/// Index of the first occurrence of `b` in `s`, or `s.len()` when there is none.
pub open spec fn first_index(s: Seq<u8>, b: u8) -> int
    decreases s.len(),
{
    if s.len() == 0 {
        0
    } else if s[0] == b {
        0
    } else {
        1 + first_index(s.drop_first(), b)
    }
}

pub proof fn lemma_first_index(s: Seq<u8>, b: u8, k: int)
    requires
        0 <= k <= s.len(),
        forall|j: int| 0 <= j < k ==> s[j] != b,
        k == s.len() || s[k] == b,
    ensures
        first_index(s, b) == k,
    decreases k,
{
    if k > 0 {
        lemma_first_index(s.drop_first(), b, k - 1);
    }
}

pub proof fn lemma_first_index_bounds(s: Seq<u8>, b: u8)
    ensures
        0 <= first_index(s, b) <= s.len(),
        forall|j: int| 0 <= j < first_index(s, b) ==> s[j] != b,
        first_index(s, b) < s.len() ==> s[first_index(s, b)] == b,
    decreases s.len(),
{
    if s.len() > 0 && s[0] != b {
        lemma_first_index_bounds(s.drop_first(), b);
        assert forall|j: int| 0 <= j < first_index(s, b) implies s[j] != b by {
            if j > 0 {
                assert(s[j] == s.drop_first()[j - 1]);
            }
        }
    }
}

/// Position of the first `b` in `s` (its length when `b` does not occur).
pub fn find_byte(s: &[u8], b: u8) -> (r: usize)
    ensures
        r == first_index(s@, b),
        r <= s@.len(),
{
    let mut i: usize = 0;
    while i < s.len()
        invariant
            0 <= i <= s@.len(),
            forall|j: int| 0 <= j < i ==> s@[j] != b,
        decreases s.len() - i,
    {
        if s[i] == b {
            proof {
                lemma_first_index(s@, b, i as int);
            }
            return i;
        }
        i += 1;
    }
    proof {
        lemma_first_index(s@, b, i as int);
    }
    i
}

/// The pieces of `s` between occurrences of `b`, as `str::split` yields them.
pub open spec fn split_on(s: Seq<u8>, b: u8) -> Seq<Seq<u8>>
    decreases s.len(),
{
    let i = first_index(s, b);
    if 0 <= i < s.len() {
        seq![s.subrange(0, i)] + split_on(s.subrange(i + 1, s.len() as int), b)
    } else {
        seq![s]
    }
}

/// `s` without the leading occurrences of `b`.
pub open spec fn trim_start(s: Seq<u8>, b: u8) -> Seq<u8>
    decreases s.len(),
{
    if s.len() > 0 && s[0] == b {
        trim_start(s.drop_first(), b)
    } else {
        s
    }
}

/// `s` without the trailing occurrences of `b`.
pub open spec fn trim_end(s: Seq<u8>, b: u8) -> Seq<u8>
    decreases s.len(),
{
    if s.len() > 0 && s.last() == b {
        trim_end(s.drop_last(), b)
    } else {
        s
    }
}

/// ASCII white space: space, tab, line feed, vertical tab, form feed, carriage return.
pub open spec fn is_blank(b: u8) -> bool {
    b == SPACE || (TAB <= b <= CR)
}

/// The three-byte UTF-8 encodings of white space: U+1680, U+2000 to U+200A, U+2028,
/// U+2029, U+202F, U+205F and U+3000.
pub open spec fn is_wide_space(a: u8, b: u8, c: u8) -> bool {
    ||| (a == 0xE1 && b == 0x9A && c == 0x80)
    ||| (a == 0xE2 && b == 0x80 && ((0x80 <= c <= 0x8A) || c == 0xA8 || c == 0xA9 || c == 0xAF))
    ||| (a == 0xE2 && b == 0x81 && c == 0x9F)
    ||| (a == 0xE3 && b == 0x80 && c == 0x80)
}

/// Width in bytes of the white-space character (Unicode `White_Space`, as
/// `char::is_whitespace`) whose UTF-8 encoding starts at `i` in `s`; 0 when none does.
pub open spec fn ws_width(s: Seq<u8>, i: int) -> int {
    if i < 0 || i >= s.len() {
        0
    } else if is_blank(s[i]) {
        1
    } else if i + 1 < s.len() && s[i] == 0xC2 && (s[i + 1] == 0x85 || s[i + 1] == 0xA0) {
        2
    } else if i + 2 < s.len() && is_wide_space(s[i], s[i + 1], s[i + 2]) {
        3
    } else {
        0
    }
}

/// Width in bytes of the white-space character whose encoding ends right before `j`;
/// 0 when none does.
pub open spec fn ws_width_before(s: Seq<u8>, j: int) -> int {
    if 1 <= j <= s.len() && ws_width(s, j - 1) == 1 {
        1
    } else if 2 <= j <= s.len() && ws_width(s, j - 2) == 2 {
        2
    } else if 3 <= j <= s.len() && ws_width(s, j - 3) == 3 {
        3
    } else {
        0
    }
}

/// `s` without leading white space.
pub open spec fn trim_blank_start(s: Seq<u8>) -> Seq<u8>
    decreases s.len(),
{
    let w = ws_width(s, 0);
    if 0 < w <= s.len() {
        trim_blank_start(s.subrange(w, s.len() as int))
    } else {
        s
    }
}

/// `s` without trailing white space.
pub open spec fn trim_blank_end(s: Seq<u8>) -> Seq<u8>
    decreases s.len(),
{
    let w = ws_width_before(s, s.len() as int);
    if 0 < w <= s.len() {
        trim_blank_end(s.subrange(0, s.len() - w))
    } else {
        s
    }
}

/// Width of the white-space character starting at `i` (`ws_width`).
pub fn ws_width_at(s: &[u8], i: usize) -> (r: usize)
    ensures
        r == ws_width(s@, i as int),
        r <= 3,
{
    let n = s.len();
    if i >= n {
        return 0;
    }
    let a = s[i];
    if a == SPACE || (TAB <= a && a <= CR) {
        1
    } else if n - i > 1 && a == 0xC2 && (s[i + 1] == 0x85 || s[i + 1] == 0xA0) {
        2
    } else if n - i > 2 {
        let b = s[i + 1];
        let c = s[i + 2];
        if (a == 0xE1 && b == 0x9A && c == 0x80) || (a == 0xE2 && b == 0x80 && ((0x80 <= c && c
            <= 0x8A) || c == 0xA8 || c == 0xA9 || c == 0xAF)) || (a == 0xE2 && b == 0x81 && c
            == 0x9F) || (a == 0xE3 && b == 0x80 && c == 0x80) {
            3
        } else {
            0
        }
    } else {
        0
    }
}

/// Width of the white-space character ending right before `j` (`ws_width_before`).
pub fn ws_width_before_at(s: &[u8], j: usize) -> (r: usize)
    ensures
        r == ws_width_before(s@, j as int),
        r <= 3,
{
    if 1 <= j && j <= s.len() && ws_width_at(s, j - 1) == 1 {
        1
    } else if 2 <= j && j <= s.len() && ws_width_at(s, j - 2) == 2 {
        2
    } else if 3 <= j && j <= s.len() && ws_width_at(s, j - 3) == 3 {
        3
    } else {
        0
    }
}

pub open spec fn trim_blank(s: Seq<u8>) -> Seq<u8> {
    trim_blank_end(trim_blank_start(s))
}

/// Trailing carriage returns and line feeds removed.
pub open spec fn trim_eol(s: Seq<u8>) -> Seq<u8>
    decreases s.len(),
{
    if s.len() > 0 && (s.last() == CR || s.last() == LF) {
        trim_eol(s.drop_last())
    } else {
        s
    }
}

/// Bounds `(lo, hi)` of `s` once leading and trailing `b` are removed.
pub fn trim_byte(s: &[u8], b: u8) -> (r: (usize, usize))
    ensures
        r.0 <= r.1 <= s@.len(),
        s@.subrange(r.0 as int, r.1 as int) == trim_end(trim_start(s@, b), b),
        r.0 == 0 || s@[r.0 - 1] == b,
        r.1 == s@.len() || s@[r.1 as int] == b,
{
    let mut lo: usize = 0;
    assert(s@.subrange(0, s@.len() as int) =~= s@);
    while lo < s.len() && s[lo] == b
        invariant
            lo <= s@.len(),
            lo == 0 || s@[lo - 1] == b,
            trim_start(s@, b) == trim_start(s@.subrange(lo as int, s@.len() as int), b),
        decreases s.len() - lo,
    {
        assert(s@.subrange(lo as int + 1, s@.len() as int) =~= s@.subrange(
            lo as int,
            s@.len() as int,
        ).drop_first());
        lo += 1;
    }
    let mut hi: usize = s.len();
    assert(trim_start(s@.subrange(lo as int, s@.len() as int), b) == s@.subrange(
        lo as int,
        s@.len() as int,
    ));
    while hi > lo && s[hi - 1] == b
        invariant
            lo <= hi <= s@.len(),
            hi == s@.len() || s@[hi as int] == b,
            trim_end(trim_start(s@, b), b) == trim_end(s@.subrange(lo as int, hi as int), b),
        decreases hi,
    {
        assert(s@.subrange(lo as int, hi - 1) =~= s@.subrange(lo as int, hi as int).drop_last());
        hi -= 1;
    }
    (lo, hi)
}

/// Bounds `(lo, hi)` of `s` once leading and trailing white space is removed.
pub fn trim_blank_range(s: &[u8]) -> (r: (usize, usize))
    ensures
        r.0 <= r.1 <= s@.len(),
        s@.subrange(r.0 as int, r.1 as int) == trim_blank(s@),
{
    let mut lo: usize = 0;
    assert(s@.subrange(0, s@.len() as int) =~= s@);
    loop
        invariant
            lo <= s@.len(),
            trim_blank_start(s@) == trim_blank_start(s@.subrange(lo as int, s@.len() as int)),
        ensures
            lo <= s@.len(),
            trim_blank_start(s@) == trim_blank_start(s@.subrange(lo as int, s@.len() as int)),
            ws_width(s@.subrange(lo as int, s@.len() as int), 0) == 0,
        decreases s.len() - lo,
    {
        let rest = &s[lo..s.len()];
        let w = ws_width_at(rest, 0);
        if w == 0 {
            break;
        }
        assert(rest@.subrange(w as int, rest@.len() as int) =~= s@.subrange(
            lo + w,
            s@.len() as int,
        ));
        lo = lo + w;
    }
    let ghost tail = s@.subrange(lo as int, s@.len() as int);
    assert(trim_blank_start(tail) == tail);
    assert(s@.subrange(lo as int, s@.len() as int) == tail);
    let mut hi: usize = s.len();
    loop
        invariant
            lo <= hi <= s@.len(),
            trim_blank(s@) == trim_blank_end(s@.subrange(lo as int, hi as int)),
        ensures
            lo <= hi <= s@.len(),
            trim_blank(s@) == trim_blank_end(s@.subrange(lo as int, hi as int)),
            ws_width_before(s@.subrange(lo as int, hi as int), hi - lo) == 0,
        decreases hi,
    {
        let mid = &s[lo..hi];
        let w = ws_width_before_at(mid, hi - lo);
        if w == 0 {
            break;
        }
        assert(mid@.subrange(0, mid@.len() - w) =~= s@.subrange(lo as int, hi - w));
        hi = hi - w;
    }
    assert(trim_blank_end(s@.subrange(lo as int, hi as int)) == s@.subrange(lo as int, hi as int));
    (lo, hi)
}

/// Length of `s` once trailing carriage returns and line feeds are removed.
pub fn trim_eol_len(s: &[u8]) -> (r: usize)
    ensures
        r <= s@.len(),
        s@.subrange(0, r as int) == trim_eol(s@),
{
    let mut hi: usize = s.len();
    assert(s@.subrange(0, hi as int) =~= s@);
    while hi > 0 && (s[hi - 1] == CR || s[hi - 1] == LF)
        invariant
            hi <= s@.len(),
            trim_eol(s@) == trim_eol(s@.subrange(0, hi as int)),
        decreases hi,
    {
        assert(s@.subrange(0, hi - 1) =~= s@.subrange(0, hi as int).drop_last());
        hi -= 1;
    }
    hi
}

/// ASCII lower case of one byte.
pub open spec fn ascii_lower(b: u8) -> u8 {
    if 65 <= b <= 90 {
        (b + 32) as u8
    } else {
        b
    }
}

/// Equality of two byte strings up to ASCII case.
pub open spec fn eq_ignore_case(a: Seq<u8>, b: Seq<u8>) -> bool {
    a.len() == b.len() && forall|i: int| 0 <= i < a.len() ==> ascii_lower(a[i]) == ascii_lower(b[i])
}

pub fn bytes_eq_ignore_case(a: &[u8], b: &[u8]) -> (r: bool)
    ensures
        r == eq_ignore_case(a@, b@),
{
    if a.len() != b.len() {
        return false;
    }
    let mut i: usize = 0;
    while i < a.len()
        invariant
            a@.len() == b@.len(),
            i <= a@.len(),
            forall|j: int| 0 <= j < i ==> ascii_lower(a@[j]) == ascii_lower(b@[j]),
        decreases a.len() - i,
    {
        let x = a[i];
        let y = b[i];
        let lx: u8 = if 65 <= x && x <= 90 { x + 32 } else { x };
        let ly: u8 = if 65 <= y && y <= 90 { y + 32 } else { y };
        if lx != ly {
            return false;
        }
        i += 1;
    }
    true
}

pub fn bytes_eq(a: &[u8], b: &[u8]) -> (r: bool)
    ensures
        r == (a@ == b@),
{
    if a.len() != b.len() {
        return false;
    }
    let mut i: usize = 0;
    while i < a.len()
        invariant
            a@.len() == b@.len(),
            i <= a@.len(),
            forall|j: int| 0 <= j < i ==> a@[j] == b@[j],
        decreases a.len() - i,
    {
        if a[i] != b[i] {
            return false;
        }
        i += 1;
    }
    assert(a@ =~= b@);
    true
}

/// Appends the bytes of `s` to `v`.
pub fn push_all(v: &mut Vec<u8>, s: &[u8])
    ensures
        final(v)@ == old(v)@ + s@,
{
    let mut i: usize = 0;
    while i < s.len()
        invariant
            i <= s@.len(),
            v@ == old(v)@ + s@.subrange(0, i as int),
        decreases s.len() - i,
    {
        v.push(s[i]);
        assert(s@.subrange(0, i + 1) =~= s@.subrange(0, i as int).push(s@[i as int]));
        i += 1;
    }
    assert(s@.subrange(0, i as int) =~= s@);
}

// ---------------------------------------------------------------------------
// Unsigned numbers as text
/// Value of one digit byte in the given radix (10 or 16), if it is one.
pub open spec fn digit_value(b: u8, radix: nat) -> Option<nat> {
    if 48 <= b <= 57 && (b - 48) < radix {
        Some((b - 48) as nat)
    } else if radix == 16 && 97 <= b <= 102 {
        Some((b - 87) as nat)
    } else if radix == 16 && 65 <= b <= 70 {
        Some((b - 55) as nat)
    } else {
        None
    }
}

pub open spec fn all_digits(s: Seq<u8>, radix: nat) -> bool {
    forall|i: int| 0 <= i < s.len() ==> (#[trigger] digit_value(s[i], radix)) is Some
}

/// Value of a string of digits, most significant first.
pub open spec fn digits_value(s: Seq<u8>, radix: nat) -> nat
    decreases s.len(),
{
    if s.len() == 0 {
        0
    } else {
        digits_value(s.drop_last(), radix) * radix + digit_value(s.last(), radix)->0
    }
}

/// The digits of a number text: everything after an optional leading `+`.
pub open spec fn unsigned_digits(s: Seq<u8>) -> Seq<u8> {
    if s.len() > 0 && s[0] == PLUS {
        s.drop_first()
    } else {
        s
    }
}

/// What `usize::from_str_radix` accepts: an optional `+`, then at least one digit,
/// with a value that fits in `usize`.
pub open spec fn parse_unsigned(s: Seq<u8>, radix: nat) -> Option<nat> {
    let t = unsigned_digits(s);
    if t.len() > 0 && all_digits(t, radix) && digits_value(t, radix) <= usize::MAX {
        Some(digits_value(t, radix))
    } else {
        None
    }
}

proof fn lemma_digits_value_prefix(s: Seq<u8>, radix: nat, k: int)
    requires
        0 <= k <= s.len(),
        radix >= 1,
    ensures
        digits_value(s.subrange(0, k), radix) <= digits_value(s, radix),
    decreases s.len(),
{
    if k < s.len() {
        assert(s.drop_last().subrange(0, k) =~= s.subrange(0, k));
        lemma_digits_value_prefix(s.drop_last(), radix, k);
        let v = digits_value(s.drop_last(), radix);
        assert(v * radix >= v) by (nonlinear_arith)
            requires
                radix >= 1,
        ;
    } else {
        assert(s.subrange(0, k) =~= s);
    }
}

/// Parses `s` as `usize::from_str_radix` does in radix 10 or 16.
pub fn parse_number(s: &[u8], radix: u8) -> (r: Option<usize>)
    requires
        radix == 10 || radix == 16,
    ensures
        r matches Some(v) ==> parse_unsigned(s@, radix as nat) == Some(v as nat),
        r is None ==> parse_unsigned(s@, radix as nat) is None,
{
    let start: usize = if s.len() > 0 && s[0] == PLUS {
        1
    } else {
        0
    };
    let ghost t = unsigned_digits(s@);
    assert(t =~= s@.subrange(start as int, s@.len() as int));
    if start == s.len() {
        return None;
    }
    let mut acc: usize = 0;
    let mut i: usize = start;
    while i < s.len()
        invariant
            start <= i <= s@.len(),
            t == s@.subrange(start as int, s@.len() as int),
            t == unsigned_digits(s@),
            radix == 10 || radix == 16,
            all_digits(s@.subrange(start as int, i as int), radix as nat),
            acc as nat == digits_value(s@.subrange(start as int, i as int), radix as nat),
        decreases s.len() - i,
    {
        let b = s[i];
        let d: u8 = if 48 <= b && b <= 57 && b - 48 < radix {
            b - 48
        } else if radix == 16 && 97 <= b && b <= 102 {
            b - 87
        } else if radix == 16 && 65 <= b && b <= 70 {
            b - 55
        } else {
            assert(!all_digits(t, radix as nat)) by {
                assert(t[i - start] == b);
                assert(digit_value(t[i - start], radix as nat) is None);
            }
            assert(parse_unsigned(s@, radix as nat) is None);
            return None;
        };
        let ghost pre = s@.subrange(start as int, i as int);
        let ghost next = s@.subrange(start as int, i + 1);
        assert(next.drop_last() =~= pre);
        assert(next.last() == b);
        assert(digit_value(b, radix as nat) == Some(d as nat));
        assert(digits_value(next, radix as nat) == digits_value(pre, radix as nat) * (radix as nat)
            + d);
        if acc > (usize::MAX - d as usize) / (radix as usize) {
            proof {
                let a = acc as int;
                let rr = radix as int;
                let dd = d as int;
                assert(a * rr + dd > usize::MAX) by (nonlinear_arith)
                    requires
                        a > (usize::MAX - dd) / rr,
                        rr > 0,
                        dd >= 0,
                ;
                if all_digits(t, radix as nat) {
                    lemma_digits_value_prefix(t, radix as nat, (i + 1 - start) as int);
                    assert(t.subrange(0, (i + 1 - start) as int) =~= next);
                    assert(digits_value(t, radix as nat) > usize::MAX);
                }
                assert(parse_unsigned(s@, radix as nat) is None);
            }
            return None;
        }
        proof {
            let a = acc as int;
            let rr = radix as int;
            let dd = d as int;
            assert(a * rr + dd <= usize::MAX) by (nonlinear_arith)
                requires
                    a <= (usize::MAX - dd) / rr,
                    rr > 0,
                    dd >= 0,
                    dd <= usize::MAX,
            ;
            assert forall|j: int| 0 <= j < next.len() implies (#[trigger] digit_value(
                next[j],
                radix as nat,
            )) is Some by {
                if j < pre.len() {
                    assert(next[j] == pre[j]);
                }
            }
        }
        acc = acc * (radix as usize) + d as usize;
        i += 1;
    }
    assert(s@.subrange(start as int, i as int) =~= t);
    Some(acc)
}

/// Upper-case digit byte for a digit value below 16.
pub open spec fn digit_byte(d: nat) -> u8 {
    if d < 10 {
        (48 + d) as u8
    } else {
        (55 + d) as u8
    }
}

/// Digits of `n` in the given radix, most significant first, without leading zeros
/// (`format!("{}")` and `format!("{:X}")`).
pub open spec fn digits_of(n: nat, radix: nat) -> Seq<u8>
    decreases n via digits_of_decreases
{
    if radix < 2 || n < radix {
        seq![digit_byte(n)]
    } else {
        digits_of(n / radix, radix).push(digit_byte(n % radix))
    }
}

#[via_fn]
proof fn digits_of_decreases(n: nat, radix: nat) {
    if !(radix < 2 || n < radix) {
        assert(n / radix < n) by (nonlinear_arith)
            requires
                radix >= 2,
                n >= radix,
        ;
    }
}

/// Appends the digits of `n` (radix 10 or 16, upper case) to `out`.
pub fn push_digits(out: &mut Vec<u8>, n: usize, radix: u8)
    requires
        radix == 10 || radix == 16,
    ensures
        final(out)@ == old(out)@ + digits_of(n as nat, radix as nat),
    decreases n,
{
    if n >= radix as usize {
        assert(n / (radix as usize) < n) by (nonlinear_arith)
            requires
                n >= radix,
                radix >= 10,
        ;
        push_digits(out, n / (radix as usize), radix);
    }
    let d: u8 = (n % (radix as usize)) as u8;
    let c: u8 = if d < 10 {
        48 + d
    } else {
        55 + d
    };
    out.push(c);
    proof {
        if n >= radix as usize {
            assert(final(out)@ =~= old(out)@ + digits_of(n as nat, radix as nat));
        } else {
            assert(n % (radix as usize) == n) by (nonlinear_arith)
                requires
                    n < radix,
                    radix >= 10,
            ;
            assert(final(out)@ =~= old(out)@ + digits_of(n as nat, radix as nat));
        }
    }
}

pub proof fn lemma_digits_of(n: nat, radix: nat)
    requires
        radix == 10 || radix == 16,
    ensures
        digits_of(n, radix).len() > 0,
        all_digits(digits_of(n, radix), radix),
        digits_value(digits_of(n, radix), radix) == n,
        digits_of(n, radix)[0] != PLUS,
        forall|i: int|
            0 <= i < digits_of(n, radix).len() ==> {
                let c = #[trigger] digits_of(n, radix)[i];
                c != LF && c != CR && c != SEMICOLON && !is_blank(c) && c < 128
            },
    decreases n,
{
    let s = digits_of(n, radix);
    if n < radix {
        assert(digit_value(digit_byte(n), radix) == Some(n));
        assert(s.drop_last() =~= Seq::<u8>::empty());
        assert(digits_value(Seq::<u8>::empty(), radix) == 0);
        assert(s.last() == digit_byte(n));
        assert(all_digits(s, radix)) by {
            assert forall|i: int| 0 <= i < s.len() implies (#[trigger] digit_value(
                s[i],
                radix,
            )) is Some by {
                assert(i == 0);
            }
        }
    } else {
        lemma_digits_of(n / radix, radix);
        let p = digits_of(n / radix, radix);
        assert(s.drop_last() =~= p);
        assert(n % radix < radix);
        assert(digit_value(digit_byte(n % radix), radix) == Some(n % radix));
        assert(s.last() == digit_byte(n % radix));
        assert(n == (n / radix) * radix + n % radix) by (nonlinear_arith)
            requires
                radix > 0,
        ;
        assert(all_digits(s, radix)) by {
            assert forall|i: int| 0 <= i < s.len() implies (#[trigger] digit_value(
                s[i],
                radix,
            )) is Some by {
                if i < p.len() {
                    assert(s[i] == p[i]);
                    assert(digit_value(p[i], radix) is Some);
                }
            }
        }
        assert forall|i: int| 0 <= i < s.len() implies {
            let c = #[trigger] s[i];
            c != LF && c != CR && c != SEMICOLON && !is_blank(c) && c < 128
        } by {
            if i < p.len() {
                assert(s[i] == p[i]);
            }
        }
        assert(s[0] == p[0]);
    }
}

/// Printing a number and parsing it back gives the number.
pub proof fn lemma_parse_digits_of(n: nat, radix: nat)
    requires
        radix == 10 || radix == 16,
        n <= usize::MAX,
    ensures
        parse_unsigned(digits_of(n, radix), radix) == Some(n),
{
    lemma_digits_of(n, radix);
}

// ---------------------------------------------------------------------------
// UTF-8
/// Relies on `std::str::from_utf8`: `Ok` exactly when the bytes are valid UTF-8, and then
/// the text they encode.
#[verifier::external_body]
pub(crate) fn utf8_text(b: &[u8]) -> (r: Option<&str>)
    ensures
        r is Some <==> valid_utf8(b@),
        r matches Some(s) ==> s@ == decode_utf8(b@),
{
    std::str::from_utf8(b).ok()
}

/// A piece of valid UTF-8 that starts after an ASCII byte (or at the start) and ends
/// before an ASCII byte (or at the end) is valid UTF-8.
pub proof fn lemma_utf8_piece(b: Seq<u8>, i: int, j: int)
    requires
        valid_utf8(b),
        0 <= i <= j <= b.len(),
        i == 0 || b[i - 1] < 128,
        j == b.len() || b[j] < 128,
    ensures
        valid_utf8(b.subrange(i, j)),
{
    let rest = b.subrange(i, b.len() as int);
    if i > 0 {
        is_char_boundary_iff_not_is_continuation_byte(b, i - 1);
        valid_utf8_split(b, i - 1);
        let r0 = b.subrange(i - 1, b.len() as int);
        assert(r0[0] == b[i - 1]);
        assert(length_of_first_scalar(r0) == 1);
        assert(pop_first_scalar(r0) =~= rest);
    } else {
        assert(rest =~= b);
    }
    assert(valid_utf8(rest));
    is_char_boundary_start_end_of_seq(rest);
    if j < b.len() {
        assert(rest[j - i] == b[j]);
        is_char_boundary_iff_not_is_continuation_byte(rest, j - i);
    } else {
        assert(j - i == rest.len());
    }
    valid_utf8_split(rest, j - i);
    assert(rest.subrange(0, j - i) =~= b.subrange(i, j));
}

/// The byte at `p` leads the encoding of a character of `w` bytes.
pub open spec fn starts_char(b: Seq<u8>, p: int, w: int) -> bool {
    &&& 0 <= p < b.len()
    &&& ((w == 1 && b[p] < 128) || (w == 2 && 0xC0 <= b[p] <= 0xDF) || (w == 3 && 0xE0 <= b[p]
        <= 0xEF))
}

/// A piece of valid UTF-8 that starts at the start or right after a character of
/// width `w`, and ends at the end or before a byte that starts a character, is valid
/// UTF-8.
pub proof fn lemma_utf8_piece_after(b: Seq<u8>, i: int, j: int, w: int)
    requires
        valid_utf8(b),
        0 <= i <= j <= b.len(),
        i == 0 || (1 <= w <= i && starts_char(b, i - w, w)),
        j == b.len() || !is_continuation_byte(b[j]),
    ensures
        valid_utf8(b.subrange(i, j)),
{
    let rest = b.subrange(i, b.len() as int);
    if i > 0 {
        let p = i - w;
        is_char_boundary_iff_not_is_continuation_byte(b, p);
        valid_utf8_split(b, p);
        let r0 = b.subrange(p, b.len() as int);
        assert(r0[0] == b[p]);
        assert(length_of_first_scalar(r0) == w);
        assert(pop_first_scalar(r0) =~= rest);
    } else {
        assert(rest =~= b);
    }
    assert(valid_utf8(rest));
    is_char_boundary_start_end_of_seq(rest);
    if j < b.len() {
        assert(rest[j - i] == b[j]);
        is_char_boundary_iff_not_is_continuation_byte(rest, j - i);
    } else {
        assert(j - i == rest.len());
    }
    valid_utf8_split(rest, j - i);
    assert(rest.subrange(0, j - i) =~= b.subrange(i, j));
}

/// Equality of two texts, decided on their UTF-8 bytes.
pub fn str_eq(a: &str, b: &str) -> (r: bool)
    ensures
        r == (a@ == b@),
{
    let r = bytes_eq(a.as_bytes(), b.as_bytes());
    proof {
        encode_utf8_decode_utf8(a@);
        encode_utf8_decode_utf8(b@);
    }
    r
}

/// The bounds in `p` of the pieces of `p[lo..hi]` between occurrences of `sep`.
pub fn split_ranges(p: &[u8], lo: usize, hi: usize, sep: u8) -> (r: Vec<(usize, usize)>)
    requires
        lo <= hi <= p@.len(),
        sep < 128,
        lo == 0 || p@[lo - 1] < 128,
        hi == p@.len() || p@[hi as int] < 128,
    ensures
        r@.len() == split_on(p@.subrange(lo as int, hi as int), sep).len(),
        forall|i: int|
            0 <= i < r@.len() ==> {
                let (a, b) = #[trigger] r@[i];
                &&& lo <= a <= b <= hi
                &&& p@.subrange(a as int, b as int) == split_on(p@.subrange(lo as int, hi as int), sep)[i]
                &&& (a == 0 || p@[a - 1] < 128)
                &&& (b == p@.len() || p@[b as int] < 128)
            },
{
    let ghost all = p@.subrange(lo as int, hi as int);
    let mut out: Vec<(usize, usize)> = Vec::new();
    let ghost mut done: Seq<Seq<u8>> = Seq::empty();
    let mut start: usize = lo;
    let mut i: usize = lo;
    assert(p@.subrange(start as int, hi as int) == all);
    while i < hi
        invariant
            lo <= start <= i <= hi <= p@.len(),
            all == p@.subrange(lo as int, hi as int),
            start == 0 || p@[start - 1] < 128,
            hi == p@.len() || p@[hi as int] < 128,
            sep < 128,
            forall|j: int| start <= j < i ==> p@[j] != sep,
            done.len() == out@.len(),
            done + split_on(p@.subrange(start as int, hi as int), sep) == split_on(all, sep),
            forall|k: int|
                0 <= k < out@.len() ==> {
                    let (a, b) = #[trigger] out@[k];
                    &&& lo <= a <= b <= hi
                    &&& p@.subrange(a as int, b as int) == done[k]
                    &&& (a == 0 || p@[a - 1] < 128)
                    &&& (b == p@.len() || p@[b as int] < 128)
                },
        decreases hi - i,
    {
        if p[i] == sep {
            let ghost rest = p@.subrange(start as int, hi as int);
            proof {
                assert forall|j: int| 0 <= j < i - start implies rest[j] != sep by {
                    assert(rest[j] == p@[start + j]);
                }
                lemma_first_index(rest, sep, i - start);
                assert(rest.subrange(0, i - start) =~= p@.subrange(start as int, i as int));
                assert(rest.subrange(i - start + 1, rest.len() as int) =~= p@.subrange(
                    i + 1,
                    hi as int,
                ));
                assert(split_on(rest, sep) == seq![p@.subrange(start as int, i as int)]
                    + split_on(p@.subrange(i + 1, hi as int), sep));
                done = done.push(p@.subrange(start as int, i as int));
            }
            out.push((start, i));
            start = i + 1;
        }
        i += 1;
    }
    let ghost rest = p@.subrange(start as int, hi as int);
    proof {
        assert forall|j: int| 0 <= j < rest.len() implies rest[j] != sep by {
            assert(rest[j] == p@[start + j]);
        }
        lemma_first_index(rest, sep, rest.len() as int);
        assert(split_on(rest, sep) == seq![rest]);
        done = done.push(rest);
    }
    out.push((start, hi));
    assert(done =~= split_on(all, sep));
    out
}

} // verus!
