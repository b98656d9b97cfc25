//! The wire format: parsing a request head out of the first bytes read from a
//! connection, and serializing a response head and fixed body.
use vstd::prelude::*;
use vstd::string::StringSliceAdditionalSpecFns;
use vstd::utf8::*;
use crate::chunked::StreamReader;
use crate::scan::{
    COLON, COMMA, CR, LF, SPACE, bytes_eq_ignore_case, eq_ignore_case, starts_char, ws_width,
    ws_width_at, lemma_utf8_piece_after,
    digits_of, parse_number, parse_unsigned, push_all, push_digits, split_on,
    split_ranges,
    trim_blank, trim_blank_range, trim_blank_start, utf8_text,
};
use crate::chunked::crlf;
use crate::types::{
    Entries, HeaderMap, Method, Request, Response, StatusCode, Version, body_view, headers_view,
    insert_entry, method_for, status_number, status_reason, version_of,
};

verus! {

/// `needle` occurs in `h` at `i`.
pub open spec fn occurs_at(h: Seq<u8>, needle: Seq<u8>, i: int) -> bool {
    0 <= i && i + needle.len() <= h.len() && h.subrange(i, i + needle.len()) == needle
}

/// Relies on `memchr::memmem::find`: the index of the first occurrence of `needle` in
/// `haystack`, if there is one.
#[verifier::external_body]
fn find_subslice(haystack: &[u8], needle: &[u8]) -> (r: Option<usize>)
    ensures
        r matches Some(i) ==> occurs_at(haystack@, needle@, i as int) && forall|j: int|
            0 <= j < i ==> !#[trigger] occurs_at(haystack@, needle@, j),
        r is None ==> forall|j: int| !#[trigger] occurs_at(haystack@, needle@, j),
{
    memchr::memmem::find(haystack, needle)
}

/// Index of the first occurrence of `needle` in `h` at or after `i`; `h.len()` when none.
pub open spec fn find_from(h: Seq<u8>, needle: Seq<u8>, i: int) -> int
    decreases h.len() + 1 - i,
{
    if i < 0 || i + needle.len() > h.len() {
        h.len() as int
    } else if occurs_at(h, needle, i) {
        i
    } else {
        find_from(h, needle, i + 1)
    }
}

proof fn lemma_find_from_found(h: Seq<u8>, needle: Seq<u8>, k: int, i: int)
    requires
        0 <= k <= i,
        occurs_at(h, needle, i),
        forall|j: int| k <= j < i ==> !#[trigger] occurs_at(h, needle, j),
    ensures
        find_from(h, needle, k) == i,
    decreases i - k,
{
    if k < i {
        lemma_find_from_found(h, needle, k + 1, i);
    }
}

proof fn lemma_find_from_none(h: Seq<u8>, needle: Seq<u8>, k: int)
    requires
        0 <= k,
        forall|j: int| !#[trigger] occurs_at(h, needle, j),
    ensures
        find_from(h, needle, k) == h.len(),
    decreases h.len() + 1 - k,
{
    if k + needle.len() <= h.len() {
        assert(!occurs_at(h, needle, k));
        lemma_find_from_none(h, needle, k + 1);
    }
}

/// `\r\n\r\n`, the end of a request head.
pub open spec fn blank_line() -> Seq<u8> {
    seq![CR, LF, CR, LF]
}

/// `: `, between a header's name and its value.
pub open spec fn name_separator() -> Seq<u8> {
    seq![COLON, SPACE]
}

/// Length of the request head (the bytes before the first `\r\n\r\n`).
pub open spec fn head_end(buf: Seq<u8>) -> int {
    find_from(buf, blank_line(), 0)
}

pub open spec fn strip_cr(l: Seq<u8>) -> Seq<u8> {
    if l.len() > 0 && l.last() == CR {
        l.drop_last()
    } else {
        l
    }
}

/// The lines of the head as `str::lines` gives them: split at `\n`, a `\r` before the
/// `\n` dropped.
pub open spec fn lines_of(h: Seq<u8>) -> Seq<Seq<u8>> {
    let pieces = split_on(h, LF);
    Seq::new(
        pieces.len(),
        |i: int|
            if i + 1 < pieces.len() {
                strip_cr(pieces[i])
            } else {
                pieces[i]
            },
    )
}

/// Index of the first white-space character of `s`, or its length.
pub open spec fn first_blank(s: Seq<u8>) -> int
    decreases s.len(),
{
    if s.len() == 0 {
        0
    } else if ws_width(s, 0) > 0 {
        0
    } else {
        1 + first_blank(s.drop_first())
    }
}

proof fn lemma_first_blank(s: Seq<u8>, k: int)
    requires
        0 <= k <= s.len(),
        forall|j: int| 0 <= j < k ==> ws_width(s, j) == 0,
        k == s.len() || ws_width(s, k) > 0,
    ensures
        first_blank(s) == k,
    decreases k,
{
    if k > 0 {
        let t = s.drop_first();
        assert forall|j: int| 0 <= j < k - 1 implies ws_width(t, j) == 0 by {
            assert(ws_width(s, j + 1) == 0);
            assert(t[j] == s[j + 1]);
            if j + 1 < t.len() {
                assert(t[j + 1] == s[j + 2]);
            }
            if j + 2 < t.len() {
                assert(t[j + 2] == s[j + 3]);
            }
        }
        if k < s.len() {
            assert(t[k - 1] == s[k]);
            if k < t.len() {
                assert(t[k] == s[k + 1]);
            }
            if k + 1 < t.len() {
                assert(t[k + 1] == s[k + 2]);
            }
        }
        lemma_first_blank(t, k - 1);
    }
}

proof fn lemma_trim_blank_start_len(s: Seq<u8>)
    ensures
        trim_blank_start(s).len() <= s.len(),
        trim_blank_start(s).len() > 0 ==> ws_width(trim_blank_start(s), 0) == 0,
    decreases s.len(),
{
    let w = ws_width(s, 0);
    if 0 < w <= s.len() {
        lemma_trim_blank_start_len(s.subrange(w, s.len() as int));
    }
}

#[via_fn]
proof fn words_decreases(s: Seq<u8>) {
    lemma_trim_blank_start_len(s);
    let t = trim_blank_start(s);
    if t.len() > 0 {
        let k = first_blank(t);
        if 0 < k <= t.len() {
            assert(t.subrange(k, t.len() as int).len() < s.len());
        }
    }
}

/// The white-space separated words of `s`, as `str::split_whitespace` gives them.
pub open spec fn words(s: Seq<u8>) -> Seq<Seq<u8>>
    decreases s.len() via words_decreases
{
    let t = trim_blank_start(s);
    if t.len() == 0 {
        Seq::empty()
    } else {
        let k = first_blank(t);
        if 0 < k <= t.len() {
            seq![t.subrange(0, k)] + words(t.subrange(k, t.len() as int))
        } else {
            seq![t]
        }
    }
}

/// The header entry that one head line adds, if it holds `: `.
pub open spec fn header_of_line(acc: Entries, l: Seq<u8>) -> Entries {
    let i = find_from(l, name_separator(), 0);
    if i + 2 <= l.len() {
        insert_entry(acc, decode_utf8(l.subrange(0, i)), decode_utf8(l.subrange(i + 2, l.len() as int)))
    } else {
        acc
    }
}

/// The headers of the lines from `k` on, up to the first empty line.
pub open spec fn headers_from(ls: Seq<Seq<u8>>, k: int, acc: Entries) -> Entries
    decreases ls.len() - k,
{
    if k < 0 || k >= ls.len() || ls[k].len() == 0 {
        acc
    } else {
        headers_from(ls, k + 1, header_of_line(acc, ls[k]))
    }
}

/// `transfer-encoding`
pub open spec fn transfer_encoding_lower() -> Seq<u8> {
    seq![116u8, 114, 97, 110, 115, 102, 101, 114, 45, 101, 110, 99, 111, 100, 105, 110, 103]
}

/// `chunked`
pub open spec fn chunked_lower() -> Seq<u8> {
    seq![99u8, 104, 117, 110, 107, 101, 100]
}

/// `content-length`
pub open spec fn content_length_lower() -> Seq<u8> {
    seq![99u8, 111, 110, 116, 101, 110, 116, 45, 108, 101, 110, 103, 116, 104]
}

/// The value lists `chunked` among its comma-separated codings (any case).
pub open spec fn lists_chunked(v: Seq<u8>) -> bool {
    exists|j: int|
        0 <= j < split_on(v, COMMA).len() && eq_ignore_case(
            trim_blank(#[trigger] split_on(v, COMMA)[j]),
            chunked_lower(),
        )
}

/// Some `Transfer-Encoding` header (name in any case) lists `chunked`.
pub open spec fn declares_chunked(hs: Entries) -> bool {
    exists|i: int|
        0 <= i < hs.len() && eq_ignore_case(encode_utf8(#[trigger] hs[i].0), transfer_encoding_lower())
            && lists_chunked(encode_utf8(hs[i].1))
}

/// Index of the first header named `Content-Length` in any case, or the count.
pub open spec fn length_index(hs: Entries) -> int
    decreases hs.len(),
{
    if hs.len() == 0 {
        0
    } else if eq_ignore_case(encode_utf8(hs[0].0), content_length_lower()) {
        0
    } else {
        1 + length_index(hs.drop_first())
    }
}

/// The declared body length: the value of the first `Content-Length` header, if it is
/// a number.
pub open spec fn content_length(hs: Entries) -> Option<nat> {
    let i = length_index(hs);
    if 0 <= i < hs.len() {
        parse_unsigned(encode_utf8(hs[i].1), 10)
    } else {
        None
    }
}

/// Why a request head was refused.
#[derive(Clone, Copy, Debug, PartialEq, Eq, Structural)]
pub enum ParsingError {
    /// Nothing was read: the peer closed the connection.
    ConnectionClosed,
    /// No `\r\n\r\n` in what was read.
    InvalidHeaders,
    /// The head is not valid UTF-8.
    Utf8,
    EmptyRequestLine,
    MissingMethod,
    MissingPath,
    MissingVersion,
}

/// The error that parsing `buf` ends in, or `None` when it gives a request.
pub open spec fn request_error(buf: Seq<u8>) -> Option<ParsingError> {
    let e = head_end(buf);
    if buf.len() == 0 {
        Some(ParsingError::ConnectionClosed)
    } else if e + 4 > buf.len() {
        Some(ParsingError::InvalidHeaders)
    } else if !valid_utf8(buf.subrange(0, e)) {
        Some(ParsingError::Utf8)
    } else if e == 0 {
        Some(ParsingError::EmptyRequestLine)
    } else {
        let w = words(lines_of(buf.subrange(0, e))[0]);
        if w.len() == 0 {
            Some(ParsingError::MissingMethod)
        } else if w.len() == 1 {
            Some(ParsingError::MissingPath)
        } else if w.len() == 2 {
            Some(ParsingError::MissingVersion)
        } else {
            None
        }
    }
}

/// `req` is what `buf` (with no error) parses to, from peer `addr`; the rest of a chunked
/// body is still to come from `reader` when it is a connection.
pub open spec fn request_of(
    req: Request,
    buf: Seq<u8>,
    addr: Seq<char>,
    reader: Option<tokio::net::tcp::OwnedReadHalf>,
) -> bool {
    let e = head_end(buf);
    let ls = lines_of(buf.subrange(0, e));
    let w = words(ls[0]);
    let rest = buf.subrange(e + 4, buf.len() as int);
    let hs = headers_from(ls, 1, Seq::empty());
    &&& method_for(w[0], decode_utf8(w[0]), req.method)
    &&& req.path@ == decode_utf8(w[1])
    &&& req.version == version_of(w[2])
    &&& req.headers@ == hs
    &&& req.remote_addr@ == addr
    &&& req.params@.len() == 0
    &&& if declares_chunked(hs) {
        &&& req.body is None
        &&& req.stream matches Some(s) && s.wf() && s.pending() == rest && (s.at_eof()
            == (reader is None)) && s.source_reader() == reader
    } else {
        &&& req.stream is None
        &&& match content_length(hs) {
            Some(n) => body_view(req.body) == Some(
                rest.subrange(0, if n < rest.len() { n as int } else { rest.len() as int }),
            ),
            None => req.body is None,
        }
    }
}

/// The next word of `s[from..to]`: its bounds, and the width of the white-space
/// character right before it (0 when it starts at `from`), when there is one.
fn next_word(s: &[u8], from: usize, to: usize) -> (r: Option<(usize, usize, usize)>)
    requires
        from <= to <= s@.len(),
    ensures
        r is None <==> words(s@.subrange(from as int, to as int)).len() == 0,
        r matches Some((a, b, w)) ==> {
            &&& from <= a < b <= to
            &&& s@.subrange(a as int, b as int) == words(s@.subrange(from as int, to as int))[0]
            &&& words(s@.subrange(b as int, to as int)) == words(
                s@.subrange(from as int, to as int),
            ).drop_first()
            &&& (a == from ==> ws_width(s@.subrange(from as int, to as int), 0) == 0)
            &&& (a > from ==> 1 <= w <= a && starts_char(s@, a - w, w as int))
            &&& (b < to ==> !is_continuation_byte(s@[b as int]) && ws_width(
                s@.subrange(b as int, to as int),
                0,
            ) > 0)
        },
{
    let ghost whole = s@.subrange(from as int, to as int);
    let mut a: usize = from;
    let mut pw: usize = 0;
    assert(s@.subrange(from as int, to as int) == whole);
    loop
        invariant
            from <= a <= to <= s@.len(),
            whole == s@.subrange(from as int, to as int),
            trim_blank_start(whole) == trim_blank_start(s@.subrange(a as int, to as int)),
            a > from ==> 1 <= pw <= a && starts_char(s@, a - pw, pw as int),
        ensures
            from <= a <= to <= s@.len(),
            trim_blank_start(whole) == trim_blank_start(s@.subrange(a as int, to as int)),
            a > from ==> 1 <= pw <= a && starts_char(s@, a - pw, pw as int),
            ws_width(s@.subrange(a as int, to as int), 0) == 0,
        decreases to - a,
    {
        let rest = &s[a..to];
        let w = ws_width_at(rest, 0);
        if w == 0 {
            break;
        }
        assert(rest@[0] == s@[a as int]);
        assert(rest@.subrange(w as int, rest@.len() as int) =~= s@.subrange(a + w, to as int));
        a = a + w;
        pw = w;
    }
    let ghost t = s@.subrange(a as int, to as int);
    assert(trim_blank_start(t) == t);
    if a == to {
        assert(t.len() == 0);
        return None;
    }
    let word = &s[a..to];
    let mut b: usize = a;
    while b < to && ws_width_at(word, b - a) == 0
        invariant
            a <= b <= to <= s@.len(),
            word@ == t,
            forall|j: int| 0 <= j < b - a ==> ws_width(t, j) == 0,
        decreases to - b,
    {
        b += 1;
    }
    proof {
        lemma_first_blank(t, (b - a) as int);
        assert(t.subrange(0, (b - a) as int) =~= s@.subrange(a as int, b as int));
        assert(t.subrange((b - a) as int, t.len() as int) =~= s@.subrange(b as int, to as int));
        assert(words(whole) == seq![s@.subrange(a as int, b as int)] + words(
            s@.subrange(b as int, to as int),
        ));
        assert(words(whole).drop_first() =~= words(s@.subrange(b as int, to as int)));
        if b < to {
            let u = s@.subrange(b as int, to as int);
            assert(t[b - a] == s@[b as int]);
            assert(u[0] == s@[b as int]);
            if b + 1 < to {
                assert(t[b - a + 1] == u[1]);
            }
            if b + 2 < to {
                assert(t[b - a + 2] == u[2]);
            }
        }
    }
    Some((a, b, pw))
}

/// Bounds of line `k` of the head `h`, given the bounds of its `\n`-separated pieces.
fn line_bounds(h: &[u8], pieces: &Vec<(usize, usize)>, k: usize) -> (r: (usize, usize))
    requires
        k < pieces@.len(),
        pieces@.len() == split_on(h@, LF).len(),
        forall|i: int|
            0 <= i < pieces@.len() ==> {
                let (a, b) = #[trigger] pieces@[i];
                &&& 0 <= a <= b <= h@.len()
                &&& h@.subrange(a as int, b as int) == split_on(h@, LF)[i]
                &&& (a == 0 || h@[a - 1] < 128)
                &&& (b == h@.len() || h@[b as int] < 128)
            },
    ensures
        r.0 <= r.1 <= h@.len(),
        h@.subrange(r.0 as int, r.1 as int) == lines_of(h@)[k as int],
        r.0 == 0 || h@[r.0 - 1] < 128,
        r.1 == h@.len() || h@[r.1 as int] < 128,
{
    let (a, b) = pieces[k];
    if k < pieces.len() - 1 && a < b && h[b - 1] == CR {
        assert(h@.subrange(a as int, b - 1) =~= h@.subrange(a as int, b as int).drop_last());
        (a, b - 1)
    } else {
        (a, b)
    }
}

/// Text of the piece `h[a..b]` of valid UTF-8, which follows a character of `w` bytes.
fn text_of(h: &[u8], a: usize, b: usize, w: usize) -> (r: String)
    requires
        valid_utf8(h@),
        a <= b <= h@.len(),
        a == 0 || (1 <= w <= a && starts_char(h@, a - w, w as int)),
        b == h@.len() || !is_continuation_byte(h@[b as int]),
    ensures
        r@ == decode_utf8(h@.subrange(a as int, b as int)),
        valid_utf8(h@.subrange(a as int, b as int)),
{
    proof {
        lemma_utf8_piece_after(h@, a as int, b as int, w as int);
    }
    match utf8_text(&h[a..b]) {
        Some(t) => t.to_owned(),
        None => String::new(),
    }
}

/// Whether some `Transfer-Encoding` header lists `chunked`.
pub fn is_chunked(headers: &HeaderMap) -> (r: bool)
    ensures
        r == declares_chunked(headers@),
{
    let entries = headers.entries();
    let ghost hs = headers@;
    let mut i: usize = 0;
    while i < entries.len()
        invariant
            i <= entries@.len(),
            entries@.len() == hs.len(),
            hs == headers@,
            entries@.map_values(|e: (String, String)| crate::types::entry_view(e)) == hs,
            forall|j: int|
                0 <= j < i ==> !(eq_ignore_case(encode_utf8(#[trigger] hs[j].0), transfer_encoding_lower())
                    && lists_chunked(encode_utf8(hs[j].1))),
        decreases entries.len() - i,
    {
        assert(hs[i as int] == crate::types::entry_view(entries@[i as int]));
        let name = entries[i].0.as_str().as_bytes();
        if bytes_eq_ignore_case(
            name,
            &[116u8, 114, 97, 110, 115, 102, 101, 114, 45, 101, 110, 99, 111, 100, 105, 110, 103],
        ) {
            assert(eq_ignore_case(encode_utf8(hs[i as int].0), transfer_encoding_lower()));
            let v = entries[i].1.as_str().as_bytes();
            let parts = split_ranges(v, 0, v.len(), COMMA);
            assert(v@.subrange(0, v@.len() as int) =~= v@);
            let mut j: usize = 0;
            while j < parts.len()
                invariant
                    j <= parts@.len(),
                    i < hs.len(),
                    hs == headers@,
                    eq_ignore_case(encode_utf8(hs[i as int].0), transfer_encoding_lower()),
                    v@ == encode_utf8(hs[i as int].1),
                    parts@.len() == split_on(v@, COMMA).len(),
                    v@.subrange(0, v@.len() as int) == v@,
                    forall|m: int|
                        0 <= m < parts@.len() ==> {
                            let (a, b) = #[trigger] parts@[m];
                            &&& 0 <= a <= b <= v@.len()
                            &&& v@.subrange(a as int, b as int) == split_on(v@.subrange(0, v@.len() as int), COMMA)[m]
                        },
                    forall|m: int|
                        0 <= m < j ==> !eq_ignore_case(
                            trim_blank(#[trigger] split_on(v@, COMMA)[m]),
                            chunked_lower(),
                        ),
                decreases parts.len() - j,
            {
                let (a, b) = parts[j];
                let part = &v[a..b];
                let (lo, hi) = trim_blank_range(part);
                let token = &part[lo..hi];
                if bytes_eq_ignore_case(token, &[99u8, 104, 117, 110, 107, 101, 100]) {
                    assert(trim_blank(split_on(v@, COMMA)[j as int]) == token@);
                    assert(lists_chunked(v@));
                    assert(declares_chunked(hs));
                    return true;
                }
                j += 1;
            }
            assert(!lists_chunked(v@));
        }
        i += 1;
    }
    false
}

pub proof fn lemma_length_index(hs: Entries, n: int)
    requires
        0 <= n <= hs.len(),
        forall|j: int|
            0 <= j < n ==> !eq_ignore_case(encode_utf8(#[trigger] hs[j].0), content_length_lower()),
        n == hs.len() || eq_ignore_case(encode_utf8(hs[n].0), content_length_lower()),
    ensures
        length_index(hs) == n,
    decreases n,
{
    if n > 0 {
        let t = hs.drop_first();
        assert forall|j: int| 0 <= j < n - 1 implies !eq_ignore_case(
            encode_utf8(#[trigger] t[j].0),
            content_length_lower(),
        ) by {
            assert(t[j] == hs[j + 1]);
        }
        lemma_length_index(t, n - 1);
    }
}

/// Position of the first `Content-Length` header (name in any case), or the count.
fn length_position(headers: &HeaderMap) -> (r: usize)
    ensures
        r == length_index(headers@),
        r <= headers@.len(),
{
    let entries = headers.entries();
    let ghost hs = headers@;
    let mut i: usize = 0;
    while i < entries.len()
        invariant
            i <= entries@.len(),
            entries@.len() == hs.len(),
            hs == headers@,
            entries@.map_values(|e: (String, String)| crate::types::entry_view(e)) == hs,
            forall|j: int|
                0 <= j < i ==> !eq_ignore_case(encode_utf8(#[trigger] hs[j].0), content_length_lower()),
        decreases entries.len() - i,
    {
        assert(hs[i as int] == crate::types::entry_view(entries@[i as int]));
        let name = entries[i].0.as_str().as_bytes();
        if bytes_eq_ignore_case(
            name,
            &[99u8, 111, 110, 116, 101, 110, 116, 45, 108, 101, 110, 103, 116, 104],
        ) {
            proof {
                lemma_length_index(hs, i as int);
            }
            return i;
        }
        i += 1;
    }
    proof {
        lemma_length_index(hs, i as int);
    }
    i
}

/// The declared body length, if a `Content-Length` header gives one.
pub fn declared_length(headers: &HeaderMap) -> (r: Option<usize>)
    ensures
        r matches Some(n) ==> content_length(headers@) == Some(n as nat),
        r is None ==> content_length(headers@) is None,
{
    let i = length_position(headers);
    let entries = headers.entries();
    if i < entries.len() {
        assert(headers@[i as int] == crate::types::entry_view(entries@[i as int]));
        parse_number(entries[i].1.as_str().as_bytes(), 10)
    } else {
        None
    }
}

/// Parses the first bytes read from a connection into a request. A chunked body is
/// decoded from what follows the head, then from `reader` when one is given; a fixed
/// body is what follows the head, up to the declared length.
pub fn parse_request(
    buf: &[u8],
    remote_addr: String,
    reader: Option<tokio::net::tcp::OwnedReadHalf>,
) -> (r: Result<Request, ParsingError>)
    ensures
        match request_error(buf@) {
            Some(err) => r == Err::<Request, ParsingError>(err),
            None => r matches Ok(req) && request_of(req, buf@, remote_addr@, reader),
        },
{
    if buf.len() == 0 {
        return Err(ParsingError::ConnectionClosed);
    }
    let needle: [u8; 4] = [13u8, 10, 13, 10];
    assert(needle@ =~= blank_line());
    let e = match find_subslice(buf, &needle) {
        None => {
            proof {
                lemma_find_from_none(buf@, blank_line(), 0);
            }
            return Err(ParsingError::InvalidHeaders);
        },
        Some(e) => {
            proof {
                lemma_find_from_found(buf@, blank_line(), 0, e as int);
            }
            e
        },
    };
    let h = &buf[0..e];
    if utf8_text(h).is_none() {
        return Err(ParsingError::Utf8);
    }
    if e == 0 {
        return Err(ParsingError::EmptyRequestLine);
    }
    assert(h@.subrange(0, h@.len() as int) =~= h@);
    let pieces = split_ranges(h, 0, e, LF);
    let ghost ls = lines_of(h@);
    assert(split_on(h@, LF).len() > 0);
    let (l0, l1) = line_bounds(h, &pieces, 0);
    let (a1, b1, w1) = match next_word(h, l0, l1) {
        None => {
            return Err(ParsingError::MissingMethod);
        },
        Some(w) => w,
    };
    let (a2, b2, w2) = match next_word(h, b1, l1) {
        None => {
            return Err(ParsingError::MissingPath);
        },
        Some(w) => w,
    };
    let (a3, b3, w3) = match next_word(h, b2, l1) {
        None => {
            return Err(ParsingError::MissingVersion);
        },
        Some(w) => w,
    };
    let ghost w = words(ls[0]);
    assert(a2 > b1 && a3 > b2);
    let method_text = text_of(h, a1, b1, if a1 > l0 { w1 } else { 1 });
    let path = text_of(h, a2, b2, w2);
    let version_text = text_of(h, a3, b3, w3);
    proof {
        decode_utf8_encode_utf8(w[0]);
        decode_utf8_encode_utf8(w[2]);
    }
    let method = Method::from(method_text.as_str());
    let version = Version::from(version_text.as_str());
    let mut headers = HeaderMap::new();
    let mut k: usize = 1;
    let mut stop = false;
    while k < pieces.len() && !stop
        invariant
            valid_utf8(h@),
            ls == lines_of(h@),
            1 <= k <= pieces@.len(),
            pieces@.len() == split_on(h@, LF).len(),
            forall|i: int|
                0 <= i < pieces@.len() ==> {
                    let (a, b) = #[trigger] pieces@[i];
                    &&& 0 <= a <= b <= h@.len()
                    &&& h@.subrange(a as int, b as int) == split_on(h@.subrange(0, h@.len() as int), LF)[i]
                    &&& (a == 0 || h@[a - 1] < 128)
                    &&& (b == h@.len() || h@[b as int] < 128)
                },
            h@.subrange(0, h@.len() as int) == h@,
            stop ==> headers_from(ls, 1, Seq::empty()) == headers@,
            !stop ==> headers_from(ls, 1, Seq::empty()) == headers_from(ls, k as int, headers@),
        decreases pieces.len() - k, if stop { 0int } else { 1int },
    {
        let (a, b) = line_bounds(h, &pieces, k);
        let ghost l = h@.subrange(a as int, b as int);
        if a == b {
            stop = true;
        } else {
            let line = &h[a..b];
            let sep: [u8; 2] = [58u8, 32];
            assert(sep@ =~= name_separator());
            match find_subslice(line, &sep) {
                Some(i) => {
                    proof {
                        lemma_find_from_found(l, name_separator(), 0, i as int);
                        assert(l.subrange(i as int, i + 2) == name_separator());
                        assert(l[i as int] == COLON);
                        assert(l[i + 1] == SPACE);
                    }
                    let key = text_of(h, a, a + i, 1);
                    let value = text_of(h, a + i + 2, b, 1);
                    assert(h@.subrange(a as int, a + i) =~= l.subrange(0, i as int));
                    assert(h@.subrange(a + i + 2, b as int) =~= l.subrange(i + 2, l.len() as int));
                    headers.insert(key, value);
                },
                None => {
                    proof {
                        lemma_find_from_none(l, name_separator(), 0);
                    }
                },
            }
            k += 1;
        }
    }
    let mut leftover: Vec<u8> = Vec::new();
    push_all(&mut leftover, &buf[e + 4..buf.len()]);
    let chunked = is_chunked(&headers);
    let (body, stream) = if chunked {
        let s = match reader {
            Some(rd) => StreamReader::new(leftover, Some(rd)),
            None => StreamReader::from_bytes(leftover),
        };
        (None, Some(s))
    } else {
        match declared_length(&headers) {
            Some(n) => {
                let take = if n < leftover.len() {
                    n
                } else {
                    leftover.len()
                };
                let mut b: Vec<u8> = Vec::new();
                push_all(&mut b, &leftover.as_slice()[0..take]);
                (Some(b), None)
            },
            None => (None, None),
        }
    };
    Ok(
        Request {
            method,
            path,
            version,
            headers,
            body,
            remote_addr,
            params: HeaderMap::new(),
            stream,
        },
    )
}

/// `HTTP/1.1 `
pub open spec fn http11_prefix() -> Seq<u8> {
    seq![72u8, 84, 84, 80, 47, 49, 46, 49, 32]
}

/// `Content-Length: `
pub open spec fn content_length_prefix() -> Seq<u8> {
    seq![67u8, 111, 110, 116, 101, 110, 116, 45, 76, 101, 110, 103, 116, 104, 58, 32]
}

/// The status line: `HTTP/1.1 <code> <reason>\r\n`.
pub open spec fn status_line(s: StatusCode) -> Seq<u8> {
    http11_prefix() + digits_of(status_number(s) as nat, 10) + seq![SPACE] + encode_utf8(
        status_reason(s),
    ) + crlf()
}

/// One `name: value\r\n` line per header, in order.
pub open spec fn header_lines(hs: Entries) -> Seq<u8>
    decreases hs.len(),
{
    if hs.len() == 0 {
        Seq::empty()
    } else {
        header_lines(hs.drop_last()) + encode_utf8(hs.last().0) + name_separator() + encode_utf8(
            hs.last().1,
        ) + crlf()
    }
}

/// The headers a response carries (none when it has no map).
pub open spec fn response_entries(resp: Response) -> Entries {
    match headers_view(resp.headers) {
        Some(h) => h,
        None => Seq::empty(),
    }
}

/// The fixed body of a response (empty when it has none).
pub open spec fn response_body(resp: Response) -> Seq<u8> {
    match body_view(resp.body) {
        Some(b) => b,
        None => Seq::empty(),
    }
}

/// A `Content-Length` line is added: the response does not stream and names no length.
pub open spec fn adds_length(resp: Response) -> bool {
    resp.stream is None && length_index(response_entries(resp)) >= response_entries(resp).len()
}

/// The bytes written for a response before any streamed body: status line, headers,
/// the computed `Content-Length` when it is added, a blank line, the fixed body.
pub open spec fn response_bytes(resp: Response) -> Seq<u8> {
    let length_line = if adds_length(resp) {
        content_length_prefix() + digits_of(response_body(resp).len(), 10) + crlf()
    } else {
        Seq::empty()
    };
    status_line(resp.status_code) + header_lines(response_entries(resp)) + length_line + crlf()
        + response_body(resp)
}

/// Serializes the head of `resp` and its fixed body.
#[verifier::rlimit(40)]
pub fn serialize_response(resp: &Response) -> (r: Vec<u8>)
    ensures
        r@ == response_bytes(*resp),
{
    let mut out: Vec<u8> = Vec::new();
    push_all(&mut out, &[72u8, 84, 84, 80, 47, 49, 46, 49, 32]);
    push_digits(&mut out, resp.status_code.as_u16() as usize, 10);
    out.push(SPACE);
    push_all(&mut out, resp.status_code.reason().as_bytes());
    out.push(CR);
    out.push(LF);
    assert(out@ =~= status_line(resp.status_code));
    let ghost hs = response_entries(*resp);
    let mut has_length = false;
    match &resp.headers {
        Some(h) => {
            let entries = h.entries();
            let mut i: usize = 0;
            assert(hs.subrange(0, 0) =~= Seq::<(Seq<char>, Seq<char>)>::empty());
            while i < entries.len()
                invariant
                    i <= entries@.len(),
                    hs == h@,
                    entries@.map_values(|e: (String, String)| crate::types::entry_view(e)) == hs,
                    out@ == status_line(resp.status_code) + header_lines(hs.subrange(0, i as int)),
                decreases entries.len() - i,
            {
                assert(hs[i as int] == crate::types::entry_view(entries@[i as int]));
                push_all(&mut out, entries[i].0.as_str().as_bytes());
                out.push(COLON);
                out.push(SPACE);
                push_all(&mut out, entries[i].1.as_str().as_bytes());
                out.push(CR);
                out.push(LF);
                let ghost next = hs.subrange(0, i + 1);
                assert(next.drop_last() =~= hs.subrange(0, i as int));
                assert(next.last() == hs[i as int]);
                assert(out@ =~= status_line(resp.status_code) + header_lines(next));
                i += 1;
            }
            assert(hs.subrange(0, i as int) =~= hs);
            has_length = length_position(h) < h.len();
        },
        None => {
            assert(hs =~= Seq::<(Seq<char>, Seq<char>)>::empty());
            assert(header_lines(hs) =~= Seq::<u8>::empty());
            assert(out@ =~= status_line(resp.status_code) + header_lines(hs));
        },
    }
    let body_len: usize = match &resp.body {
        Some(b) => b.len(),
        None => 0,
    };
    if resp.stream.is_none() && !has_length {
        push_all(
            &mut out,
            &[67u8, 111, 110, 116, 101, 110, 116, 45, 76, 101, 110, 103, 116, 104, 58, 32],
        );
        push_digits(&mut out, body_len, 10);
        out.push(CR);
        out.push(LF);
    }
    out.push(CR);
    out.push(LF);
    match &resp.body {
        Some(b) => push_all(&mut out, b.as_slice()),
        None => {},
    }
    assert(out@ =~= response_bytes(*resp));
    out
}

} // verus!
