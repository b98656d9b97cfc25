//! The chunked transfer coding: a decoder that turns framed bytes back into payload
//! chunks, and an encoder that frames a byte source.
//!
//! Both sides are driven by their owner: bytes from the wire or from a file are handed
//! in with `feed`, the end of input is announced with `finish`, and each call of
//! `next_chunk` makes one step of the coding.
use vstd::prelude::*;
use crate::scan::{
    CR, LF, SEMICOLON, digits_of, digits_value, find_byte, first_index, lemma_digits_of,
    lemma_first_index, lemma_first_index_bounds, lemma_parse_digits_of, parse_number,
    parse_unsigned, push_all, push_digits, trim_blank, trim_blank_end, trim_blank_range,
    trim_blank_start, trim_eol, trim_eol_len,
};

verus! {

/// Largest payload the encoder puts in one chunk.
pub const MAX_CHUNK_SIZE: usize = 65536;

/// What one decoding step does with the pending input.
pub ghost enum Step {
    /// A payload chunk, and how many input bytes its frame took.
    Chunk(Seq<u8>, int),
    /// The last chunk and its trailer, and how many input bytes they took.
    End(int),
    /// The input so far ends inside a frame.
    NeedMore,
    /// The input ended inside a frame.
    Truncated,
    /// The input is not chunked framing.
    Malformed,
}

/// The chunk-size token of a size line: line ending removed, extensions after `;`
/// dropped, surrounding white space trimmed.
pub open spec fn size_token(line: Seq<u8>) -> Seq<u8> {
    let t = trim_eol(line);
    trim_blank(t.subrange(0, first_index(t, SEMICOLON)))
}

/// Number of bytes taken by the trailer section at the start of `r`, up to and
/// including its closing blank line; `None` while more input may still complete it.
pub open spec fn trailer_end(r: Seq<u8>, eof: bool) -> Option<int>
    decreases r.len(),
{
    let nl = first_index(r, LF);
    if 0 <= nl < r.len() {
        if trim_blank(r.subrange(0, nl + 1)).len() == 0 {
            Some(nl + 1)
        } else {
            match trailer_end(r.subrange(nl + 1, r.len() as int), eof) {
                Some(k) => Some(nl + 1 + k),
                None => None,
            }
        }
    } else if eof {
        Some(r.len() as int)
    } else {
        None
    }
}

/// One decoding step on the pending input `s`; `eof` says that no more input follows.
pub open spec fn chunk_step(s: Seq<u8>, eof: bool) -> Step {
    let nl = first_index(s, LF);
    if nl >= s.len() && !eof {
        Step::NeedMore
    } else if s.len() == 0 {
        Step::Truncated
    } else {
        let used = if nl < s.len() {
            nl + 1
        } else {
            s.len() as int
        };
        let rest = s.subrange(used, s.len() as int);
        match parse_unsigned(size_token(s.subrange(0, used)), 16) {
            None => Step::Malformed,
            Some(n) => if n == 0 {
                match trailer_end(rest, eof) {
                    Some(k) => Step::End(used + k),
                    None => Step::NeedMore,
                }
            } else if rest.len() < n + 2 {
                if eof {
                    Step::Truncated
                } else {
                    Step::NeedMore
                }
            } else if rest[n as int] != CR || rest[(n + 1) as int] != LF {
                Step::Malformed
            } else {
                Step::Chunk(rest.subrange(0, n as int), used + n + 2)
            },
        }
    }
}

/// The whole decoding of a complete input: the payload chunks in order, provided that
/// the input ends exactly where the last chunk's trailer does.
pub open spec fn decode_all(s: Seq<u8>) -> Option<Seq<Seq<u8>>>
    decreases s.len(),
{
    match chunk_step(s, true) {
        Step::Chunk(p, used) => if 0 < used <= s.len() {
            match decode_all(s.subrange(used, s.len() as int)) {
                Some(rest) => Some(seq![p] + rest),
                None => None,
            }
        } else {
            None
        },
        Step::End(used) => if used == s.len() {
            Some(Seq::empty())
        } else {
            None
        },
        _ => None,
    }
}

/// `\r\n`
pub open spec fn crlf() -> Seq<u8> {
    seq![CR, LF]
}

/// The last chunk: `0\r\n\r\n`.
pub open spec fn last_chunk() -> Seq<u8> {
    seq![48u8, CR, LF, CR, LF]
}

/// The frame of one payload: its length in upper-case hex, CRLF, the payload, CRLF;
/// an empty payload gives the last chunk.
pub open spec fn frame(p: Seq<u8>) -> Seq<u8> {
    if p.len() == 0 {
        last_chunk()
    } else {
        digits_of(p.len(), 16) + crlf() + p + crlf()
    }
}

/// The frames of a sequence of reads, without the last chunk.
pub open spec fn frames(reads: Seq<Seq<u8>>) -> Seq<u8>
    decreases reads.len(),
{
    if reads.len() == 0 {
        Seq::empty()
    } else {
        frame(reads[0]) + frames(reads.drop_first())
    }
}

/// The whole encoding of `data` when it is available at once: pieces of at most
/// `MAX_CHUNK_SIZE` bytes, then the last chunk.
pub open spec fn encoding(data: Seq<u8>) -> Seq<u8>
    decreases data.len(),
{
    if data.len() == 0 {
        last_chunk()
    } else {
        let k = if data.len() < MAX_CHUNK_SIZE {
            data.len() as int
        } else {
            MAX_CHUNK_SIZE as int
        };
        frame(data.subrange(0, k)) + encoding(data.subrange(k, data.len() as int))
    }
}

/// The pieces in which `encoding` frames `data`.
pub open spec fn pieces(data: Seq<u8>) -> Seq<Seq<u8>>
    decreases data.len(),
{
    if data.len() == 0 {
        Seq::empty()
    } else {
        let k = if data.len() < MAX_CHUNK_SIZE {
            data.len() as int
        } else {
            MAX_CHUNK_SIZE as int
        };
        seq![data.subrange(0, k)] + pieces(data.subrange(k, data.len() as int))
    }
}

/// Errors of the decoder.
#[derive(Clone, Copy, Debug, PartialEq, Eq, Structural)]
pub enum ChunkError {
    /// The input so far ends inside a frame: feed more, or finish.
    Incomplete,
    /// The input ended inside a frame.
    UnexpectedEof,
    /// The input is not chunked framing (bad size token, payload not followed by CRLF).
    InvalidData,
}

/// Outcome of one exec decoding step on a slice.
enum Decoded {
    /// Payload at `start .. start + len`, frame ends at `start + len + 2`.
    Chunk(usize, usize),
    End(usize),
    Fail(ChunkError),
}

/// Size of the chunk announced by a size line.
fn line_size(line: &[u8]) -> (r: Option<usize>)
    ensures
        r matches Some(n) ==> parse_unsigned(size_token(line@), 16) == Some(n as nat),
        r is None ==> parse_unsigned(size_token(line@), 16) is None,
{
    let t_len = trim_eol_len(line);
    let t = &line[0..t_len];
    let semi = find_byte(t, SEMICOLON);
    proof {
        lemma_first_index_bounds(t@, SEMICOLON);
    }
    let u = &t[0..semi];
    let (lo, hi) = trim_blank_range(u);
    let tok = &u[lo..hi];
    parse_number(tok, 16)
}

/// Length of the trailer section at the start of `r`.
fn trailer_len(r: &[u8], eof: bool) -> (res: Option<usize>)
    ensures
        res matches Some(k) ==> trailer_end(r@, eof) == Some(k as int),
        res is None ==> trailer_end(r@, eof) is None,
{
    let mut off: usize = 0;
    assert(r@.subrange(0, r@.len() as int) =~= r@);
    loop
        invariant
            off <= r@.len(),
            trailer_end(r@, eof) == match trailer_end(r@.subrange(off as int, r@.len() as int), eof) {
                Some(k) => Some(off + k),
                None => None,
            },
        decreases r.len() - off,
    {
        let rest = &r[off..r.len()];
        let nl = find_byte(rest, LF);
        proof {
            lemma_first_index_bounds(rest@, LF);
        }
        if nl == rest.len() {
            if eof {
                return Some(r.len());
            } else {
                return None;
            }
        }
        let line = &rest[0..nl + 1];
        let (lo, hi) = trim_blank_range(line);
        if lo == hi {
            return Some(off + nl + 1);
        }
        assert(rest@.subrange(nl + 1, rest@.len() as int) =~= r@.subrange(
            off + nl + 1,
            r@.len() as int,
        ));
        off = off + nl + 1;
    }
}

/// One decoding step on `s`.
fn decode_step(s: &[u8], eof: bool) -> (r: Decoded)
    ensures
        match chunk_step(s@, eof) {
            Step::Chunk(p, used) => r matches Decoded::Chunk(start, n) && start + n + 2 == used
                && used <= s@.len() && n > 0 && s@.subrange(start as int, start + n) == p,
            Step::End(used) => r matches Decoded::End(u) && u == used && u <= s@.len(),
            Step::NeedMore => r == Decoded::Fail(ChunkError::Incomplete),
            Step::Truncated => r == Decoded::Fail(ChunkError::UnexpectedEof),
            Step::Malformed => r == Decoded::Fail(ChunkError::InvalidData),
        },
{
    let nl = find_byte(s, LF);
    if nl == s.len() && !eof {
        return Decoded::Fail(ChunkError::Incomplete);
    }
    if s.len() == 0 {
        return Decoded::Fail(ChunkError::UnexpectedEof);
    }
    let used: usize = if nl < s.len() {
        nl + 1
    } else {
        s.len()
    };
    let size = match line_size(&s[0..used]) {
        Some(n) => n,
        None => {
            return Decoded::Fail(ChunkError::InvalidData);
        },
    };
    let rest = &s[used..s.len()];
    if size == 0 {
        match trailer_len(rest, eof) {
            Some(k) => {
                proof {
                    lemma_trailer_end_bounds(rest@, eof);
                }
                Decoded::End(used + k)
            },
            None => Decoded::Fail(ChunkError::Incomplete),
        }
    } else if rest.len() < 2 || rest.len() - 2 < size {
        if eof {
            Decoded::Fail(ChunkError::UnexpectedEof)
        } else {
            Decoded::Fail(ChunkError::Incomplete)
        }
    } else if rest[size] != CR || rest[size + 1] != LF {
        Decoded::Fail(ChunkError::InvalidData)
    } else {
        assert(s@.subrange(used as int, used + size) =~= rest@.subrange(0, size as int));
        Decoded::Chunk(used, size)
    }
}

proof fn lemma_trailer_end_bounds(r: Seq<u8>, eof: bool)
    ensures
        trailer_end(r, eof) matches Some(k) ==> 0 <= k <= r.len(),
    decreases r.len(),
{
    lemma_first_index_bounds(r, LF);
    let nl = first_index(r, LF);
    if 0 <= nl < r.len() {
        lemma_trailer_end_bounds(r.subrange(nl + 1, r.len() as int), eof);
    }
}

/// A step consumes part of its input, and a data chunk at least one byte of it.
proof fn lemma_step_bounds(s: Seq<u8>, eof: bool)
    ensures
        chunk_step(s, eof) matches Step::Chunk(_, used) ==> 0 < used <= s.len(),
        chunk_step(s, eof) matches Step::End(used) ==> 0 <= used <= s.len(),
{
    crate::scan::lemma_first_index_bounds(s, LF);
    let nl = first_index(s, LF);
    if !(nl >= s.len() && !eof) && s.len() > 0 {
        let used = if nl < s.len() {
            nl + 1
        } else {
            s.len() as int
        };
        lemma_trailer_end_bounds(s.subrange(used, s.len() as int), eof);
    }
}

/// Decoder of a chunked body. Its input is what followed the request head, then
/// whatever its owner feeds it from the connection.
#[derive(Debug)]
pub struct StreamReader {
    buf: Vec<u8>,
    pos: usize,
    eof: bool,
    /// The connection the rest of the body comes from, if it is still open.
    pub source: Option<tokio::net::tcp::OwnedReadHalf>,
}

impl StreamReader {
    /// Bytes received and not yet decoded.
    pub closed spec fn pending(&self) -> Seq<u8> {
        self.buf@.subrange(self.pos as int, self.buf@.len() as int)
    }

    /// No more input will come.
    pub closed spec fn at_eof(&self) -> bool {
        self.eof
    }

    pub closed spec fn wf(&self) -> bool {
        self.pos <= self.buf@.len()
    }

    /// The connection that the rest of the input is read from.
    pub closed spec fn source_reader(&self) -> Option<tokio::net::tcp::OwnedReadHalf> {
        self.source
    }

    /// A decoder over `leftover`, with more input to come: from `reader` when one is
    /// given, else fed by the owner.
    pub fn new(leftover: Vec<u8>, reader: Option<tokio::net::tcp::OwnedReadHalf>) -> (r: Self)
        ensures
            r.wf(),
            r.pending() == leftover@,
            !r.at_eof(),
            r.source_reader() == reader,
    {
        let r = StreamReader { buf: leftover, pos: 0, eof: false, source: reader };
        assert(r.buf@.subrange(0, r.buf@.len() as int) =~= r.buf@);
        r
    }

    /// A decoder over a complete input.
    pub fn from_bytes(data: Vec<u8>) -> (r: Self)
        ensures
            r.wf(),
            r.pending() == data@,
            r.at_eof(),
            r.source_reader() is None,
    {
        let r = StreamReader { buf: data, pos: 0, eof: true, source: None };
        assert(r.buf@.subrange(0, r.buf@.len() as int) =~= r.buf@);
        r
    }

    /// Appends input received from the connection.
    pub fn feed(&mut self, data: &[u8])
        requires
            old(self).wf(),
        ensures
            final(self).wf(),
            final(self).pending() == old(self).pending() + data@,
            final(self).at_eof() == old(self).at_eof(),
            final(self).source_reader() == old(self).source_reader(),
    {
        let mut next: Vec<u8> = Vec::new();
        push_all(&mut next, &self.buf[self.pos..self.buf.len()]);
        push_all(&mut next, data);
        self.buf = next;
        self.pos = 0;
        assert(self.buf@.subrange(0, self.buf@.len() as int) =~= self.buf@);
    }

    /// Announces that the connection has no more input.
    pub fn finish(&mut self)
        requires
            old(self).wf(),
        ensures
            final(self).wf(),
            final(self).pending() == old(self).pending(),
            final(self).at_eof(),
            final(self).source_reader() == old(self).source_reader(),
    {
        self.eof = true;
    }

    pub fn is_at_eof(&self) -> (r: bool)
        ensures
            r == self.at_eof(),
    {
        self.eof
    }

    /// Decodes the next chunk. `Ok(Some(payload))` for a data chunk, `Ok(None)` once the
    /// last chunk and its trailer have been read; on an error nothing is consumed.
    pub fn next_chunk(&mut self) -> (r: Result<Option<Vec<u8>>, ChunkError>)
        requires
            old(self).wf(),
        ensures
            final(self).wf(),
            final(self).at_eof() == old(self).at_eof(),
            final(self).source_reader() == old(self).source_reader(),
            match chunk_step(old(self).pending(), old(self).at_eof()) {
                Step::Chunk(p, used) => r matches Ok(Some(v)) && v@ == p
                    && final(self).pending() == old(self).pending().subrange(
                    used,
                    old(self).pending().len() as int,
                ),
                Step::End(used) => r matches Ok(None) && final(self).pending()
                    == old(self).pending().subrange(used, old(self).pending().len() as int),
                Step::NeedMore => r == Err::<Option<Vec<u8>>, ChunkError>(ChunkError::Incomplete)
                    && final(self).pending() == old(self).pending(),
                Step::Truncated => r == Err::<Option<Vec<u8>>, ChunkError>(
                    ChunkError::UnexpectedEof,
                ) && final(self).pending() == old(self).pending(),
                Step::Malformed => r == Err::<Option<Vec<u8>>, ChunkError>(
                    ChunkError::InvalidData,
                ) && final(self).pending() == old(self).pending(),
            },
    {
        let pos = self.pos;
        let s = &self.buf[pos..self.buf.len()];
        match decode_step(s, self.eof) {
            Decoded::Chunk(start, n) => {
                let mut payload: Vec<u8> = Vec::new();
                push_all(&mut payload, &s[start..start + n]);
                self.pos = pos + start + n + 2;
                assert(self.buf@.subrange(self.pos as int, self.buf@.len() as int) =~= s@.subrange(
                    start + n + 2,
                    s@.len() as int,
                ));
                Ok(Some(payload))
            },
            Decoded::End(u) => {
                self.pos = pos + u;
                assert(self.buf@.subrange(self.pos as int, self.buf@.len() as int) =~= s@.subrange(
                    u as int,
                    s@.len() as int,
                ));
                Ok(None)
            },
            Decoded::Fail(e) => Err(e),
        }
    }

    /// Decodes a complete input to its end: the payload chunks in order. When the input
    /// is a whole chunked body, that is what `decode_all` gives.
    pub fn read_all(&mut self) -> (r: Result<Vec<Vec<u8>>, ChunkError>)
        requires
            old(self).wf(),
            old(self).at_eof(),
        ensures
            final(self).wf(),
            decode_all(old(self).pending()) matches Some(chunks) ==> (r matches Ok(v) && v@.map_values(
                |c: Vec<u8>| c@,
            ) == chunks),
    {
        let ghost orig = self.pending();
        let mut out: Vec<Vec<u8>> = Vec::new();
        loop
            invariant
                self.wf(),
                self.at_eof(),
                orig == old(self).pending(),
                decode_all(orig) is Some ==> (decode_all(self.pending()) matches Some(rest)
                    && decode_all(orig)->0 == out@.map_values(|c: Vec<u8>| c@) + rest),
            decreases self.pending().len(),
        {
            let ghost before = self.pending();
            proof {
                lemma_step_bounds(before, true);
            }
            match self.next_chunk() {
                Ok(Some(chunk)) => {
                    let ghost c = chunk@;
                    let ghost prev = out@.map_values(|c: Vec<u8>| c@);
                    out.push(chunk);
                    proof {
                        assert(out@.map_values(|c: Vec<u8>| c@) =~= prev.push(c));
                        if decode_all(orig) is Some {
                            let rest = decode_all(self.pending())->0;
                            assert(decode_all(before)->0 == seq![c] + rest);
                            assert(prev.push(c) + rest =~= prev + (seq![c] + rest));
                        }
                    }
                },
                Ok(None) => {
                    proof {
                        if decode_all(orig) is Some {
                            assert(decode_all(before)->0 =~= Seq::<Seq<u8>>::empty());
                            assert(out@.map_values(|c: Vec<u8>| c@) =~= decode_all(orig)->0);
                        }
                    }
                    return Ok(out);
                },
                Err(e) => {
                    return Err(e);
                },
            }
        }
    }
}

/// The frame of one payload (`frame`): the last chunk for an empty payload.
pub fn encode_chunk(p: &[u8]) -> (r: Vec<u8>)
    ensures
        r@ == frame(p@),
{
    let mut out: Vec<u8> = Vec::new();
    if p.len() == 0 {
        out.push(48);
        out.push(CR);
        out.push(LF);
        out.push(CR);
        out.push(LF);
        assert(out@ =~= last_chunk());
    } else {
        push_digits(&mut out, p.len(), 16);
        out.push(CR);
        out.push(LF);
        push_all(&mut out, p);
        out.push(CR);
        out.push(LF);
        assert(out@ =~= frame(p@));
    }
    out
}

/// Encoder of a chunked body. Its input is read from `source` by its owner and fed in,
/// or given whole to `from_bytes`.
#[derive(Debug)]
pub struct StreamWriter {
    pending: Vec<u8>,
    eof: bool,
    done: bool,
    /// The file the body is read from, if any.
    pub source: Option<tokio::fs::File>,
}

impl StreamWriter {
    /// Source bytes received and not yet framed.
    pub closed spec fn pending(&self) -> Seq<u8> {
        self.pending@
    }

    /// The source has no more bytes.
    pub closed spec fn at_eof(&self) -> bool {
        self.eof
    }

    /// The last chunk has been handed out.
    pub closed spec fn done(&self) -> bool {
        self.done
    }

    /// The file that the body is read from.
    pub closed spec fn source_file(&self) -> Option<tokio::fs::File> {
        self.source
    }

    /// An encoder of the contents of `file`.
    pub fn new(file: tokio::fs::File) -> (r: Self)
        ensures
            r.pending().len() == 0,
            !r.at_eof(),
            !r.done(),
            r.source_file() == Some(file),
    {
        StreamWriter { pending: Vec::new(), eof: false, done: false, source: Some(file) }
    }

    /// An encoder of `data`, available whole.
    pub fn from_bytes(data: Vec<u8>) -> (r: Self)
        ensures
            r.pending() == data@,
            r.at_eof(),
            !r.done(),
            r.source_file() is None,
    {
        StreamWriter { pending: data, eof: true, done: false, source: None }
    }

    /// Appends bytes read from the source.
    pub fn feed(&mut self, data: &[u8])
        ensures
            final(self).pending() == old(self).pending() + data@,
            final(self).at_eof() == old(self).at_eof(),
            final(self).done() == old(self).done(),
            final(self).source_file() == old(self).source_file(),
    {
        push_all(&mut self.pending, data);
    }

    /// Announces that the source has no more bytes.
    pub fn finish(&mut self)
        ensures
            final(self).pending() == old(self).pending(),
            final(self).at_eof(),
            final(self).done() == old(self).done(),
            final(self).source_file() == old(self).source_file(),
    {
        self.eof = true;
    }

    /// The encoder cannot make progress before more source bytes, or their end, come in.
    pub fn wants_input(&self) -> (r: bool)
        ensures
            r == (!self.done() && self.pending().len() == 0 && !self.at_eof()),
    {
        !self.done && self.pending.len() == 0 && !self.eof
    }

    pub fn is_done(&self) -> (r: bool)
        ensures
            r == self.done(),
    {
        self.done
    }

    /// The next frame: up to `MAX_CHUNK_SIZE` pending bytes, or the last chunk once the
    /// source is exhausted. `None` when done, or when waiting for input.
    pub fn next_chunk(&mut self) -> (r: Option<Vec<u8>>)
        ensures
            final(self).at_eof() == old(self).at_eof(),
            final(self).source_file() == old(self).source_file(),
            old(self).done() ==> r is None && *final(self) == *old(self),
            !old(self).done() && old(self).pending().len() > 0 ==> {
                let k = if old(self).pending().len() < MAX_CHUNK_SIZE {
                    old(self).pending().len() as int
                } else {
                    MAX_CHUNK_SIZE as int
                };
                &&& r matches Some(v) && v@ == frame(old(self).pending().subrange(0, k))
                &&& final(self).pending() == old(self).pending().subrange(
                    k,
                    old(self).pending().len() as int,
                )
                &&& !final(self).done()
            },
            !old(self).done() && old(self).pending().len() == 0 && old(self).at_eof() ==> (r matches Some(
                v,
            ) && v@ == last_chunk() && final(self).done() && final(self).pending().len() == 0),
            !old(self).done() && old(self).pending().len() == 0 && !old(self).at_eof() ==> r is None
                && *final(self) == *old(self),
    {
        if self.done {
            return None;
        }
        let len = self.pending.len();
        if len == 0 {
            if self.eof {
                self.done = true;
                let empty: Vec<u8> = Vec::new();
                return Some(encode_chunk(&empty));
            }
            return None;
        }
        let k: usize = if len < MAX_CHUNK_SIZE {
            len
        } else {
            MAX_CHUNK_SIZE
        };
        let out = encode_chunk(&self.pending[0..k]);
        let mut rest: Vec<u8> = Vec::new();
        push_all(&mut rest, &self.pending[k..len]);
        self.pending = rest;
        Some(out)
    }

    /// Frames all that remains once the source has ended: the rest of the encoding, up
    /// to and including the last chunk.
    pub fn encode_rest(&mut self) -> (r: Vec<u8>)
        requires
            old(self).at_eof(),
            !old(self).done(),
        ensures
            r@ == encoding(old(self).pending()),
            final(self).done(),
            final(self).source_file() == old(self).source_file(),
    {
        let ghost orig = self.pending();
        let mut out: Vec<u8> = Vec::new();
        loop
            invariant
                self.at_eof(),
                orig == old(self).pending(),
                self.source_file() == old(self).source_file(),
                !self.done() ==> out@ + encoding(self.pending()) == encoding(orig),
                self.done() ==> out@ == encoding(orig),
            decreases self.pending().len() + if self.done() {
                0int
            } else {
                1int
            },
        {
            let ghost before = self.pending();
            let ghost prev = out@;
            match self.next_chunk() {
                Some(piece) => {
                    push_all(&mut out, piece.as_slice());
                    proof {
                        if before.len() > 0 {
                            let k = if before.len() < MAX_CHUNK_SIZE {
                                before.len() as int
                            } else {
                                MAX_CHUNK_SIZE as int
                            };
                            assert(encoding(before) == frame(before.subrange(0, k)) + encoding(
                                before.subrange(k, before.len() as int),
                            ));
                            assert(prev + piece@ + encoding(self.pending()) =~= prev + (piece@
                                + encoding(self.pending())));
                        } else {
                            assert(encoding(before) == last_chunk());
                        }
                    }
                },
                None => {
                    return out;
                },
            }
        }
    }
}

proof fn lemma_trim_blank_ascii_token(d: Seq<u8>)
    requires
        d.len() > 0,
        forall|i: int| 0 <= i < d.len() ==> !crate::scan::is_blank(#[trigger] d[i]) && d[i] < 128,
    ensures
        trim_blank(d) == d,
{
    let n = d.len() as int;
    assert(!crate::scan::is_blank(d[0]) && d[0] < 128);
    assert(trim_blank_start(d) == d);
    assert(!crate::scan::is_blank(d[n - 1]));
    if n >= 2 {
        assert(d[n - 2] < 128);
    }
    if n >= 3 {
        assert(d[n - 3] < 128);
    }
    assert(trim_blank_end(d) == d);
}

/// A size line announcing `n` (its hex digits, then CRLF) is read as `n`, and the step
/// goes on with exactly what follows it.
proof fn lemma_size_line(n: nat, rest: Seq<u8>)
    requires
        n <= usize::MAX,
    ensures
        ({
            let d = digits_of(n, 16);
            let s = d + crlf() + rest;
            &&& first_index(s, LF) == d.len() + 1
            &&& parse_unsigned(size_token(s.subrange(0, d.len() + 2int)), 16) == Some(n)
            &&& s.subrange(d.len() + 2int, s.len() as int) == rest
        }),
{
    let d = digits_of(n, 16);
    lemma_digits_of(n, 16);
    lemma_parse_digits_of(n, 16);
    let s = d + crlf() + rest;
    let dl = d.len() as int;
    assert forall|j: int| 0 <= j < dl + 1 implies s[j] != LF by {
        if j < dl {
            assert(s[j] == d[j]);
        }
    }
    lemma_first_index(s, LF, dl + 1);
    let line = s.subrange(0, dl + 2);
    assert(line =~= d + seq![CR, LF]);
    assert(line.drop_last() =~= d + seq![CR]);
    assert((d + seq![CR]).drop_last() =~= d);
    assert(d.last() == d[dl - 1]);
    assert(trim_eol(d) == d);
    assert(trim_eol(line.drop_last()) == trim_eol((d + seq![CR]).drop_last()));
    assert(trim_eol(line) == d);
    assert forall|j: int| 0 <= j < dl implies d[j] != SEMICOLON by {
        assert(d[j] == d[j]);
    }
    lemma_first_index(d, SEMICOLON, dl);
    assert(d.subrange(0, dl) =~= d);
    assert forall|i: int| 0 <= i < d.len() implies !crate::scan::is_blank(#[trigger] d[i]) && d[i]
        < 128 by {
        assert(d[i] == d[i]);
    }
    lemma_trim_blank_ascii_token(d);
    assert(size_token(line) == d);
    assert(s.subrange(dl + 2, s.len() as int) =~= rest);
}

/// Decoding a frame of a non-empty payload gives the payload back, whatever follows.
pub proof fn lemma_frame_step(p: Seq<u8>, rest: Seq<u8>, eof: bool)
    requires
        0 < p.len() <= usize::MAX,
    ensures
        chunk_step(frame(p) + rest, eof) == Step::Chunk(p, frame(p).len() as int),
{
    let n = p.len();
    let after = p + (crlf() + rest);
    lemma_size_line(n, after);
    let s = frame(p) + rest;
    assert(s =~= digits_of(n, 16) + crlf() + after);
    assert(after[n as int] == CR);
    assert(after[(n + 1) as int] == LF);
    assert(after.subrange(0, n as int) =~= p);
}

/// The decoder's rejections. After a size line announcing `n > 0` bytes: input that
/// ends before the payload and its CRLF are complete is truncated, and a payload
/// followed by anything but CRLF is malformed.
#[verifier::rlimit(40)]
pub proof fn lemma_decoder_rejects(n: nat, rest: Seq<u8>, eof: bool)
    requires
        0 < n <= usize::MAX,
    ensures
        rest.len() < n + 2 && eof ==> chunk_step(digits_of(n, 16) + crlf() + rest, eof)
            == Step::Truncated,
        rest.len() >= n + 2 && rest.subrange(n as int, n + 2int) != crlf() ==> chunk_step(
            digits_of(n, 16) + crlf() + rest,
            eof,
        ) == Step::Malformed,
{
    lemma_size_line(n, rest);
    if rest.len() >= n + 2 && rest.subrange(n as int, n + 2int) != crlf() {
        if rest[n as int] == CR && rest[(n + 1) as int] == LF {
            assert(rest.subrange(n as int, n + 2int) =~= crlf());
        }
    }
}

/// A size line whose token is not a hexadecimal number that fits in `usize` is
/// malformed, whatever follows it.
pub proof fn lemma_bad_size_line(s: Seq<u8>, eof: bool)
    requires
        first_index(s, LF) < s.len(),
        parse_unsigned(size_token(s.subrange(0, first_index(s, LF) + 1)), 16) is None,
    ensures
        chunk_step(s, eof) == Step::Malformed,
{
    lemma_first_index_bounds(s, LF);
}

/// Decoding the last chunk reports the end, after exactly its five bytes.
pub proof fn lemma_last_chunk_step(rest: Seq<u8>, eof: bool)
    ensures
        chunk_step(last_chunk() + rest, eof) == Step::End(5),
{
    let s = last_chunk() + rest;
    assert(s[0] == 48u8);
    assert(s[1] == CR);
    assert(s[2] == LF);
    lemma_first_index(s, LF, 2);
    let line = s.subrange(0, 3);
    let z = seq![48u8];
    assert(line =~= seq![48u8, CR, LF]);
    assert(line.drop_last() =~= seq![48u8, CR]);
    assert(line.drop_last().drop_last() =~= z);
    assert(trim_eol(z) == z);
    assert(trim_eol(line.drop_last()) == trim_eol(line.drop_last().drop_last()));
    assert(trim_eol(line) == z);
    lemma_first_index(z, SEMICOLON, 1);
    assert(z.subrange(0, 1) =~= z);
    lemma_trim_blank_ascii_token(z);
    assert(size_token(line) == z);
    assert(z.drop_last() =~= Seq::<u8>::empty());
    assert(digits_value(Seq::<u8>::empty(), 16) == 0);
    assert(z.last() == 48u8);
    assert(crate::scan::digit_value(48u8, 16) == Some(0nat));
    assert(digits_value(z, 16) == 0);
    assert(crate::scan::all_digits(z, 16));
    assert(parse_unsigned(z, 16) == Some(0nat));
    let r = s.subrange(3, s.len() as int);
    assert(r =~= seq![CR, LF] + rest);
    assert(r[0] == CR);
    lemma_first_index(r, LF, 1);
    let tl = r.subrange(0, 2);
    assert(tl =~= seq![CR, LF]);
    assert(tl.drop_first() =~= seq![LF]);
    assert(tl.drop_first().drop_first() =~= Seq::<u8>::empty());
    let one = tl.subrange(1, 2);
    assert(one =~= seq![LF]);
    assert(one.subrange(1, 1) =~= Seq::<u8>::empty());
    assert(trim_blank_start(Seq::<u8>::empty()) == Seq::<u8>::empty());
    assert(trim_blank_start(one).len() == 0);
    assert(trim_blank_start(tl).len() == 0);
    assert(trim_blank(tl).len() == 0);
    assert(trailer_end(r, eof) == Some(2int));
}

/// Chunked round trip: the frames of any sequence of non-empty reads, followed by the
/// last chunk, decode to exactly those reads, and the end is reported once, right after
/// the last of them.
pub proof fn lemma_chunked_round_trip(reads: Seq<Seq<u8>>)
    requires
        forall|i: int| 0 <= i < reads.len() ==> 0 < (#[trigger] reads[i]).len() <= MAX_CHUNK_SIZE,
    ensures
        decode_all(frames(reads) + last_chunk()) == Some(reads),
    decreases reads.len(),
{
    if reads.len() == 0 {
        assert(frames(reads) + last_chunk() =~= last_chunk() + Seq::<u8>::empty());
        lemma_last_chunk_step(Seq::<u8>::empty(), true);
        assert(reads =~= Seq::<Seq<u8>>::empty());
    } else {
        let tail = reads.drop_first();
        assert forall|i: int| 0 <= i < tail.len() implies 0 < (#[trigger] tail[i]).len()
            <= MAX_CHUNK_SIZE by {
            assert(tail[i] == reads[i + 1]);
        }
        lemma_chunked_round_trip(tail);
        let s = frames(reads) + last_chunk();
        let rest = frames(tail) + last_chunk();
        assert(0 < reads[0].len());
        assert(s =~= frame(reads[0]) + rest);
        lemma_frame_step(reads[0], rest, true);
        let used = frame(reads[0]).len() as int;
        assert(s.subrange(used, s.len() as int) =~= rest);
        assert(seq![reads[0]] + tail =~= reads);
    }
}

/// The in-memory encoding is the frames of its pieces followed by the last chunk; the
/// pieces are non-empty, at most `MAX_CHUNK_SIZE` long, and together make up the data.
pub proof fn lemma_encoding_pieces(data: Seq<u8>)
    ensures
        encoding(data) == frames(pieces(data)) + last_chunk(),
        pieces(data).flatten() == data,
        forall|i: int|
            0 <= i < pieces(data).len() ==> 0 < (#[trigger] pieces(data)[i]).len()
                <= MAX_CHUNK_SIZE,
    decreases data.len(),
{
    if data.len() == 0 {
        assert(frames(pieces(data)) + last_chunk() =~= last_chunk());
        assert(pieces(data).flatten() =~= data);
    } else {
        let k = if data.len() < MAX_CHUNK_SIZE {
            data.len() as int
        } else {
            MAX_CHUNK_SIZE as int
        };
        let head = data.subrange(0, k);
        let tail = data.subrange(k, data.len() as int);
        lemma_encoding_pieces(tail);
        let ps = pieces(data);
        assert(ps =~= seq![head] + pieces(tail));
        assert(ps[0] == head);
        assert(ps.drop_first() =~= pieces(tail));
        assert(frames(ps) =~= frame(head) + frames(pieces(tail)));
        assert(encoding(data) =~= frames(ps) + last_chunk());
        assert(ps.flatten() =~= head + tail);
        assert(head + tail =~= data);
        assert forall|i: int| 0 <= i < ps.len() implies 0 < (#[trigger] ps[i]).len()
            <= MAX_CHUNK_SIZE by {
            if i > 0 {
                assert(ps[i] == pieces(tail)[i - 1]);
            }
        }
    }
}

/// Round trip of the in-memory encoder: decoding what it produces for `data` gives
/// chunks that together are exactly `data`, then the end.
pub proof fn lemma_encoding_round_trip(data: Seq<u8>)
    ensures
        decode_all(encoding(data)) matches Some(chunks) && chunks.flatten() == data,
{
    lemma_encoding_pieces(data);
    lemma_chunked_round_trip(pieces(data));
}

} // verus!
