//! The HTTP/1.1 response parser: one status line, a header block ended by
//! the first bare empty line, and a body framed by exactly one of three
//! strategies, chosen by header inspection in strict priority order:
//! chunked, then content-length, then read-to-end-of-stream.
//!
//! The parser works over the complete byte region a connection delivered;
//! the transport (outside this library) reads the socket and hands the
//! bytes in.

use vstd::prelude::*;
use crate::ascii::{
    CR, LF, all_digits, ascii_lower, contains_seq, contains_slice, copy_range, dec_value,
    dec_value_of, digits_end, digits_end_in, find_byte, find_byte_in, is_digits, lemma_digits_end,
    lemma_find_byte, lower_bytes, skip_sp, skip_sp_in, skip_ws, skip_ws_in, strip_cr, token_end,
    token_end_in,
};
use crate::chunked::{read_chunked_body, spec_decode_chunks};
use crate::errors::HttpError;

verus! {

/// The status classification, keyed by the numeric code: the 2xx class is
/// the only success; 4xx and 5xx are the error classes; everything else is
/// preserved as `Other`.
#[derive(Debug, Clone, Copy, PartialEq, Eq, Structural)]
pub enum HttpStatus {
    Success(u16),
    ClientError(u16),
    ServerError(u16),
    Other(u16),
}

pub open spec fn spec_classify_status(code: u16) -> HttpStatus {
    if 200 <= code < 300 {
        HttpStatus::Success(code)
    } else if 400 <= code < 500 {
        HttpStatus::ClientError(code)
    } else if 500 <= code < 600 {
        HttpStatus::ServerError(code)
    } else {
        HttpStatus::Other(code)
    }
}

impl HttpStatus {
    /// Classifies a numeric status code by its leading digit (its hundreds
    /// class), preserving the code itself.
    pub fn from_code(code: u16) -> (r: HttpStatus)
        ensures
            r == spec_classify_status(code),
    {
        if 200 <= code && code < 300 {
            HttpStatus::Success(code)
        } else if 400 <= code && code < 500 {
            HttpStatus::ClientError(code)
        } else if 500 <= code && code < 600 {
            HttpStatus::ServerError(code)
        } else {
            HttpStatus::Other(code)
        }
    }

    pub open spec fn spec_code(self) -> u16 {
        match self {
            HttpStatus::Success(c) => c,
            HttpStatus::ClientError(c) => c,
            HttpStatus::ServerError(c) => c,
            HttpStatus::Other(c) => c,
        }
    }

    pub fn code(&self) -> (r: u16)
        ensures
            r == self.spec_code(),
    {
        match self {
            HttpStatus::Success(c) => *c,
            HttpStatus::ClientError(c) => *c,
            HttpStatus::ServerError(c) => *c,
            HttpStatus::Other(c) => *c,
        }
    }

    pub fn is_success(&self) -> (r: bool)
        ensures
            r == (*self is Success),
    {
        match self {
            HttpStatus::Success(_) => true,
            _ => false,
        }
    }
}

/// The abstract value of a response body: content-length-framed or
/// end-of-stream bytes, an ordered sequence of chunk payloads, or no body
/// at all.
pub enum SpecBody {
    Regular(Seq<u8>),
    Chunked(Seq<Seq<u8>>),
    Empty,
}

/// The body a response carried. `Regular` holds bytes framed by a
/// content-length header or read until the peer closed; `Chunked` holds
/// the decoded chunk payloads in arrival order; `Empty` is a bodyless
/// (immediately closed) response.
#[derive(Debug, Clone, PartialEq, Eq)]
pub enum HttpBodyType {
    Regular(Vec<u8>),
    Chunked(Vec<Vec<u8>>),
    Empty,
}

impl View for HttpBodyType {
    type V = SpecBody;

    open spec fn view(&self) -> SpecBody {
        match self {
            HttpBodyType::Regular(v) => SpecBody::Regular(v@),
            HttpBodyType::Chunked(v) => SpecBody::Chunked(v.deep_view()),
            HttpBodyType::Empty => SpecBody::Empty,
        }
    }
}

/// A parsed response: its status classification and its body.
#[derive(Debug, Clone, PartialEq, Eq)]
pub struct HttpResponse {
    pub status: HttpStatus,
    pub body: HttpBodyType,
}

/// The lower-cased text of the header line naming the chunked transfer
/// encoding.
pub open spec fn chunked_marker() -> Seq<u8> {
    seq![
        116u8, 114, 97, 110, 115, 102, 101, 114, 45, 101, 110, 99, 111, 100, 105, 110, 103, 58, 32,
        99, 104, 117, 110, 107, 101, 100,
    ]
}

/// The lower-cased name of the content-length header.
pub open spec fn content_length_marker() -> Seq<u8> {
    seq![99u8, 111, 110, 116, 101, 110, 116, 45, 108, 101, 110, 103, 116, 104]
}

fn chunked_marker_vec() -> (r: Vec<u8>)
    ensures
        r@ == chunked_marker(),
{
    let r: Vec<u8> = vec![
        116u8, 114, 97, 110, 115, 102, 101, 114, 45, 101, 110, 99, 111, 100, 105, 110, 103, 58, 32,
        99, 104, 117, 110, 107, 101, 100,
    ];
    proof {
        assert(r@ =~= chunked_marker());
    }
    r
}

fn content_length_marker_vec() -> (r: Vec<u8>)
    ensures
        r@ == content_length_marker(),
{
    let r: Vec<u8> = vec![99u8, 111, 110, 116, 101, 110, 116, 45, 108, 101, 110, 103, 116, 104];
    proof {
        assert(r@ =~= content_length_marker());
    }
    r
}

/// The header block read from `pos`: each line case-normalized to lower
/// case with its terminator stripped, until the first bare empty line,
/// together with the position of the body that follows. A block without
/// that empty-line sentinel is malformed (`None`).
pub open spec fn spec_read_headers(input: Seq<u8>, pos: int) -> Option<(Seq<Seq<u8>>, int)>
    decreases input.len() - pos
        when 0 <= pos <= input.len()
        via spec_read_headers_decreases
{
    match find_byte(input, pos, LF) {
        None => None,
        Some(e) => {
            let line = strip_cr(input.subrange(pos, e));
            if line.len() == 0 {
                Some((Seq::empty(), e + 1))
            } else {
                match spec_read_headers(input, e + 1) {
                    None => None,
                    Some((hs, end)) => Some((seq![ascii_lower(line)] + hs, end)),
                }
            }
        },
    }
}

#[via_fn]
proof fn spec_read_headers_decreases(input: Seq<u8>, pos: int) {
    lemma_find_byte(input, pos, LF);
}

/// Reads the header block: one lower-cased line per header, stopped at the
/// first bare empty line. A block that the stream ends before terminating
/// is a malformed response, not a hang.
pub fn read_headers(input: &[u8], start: usize) -> (r: Result<(Vec<Vec<u8>>, usize), HttpError>)
    requires
        start <= input@.len(),
    ensures
        match spec_read_headers(input@, start as int) {
            Some((hs, end)) => r matches Ok(p) && p.0.deep_view() == hs && p.1 == end && end
                <= input@.len(),
            None => r matches Err(e) && e is ProtocolError,
        },
{
    let input_len: usize = input.len();
    let mut pos: usize = start;
    let mut acc: Vec<Vec<u8>> = Vec::new();
    proof {
        assert(acc.deep_view() =~= Seq::<Seq<u8>>::empty());
        if spec_read_headers(input@, start as int) is Some {
            let hs = spec_read_headers(input@, start as int).unwrap().0;
            assert(acc.deep_view() + hs =~= hs);
        }
    }
    loop
        invariant
            start <= pos <= input@.len(),
            input_len == input@.len(),
            match spec_read_headers(input@, start as int) {
                None => spec_read_headers(input@, pos as int) is None,
                Some((hs, end)) => match spec_read_headers(input@, pos as int) {
                    Some((hs2, end2)) => end2 == end && hs == acc.deep_view() + hs2,
                    None => false,
                },
            },
        decreases input@.len() - pos,
    {
        match find_byte_in(input, pos, LF) {
            None => {
                return Err(HttpError::ProtocolError(
                    "header block is not terminated by an empty line".to_owned(),
                ));
            },
            Some(e) => {
                proof {
                    lemma_find_byte(input@, pos as int, LF);
                }
                let line_end: usize = if e > pos && input[e - 1] == CR {
                    e - 1
                } else {
                    e
                };
                proof {
                    assert(strip_cr(input@.subrange(pos as int, e as int)) =~= input@.subrange(
                        pos as int,
                        line_end as int,
                    ));
                }
                if line_end == pos {
                    proof {
                        if spec_read_headers(input@, start as int) is Some {
                            let hs = spec_read_headers(input@, start as int).unwrap().0;
                            assert(acc.deep_view() + Seq::<Seq<u8>>::empty() =~= acc.deep_view());
                            assert(hs =~= acc.deep_view());
                        }
                    }
                    return Ok((acc, e + 1));
                }
                let lowered = lower_bytes(&input[pos..line_end]);
                let ghost pre = acc.deep_view();
                let ghost lv = lowered@;
                acc.push(lowered);
                proof {
                    assert(acc.deep_view() =~~= pre.push(lv));
                    if spec_read_headers(input@, start as int) is Some {
                        let hs = spec_read_headers(input@, start as int).unwrap().0;
                        if spec_read_headers(input@, pos as int) is Some {
                            let hs2 = spec_read_headers(input@, pos as int).unwrap().0;
                            if spec_read_headers(input@, e + 1) is Some {
                                let hs3 = spec_read_headers(input@, e + 1).unwrap().0;
                                assert(hs2 =~= seq![lv] + hs3);
                                assert(pre + (seq![lv] + hs3) =~= pre.push(lv) + hs3);
                            }
                        }
                    }
                }
                pos = e + 1;
            },
        }
    }
}

/// The body-framing strategy a response selects.
#[derive(Debug, Clone, Copy, PartialEq, Eq, Structural)]
pub enum Framing {
    Chunked,
    ContentLength,
    Eof,
}

/// The index of the first header line that contains `marker` after lower-
/// casing, searched from `from` on.
pub open spec fn first_marked(headers: Seq<Seq<u8>>, from: int, marker: Seq<u8>) -> Option<int>
    decreases headers.len() - from
        when 0 <= from <= headers.len()
{
    if from >= headers.len() {
        None
    } else if contains_seq(ascii_lower(headers[from]), marker) {
        Some(from)
    } else {
        first_marked(headers, from + 1, marker)
    }
}

pub proof fn lemma_first_marked(headers: Seq<Seq<u8>>, from: int, marker: Seq<u8>)
    requires
        0 <= from <= headers.len(),
    ensures
        match first_marked(headers, from, marker) {
            Some(i) => from <= i < headers.len() && contains_seq(ascii_lower(headers[i]), marker)
                && (forall|j: int|
                from <= j < i ==> !contains_seq(ascii_lower(headers[j]), marker)),
            None => forall|j: int|
                from <= j < headers.len() ==> !contains_seq(ascii_lower(headers[j]), marker),
        },
    decreases headers.len() - from,
{
    if from < headers.len() && !contains_seq(ascii_lower(headers[from]), marker) {
        lemma_first_marked(headers, from + 1, marker);
    }
}

/// The framing strategy selected by substring match against the
/// case-normalized header lines, in strict priority order: chunked, then
/// content-length, then read-to-end-of-stream.
pub open spec fn spec_framing(headers: Seq<Seq<u8>>) -> Framing {
    if first_marked(headers, 0, chunked_marker()) is Some {
        Framing::Chunked
    } else if first_marked(headers, 0, content_length_marker()) is Some {
        Framing::ContentLength
    } else {
        Framing::Eof
    }
}

/// The byte count a content-length header line declares: the digits after
/// its colon (spaces and tabs skipped), when there is at least one digit
/// and the count fits in a `usize`.
pub open spec fn spec_cl_value(line: Seq<u8>) -> Option<int> {
    match find_byte(line, 0, 58) {
        None => None,
        Some(cpos) => {
            let v = skip_sp(line, cpos + 1);
            let dend = digits_end(line, v);
            if dend == v || dec_value(line.subrange(v, dend)) > usize::MAX as nat {
                None
            } else {
                Some(dec_value(line.subrange(v, dend)) as int)
            }
        },
    }
}

/// The body that `rest` (the bytes after the header block) holds under the
/// framing the headers select, or `None` when the response is malformed:
/// an undecodable chunked body, a content-length line without a usable
/// count, or a stream that closed before the declared byte count.
pub open spec fn spec_parse_body(headers: Seq<Seq<u8>>, rest: Seq<u8>) -> Option<SpecBody> {
    match spec_framing(headers) {
        Framing::Chunked => match spec_decode_chunks(rest, 0) {
            None => None,
            Some((cs, _end)) => Some(SpecBody::Chunked(cs)),
        },
        Framing::ContentLength => {
            let line = headers[first_marked(headers, 0, content_length_marker()).unwrap()];
            match spec_cl_value(line) {
                None => None,
                Some(n) => if n <= rest.len() {
                    Some(SpecBody::Regular(rest.subrange(0, n)))
                } else {
                    None
                },
            }
        },
        Framing::Eof => if rest.len() == 0 {
            Some(SpecBody::Empty)
        } else {
            Some(SpecBody::Regular(rest))
        },
    }
}

fn find_marked(headers: &Vec<Vec<u8>>, marker: &[u8]) -> (r: Option<usize>)
    ensures
        match first_marked(headers.deep_view(), 0, marker@) {
            Some(i) => r == Some(i as usize),
            None => r is None,
        },
{
    let mut i: usize = 0;
    while i < headers.len()
        invariant
            i <= headers@.len(),
            headers.deep_view().len() == headers@.len(),
            first_marked(headers.deep_view(), 0, marker@) == first_marked(
                headers.deep_view(),
                i as int,
                marker@,
            ),
        decreases headers@.len() - i,
    {
        proof {
            assert(headers.deep_view()[i as int] =~= headers@[i as int]@);
        }
        let lowered = lower_bytes(&headers[i]);
        if contains_slice(lowered.as_slice(), marker) {
            return Some(i);
        }
        i = i + 1;
    }
    None
}

/// Selects the framing strategy and reconstructs the body from `rest`, the
/// bytes that followed the header block.
pub fn parse_body(headers: &Vec<Vec<u8>>, rest: &[u8]) -> (r: Result<HttpBodyType, HttpError>)
    ensures
        match spec_parse_body(headers.deep_view(), rest@) {
            Some(b) => r matches Ok(bt) && bt@ == b,
            None => r matches Err(e) && e is ProtocolError,
        },
{
    let _header_count: usize = headers.len();
    proof {
        assert(headers.deep_view().len() == headers@.len());
    }
    let chunked_pat = chunked_marker_vec();
    let cl_pat = content_length_marker_vec();
    if find_marked(headers, chunked_pat.as_slice()).is_some() {
        match read_chunked_body(rest) {
            Ok(chunks) => Ok(HttpBodyType::Chunked(chunks)),
            Err(e) => Err(e),
        }
    } else {
        match find_marked(headers, cl_pat.as_slice()) {
            Some(i) => {
                proof {
                    lemma_first_marked(headers.deep_view(), 0, content_length_marker());
                    assert(headers.deep_view()[i as int] =~= headers@[i as int]@);
                }
                let line: &Vec<u8> = &headers[i];
                let line_len: usize = line.len();
                match find_byte_in(line.as_slice(), 0, 58) {
                    None => Err(HttpError::ProtocolError(
                        "content-length header has no value".to_owned(),
                    )),
                    Some(cpos) => {
                        proof {
                            lemma_find_byte(line@, 0, 58);
                        }
                        let v = skip_sp_in(line.as_slice(), cpos + 1);
                        let dend = digits_end_in(line.as_slice(), v);
                        if dend == v {
                            return Err(HttpError::ProtocolError(
                                "content-length value is not numeric".to_owned(),
                            ));
                        }
                        proof {
                            lemma_digits_end(line@, v as int);
                            assert(all_digits(line@.subrange(v as int, dend as int)));
                        }
                        match dec_value_of(&line.as_slice()[v..dend]) {
                            None => Err(HttpError::ProtocolError(
                                "content-length value does not fit in usize".to_owned(),
                            )),
                            Some(n) => {
                                if n > rest.len() {
                                    return Err(HttpError::ProtocolError(
                                        "stream closed before the declared content length".to_owned(),
                                    ));
                                }
                                Ok(HttpBodyType::Regular(copy_range(rest, 0, n)))
                            },
                        }
                    },
                }
            },
            None => {
                if rest.len() == 0 {
                    Ok(HttpBodyType::Empty)
                } else {
                    proof {
                        assert(rest@.subrange(0, rest@.len() as int) =~= rest@);
                    }
                    Ok(HttpBodyType::Regular(copy_range(rest, 0, rest.len())))
                }
            },
        }
    }
}

/// The status line's numeric code and the position of the first header
/// byte: the first whitespace-delimited token of the line (the protocol
/// version) is discarded, the second is the code. A line without a numeric
/// second token is unrecoverable (`None`).
pub open spec fn spec_status_line(input: Seq<u8>) -> Option<(u16, int)> {
    let sl_end = match find_byte(input, 0, LF) {
        Some(e) => e,
        None => input.len() as int,
    };
    let line = input.subrange(0, sl_end);
    let hdr_start = if sl_end < input.len() {
        sl_end + 1
    } else {
        sl_end
    };
    let a = skip_ws(line, 0);
    let b = token_end(line, a);
    let c = skip_ws(line, b);
    let d = token_end(line, c);
    let tok = line.subrange(c, d);
    if c >= line.len() || !all_digits(tok) || dec_value(tok) > u16::MAX as nat {
        None
    } else {
        Some((dec_value(tok) as u16, hdr_start))
    }
}

/// Parses the status line: discards the protocol token, reads the status
/// code as a number.
pub fn parse_status_line(input: &[u8]) -> (r: Result<(u16, usize), HttpError>)
    ensures
        match spec_status_line(input@) {
            Some((code, hdr_start)) => r matches Ok(p) && p.0 == code && p.1 == hdr_start
                && hdr_start <= input@.len(),
            None => r matches Err(e) && e is ProtocolError,
        },
{
    let sl_end: usize = match find_byte_in(input, 0, LF) {
        Some(e) => e,
        None => input.len(),
    };
    proof {
        lemma_find_byte(input@, 0, LF);
    }
    let hdr_start: usize = if sl_end < input.len() {
        sl_end + 1
    } else {
        sl_end
    };
    let line: &[u8] = &input[0..sl_end];
    let a = skip_ws_in(line, 0);
    let b = token_end_in(line, a);
    let c = skip_ws_in(line, b);
    if c >= line.len() {
        return Err(HttpError::ProtocolError(
            "status line has no status code token".to_owned(),
        ));
    }
    let d = token_end_in(line, c);
    let tok: &[u8] = &line[c..d];
    if !is_digits(tok) {
        return Err(HttpError::ProtocolError("status code is not numeric".to_owned()));
    }
    match dec_value_of(tok) {
        None => Err(HttpError::ProtocolError("status code is out of range".to_owned())),
        Some(v) => {
            if v > 65535 {
                Err(HttpError::ProtocolError("status code is out of range".to_owned()))
            } else {
                Ok((v as u16, hdr_start))
            }
        },
    }
}

/// The complete response model: the classified status and the body, or
/// `None` for every malformed response (bad status line, unterminated
/// header block, malformed framing or body).
pub open spec fn spec_parse_response(input: Seq<u8>) -> Option<(HttpStatus, SpecBody)> {
    match spec_status_line(input) {
        None => None,
        Some((code, hdr_start)) => match spec_read_headers(input, hdr_start) {
            None => None,
            Some((headers, body_start)) => match spec_parse_body(
                headers,
                input.subrange(body_start, input.len() as int),
            ) {
                None => None,
                Some(body) => Some((spec_classify_status(code), body)),
            },
        },
    }
}

/// Parses one complete response: status line, header block, body. Returns
/// exactly what the model `spec_parse_response` yields: the classified
/// status with the reconstructed body, or a `ProtocolError`.
pub fn parse_response(input: &[u8]) -> (r: Result<HttpResponse, HttpError>)
    ensures
        match spec_parse_response(input@) {
            Some((st, body)) => r matches Ok(resp) && resp.status == st && resp.body@ == body,
            None => r matches Err(e) && e is ProtocolError,
        },
{
    let (code, hdr_start) = match parse_status_line(input) {
        Ok(p) => p,
        Err(e) => {
            return Err(e);
        },
    };
    let (headers, body_start) = match read_headers(input, hdr_start) {
        Ok(p) => p,
        Err(e) => {
            return Err(e);
        },
    };
    let rest: &[u8] = &input[body_start..input.len()];
    let body = match parse_body(&headers, rest) {
        Ok(b) => b,
        Err(e) => {
            return Err(e);
        },
    };
    Ok(HttpResponse { status: HttpStatus::from_code(code), body })
}

/// Framing selection is insensitive to the case of the header text: two
/// header blocks equal up to ASCII case select the identical strategy.
pub proof fn lemma_framing_case_insensitive(h1: Seq<Seq<u8>>, h2: Seq<Seq<u8>>)
    requires
        h1.len() == h2.len(),
        forall|i: int| 0 <= i < h1.len() ==> ascii_lower(h1[i]) == ascii_lower(h2[i]),
    ensures
        spec_framing(h1) == spec_framing(h2),
{
    lemma_first_marked_case(h1, h2, 0, chunked_marker());
    lemma_first_marked_case(h1, h2, 0, content_length_marker());
}

proof fn lemma_first_marked_case(h1: Seq<Seq<u8>>, h2: Seq<Seq<u8>>, from: int, marker: Seq<u8>)
    requires
        0 <= from <= h1.len(),
        h1.len() == h2.len(),
        forall|i: int| 0 <= i < h1.len() ==> ascii_lower(h1[i]) == ascii_lower(h2[i]),
    ensures
        first_marked(h1, from, marker) == first_marked(h2, from, marker),
    decreases h1.len() - from,
{
    if from < h1.len() {
        lemma_first_marked_case(h1, h2, from + 1, marker);
    }
}

/// A response with neither a chunked nor a content-length header is framed
/// by the end of the stream: the remaining bytes are the body, and a
/// stream the peer closed immediately yields an empty body, not an error.
pub proof fn lemma_eof_framing(headers: Seq<Seq<u8>>, rest: Seq<u8>)
    requires
        forall|i: int|
            0 <= i < headers.len() ==> !contains_seq(ascii_lower(#[trigger] headers[i]), chunked_marker())
                && !contains_seq(ascii_lower(headers[i]), content_length_marker()),
    ensures
        spec_framing(headers) == Framing::Eof,
        spec_parse_body(headers, rest) == Some(
            if rest.len() == 0 {
                SpecBody::Empty
            } else {
                SpecBody::Regular(rest)
            },
        ),
{
    lemma_first_marked(headers, 0, chunked_marker());
    lemma_first_marked(headers, 0, content_length_marker());
}

} // verus!

