//! The upstream chat exchange: building the JSON request, judging the
//! response status, and reducing the streamed NDJSON reply — one JSON
//! document per decoded chunk — to the assembled reply text.

use vstd::prelude::*;
use vstd::string::StringExecFns;
use vstd::string::StringSliceAdditionalSpecFns;
use vstd::utf8::{encode_utf8, is_ascii_chars, is_ascii_chars_encode_utf8};
use crate::ascii::{ascii_lower, copy_range};
use crate::errors::HttpError;
use crate::json::{
    json_as_bool, json_as_str, json_get, json_parse, model_member, parsed_model, JsonModel,
};
use crate::request::{first_header, header_names_match, spec_headers, HttpMethod, HttpRequest};
use crate::response::{HttpBodyType, HttpResponse, SpecBody};

verus! {

/// One NDJSON line of the streamed reply, reduced to what the protocol
/// carries: a partial content segment, or the terminal completion marker.
#[derive(Debug, Clone, PartialEq, Eq)]
pub enum NdjsonLine {
    Content(String),
    Done,
}

/// The abstract value of one classified line.
pub enum SpecLine {
    Content(Seq<char>),
    Done,
}

impl View for NdjsonLine {
    type V = SpecLine;

    open spec fn view(&self) -> SpecLine {
        match self {
            NdjsonLine::Content(s) => SpecLine::Content(s@),
            NdjsonLine::Done => SpecLine::Done,
        }
    }
}

impl DeepView for NdjsonLine {
    type V = SpecLine;

    open spec fn deep_view(&self) -> SpecLine {
        self.view()
    }
}

pub open spec fn spec_line_content(l: SpecLine) -> Seq<char> {
    match l {
        SpecLine::Content(s) => s,
        SpecLine::Done => Seq::empty(),
    }
}

/// The index of the first completion marker at or after `from`.
pub open spec fn first_done(lines: Seq<SpecLine>, from: int) -> Option<int>
    decreases lines.len() - from
        when 0 <= from <= lines.len()
{
    if from >= lines.len() {
        None
    } else if lines[from] is Done {
        Some(from)
    } else {
        first_done(lines, from + 1)
    }
}

/// The concatenated content segments of the first `k` lines, in order.
pub open spec fn spec_concat_contents(lines: Seq<SpecLine>, k: int) -> Seq<char>
    decreases k
        when 0 <= k <= lines.len()
{
    if k <= 0 {
        Seq::empty()
    } else {
        spec_concat_contents(lines, k - 1) + spec_line_content(lines[k - 1])
    }
}

/// Whether a line's `done` member is the boolean `true`.
pub open spec fn spec_done_flag(doc: JsonModel) -> bool {
    match model_member(doc, "done"@) {
        Some(JsonModel::Bool(b)) => b,
        _ => false,
    }
}

/// What one NDJSON line classifies to, as a function of its bytes alone:
/// `None` for a line that is rejected (not one valid JSON document, or a
/// `message` without readable text under `content`); the completion
/// marker for a line whose `done` member is `true`; otherwise a content
/// segment — the `message.content` text, or nothing when `message` is
/// absent.
pub open spec fn spec_classify_line(bytes: Seq<u8>) -> Option<SpecLine> {
    match parsed_model(bytes) {
        None => None,
        Some(doc) => if spec_done_flag(doc) {
            Some(SpecLine::Done)
        } else {
            match model_member(doc, "message"@) {
                None => Some(SpecLine::Content(Seq::empty())),
                Some(msg) => match model_member(msg, "content"@) {
                    None => None,
                    Some(c) => match c {
                        JsonModel::Text(t) => Some(SpecLine::Content(t)),
                        _ => None,
                    },
                },
            }
        },
    }
}

/// Whether every chunk of the reply classifies as an NDJSON line.
pub open spec fn all_lines_classify(chunks: Seq<Seq<u8>>) -> bool {
    forall|i: int| 0 <= i < chunks.len() ==> spec_classify_line(#[trigger] chunks[i]) is Some
}

/// The classified lines of a reply whose chunks all classify.
pub open spec fn spec_lines_of(chunks: Seq<Seq<u8>>) -> Seq<SpecLine> {
    Seq::new(chunks.len(), |i: int| spec_classify_line(chunks[i]).unwrap())
}

/// What reducing a chunk sequence owes: the concatenated content before
/// the first completion marker, when every chunk classifies and a marker
/// exists; `None` — a protocol violation — otherwise.
pub open spec fn spec_reduce_outcome(chunks: Seq<Seq<u8>>) -> Option<Seq<char>> {
    if !all_lines_classify(chunks) {
        None
    } else {
        match first_done(spec_lines_of(chunks), 0) {
            None => None,
            Some(i) => Some(spec_concat_contents(spec_lines_of(chunks), i)),
        }
    }
}

/// Reduces a sequence of classified NDJSON lines: the reply text is the
/// concatenation of every content segment before the first completion
/// marker, in arrival order; a stream that ends without that marker is a
/// protocol violation.
pub fn reduce_lines(lines: &Vec<NdjsonLine>) -> (r: Result<String, HttpError>)
    ensures
        match first_done(lines.deep_view(), 0) {
            Some(i) => r matches Ok(s) && s@ == spec_concat_contents(lines.deep_view(), i),
            None => r matches Err(e) && e is ProtocolError,
        },
{
    let mut out = String::new();
    let mut i: usize = 0;
    let n = lines.len();
    while i < n
        invariant
            i <= n == lines@.len(),
            lines.deep_view().len() == lines@.len(),
            out@ == spec_concat_contents(lines.deep_view(), i as int),
            first_done(lines.deep_view(), 0) == first_done(lines.deep_view(), i as int),
        decreases n - i,
    {
        proof {
            assert(lines.deep_view()[i as int] == lines@[i as int]@);
        }
        match &lines[i] {
            NdjsonLine::Done => {
                return Ok(out);
            },
            NdjsonLine::Content(seg) => {
                out.append(seg.as_str());
            },
        }
        i = i + 1;
    }
    Err(HttpError::ProtocolError("stream ended without the completion marker".to_owned()))
}

/// Classifies one NDJSON line of the reply, handed over as the raw bytes
/// of one decoded chunk. A line that is not valid JSON is a protocol
/// violation; a line whose `done` member is `true` is the completion
/// marker; otherwise the line contributes its `message.content` text — an
/// absent `message` contributes nothing, but a `message` without readable
/// `content` text is a protocol violation.
pub fn classify_line(bytes: &[u8]) -> (r: Result<NdjsonLine, HttpError>)
    ensures
        match spec_classify_line(bytes@) {
            None => r matches Err(e) && e is ProtocolError,
            Some(l) => r matches Ok(line) && line@ == l,
        },
{
    let v = match json_parse(bytes) {
        Ok(v) => v,
        Err(_) => {
            return Err(HttpError::ProtocolError("response chunk is not valid JSON".to_owned()));
        },
    };
    let done: bool = match json_get(&v, "done") {
        Some(d) => match json_as_bool(d) {
            Some(b) => b,
            None => false,
        },
        None => false,
    };
    if done {
        return Ok(NdjsonLine::Done);
    }
    match json_get(&v, "message") {
        None => Ok(NdjsonLine::Content(String::new())),
        Some(m) => match json_get(m, "content") {
            None => Err(HttpError::ProtocolError("message object lacks content".to_owned())),
            Some(c) => match json_as_str(c) {
                Some(seg) => Ok(NdjsonLine::Content(seg)),
                None => Err(HttpError::ProtocolError("message content is not text".to_owned())),
            },
        },
    }
}

/// Reduces the decoded chunk sequence of a streamed reply: each chunk is
/// classified as one NDJSON line, and the content segments before the
/// first completion marker are concatenated in arrival order. Success is
/// owed exactly when every chunk classifies and a marker exists; every
/// failure — an unclassifiable line or a stream without the marker — is a
/// protocol violation, and no partial reply is handed back.
pub fn reduce_ndjson(chunks: &Vec<Vec<u8>>) -> (r: Result<String, HttpError>)
    ensures
        match spec_reduce_outcome(chunks.deep_view()) {
            Some(t) => r matches Ok(s) && s@ == t,
            None => r matches Err(e) && e is ProtocolError,
        },
{
    let mut lines: Vec<NdjsonLine> = Vec::new();
    let mut i: usize = 0;
    let n = chunks.len();
    while i < n
        invariant
            i <= n == chunks@.len(),
            chunks.deep_view().len() == chunks@.len(),
            lines@.len() == i,
            forall|j: int| 0 <= j < i ==> spec_classify_line(#[trigger] chunks.deep_view()[j])
                is Some,
            forall|j: int|
                0 <= j < i ==> #[trigger] lines@[j]@ == spec_classify_line(
                    chunks.deep_view()[j],
                ).unwrap(),
        decreases n - i,
    {
        proof {
            assert(chunks.deep_view()[i as int] =~= chunks@[i as int]@);
        }
        match classify_line(chunks[i].as_slice()) {
            Ok(l) => lines.push(l),
            Err(e) => {
                proof {
                    assert(!all_lines_classify(chunks.deep_view())) by {
                        assert(spec_classify_line(chunks.deep_view()[i as int]) is None);
                    }
                }
                return Err(e);
            },
        }
        i = i + 1;
    }
    proof {
        assert(lines.deep_view() =~= spec_lines_of(chunks.deep_view()));
    }
    reduce_lines(&lines)
}

/// The JSON body of the chat call, with the model identifier and the
/// user's text interpolated verbatim.
pub open spec fn spec_chat_body(model: Seq<char>, question: Seq<char>) -> Seq<char> {
    "{\n  \"model\": \""@ + model
        + "\",\n  \"messages\": [\n    {\n      \"role\": \"user\",\n      \"content\": \""@
        + question + "\"\n    }\n  ]\n}"@
}

/// Builds the JSON body of the chat call.
pub fn build_chat_body(model: &str, question: &str) -> (r: String)
    ensures
        r@ == spec_chat_body(model@, question@),
{
    let mut s = "{\n  \"model\": \"".to_owned();
    s.append(model);
    s.append("\",\n  \"messages\": [\n    {\n      \"role\": \"user\",\n      \"content\": \"");
    s.append(question);
    s.append("\"\n    }\n  ]\n}");
    proof {
        assert(s@ =~= spec_chat_body(model@, question@));
    }
    s
}

/// Builds the upstream chat request: a POST of the JSON body to the chat
/// endpoint, with the Host and Content-Type headers set and the body's
/// byte length advertised.
pub fn build_chat_request(addr: String, model: &str, question: &str) -> (r: HttpRequest)
    ensures
        r.addr == addr,
        r.method == HttpMethod::Post,
        r.endpoint@ == "/api/chat"@,
        spec_headers(r.headers@) == seq![
            ("Host"@, addr@), ("Content-Type"@, "application/json"@),
        ],
        r.body matches Some(b) && b@ == encode_utf8(spec_chat_body(model@, question@)),
        r.wf(),
{
    let body_text = build_chat_body(model, question);
    let body_bytes_slice: &[u8] = body_text.as_str().as_bytes();
    let body = copy_range(body_bytes_slice, 0, body_bytes_slice.len());
    proof {
        assert(body@ =~= encode_utf8(spec_chat_body(model@, question@)));
    }
    let host = addr.clone();
    let r2 = HttpRequest::new(addr).set_method(HttpMethod::Post).set_endpoint("/api/chat");
    proof {
        assert(spec_headers(r2.headers@) =~= Seq::<(Seq<char>, Seq<char>)>::empty());
    }
    let r3 = r2.set_header("Host", host.as_str());
    proof {
        assert(spec_headers(r3.headers@) =~= seq![("Host"@, host@)]);
    }
    let r4 = r3.set_header("Content-Type", "application/json");
    proof {
        reveal_strlit("Host");
        reveal_strlit("Content-Type");
        assert(!header_names_match("Host"@, "Content-Type"@)) by {
            assert(is_ascii_chars("Host"@));
            assert(is_ascii_chars("Content-Type"@));
            is_ascii_chars_encode_utf8("Host"@);
            is_ascii_chars_encode_utf8("Content-Type"@);
            assert(ascii_lower(encode_utf8("Host"@)).len() == 4);
            assert(ascii_lower(encode_utf8("Content-Type"@)).len() == 12);
        }
        assert(first_header(seq![("Host"@, host@)], 0, "Content-Type"@) is None) by {
            assert(first_header(seq![("Host"@, host@)], 1, "Content-Type"@) is None);
        }
        assert(spec_headers(r3.headers@).push(("Content-Type"@, "application/json"@)) =~= seq![
            ("Host"@, host@), ("Content-Type"@, "application/json"@),
        ]);
        assert(spec_headers(r4.headers@) =~= seq![
            ("Host"@, host@), ("Content-Type"@, "application/json"@),
        ]);
    }
    let r = r4.set_body(body);
    r
}

/// Judges one parsed response of the chat call. A non-2xx status is an
/// upstream failure carrying the numeric code and the raw body bytes when
/// a regular body was available. A successful chunked reply is reduced as
/// NDJSON — the reply text is owed exactly when every chunk classifies
/// and the completion marker is present; a successful reply in any other
/// framing is a protocol violation, since the upstream streams its reply
/// in chunks.
pub fn interpret_chat_response(resp: HttpResponse) -> (r: Result<String, HttpError>)
    ensures
        !(resp.status is Success) ==> (r matches Err(e) && e matches HttpError::UpstreamError(
            code,
            body,
        ) && code == resp.status.spec_code() && body@ == (match resp.body@ {
            SpecBody::Regular(b) => b,
            _ => Seq::<u8>::empty(),
        })),
        resp.status is Success && !(resp.body is Chunked) ==> (r matches Err(e)
            && e is ProtocolError),
        resp.status is Success && resp.body is Chunked ==> (match resp.body@ {
            SpecBody::Chunked(cs) => match spec_reduce_outcome(cs) {
                Some(t) => r matches Ok(s) && s@ == t,
                None => r matches Err(e) && e is ProtocolError,
            },
            _ => false,
        }),
{
    let HttpResponse { status, body } = resp;
    if !status.is_success() {
        let raw: Vec<u8> = match body {
            HttpBodyType::Regular(b) => b,
            _ => Vec::new(),
        };
        proof {
            assert(raw@ =~= (match resp.body@ {
                SpecBody::Regular(b) => b,
                _ => Seq::<u8>::empty(),
            }));
        }
        return Err(HttpError::UpstreamError(status.code(), raw));
    }
    match body {
        HttpBodyType::Chunked(chunks) => reduce_ndjson(&chunks),
        _ => Err(HttpError::ProtocolError(
            "successful chat response was not chunk-framed".to_owned(),
        )),
    }
}

} // verus!
