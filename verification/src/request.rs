//! The request side of the client: an immutable request value (address,
//! verb, endpoint path, headers, optional body) and its serialization to
//! wire bytes.
//!
//! A request that carries a body always advertises a Content-Length equal
//! to the exact byte length of that body; a bodyless request still ends in
//! a valid terminator, a lone CRLF, and omits Content-Length.

use vstd::prelude::*;
use vstd::string::StringExecFns;
use vstd::string::StringSliceAdditionalSpecFns;
use vstd::utf8::encode_utf8;
use crate::ascii::{ascii_lower, bytes_eq_ignore_case, dec_digits_of, dec_digits_string};

verus! {

/// The request verbs. Every one of them has a wire token.
#[derive(Debug, Clone, Copy, PartialEq, Eq, Structural)]
pub enum HttpMethod {
    Get,
    Post,
    Put,
    Delete,
}

pub open spec fn spec_method_token(m: HttpMethod) -> Seq<char> {
    match m {
        HttpMethod::Get => seq!['G', 'E', 'T'],
        HttpMethod::Post => seq!['P', 'O', 'S', 'T'],
        HttpMethod::Put => seq!['P', 'U', 'T'],
        HttpMethod::Delete => seq!['D', 'E', 'L', 'E', 'T', 'E'],
    }
}

impl HttpMethod {
    /// The verb's wire token; every verb defines one.
    pub fn wire_token(&self) -> (r: &'static str)
        ensures
            r@ == spec_method_token(*self),
    {
        match self {
            HttpMethod::Get => {
                proof {
                    reveal_strlit("GET");
                    assert("GET"@ =~= spec_method_token(HttpMethod::Get));
                }
                "GET"
            },
            HttpMethod::Post => {
                proof {
                    reveal_strlit("POST");
                    assert("POST"@ =~= spec_method_token(HttpMethod::Post));
                }
                "POST"
            },
            HttpMethod::Put => {
                proof {
                    reveal_strlit("PUT");
                    assert("PUT"@ =~= spec_method_token(HttpMethod::Put));
                }
                "PUT"
            },
            HttpMethod::Delete => {
                proof {
                    reveal_strlit("DELETE");
                    assert("DELETE"@ =~= spec_method_token(HttpMethod::Delete));
                }
                "DELETE"
            },
        }
    }
}

/// An immutable request specification: upstream address, verb, endpoint
/// path, header set, optional body bytes. Built once, serialized once.
#[derive(Debug)]
pub struct HttpRequest {
    pub addr: String,
    pub headers: Vec<(String, String)>,
    pub method: HttpMethod,
    pub body: Option<Vec<u8>>,
    pub endpoint: String,
}

/// The header set at the level of character sequences.
pub open spec fn spec_headers(hs: Seq<(String, String)>) -> Seq<(Seq<char>, Seq<char>)> {
    hs.map_values(|p: (String, String)| (p.0@, p.1@))
}

/// Whether two header names are the same header: equal up to ASCII case
/// (compared on their UTF-8 bytes).
pub open spec fn header_names_match(a: Seq<char>, b: Seq<char>) -> bool {
    ascii_lower(encode_utf8(a)) == ascii_lower(encode_utf8(b))
}

/// The index of the first header whose name matches `name` up to ASCII
/// case.
pub open spec fn first_header(hs: Seq<(Seq<char>, Seq<char>)>, from: int, name: Seq<char>) -> Option<
    int,
>
    decreases hs.len() - from
        when 0 <= from <= hs.len()
{
    if from >= hs.len() {
        None
    } else if header_names_match(hs[from].0, name) {
        Some(from)
    } else {
        first_header(hs, from + 1, name)
    }
}

/// Setting a header overwrites the entry whose name matches up to ASCII
/// case when one exists — last write wins, and the last write's spelling
/// of the name is the one kept for sending — and appends otherwise.
pub open spec fn spec_upsert(
    hs: Seq<(Seq<char>, Seq<char>)>,
    name: Seq<char>,
    value: Seq<char>,
) -> Seq<(Seq<char>, Seq<char>)> {
    match first_header(hs, 0, name) {
        None => hs.push((name, value)),
        Some(i) => hs.remove(i).push((name, value)),
    }
}

/// Header names are pairwise distinct up to ASCII case: one entry per
/// header.
pub open spec fn header_names_unique(hs: Seq<(Seq<char>, Seq<char>)>) -> bool {
    forall|i: int, j: int|
        0 <= i < j < hs.len() ==> !header_names_match(#[trigger] hs[i].0, #[trigger] hs[j].0)
}

proof fn lemma_first_header(hs: Seq<(Seq<char>, Seq<char>)>, from: int, name: Seq<char>)
    requires
        0 <= from <= hs.len(),
    ensures
        match first_header(hs, from, name) {
            Some(i) => from <= i < hs.len() && header_names_match(hs[i].0, name) && (forall|j: int|
                from <= j < i ==> !header_names_match(#[trigger] hs[j].0, name)),
            None => forall|j: int|
                from <= j < hs.len() ==> !header_names_match(#[trigger] hs[j].0, name),
        },
    decreases hs.len() - from,
{
    if from < hs.len() && !header_names_match(hs[from].0, name) {
        lemma_first_header(hs, from + 1, name);
    }
}

proof fn lemma_upsert_unique(hs: Seq<(Seq<char>, Seq<char>)>, name: Seq<char>, value: Seq<char>)
    requires
        header_names_unique(hs),
    ensures
        header_names_unique(spec_upsert(hs, name, value)),
{
    lemma_first_header(hs, 0, name);
    let r = spec_upsert(hs, name, value);
    match first_header(hs, 0, name) {
        None => {
            assert forall|i: int, j: int| 0 <= i < j < r.len() implies !header_names_match(
                #[trigger] r[i].0,
                #[trigger] r[j].0,
            ) by {
                if j == r.len() - 1 {
                    assert(r[i] == hs[i]);
                    assert(!header_names_match(hs[i].0, name));
                } else {
                    assert(r[i] == hs[i] && r[j] == hs[j]);
                }
            }
        },
        Some(k) => {
            let rem = hs.remove(k);
            assert forall|i: int, j: int| 0 <= i < j < r.len() implies !header_names_match(
                #[trigger] r[i].0,
                #[trigger] r[j].0,
            ) by {
                let oi: int = if i < k {
                    i
                } else {
                    i + 1
                };
                assert(r[i] == hs[oi]);
                if j == r.len() - 1 {
                    if oi < k {
                        assert(!header_names_match(hs[oi].0, name));
                    } else {
                        assert(!header_names_match(hs[k].0, hs[oi].0));
                        assert(header_names_match(hs[k].0, name));
                        assert(!header_names_match(hs[oi].0, name));
                    }
                } else {
                    let oj: int = if j < k {
                        j
                    } else {
                        j + 1
                    };
                    assert(r[j] == hs[oj]);
                    assert(!header_names_match(hs[oi].0, hs[oj].0));
                }
            }
        },
    }
}

pub open spec fn crlf() -> Seq<char> {
    seq!['\r', '\n']
}

/// The request line: `"<METHOD> <path> HTTP/1.1\r\n"`.
pub open spec fn spec_request_line(m: HttpMethod, endpoint: Seq<char>) -> Seq<char> {
    spec_method_token(m) + seq![' '] + endpoint + seq![' ', 'H', 'T', 'T', 'P', '/', '1', '.', '1']
        + crlf()
}

/// The header block: each header as `"<Name>: <value>\r\n"`, in stored
/// order.
pub open spec fn spec_header_lines(hs: Seq<(Seq<char>, Seq<char>)>) -> Seq<char>
    decreases hs.len(),
{
    if hs.len() == 0 {
        Seq::empty()
    } else {
        hs[0].0 + seq![':', ' '] + hs[0].1 + crlf() + spec_header_lines(
            hs.subrange(1, hs.len() as int),
        )
    }
}

/// `"Content-length: <N>\r\n\r\n"`, where `<N>` is the decimal rendering
/// of the exact body byte count.
pub open spec fn spec_content_length_block(body_len: nat) -> Seq<char> {
    seq!['C', 'o', 'n', 't', 'e', 'n', 't', '-', 'l', 'e', 'n', 'g', 't', 'h', ':', ' ']
        + dec_digits_of(body_len) + crlf() + crlf()
}

/// The serialized request text before the body: request line, headers,
/// then either the Content-Length advertisement (body present) or a lone
/// CRLF terminator (no body).
pub open spec fn spec_head(r: HttpRequest) -> Seq<char> {
    spec_request_line(r.method, r.endpoint@) + spec_header_lines(spec_headers(r.headers@)) + match r
        .body {
        Some(b) => spec_content_length_block(b@.len()),
        None => crlf(),
    }
}

/// The complete wire bytes: the UTF-8 bytes of the head, then the raw
/// body bytes when a body is present.
pub open spec fn spec_serialized(r: HttpRequest) -> Seq<u8> {
    encode_utf8(spec_head(r)) + match r.body {
        Some(b) => b@,
        None => Seq::<u8>::empty(),
    }
}

proof fn lemma_header_lines_take(hs: Seq<(Seq<char>, Seq<char>)>, i: int)
    requires
        0 <= i < hs.len(),
    ensures
        spec_header_lines(hs.subrange(0, i + 1)) == spec_header_lines(hs.subrange(0, i)) + (
        hs[i].0 + seq![':', ' '] + hs[i].1 + crlf()),
    decreases i,
{
    if i == 0 {
        let one = hs.subrange(0, 1);
        assert(one.subrange(1, one.len() as int) =~= Seq::<(Seq<char>, Seq<char>)>::empty());
        assert(spec_header_lines(one.subrange(1, one.len() as int)) == Seq::<char>::empty());
        assert(hs.subrange(0, 0) =~= Seq::<(Seq<char>, Seq<char>)>::empty());
        assert(spec_header_lines(one) =~= spec_header_lines(hs.subrange(0, 0)) + (hs[0].0 + seq![
            ':',
            ' ',
        ] + hs[0].1 + crlf()));
    } else {
        let a = hs.subrange(0, i + 1);
        let b = hs.subrange(0, i);
        let tail = hs.subrange(1, hs.len() as int);
        assert(a.subrange(1, a.len() as int) =~= tail.subrange(0, i));
        assert(b.subrange(1, b.len() as int) =~= tail.subrange(0, i - 1));
        lemma_header_lines_take(tail, i - 1);
        assert(tail[i - 1] == hs[i]);
        assert(spec_header_lines(a) =~= spec_header_lines(b) + (hs[i].0 + seq![':', ' '] + hs[i].1
            + crlf()));
    }
}

impl HttpRequest {
    /// Well-formedness: the header set holds one entry per header — names
    /// pairwise distinct up to ASCII case — as the constructor and the
    /// mutators keep it.
    pub open spec fn wf(self) -> bool {
        header_names_unique(spec_headers(self.headers@))
    }

    /// A fresh request for `addr`: verb GET, endpoint `/`, no headers, no
    /// body.
    pub fn new(addr: String) -> (r: HttpRequest)
        ensures
            r.addr == addr,
            r.headers@.len() == 0,
            r.method == HttpMethod::Get,
            r.body is None,
            r.endpoint@ == seq!['/'],
            r.wf(),
    {
        proof {
            reveal_strlit("/");
            assert("/"@ =~= seq!['/']);
        }
        HttpRequest {
            addr,
            headers: Vec::new(),
            method: HttpMethod::Get,
            body: None,
            endpoint: "/".to_owned(),
        }
    }

    /// Sets a header; a header already set under this name — matched up
    /// to ASCII case — is overwritten, and the spelling given here is the
    /// one kept for sending.
    #[verifier::loop_isolation(false)]
    pub fn set_header(self, name: &str, value: &str) -> (r: HttpRequest)
        ensures
            r.addr == self.addr,
            r.method == self.method,
            r.body == self.body,
            r.endpoint == self.endpoint,
            spec_headers(r.headers@) == spec_upsert(spec_headers(self.headers@), name@, value@),
            self.wf() ==> r.wf(),
    {
        let ghost orig = self;
        let HttpRequest { addr, mut headers, method, body, endpoint } = self;
        let name_s: String = name.to_owned();
        let value_s: String = value.to_owned();
        let ghost hv = spec_headers(headers@);
        let mut i: usize = 0;
        let n = headers.len();
        while i < n
            invariant
                i <= n == headers@.len(),
                hv == spec_headers(headers@),
                first_header(hv, 0, name_s@) == first_header(hv, i as int, name_s@),
                name_s@ == name@,
                value_s@ == value@,
                addr == orig.addr,
                method == orig.method,
                body == orig.body,
                endpoint == orig.endpoint,
                hv == spec_headers(orig.headers@),
            decreases n - i,
        {
            if bytes_eq_ignore_case(headers[i].0.as_str().as_bytes(), name_s.as_str().as_bytes()) {
                proof {
                    assert(header_names_match(spec_headers(headers@)[i as int].0, name@));
                }
                let ghost pre = headers@;
                let _ = headers.remove(i);
                headers.push((name_s, value_s));
                proof {
                    assert(first_header(hv, 0, name@) == Some(i as int));
                    assert(spec_headers(headers@) =~= spec_upsert(hv, name@, value@)) by {
                        assert(spec_headers(pre.remove(i as int)) =~= spec_headers(pre).remove(
                            i as int,
                        ));
                        assert(spec_headers(headers@) =~= spec_headers(pre).remove(i as int).push(
                            (name@, value@),
                        ));
                    }
                }
                proof {
                    if header_names_unique(hv) {
                        lemma_upsert_unique(hv, name@, value@);
                    }
                }
                return HttpRequest { addr, headers, method, body, endpoint };
            }
            i = i + 1;
        }
        headers.push((name_s, value_s));
        proof {
            assert(first_header(hv, 0, name@) is None);
            assert(spec_headers(headers@) =~= spec_upsert(hv, name@, value@));
            if header_names_unique(hv) {
                lemma_upsert_unique(hv, name@, value@);
            }
        }
        HttpRequest { addr, headers, method, body, endpoint }
    }

    /// Selects the request verb.
    pub fn set_method(self, method: HttpMethod) -> (r: HttpRequest)
        ensures
            r.addr == self.addr,
            r.headers == self.headers,
            r.method == method,
            r.body == self.body,
            r.endpoint == self.endpoint,
            r.wf() == self.wf(),
    {
        let HttpRequest { addr, headers, method: _, body, endpoint } = self;
        HttpRequest { addr, headers, method, body, endpoint }
    }

    /// Attaches the request body.
    pub fn set_body(self, body: Vec<u8>) -> (r: HttpRequest)
        ensures
            r.addr == self.addr,
            r.headers == self.headers,
            r.method == self.method,
            r.body matches Some(b) && b@ == body@,
            r.endpoint == self.endpoint,
            r.wf() == self.wf(),
    {
        let HttpRequest { addr, headers, method, body: _, endpoint } = self;
        HttpRequest { addr, headers, method, body: Some(body), endpoint }
    }

    /// Sets the endpoint path.
    pub fn set_endpoint(self, endpoint: &str) -> (r: HttpRequest)
        ensures
            r.addr == self.addr,
            r.headers == self.headers,
            r.method == self.method,
            r.body == self.body,
            r.endpoint@ == endpoint@,
            r.wf() == self.wf(),
    {
        let HttpRequest { addr, headers, method, body, endpoint: _ } = self;
        HttpRequest { addr, headers, method, body, endpoint: endpoint.to_owned() }
    }

    /// Serializes everything before the body: the request line, each
    /// header as `"<Name>: <value>\r\n"`, then the Content-Length
    /// advertisement when a body is present, or a lone CRLF when none is.
    pub fn serialize_head(&self) -> (r: String)
        ensures
            r@ == spec_head(*self),
    {
        proof {
            reveal_strlit(" ");
            reveal_strlit(" HTTP/1.1\r\n");
            reveal_strlit(": ");
            reveal_strlit("\r\n");
            reveal_strlit("Content-length: ");
            reveal_strlit("\r\n\r\n");
            assert(" "@ =~= seq![' ']);
            assert(" HTTP/1.1\r\n"@ =~= seq![' ', 'H', 'T', 'T', 'P', '/', '1', '.', '1'] + crlf());
            assert(": "@ =~= seq![':', ' ']);
            assert("\r\n"@ =~= crlf());
            assert("Content-length: "@ =~= seq![
                'C', 'o', 'n', 't', 'e', 'n', 't', '-', 'l', 'e', 'n', 'g', 't', 'h', ':', ' ',
            ]);
            assert("\r\n\r\n"@ =~= crlf() + crlf());
        }
        let mut s = String::new();
        s.append(self.method.wire_token());
        s.append(" ");
        s.append(self.endpoint.as_str());
        s.append(" HTTP/1.1\r\n");
        proof {
            assert(s@ =~= spec_request_line(self.method, self.endpoint@));
        }
        let ghost rl = spec_request_line(self.method, self.endpoint@);
        let ghost hv = spec_headers(self.headers@);
        let mut i: usize = 0;
        let n = self.headers.len();
        proof {
            assert(hv.subrange(0, 0) =~= Seq::<(Seq<char>, Seq<char>)>::empty());
            assert(s@ =~= rl + spec_header_lines(hv.subrange(0, 0)));
        }
        while i < n
            invariant
                i <= n == self.headers@.len(),
                hv == spec_headers(self.headers@),
                s@ == rl + spec_header_lines(hv.subrange(0, i as int)),
                ": "@ == seq![':', ' '],
                "\r\n"@ == crlf(),
            decreases n - i,
        {
            s.append(self.headers[i].0.as_str());
            s.append(": ");
            s.append(self.headers[i].1.as_str());
            s.append("\r\n");
            i = i + 1;
            proof {
                lemma_header_lines_take(hv, i - 1);
                assert(s@ =~= rl + spec_header_lines(hv.subrange(0, i as int)));
            }
        }
        proof {
            assert(hv.subrange(0, n as int) =~= hv);
        }
        match &self.body {
            Some(b) => {
                s.append("Content-length: ");
                let digits = dec_digits_string(b.len());
                s.append(digits.as_str());
                s.append("\r\n\r\n");
                proof {
                    assert(s@ =~= spec_head(*self));
                }
            },
            None => {
                s.append("\r\n");
                proof {
                    assert(s@ =~= spec_head(*self));
                }
            },
        }
        s
    }

    /// Serializes the complete request to wire bytes: the UTF-8 bytes of
    /// the head followed by the raw body bytes, when a body is present.
    pub fn serialize(&self) -> (out: Vec<u8>)
        ensures
            out@ == spec_serialized(*self),
    {
        let head = self.serialize_head();
        let mut out: Vec<u8> = Vec::new();
        out.extend_from_slice(head.as_str().as_bytes());
        match &self.body {
            Some(b) => {
                out.extend_from_slice(b.as_slice());
                proof {
                    assert(out@ =~= spec_serialized(*self));
                }
            },
            None => {
                proof {
                    assert(out@ =~= spec_serialized(*self));
                }
            },
        }
        out
    }
}

/// A request carrying a body always advertises a Content-Length equal to
/// the exact byte length of that body: its serialized head ends in the
/// Content-Length block whose digits render exactly the body's length.
pub proof fn lemma_content_length_exact(r: HttpRequest)
    requires
        r.body is Some,
    ensures
        spec_head(r) == spec_request_line(r.method, r.endpoint@) + spec_header_lines(
            spec_headers(r.headers@),
        ) + spec_content_length_block(r.body.unwrap()@.len()),
        spec_content_length_block(r.body.unwrap()@.len()) == seq![
            'C', 'o', 'n', 't', 'e', 'n', 't', '-', 'l', 'e', 'n', 'g', 't', 'h', ':', ' ',
        ] + dec_digits_of(r.body.unwrap()@.len()) + crlf() + crlf(),
{
}

} // verus!
