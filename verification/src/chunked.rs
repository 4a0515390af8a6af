//! The chunked transfer-encoding body decoder: an explicit state machine
//! that reconstructs a chunked HTTP body into an ordered sequence of whole
//! payload chunks.
//!
//! The decoder runs over an in-memory byte region (the part of the response
//! that follows the header block), so it can be driven on canned byte
//! sequences without a live socket. Each chunk is introduced by a line
//! holding its size in hexadecimal; a declared size of zero ends the body,
//! and nothing after that terminal chunk is consumed or interpreted.

use vstd::prelude::*;
use crate::ascii::{
    CR, LF, all_hex_digits, find_byte, find_byte_in, hex_value, hex_value_of, is_hex_digits,
    copy_range, lemma_find_byte, hex_digits_of, lemma_hex_digits_of, strip_cr,
};
use crate::errors::HttpError;

verus! {

/// The mathematical model of the decoder: the chunks encoded in `input`
/// starting at `pos`, together with the position just past the terminal
/// zero-size line, or `None` when the stream is malformed (a missing or
/// non-hexadecimal size line, a size that cannot be held, or a stream that
/// ends before a declared payload and its two-byte terminator).
pub open spec fn spec_decode_chunks(input: Seq<u8>, pos: int) -> Option<(Seq<Seq<u8>>, int)>
    decreases input.len() - pos
        when 0 <= pos <= input.len()
        via spec_decode_chunks_decreases
{
    match find_byte(input, pos, LF) {
        None => None,
        Some(e) => {
            let line = strip_cr(input.subrange(pos, e));
            if line.len() == 0 || !all_hex_digits(line) {
                None
            } else {
                let n = hex_value(line);
                if n > usize::MAX as nat {
                    None
                } else if n == 0 {
                    Some((Seq::empty(), e + 1))
                } else if e + 1 + n + 2 <= input.len() {
                    let payload = input.subrange(e + 1, e + 1 + n);
                    match spec_decode_chunks(input, e + 1 + n + 2) {
                        None => None,
                        Some((rest, end)) => Some((seq![payload] + rest, end)),
                    }
                } else {
                    None
                }
            }
        },
    }
}

#[via_fn]
proof fn spec_decode_chunks_decreases(input: Seq<u8>, pos: int) {
    lemma_find_byte(input, pos, LF);
}

/// The states of the decoding machine. `ReadPayload` carries the declared
/// size still to be read; after each payload the two terminator bytes are
/// consumed in `ReadTrailingCrlf`.
#[derive(Debug, Clone, Copy, PartialEq, Eq, Structural)]
pub enum DecodeState {
    ReadSize,
    ReadPayload(usize),
    ReadTrailingCrlf,
    Done,
}

pub open spec fn emitted_chunks(emitted: Option<Vec<u8>>) -> Seq<Seq<u8>> {
    match emitted {
        None => Seq::empty(),
        Some(c) => seq![c@],
    }
}

/// What remains to be decoded from `pos` on when the machine stands in
/// `state`: the chunks still to come and the final position.
pub open spec fn spec_decode_at(input: Seq<u8>, state: DecodeState, pos: int) -> Option<
    (Seq<Seq<u8>>, int),
> {
    match state {
        DecodeState::ReadSize => spec_decode_chunks(input, pos),
        DecodeState::ReadPayload(n) => if pos + n + 2 <= input.len() {
            match spec_decode_chunks(input, pos + n + 2) {
                None => None,
                Some((rest, end)) => Some((seq![input.subrange(pos, pos + n)] + rest, end)),
            }
        } else {
            None
        },
        DecodeState::ReadTrailingCrlf => if pos + 2 <= input.len() {
            spec_decode_chunks(input, pos + 2)
        } else {
            None
        },
        DecodeState::Done => Some((Seq::empty(), pos)),
    }
}

/// One transition of the decoding machine, following the cycle
/// `ReadSize` then `ReadPayload` then `ReadTrailingCrlf` then `ReadSize`
/// again, or `ReadSize` straight to `Done` on a declared size of zero.
/// The payload step emits exactly the declared bytes; the two-byte CRLF
/// after each payload is consumed by `ReadTrailingCrlf` and is never part
/// of any chunk. A malformed or truncated stream is rejected with a
/// `ProtocolError` exactly when the model rejects it at this state.
pub fn decode_step(state: DecodeState, input: &[u8], pos: usize) -> (r: Result<
    (DecodeState, usize, Option<Vec<u8>>),
    HttpError,
>)
    requires
        pos <= input@.len(),
        !(state is Done),
        state matches DecodeState::ReadPayload(n) ==> 1 <= n,
    ensures
        match r {
            Err(e) => spec_decode_at(input@, state, pos as int) is None && e is ProtocolError,
            Ok(step) => {
                &&& pos < step.1 <= input@.len()
                &&& (step.0 matches DecodeState::ReadPayload(n2) ==> 1 <= n2)
                &&& (state is ReadSize ==> ({
                    let e = find_byte(input@, pos as int, LF).unwrap();
                    let n = hex_value(strip_cr(input@.subrange(pos as int, e)));
                    &&& step.1 == e + 1
                    &&& step.2 is None
                    &&& (if n == 0 {
                        step.0 is Done
                    } else {
                        step.0 == DecodeState::ReadPayload(n as usize)
                    })
                }))
                &&& (state matches DecodeState::ReadPayload(n) ==> (step.0 is ReadTrailingCrlf
                    && step.1 == pos + n && (step.2 matches Some(c) && c@ == input@.subrange(
                    pos as int,
                    pos + n,
                ))))
                &&& (state is ReadTrailingCrlf ==> (step.0 is ReadSize && step.1 == pos + 2
                    && step.2 is None))
                &&& match spec_decode_at(input@, state, pos as int) {
                    None => spec_decode_at(input@, step.0, step.1 as int) is None,
                    Some((cs, end)) => match spec_decode_at(input@, step.0, step.1 as int) {
                        Some((cs2, end2)) => end2 == end && cs == emitted_chunks(step.2) + cs2,
                        None => false,
                    },
                }
            },
        },
{
    let input_len: usize = input.len();
    match state {
        DecodeState::ReadSize => {
            match find_byte_in(input, pos, LF) {
                None => Err(
                    HttpError::ProtocolError("chunk size line is not terminated".to_owned()),
                ),
                Some(e) => {
                    proof {
                        lemma_find_byte(input@, pos as int, LF);
                    }
                    let line_end: usize = if e > pos && input[e - 1] == CR {
                        e - 1
                    } else {
                        e
                    };
                    proof {
                        assert(strip_cr(input@.subrange(pos as int, e as int)) =~= input@.subrange(
                            pos as int,
                            line_end as int,
                        ));
                    }
                    let line: &[u8] = &input[pos..line_end];
                    if line.len() == 0 || !is_hex_digits(line) {
                        return Err(HttpError::ProtocolError(
                            "chunk size line is empty or not hexadecimal".to_owned(),
                        ));
                    }
                    match hex_value_of(line) {
                        None => Err(HttpError::ProtocolError(
                            "chunk size does not fit in usize".to_owned(),
                        )),
                        Some(n) => {
                            if n == 0 {
                                proof {
                                    assert(emitted_chunks(None::<Vec<u8>>) + Seq::<Seq<u8>>::empty()
                                        =~= Seq::<Seq<u8>>::empty());
                                }
                                Ok((DecodeState::Done, e + 1, None))
                            } else {
                                proof {
                                    let at_next = spec_decode_at(
                                        input@,
                                        DecodeState::ReadPayload(n),
                                        e + 1,
                                    );
                                    if at_next is Some {
                                        let cs2 = at_next.unwrap().0;
                                        assert(emitted_chunks(None::<Vec<u8>>) + cs2 =~= cs2);
                                    }
                                }
                                Ok((DecodeState::ReadPayload(n), e + 1, None))
                            }
                        },
                    }
                },
            }
        },
        DecodeState::ReadPayload(n) => {
            let payload_end: usize = match pos.checked_add(n) {
                Some(v) => v,
                None => {
                    return Err(HttpError::ProtocolError(
                        "chunked body ends before the declared payload".to_owned(),
                    ));
                },
            };
            if payload_end > input_len || input_len - payload_end < 2 {
                return Err(HttpError::ProtocolError(
                    "chunked body ends before the declared payload".to_owned(),
                ));
            }
            let chunk = copy_range(input, pos, payload_end);
            proof {
                let at_here = spec_decode_at(input@, state, pos as int);
                let at_next = spec_decode_at(
                    input@,
                    DecodeState::ReadTrailingCrlf,
                    payload_end as int,
                );
                if at_here is Some && at_next is Some {
                    let cs = at_here.unwrap().0;
                    let cs2 = at_next.unwrap().0;
                    assert(cs =~= emitted_chunks(Some(chunk)) + cs2);
                }
            }
            Ok((DecodeState::ReadTrailingCrlf, payload_end, Some(chunk)))
        },
        DecodeState::ReadTrailingCrlf => {
            if input_len - pos < 2 {
                return Err(HttpError::ProtocolError(
                    "chunked body ends before a chunk terminator".to_owned(),
                ));
            }
            proof {
                let at_next = spec_decode_at(input@, DecodeState::ReadSize, pos + 2);
                if at_next is Some {
                    let cs2 = at_next.unwrap().0;
                    assert(emitted_chunks(None::<Vec<u8>>) + cs2 =~= cs2);
                }
            }
            Ok((DecodeState::ReadSize, pos + 2, None))
        },
        DecodeState::Done => {
            proof {
                assert(false);
            }
            Err(HttpError::ProtocolError("decoder already finished".to_owned()))
        },
    }
}

/// Decodes a chunked body region into its ordered sequence of payload
/// chunks. The result is exactly what the model `spec_decode_chunks`
/// yields on `input`: the whole, correctly framed body, or a
/// `ProtocolError` with no partial chunks.
pub fn read_chunked_body(input: &[u8]) -> (r: Result<Vec<Vec<u8>>, HttpError>)
    ensures
        match spec_decode_chunks(input@, 0) {
            Some((cs, end)) => r matches Ok(v) && v.deep_view() == cs,
            None => r matches Err(e) && e is ProtocolError,
        },
{
    let mut state = DecodeState::ReadSize;
    let mut pos: usize = 0;
    let mut acc: Vec<Vec<u8>> = Vec::new();
    proof {
        assert(acc.deep_view() =~= Seq::<Seq<u8>>::empty());
        if spec_decode_chunks(input@, 0) is Some {
            let cs = spec_decode_chunks(input@, 0).unwrap().0;
            assert(acc.deep_view() + cs =~= cs);
        }
    }
    while state != DecodeState::Done
        invariant
            pos <= input@.len(),
            state matches DecodeState::ReadPayload(n) ==> 1 <= n,
            match spec_decode_chunks(input@, 0) {
                None => spec_decode_at(input@, state, pos as int) is None,
                Some((cs, end)) => match spec_decode_at(input@, state, pos as int) {
                    Some((cs2, end2)) => end2 == end && cs == acc.deep_view() + cs2,
                    None => false,
                },
            },
        decreases input@.len() - pos,
    {
        match decode_step(state, input, pos) {
            Err(e) => {
                return Err(e);
            },
            Ok((s2, pos2, emitted)) => {
                let ghost pre = acc.deep_view();
                let ghost em = emitted_chunks(emitted);
                proof {
                    if spec_decode_chunks(input@, 0) is Some {
                        let (cs, end) = spec_decode_at(input@, state, pos as int).unwrap();
                        let (cs2, end2) = spec_decode_at(input@, s2, pos2 as int).unwrap();
                        assert(pre + cs =~= (pre + em) + cs2);
                    }
                }
                match emitted {
                    Some(chunk) => {
                        let ghost cv = chunk@;
                        acc.push(chunk);
                        proof {
                            assert(acc.deep_view() =~~= pre.push(cv));
                            assert(pre.push(cv) =~= pre + em);
                        }
                    },
                    None => {
                        proof {
                            assert(pre + em =~= pre);
                        }
                    },
                }
                state = s2;
                pos = pos2;
            },
        }
    }
    proof {
        if spec_decode_chunks(input@, 0) is Some {
            let cs = spec_decode_chunks(input@, 0).unwrap().0;
            assert(acc.deep_view() + Seq::<Seq<u8>>::empty() =~= acc.deep_view());
            assert(cs =~= acc.deep_view());
        }
    }
    Ok(acc)
}

/// The canonical encoding of one chunk: its size in lower-case hexadecimal,
/// a CRLF, the payload bytes, a CRLF.
pub open spec fn encode_chunk(c: Seq<u8>) -> Seq<u8> {
    hex_digits_of(c.len()) + seq![CR, LF] + c + seq![CR, LF]
}

/// The canonical chunked encoding of a whole body: every chunk in order,
/// then the terminal zero-size line.
pub open spec fn encode_chunks(cs: Seq<Seq<u8>>) -> Seq<u8>
    decreases cs.len(),
{
    if cs.len() == 0 {
        seq![48u8, CR, LF]
    } else {
        encode_chunk(cs[0]) + encode_chunks(cs.subrange(1, cs.len() as int))
    }
}

proof fn lemma_find_byte_shift(a: Seq<u8>, t: Seq<u8>, pos: int, b: u8)
    requires
        0 <= pos <= t.len(),
    ensures
        find_byte(a + t, a.len() + pos, b) == match find_byte(t, pos, b) {
            Some(i) => Some(i + a.len()),
            None => None::<int>,
        },
{
    lemma_find_byte(t, pos, b);
    lemma_find_byte(a + t, a.len() + pos, b);
    match find_byte(t, pos, b) {
        Some(i) => {
            assert((a + t)[a.len() + i] == b);
            assert(forall|j: int| a.len() + pos <= j < a.len() + i ==> (a + t)[j] != b);
        },
        None => {
            assert(forall|j: int|
                a.len() + pos <= j < (a + t).len() ==> (a + t)[j] == t[j - a.len()]);
        },
    }
}

/// Decoding depends only on the bytes the decoder consumes: moving the
/// decoded region behind an arbitrary prefix shifts positions and nothing
/// else.
pub proof fn lemma_decode_shift(a: Seq<u8>, t: Seq<u8>, pos: int)
    requires
        0 <= pos <= t.len(),
    ensures
        spec_decode_chunks(a + t, a.len() + pos) == match spec_decode_chunks(t, pos) {
            Some((cs, end)) => Some((cs, end + a.len())),
            None => None::<(Seq<Seq<u8>>, int)>,
        },
    decreases t.len() - pos,
{
    lemma_find_byte_shift(a, t, pos, LF);
    match find_byte(t, pos, LF) {
        None => {},
        Some(e) => {
            lemma_find_byte(t, pos, LF);
            assert((a + t).subrange(a.len() + pos, a.len() + e) =~= t.subrange(pos, e));
            let line = strip_cr(t.subrange(pos, e));
            if line.len() > 0 && all_hex_digits(line) {
                let n = hex_value(line);
                if n != 0 && n <= usize::MAX as nat && e + 1 + n + 2 <= t.len() {
                    assert((a + t).subrange(a.len() + e + 1, a.len() + e + 1 + n) =~= t.subrange(
                        e + 1,
                        e + 1 + n,
                    ));
                    lemma_decode_shift(a, t, e + 1 + n + 2);
                }
            }
        },
    }
}

proof fn lemma_decode_end_bounds(s: Seq<u8>, pos: int)
    requires
        0 <= pos <= s.len(),
        spec_decode_chunks(s, pos) is Some,
    ensures
        pos < spec_decode_chunks(s, pos).unwrap().1 <= s.len(),
    decreases s.len() - pos,
{
    lemma_find_byte(s, pos, LF);
    let e = find_byte(s, pos, LF).unwrap();
    let line = strip_cr(s.subrange(pos, e));
    let n = hex_value(line);
    if n != 0 && e + 1 + n + 2 <= s.len() {
        lemma_decode_end_bounds(s, e + 1 + n + 2);
    }
}

proof fn lemma_find_byte_local(s1: Seq<u8>, s2: Seq<u8>, pos: int, b: u8)
    requires
        0 <= pos <= s1.len(),
        pos <= s2.len(),
        find_byte(s1, pos, b) is Some,
        find_byte(s1, pos, b).unwrap() + 1 <= s2.len(),
        s2.subrange(pos, find_byte(s1, pos, b).unwrap() + 1) == s1.subrange(
            pos,
            find_byte(s1, pos, b).unwrap() + 1,
        ),
    ensures
        find_byte(s2, pos, b) == find_byte(s1, pos, b),
{
    lemma_find_byte(s1, pos, b);
    lemma_find_byte(s2, pos, b);
    let e = find_byte(s1, pos, b).unwrap();
    assert forall|j: int| pos <= j <= e implies s2[j] == s1[j] by {
        assert(s2.subrange(pos, e + 1)[j - pos] == s1.subrange(pos, e + 1)[j - pos]);
    }
    assert(s2[e] == b);
}

/// Decoding consumes nothing past the terminal zero-size line: any two
/// streams that agree on the consumed region decode identically, whatever
/// follows that region in either of them.
pub proof fn lemma_decode_local(s1: Seq<u8>, s2: Seq<u8>, pos: int)
    requires
        0 <= pos <= s1.len(),
        pos <= s2.len(),
        spec_decode_chunks(s1, pos) is Some,
        spec_decode_chunks(s1, pos).unwrap().1 <= s2.len(),
        s2.subrange(pos, spec_decode_chunks(s1, pos).unwrap().1) == s1.subrange(
            pos,
            spec_decode_chunks(s1, pos).unwrap().1,
        ),
    ensures
        spec_decode_chunks(s2, pos) == spec_decode_chunks(s1, pos),
    decreases s1.len() - pos,
{
    let end = spec_decode_chunks(s1, pos).unwrap().1;
    lemma_decode_end_bounds(s1, pos);
    lemma_find_byte(s1, pos, LF);
    let e = find_byte(s1, pos, LF).unwrap();
    let line = strip_cr(s1.subrange(pos, e));
    let n = hex_value(line);
    if n == 0 {
        // end == e + 1
        lemma_find_byte_local(s1, s2, pos, LF);
        assert(s2.subrange(pos, e) =~= s1.subrange(pos, e)) by {
            assert forall|j: int| 0 <= j < e - pos implies s2.subrange(pos, e)[j] == s1.subrange(
                pos,
                e,
            )[j] by {
                assert(s2.subrange(pos, end)[j] == s1.subrange(pos, end)[j]);
            }
        }
    } else {
        // end comes from the recursive decode past this chunk
        let pos2 = e + 1 + n + 2;
        lemma_decode_end_bounds(s1, pos2);
        assert(e + 1 <= end);
        assert(s2.subrange(pos, e + 1) =~= s1.subrange(pos, e + 1)) by {
            assert forall|j: int| 0 <= j < e + 1 - pos implies #[trigger] s2.subrange(
                pos,
                e + 1,
            )[j] == s1.subrange(pos, e + 1)[j] by {
                assert(s2.subrange(pos, end)[j] == s1.subrange(pos, end)[j]);
            }
        }
        lemma_find_byte_local(s1, s2, pos, LF);
        assert(s2.subrange(pos, e) =~= s1.subrange(pos, e)) by {
            assert forall|j: int| 0 <= j < e - pos implies s2.subrange(pos, e)[j] == s1.subrange(
                pos,
                e,
            )[j] by {
                assert(s2.subrange(pos, end)[j] == s1.subrange(pos, end)[j]);
            }
        }
        assert(s2.subrange(e + 1, e + 1 + n) =~= s1.subrange(e + 1, e + 1 + n)) by {
            assert forall|j: int| 0 <= j < n implies #[trigger] s2.subrange(e + 1, e + 1 + n)[j]
                == s1.subrange(e + 1, e + 1 + n)[j] by {
                assert(s2.subrange(pos, end)[e + 1 + j - pos] == s1.subrange(pos, end)[e + 1 + j
                    - pos]);
            }
        }
        assert(s2.subrange(pos2, end) =~= s1.subrange(pos2, end)) by {
            assert forall|j: int| 0 <= j < end - pos2 implies s2.subrange(pos2, end)[j]
                == s1.subrange(pos2, end)[j] by {
                assert(s2.subrange(pos, end)[pos2 + j - pos] == s1.subrange(pos, end)[pos2 + j
                    - pos]);
            }
        }
        lemma_decode_local(s1, s2, pos2);
    }
}

/// Encoding a body as chunks and decoding it again yields exactly the same
/// chunks, whatever bytes follow the terminal zero-size line; those bytes
/// are never part of the output, and exactly the encoding is consumed.
pub proof fn lemma_chunked_round_trip(cs: Seq<Seq<u8>>, suffix: Seq<u8>)
    requires
        forall|i: int| 0 <= i < cs.len() ==> 1 <= (#[trigger] cs[i]).len() <= usize::MAX,
    ensures
        spec_decode_chunks(encode_chunks(cs) + suffix, 0) == Some(
            (cs, encode_chunks(cs).len() as int),
        ),
    decreases cs.len(),
{
    let input = encode_chunks(cs) + suffix;
    lemma_find_byte(input, 0, LF);
    if cs.len() == 0 {
        assert(input[0] == 48 && input[1] == CR && input[2] == LF);
        assert(find_byte(input, 0, LF) == Some(2int));
        let line = strip_cr(input.subrange(0, 2));
        assert(input.subrange(0, 2) =~= seq![48u8, CR]);
        assert(line =~= seq![48u8]);
        assert(hex_value(line) == 0) by {
            assert(hex_value(line.drop_last()) == 0);
        }
        assert(cs =~= Seq::<Seq<u8>>::empty());
        assert(encode_chunks(cs).len() == 3);
    } else {
        let c = cs[0];
        let rest = cs.subrange(1, cs.len() as int);
        let hd = hex_digits_of(c.len());
        lemma_hex_digits_of(c.len());
        let ec = encode_chunk(c);
        let tail = encode_chunks(rest) + suffix;
        assert(input =~= ec + tail);
        let ln = hd.len() as int;
        assert(forall|j: int| 0 <= j < ln ==> input[j] == hd[j]);
        assert(input[ln] == CR && input[ln + 1] == LF);
        assert(forall|j: int| 0 <= j < ln + 1 ==> input[j] != LF);
        assert(find_byte(input, 0, LF) == Some(ln + 1));
        let line = strip_cr(input.subrange(0, ln + 1));
        assert(input.subrange(0, ln + 1) =~= hd + seq![CR]);
        assert((hd + seq![CR]).drop_last() =~= hd);
        assert(line == hd);
        let n = hex_value(line);
        assert(n == c.len());
        assert(1 <= n <= usize::MAX as nat);
        assert(ec.len() == ln + 2 + c.len() + 2);
        assert(ln + 1 + 1 + n + 2 <= input.len());
        assert(input.subrange(ln + 2, ln + 2 + n) =~= c);
        assert(forall|i: int| 0 <= i < rest.len() ==> rest[i] == cs[i + 1]);
        lemma_chunked_round_trip(rest, suffix);
        lemma_decode_shift(ec, tail, 0);
        assert(ec + tail == input);
        assert(spec_decode_chunks(input, ec.len() as int) == Some(
            (rest, encode_chunks(rest).len() + ec.len() as int),
        ));
        assert(seq![c] + rest =~= cs);
        assert(encode_chunks(cs).len() == ec.len() + encode_chunks(rest).len());
        assert(spec_decode_chunks(input, 0) == Some((cs, encode_chunks(cs).len() as int)));
    }
}

/// A malformed first size line (unterminated, empty, or not hexadecimal)
/// fails the whole decode: no chunks at all are produced.
pub proof fn lemma_malformed_size_line_rejected(input: Seq<u8>)
    requires
        match find_byte(input, 0, LF) {
            None => true,
            Some(e) => {
                let line = strip_cr(input.subrange(0, e));
                line.len() == 0 || !all_hex_digits(line)
            },
        },
    ensures
        spec_decode_chunks(input, 0) is None,
{
}

} // verus!
