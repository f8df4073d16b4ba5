//! Zero-copy decoding of wire frames out of a request buffer.
//!
//! A decoded frame holds byte ranges into the caller's buffer rather than
//! copies of the payload bytes.  The decoder accepts exactly the canonical
//! encodings described by `resp::spec_encode`: its success and its failure
//! are both pinned down against `resp::frame_at`.

use vstd::prelude::*;
use crate::num::dec_of;
use crate::num::lemma_dec_of_canon;
use crate::num::lemma_dec_val_of;
use crate::num::parse_canon_dec;
use crate::resp::Frame;
use crate::resp::crlf;
use crate::resp::no_cr;
use crate::resp::frame_at;
use crate::resp::spec_encode;
use crate::resp::encode_seq;
use crate::resp::decodable;
use crate::resp::decodable_seq;
use crate::resp::lemma_frame_tag;
use crate::resp::lemma_shape_line;
use crate::resp::lemma_shape_bulk;
use crate::resp::lemma_shape_null;
use crate::resp::lemma_shape_array;
use crate::resp::lemma_first_cr_position;
use crate::resp::lemma_dec_of_no_cr;
use crate::resp::lemma_assemble_line;
use crate::resp::lemma_assemble_header;
use crate::resp::lemma_concat3_at;
use crate::resp::lemma_encode_seq_push;
use crate::resp::lemma_decodable_seq_push;
use crate::resp::lemma_frames_at_prefix;
use crate::resp::lemma_encode_seq_min_len;

verus! {

/// A byte range of the request buffer: start index, end index.
#[derive(Debug)]
pub struct RespSplit(pub usize, pub usize);

/// One decoded frame, referencing the buffer it was decoded from.  The
/// decoder itself never yields `Error`: an error frame is not a request.
#[derive(Debug)]
pub enum RedisResp {
    SimpleString(RespSplit),
    Integer(RespSplit),
    Error(RespSplit),
    BulkString(RespSplit),
    NullBulkString,
    Arrays(Vec<RedisResp>),
}

/// Why a buffer failed to decode.
#[derive(Debug, PartialEq, Eq, Structural, Clone, Copy)]
pub enum DecodeError {
    /// The leading byte is not one of the four request frame tags.
    UnknownTag,
    /// The buffer ends before the frame is complete.
    Truncated,
    /// A length field is not a canonical decimal, or a line terminator is
    /// missing where one is required.
    Malformed,
}

/// The frame a decoded value stands for, with its ranges read back from the
/// buffer `s`.
pub open spec fn resp_model(r: RedisResp, s: Seq<u8>) -> Frame
    decreases r,
{
    match r {
        RedisResp::SimpleString(sp) => Frame::SimpleString(s.subrange(sp.0 as int, sp.1 as int)),
        RedisResp::Integer(sp) => Frame::Integer(s.subrange(sp.0 as int, sp.1 as int)),
        RedisResp::Error(sp) => Frame::Error(s.subrange(sp.0 as int, sp.1 as int)),
        RedisResp::BulkString(sp) => Frame::BulkString(s.subrange(sp.0 as int, sp.1 as int)),
        RedisResp::NullBulkString => Frame::NullBulkString,
        RedisResp::Arrays(elems) => Frame::Arrays(resp_models(elems@, s)),
    }
}

pub open spec fn resp_models(rs: Seq<RedisResp>, s: Seq<u8>) -> Seq<Frame>
    decreases rs,
{
    if rs.len() == 0 {
        Seq::empty()
    } else {
        resp_models(rs.drop_last(), s).push(resp_model(rs.last(), s))
    }
}

/// All ranges of a decoded value lie inside the buffer.
pub open spec fn resp_wf(r: RedisResp, s: Seq<u8>) -> bool
    decreases r,
{
    match r {
        RedisResp::SimpleString(sp) => sp.0 <= sp.1 <= s.len(),
        RedisResp::Integer(sp) => sp.0 <= sp.1 <= s.len(),
        RedisResp::Error(sp) => sp.0 <= sp.1 <= s.len(),
        RedisResp::BulkString(sp) => sp.0 <= sp.1 <= s.len(),
        RedisResp::NullBulkString => true,
        RedisResp::Arrays(elems) => resp_wfs(elems@, s),
    }
}

pub open spec fn resp_wfs(rs: Seq<RedisResp>, s: Seq<u8>) -> bool
    decreases rs,
{
    rs.len() == 0 || (resp_wfs(rs.drop_last(), s) && resp_wf(rs.last(), s))
}

pub open spec fn is_tag(b: u8) -> bool {
    b == 43 || b == 58 || b == 36 || b == 42
}

/// The length of the run of models equals the length of the run.
pub proof fn lemma_resp_models_len(rs: Seq<RedisResp>, s: Seq<u8>)
    ensures
        resp_models(rs, s).len() == rs.len(),
    decreases rs,
{
    if rs.len() > 0 {
        lemma_resp_models_len(rs.drop_last(), s);
    }
}

/// Each model in the run is the model of the element at its place.
pub proof fn lemma_resp_models_index(rs: Seq<RedisResp>, s: Seq<u8>, i: int)
    requires
        0 <= i < rs.len(),
    ensures
        resp_models(rs, s).len() == rs.len(),
        resp_models(rs, s)[i] == resp_model(rs[i], s),
    decreases rs,
{
    lemma_resp_models_len(rs, s);
    if i < rs.len() - 1 {
        assert(rs.drop_last()[i] == rs[i]);
        lemma_resp_models_index(rs.drop_last(), s, i);
    }
}

/// Relies on memchr::memchr: returns the index of the first occurrence of
/// `needle` in `haystack`, or `None` when `haystack` does not contain it.
#[verifier::external_body]
fn find_byte(needle: u8, haystack: &[u8]) -> (r: Option<usize>)
    ensures
        match r {
            Some(i) => {
                &&& i < haystack@.len()
                &&& haystack@[i as int] == needle
                &&& forall|j: int| 0 <= j < i ==> haystack@[j] != needle
            },
            None => forall|j: int| 0 <= j < haystack@.len() ==> haystack@[j] != needle,
        },
{
    memchr::memchr(needle, haystack)
}

/// Finds the first carriage return at or after `from`, if any.
fn find_cr(bytes: &[u8], from: usize) -> (r: Option<usize>)
    requires
        from <= bytes@.len(),
    ensures
        match r {
            Some(i) => {
                &&& from <= i < bytes@.len()
                &&& bytes@[i as int] == 13
                &&& forall|j: int| from <= j < i ==> bytes@[j] != 13
            },
            None => forall|j: int| from <= j < bytes@.len() ==> bytes@[j] != 13,
        },
{
    let tail = vstd::slice::slice_subrange(bytes, from, bytes.len());
    match find_byte(13, tail) {
        Some(i) => {
            proof {
                assert forall|j: int| from <= j < from + i implies bytes@[j] != 13 by {
                    assert(tail@[j - from] == bytes@[j]);
                }
            }
            Some(from + i)
        },
        None => {
            proof {
                assert forall|j: int| from <= j < bytes@.len() implies bytes@[j] != 13 by {
                    assert(tail@[j - from] == bytes@[j]);
                }
            }
            None
        },
    }
}

/// Decodes the frame that starts at `start`.  On success the decoded value
/// stands for exactly the consumed bytes `[start, next)`; on failure no
/// decodable frame starts at `start` at all.
#[verifier::loop_isolation(false)]
#[verifier::rlimit(100)]
pub fn decode(bytes: &[u8], start: usize) -> (r: Result<(RedisResp, usize), DecodeError>)
    ensures
        match r {
            Ok((resp, next)) => {
                &&& resp_wf(resp, bytes@)
                &&& start < next <= bytes@.len()
                &&& frame_at(bytes@, start as int, resp_model(resp, bytes@), next as int)
            },
            Err(_) => forall|v: Frame, n: int| !frame_at(bytes@, start as int, v, n),
        },
        start >= bytes@.len() ==> r == Err::<(RedisResp, usize), DecodeError>(
            DecodeError::Truncated,
        ),
        start < bytes@.len() && !is_tag(bytes@[start as int]) ==> r == Err::<
            (RedisResp, usize),
            DecodeError,
        >(DecodeError::UnknownTag),
    decreases bytes@.len() - start,
{
    let ghost s = bytes@;
    if start >= bytes.len() {
        proof {
            assert forall|v: Frame, n: int| !frame_at(s, start as int, v, n) by {
                if frame_at(s, start as int, v, n) {
                    lemma_frame_tag(s, start as int, v, n);
                }
            }
        }
        return Err(DecodeError::Truncated);
    }
    let tag = bytes[start];
    if tag == 43 || tag == 58 {
        // Simple string or integer: a tag, a line, a terminator.
        match find_cr(bytes, start + 1) {
            None => {
                proof {
                    assert forall|v: Frame, n: int| !frame_at(s, start as int, v, n) by {
                        if frame_at(s, start as int, v, n) {
                            lemma_frame_tag(s, start as int, v, n);
                            match v {
                                Frame::SimpleString(p) => {
                                    lemma_shape_line(s, start as int, n, 43, p);
                                },
                                Frame::Integer(p) => {
                                    lemma_shape_line(s, start as int, n, 58, p);
                                },
                                _ => {},
                            }
                        }
                    }
                }
                return Err(DecodeError::Truncated);
            },
            Some(e) => {
                proof {
                    assert forall|v: Frame, n: int|
                        frame_at(s, start as int, v, n) implies n == e + 2 by {
                        lemma_frame_tag(s, start as int, v, n);
                        let p = if v is SimpleString {
                            v->SimpleString_0
                        } else {
                            v->Integer_0
                        };
                        if v is SimpleString {
                            lemma_shape_line(s, start as int, n, 43, p);
                        } else {
                            lemma_shape_line(s, start as int, n, 58, p);
                        }
                        lemma_first_cr_position(s, start as int + 1, p, e as int);
                    }
                }
                if bytes.len() - e < 2 {
                    proof {
                        assert forall|v: Frame, n: int| !frame_at(s, start as int, v, n) by {
                            if frame_at(s, start as int, v, n) {
                                lemma_frame_tag(s, start as int, v, n);
                            }
                        }
                    }
                    return Err(DecodeError::Truncated);
                }
                if bytes[e + 1] != 10 {
                    proof {
                        assert forall|v: Frame, n: int| !frame_at(s, start as int, v, n) by {
                            if frame_at(s, start as int, v, n) {
                                lemma_frame_tag(s, start as int, v, n);
                                match v {
                                    Frame::SimpleString(p) => {
                                        lemma_shape_line(s, start as int, n, 43, p);
                                    },
                                    Frame::Integer(p) => {
                                        lemma_shape_line(s, start as int, n, 58, p);
                                    },
                                    _ => {},
                                }
                            }
                        }
                    }
                    return Err(DecodeError::Malformed);
                }
                let resp = if tag == 43 {
                    RedisResp::SimpleString(RespSplit(start + 1, e))
                } else {
                    RedisResp::Integer(RespSplit(start + 1, e))
                };
                proof {
                    let p = s.subrange(start as int + 1, e as int);
                    assert(no_cr(p)) by {
                        assert forall|j: int| 0 <= j < p.len() implies #[trigger] p[j] != 13 by {
                            assert(p[j] == s[start + 1 + j]);
                        }
                    }
                    lemma_assemble_line(s, start as int, e as int + 2, tag, p);
                    assert(resp_model(resp, s) == if tag == 43 {
                        Frame::SimpleString(p)
                    } else {
                        Frame::Integer(p)
                    });
                    assert(frame_at(s, start as int, resp_model(resp, s), e as int + 2));
                }
                return Ok((resp, e + 2));
            },
        }
    } else if tag == 36 {
        // Bulk string: a length line, then the payload, then a terminator;
        // declared length -1 is the null bulk string.
        match find_cr(bytes, start + 1) {
            None => {
                proof {
                    assert forall|v: Frame, n: int| !frame_at(s, start as int, v, n) by {
                        if frame_at(s, start as int, v, n) {
                            lemma_frame_tag(s, start as int, v, n);
                            match v {
                                Frame::BulkString(b) => {
                                    lemma_shape_bulk(s, start as int, n, b);
                                },
                                Frame::NullBulkString => {
                                    lemma_shape_null(s, start as int, n);
                                },
                                _ => {},
                            }
                        }
                    }
                }
                return Err(DecodeError::Truncated);
            },
            Some(e) => {
                proof {
                    assert forall|v: Frame, n: int|
                        frame_at(s, start as int, v, n) && v is BulkString implies e == start + 1
                        + dec_of((v->BulkString_0).len()).len() && s.subrange(
                        start as int + 1,
                        e as int,
                    ) == dec_of((v->BulkString_0).len()) by {
                        let b = v->BulkString_0;
                        lemma_shape_bulk(s, start as int, n, b);
                        lemma_dec_of_no_cr(b.len());
                        lemma_first_cr_position(s, start as int + 1, dec_of(b.len()), e as int);
                    }
                    assert forall|v: Frame, n: int|
                        frame_at(s, start as int, v, n) && v is NullBulkString implies e == start
                        + 3 && s[start as int + 1] == 45 && s[start as int + 2] == 49 && n == e
                        + 2 by {
                        lemma_shape_null(s, start as int, n);
                        let p = seq![45u8, 49u8];
                        assert(s.subrange(start as int + 1, start as int + 3) =~= p) by {
                            assert(s.subrange(start as int + 1, start as int + 3)[0] == s[start
                                as int + 1]);
                            assert(s.subrange(start as int + 1, start as int + 3)[1] == s[start
                                as int + 2]);
                        }
                        assert(no_cr(p));
                        lemma_first_cr_position(s, start as int + 1, p, e as int);
                    }
                }
                if e - start == 3 && bytes[start + 1] == 45 && bytes[start + 2] == 49 {
                    // Null bulk string.
                    if bytes.len() - e < 2 {
                        proof {
                            assert forall|v: Frame, n: int| !frame_at(s, start as int, v, n) by {
                                if frame_at(s, start as int, v, n) {
                                    lemma_frame_tag(s, start as int, v, n);
                                    if v is BulkString {
                                        let b = v->BulkString_0;
                                        lemma_dec_of_canon(b.len());
                                        assert(s.subrange(start as int + 1, e as int)[0] == s[start
                                            as int + 1]);
                                        assert(dec_of(b.len())[0] == s[start as int + 1]);
                                    } else {
                                        lemma_shape_null(s, start as int, n);
                                    }
                                }
                            }
                        }
                        return Err(DecodeError::Truncated);
                    }
                    if bytes[e + 1] != 10 {
                        proof {
                            assert forall|v: Frame, n: int| !frame_at(s, start as int, v, n) by {
                                if frame_at(s, start as int, v, n) {
                                    lemma_frame_tag(s, start as int, v, n);
                                    if v is BulkString {
                                        let b = v->BulkString_0;
                                        lemma_dec_of_canon(b.len());
                                        assert(s.subrange(start as int + 1, e as int)[0] == s[start
                                            as int + 1]);
                                        assert(dec_of(b.len())[0] == s[start as int + 1]);
                                    } else {
                                        lemma_shape_null(s, start as int, n);
                                    }
                                }
                            }
                        }
                        return Err(DecodeError::Malformed);
                    }
                    proof {
                        assert(s.subrange(start as int, start as int + 5) =~= spec_encode(
                            Frame::NullBulkString,
                        )) by {
                            assert(s.subrange(start as int, start as int + 5)[0] == s[start as int]);
                            assert(s.subrange(start as int, start as int + 5)[1] == s[start as int
                                + 1]);
                            assert(s.subrange(start as int, start as int + 5)[2] == s[start as int
                                + 2]);
                            assert(s.subrange(start as int, start as int + 5)[3] == s[start as int
                                + 3]);
                            assert(s.subrange(start as int, start as int + 5)[4] == s[start as int
                                + 4]);
                        }
                        assert(frame_at(s, start as int, Frame::NullBulkString, start as int + 5));
                    }
                    return Ok((RedisResp::NullBulkString, e + 2));
                }
                match parse_canon_dec(bytes, start + 1, e, bytes.len()) {
                    None => {
                        proof {
                            assert forall|v: Frame, n: int| !frame_at(s, start as int, v, n) by {
                                if frame_at(s, start as int, v, n) {
                                    lemma_frame_tag(s, start as int, v, n);
                                    if v is BulkString {
                                        let b = v->BulkString_0;
                                        lemma_shape_bulk(s, start as int, n, b);
                                    }
                                }
                            }
                        }
                        return Err(DecodeError::Malformed);
                    },
                    Some(len) => {
                        proof {
                            assert forall|v: Frame, n: int|
                                frame_at(s, start as int, v, n) implies v == Frame::BulkString(
                                s.subrange(e as int + 2, e as int + 2 + len),
                            ) && n == e + 4 + len by {
                                lemma_frame_tag(s, start as int, v, n);
                                if v is NullBulkString {
                                    lemma_dec_of_canon(len as nat);
                                    assert(s.subrange(start as int + 1, e as int)[0] == s[start
                                        as int + 1]);
                                    assert(dec_of(len as nat)[0] == s[start as int + 1]);
                                    assert(false);
                                }
                                let b = v->BulkString_0;
                                lemma_shape_bulk(s, start as int, n, b);
                                lemma_dec_val_of(b.len());
                                lemma_dec_val_of(len as nat);
                                assert(b.len() == len);
                                assert(b == s.subrange(e as int + 2, e as int + 2 + len));
                            }
                        }
                        if bytes.len() - e < 2 || bytes.len() - e - 2 < len || bytes.len() - e - 2
                            - len < 2 {
                            proof {
                                assert forall|v: Frame, n: int| !frame_at(s, start as int, v, n) by {
                                    if frame_at(s, start as int, v, n) {
                                        assert(n == e + 4 + len);
                                    }
                                }
                            }
                            return Err(DecodeError::Truncated);
                        }
                        if bytes[e + 1] != 10 || bytes[e + 2 + len] != 13 || bytes[e + 3 + len]
                            != 10 {
                            proof {
                                assert forall|v: Frame, n: int| !frame_at(s, start as int, v, n) by {
                                    if frame_at(s, start as int, v, n) {
                                        let b = s.subrange(e as int + 2, e as int + 2 + len);
                                        lemma_shape_bulk(s, start as int, n, b);
                                    }
                                }
                            }
                            return Err(DecodeError::Malformed);
                        }
                        proof {
                            let b = s.subrange(e as int + 2, e as int + 2 + len);
                            let t = dec_of(len as nat);
                            let n = e as int + 4 + len;
                            assert(s.subrange(e as int + 2, n) =~= b + crlf()) by {
                                assert forall|k: int| 0 <= k < len + 2 implies s.subrange(
                                    e as int + 2,
                                    n,
                                )[k] == (b + crlf())[k] by {
                                    assert(s.subrange(e as int + 2, n)[k] == s[e + 2 + k]);
                                    if k < len {
                                        assert(b[k] == s[e + 2 + k]);
                                    }
                                }
                            }
                            lemma_assemble_header(s, start as int, n, 36, t, b + crlf());
                            assert(spec_encode(Frame::BulkString(b)) =~= seq![36u8] + t + (crlf()
                                + (b + crlf())));
                            assert(frame_at(s, start as int, Frame::BulkString(b), n));
                        }
                        return Ok((RedisResp::BulkString(RespSplit(e + 2, e + 2 + len)), e + 4 + len));
                    },
                }
            },
        }
    } else if tag == 42 {
        // Array: a count line, then that many frames in sequence.
        match find_cr(bytes, start + 1) {
            None => {
                proof {
                    assert forall|v: Frame, n: int| !frame_at(s, start as int, v, n) by {
                        if frame_at(s, start as int, v, n) {
                            lemma_frame_tag(s, start as int, v, n);
                            let items = v->Arrays_0;
                            lemma_shape_array(s, start as int, n, items);
                        }
                    }
                }
                return Err(DecodeError::Truncated);
            },
            Some(e) => {
                proof {
                    assert forall|v: Frame, n: int|
                        frame_at(s, start as int, v, n) implies v is Arrays && e == start + 1
                        + dec_of((v->Arrays_0).len()).len() && s.subrange(start as int + 1, e as int)
                        == dec_of((v->Arrays_0).len()) by {
                        lemma_frame_tag(s, start as int, v, n);
                        let items = v->Arrays_0;
                        lemma_shape_array(s, start as int, n, items);
                        lemma_dec_of_no_cr(items.len());
                        lemma_first_cr_position(s, start as int + 1, dec_of(items.len()), e as int);
                    }
                }
                if bytes.len() - e < 2 {
                    proof {
                        assert forall|v: Frame, n: int| !frame_at(s, start as int, v, n) by {
                            if frame_at(s, start as int, v, n) {
                                let items = v->Arrays_0;
                                lemma_shape_array(s, start as int, n, items);
                            }
                        }
                    }
                    return Err(DecodeError::Truncated);
                }
                if bytes[e + 1] != 10 {
                    proof {
                        assert forall|v: Frame, n: int| !frame_at(s, start as int, v, n) by {
                            if frame_at(s, start as int, v, n) {
                                let items = v->Arrays_0;
                                lemma_shape_array(s, start as int, n, items);
                            }
                        }
                    }
                    return Err(DecodeError::Malformed);
                }
                match parse_canon_dec(bytes, start + 1, e, bytes.len()) {
                    None => {
                        proof {
                            assert forall|v: Frame, n: int| !frame_at(s, start as int, v, n) by {
                                if frame_at(s, start as int, v, n) {
                                    let items = v->Arrays_0;
                                    lemma_shape_array(s, start as int, n, items);
                                    lemma_encode_seq_min_len(items);
                                }
                            }
                        }
                        return Err(DecodeError::Malformed);
                    },
                    Some(count) => {
                        proof {
                            assert forall|v: Frame, n: int|
                                frame_at(s, start as int, v, n) implies v is Arrays && (
                            v->Arrays_0).len() == count by {
                                lemma_dec_val_of((v->Arrays_0).len());
                                lemma_dec_val_of(count as nat);
                            }
                        }
                        let ghost h = e as int + 2;
                        let mut elems: Vec<RedisResp> = Vec::new();
                        let mut pos: usize = e + 2;
                        let mut i: usize = 0;
                        proof {
                            assert(resp_models(elems@, s) =~= Seq::<Frame>::empty());
                            assert(encode_seq(Seq::<Frame>::empty()) =~= Seq::<u8>::empty());
                            assert(s.subrange(h, pos as int) =~= Seq::<u8>::empty());
                        }
                        while i < count
                            invariant
                                start < e,
                                e as int + 2 == h,
                                h <= pos <= bytes@.len(),
                                s == bytes@,
                                i <= count,
                                elems@.len() == i,
                                resp_wfs(elems@, s),
                                resp_models(elems@, s).len() == i,
                                decodable_seq(resp_models(elems@, s)),
                                encode_seq(resp_models(elems@, s)) == s.subrange(h, pos as int),
                            decreases count - i,
                        {
                            match decode(bytes, pos) {
                                Err(err) => {
                                    proof {
                                        let ms = resp_models(elems@, s);
                                        assert forall|v: Frame, n: int|
                                            !frame_at(s, start as int, v, n) by {
                                            if frame_at(s, start as int, v, n) {
                                                let items = v->Arrays_0;
                                                lemma_shape_array(s, start as int, n, items);
                                                lemma_frames_at_prefix(s, h, ms, pos as int, items, n);
                                                let rest = items.skip(i as int);
                                                assert(encode_seq(rest) == spec_encode(rest[0])
                                                    + encode_seq(rest.drop_first()));
                                                lemma_concat3_at(
                                                    s,
                                                    pos as int,
                                                    n,
                                                    spec_encode(rest[0]),
                                                    encode_seq(rest.drop_first()),
                                                    Seq::empty(),
                                                );
                                                assert(decodable(rest[0]));
                                                assert(frame_at(
                                                    s,
                                                    pos as int,
                                                    rest[0],
                                                    pos + spec_encode(rest[0]).len(),
                                                ));
                                                assert(false);
                                            }
                                        }
                                    }
                                    return Err(err);
                                },
                                Ok((item, next)) => {
                                    proof {
                                        let ms = resp_models(elems@, s);
                                        let m = resp_model(item, s);
                                        lemma_encode_seq_push(ms, m);
                                        lemma_decodable_seq_push(ms, m);
                                        assert(elems@.push(item).drop_last() =~= elems@);
                                        assert(resp_models(elems@.push(item), s) == ms.push(m));
                                        assert(s.subrange(h, next as int) =~= s.subrange(
                                            h,
                                            pos as int,
                                        ) + s.subrange(pos as int, next as int)) by {
                                            assert forall|k: int|
                                                0 <= k < next - h implies s.subrange(
                                                h,
                                                next as int,
                                            )[k] == (s.subrange(h, pos as int) + s.subrange(
                                                pos as int,
                                                next as int,
                                            ))[k] by {
                                                assert(s.subrange(h, next as int)[k] == s[h + k]);
                                                if k < pos - h {
                                                    assert(s.subrange(h, pos as int)[k] == s[h + k]);
                                                } else {
                                                    assert(s.subrange(pos as int, next as int)[k
                                                        - (pos - h)] == s[h + k]);
                                                }
                                            }
                                        }
                                    }
                                    elems.push(item);
                                    pos = next;
                                    i = i + 1;
                                },
                            }
                        }
                        proof {
                            let ms = resp_models(elems@, s);
                            let t = dec_of(count as nat);
                            lemma_assemble_header(s, start as int, pos as int, 42, t, encode_seq(ms));
                            assert(spec_encode(Frame::Arrays(ms)) =~= seq![42u8] + t + (crlf()
                                + encode_seq(ms)));
                            assert(frame_at(s, start as int, Frame::Arrays(ms), pos as int));
                        }
                        return Ok((RedisResp::Arrays(elems), pos));
                    },
                }
            },
        }
    } else {
        proof {
            assert forall|v: Frame, n: int| !frame_at(s, start as int, v, n) by {
                if frame_at(s, start as int, v, n) {
                    lemma_frame_tag(s, start as int, v, n);
                }
            }
        }
        return Err(DecodeError::UnknownTag);
    }
}

/// A decode outcome as the connection loop sees it: the decoded frame if the
/// buffer held one, and the offset of the first undecoded byte (zero when
/// nothing was recognized).
#[derive(Debug)]
pub struct RedisRespResult(pub Option<RedisResp>, pub usize);

impl RedisRespResult {
    /// Decodes the frame at `start`, collapsing every failure to `None`.
    pub fn from_bytes(value: &[u8], start: usize) -> (r: RedisRespResult)
        ensures
            match r.0 {
                Some(resp) => {
                    &&& resp_wf(resp, value@)
                    &&& start < r.1 <= value@.len()
                    &&& frame_at(value@, start as int, resp_model(resp, value@), r.1 as int)
                },
                None => r.1 == 0 && forall|v: Frame, n: int|
                    !frame_at(value@, start as int, v, n),
            },
    {
        match decode(value, start) {
            Ok((resp, next)) => RedisRespResult(Some(resp), next),
            Err(_) => RedisRespResult(None, 0),
        }
    }
}

} // verus!
