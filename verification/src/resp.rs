//! The mathematical model of the wire protocol: frames, their canonical byte
//! encoding, and the uniqueness of the frame read out of a buffer.

use vstd::prelude::*;
use crate::num::dec_of;
use crate::num::lemma_dec_of_canon;
use crate::num::lemma_dec_val_of;

verus! {

/// One decoded protocol value.  Payloads are byte strings; an array holds its
/// elements in order.  A bulk string of declared length -1 is the distinct
/// null value.
pub enum Frame {
    SimpleString(Seq<u8>),
    Integer(Seq<u8>),
    Error(Seq<u8>),
    BulkString(Seq<u8>),
    NullBulkString,
    Arrays(Seq<Frame>),
}

pub open spec fn crlf() -> Seq<u8> {
    seq![13u8, 10u8]
}

pub open spec fn no_cr(p: Seq<u8>) -> bool {
    forall|i: int| 0 <= i < p.len() ==> #[trigger] p[i] != 13
}

/// The wire bytes of a frame: tag byte, payload or length, line terminators.
pub open spec fn spec_encode(v: Frame) -> Seq<u8>
    decreases v,
{
    match v {
        Frame::SimpleString(p) => seq![43u8] + p + crlf(),
        Frame::Integer(p) => seq![58u8] + p + crlf(),
        Frame::Error(p) => seq![45u8] + p + crlf(),
        Frame::BulkString(b) => seq![36u8] + dec_of(b.len()) + crlf() + b + crlf(),
        Frame::NullBulkString => seq![36u8, 45u8, 49u8, 13u8, 10u8],
        Frame::Arrays(items) => seq![42u8] + dec_of(items.len()) + crlf() + encode_seq(items),
    }
}

/// The concatenated encodings of a run of frames.
pub open spec fn encode_seq(items: Seq<Frame>) -> Seq<u8>
    decreases items,
{
    if items.len() == 0 {
        Seq::empty()
    } else {
        spec_encode(items[0]) + encode_seq(items.drop_first())
    }
}

/// A frame the decoder recognizes: line payloads carry no embedded carriage
/// return, and error frames never appear on the request side.
pub open spec fn decodable(v: Frame) -> bool
    decreases v,
{
    match v {
        Frame::SimpleString(p) => no_cr(p),
        Frame::Integer(p) => no_cr(p),
        Frame::Error(_) => false,
        Frame::BulkString(_) => true,
        Frame::NullBulkString => true,
        Frame::Arrays(items) => decodable_seq(items),
    }
}

pub open spec fn decodable_seq(items: Seq<Frame>) -> bool
    decreases items,
{
    items.len() == 0 || (decodable(items[0]) && decodable_seq(items.drop_first()))
}

/// The decodable frame `v` occupies exactly the bytes `[start, n)` of `s`.
pub open spec fn frame_at(s: Seq<u8>, start: int, v: Frame, n: int) -> bool {
    &&& decodable(v)
    &&& 0 <= start <= n <= s.len()
    &&& s.subrange(start, n) == spec_encode(v)
}

/// Appending a frame to a run appends its encoding.
pub proof fn lemma_encode_seq_push(items: Seq<Frame>, v: Frame)
    ensures
        encode_seq(items.push(v)) == encode_seq(items) + spec_encode(v),
    decreases items.len(),
{
    assert(encode_seq(Seq::<Frame>::empty()) == Seq::<u8>::empty());
    if items.len() == 0 {
        assert(items.push(v)[0] == v);
        assert(items.push(v).drop_first() =~= Seq::<Frame>::empty());
        assert(encode_seq(items.push(v)) =~= encode_seq(items) + spec_encode(v));
    } else {
        lemma_encode_seq_push(items.drop_first(), v);
        assert(items.push(v).drop_first() =~= items.drop_first().push(v));
        assert(items.push(v)[0] == items[0]);
        assert(encode_seq(items.push(v)) =~= encode_seq(items) + spec_encode(v));
    }
}

/// So does appending a decodable frame to a decodable run.
pub proof fn lemma_decodable_seq_push(items: Seq<Frame>, v: Frame)
    requires
        decodable_seq(items),
        decodable(v),
    ensures
        decodable_seq(items.push(v)),
    decreases items.len(),
{
    assert(decodable_seq(Seq::<Frame>::empty()));
    if items.len() == 0 {
        assert(items.push(v)[0] == v);
        assert(items.push(v).drop_first() =~= Seq::<Frame>::empty());
    } else {
        lemma_decodable_seq_push(items.drop_first(), v);
        assert(items.push(v).drop_first() =~= items.drop_first().push(v));
        assert(items.push(v)[0] == items[0]);
    }
}

/// Splits the bytes `[start, n)` of `s` along a three-part concatenation.
pub proof fn lemma_concat3_at(s: Seq<u8>, start: int, n: int, x: Seq<u8>, y: Seq<u8>, z: Seq<u8>)
    requires
        0 <= start <= n <= s.len(),
        s.subrange(start, n) == x + y + z,
    ensures
        n == start + x.len() + y.len() + z.len(),
        s.subrange(start, start + x.len()) == x,
        s.subrange(start + x.len(), start + x.len() + y.len()) == y,
        s.subrange(start + x.len() + y.len(), n) == z,
{
    let e = x + y + z;
    assert(e.len() == x.len() + y.len() + z.len());
    assert(s.subrange(start, n).len() == n - start);
    assert forall|k: int| 0 <= k < e.len() implies s[start + k] == e[k] by {
        assert(s.subrange(start, n)[k] == s[start + k]);
    }
    assert(s.subrange(start, start + x.len()) =~= x) by {
        assert forall|k: int| 0 <= k < x.len() implies s.subrange(
            start,
            start + x.len(),
        )[k] == x[k] by {
            assert(s.subrange(start, start + x.len())[k] == s[start + k]);
            assert(e[k] == x[k]);
        }
    }
    assert(s.subrange(start + x.len(), start + x.len() + y.len()) =~= y) by {
        assert forall|k: int| 0 <= k < y.len() implies s.subrange(
            start + x.len(),
            start + x.len() + y.len(),
        )[k] == y[k] by {
            assert(s.subrange(start + x.len(), start + x.len() + y.len())[k] == s[start + x.len()
                + k]);
            assert(e[x.len() + k] == y[k]);
        }
    }
    assert(s.subrange(start + x.len() + y.len(), n) =~= z) by {
        assert forall|k: int| 0 <= k < z.len() implies s.subrange(
            start + x.len() + y.len(),
            n,
        )[k] == z[k] by {
            assert(s.subrange(start + x.len() + y.len(), n)[k] == s[start + x.len() + y.len() + k]);
            assert(e[x.len() + y.len() + k] == z[k]);
        }
    }
}

/// Where a line frame (tag, payload, terminator) sits in the buffer.
pub proof fn lemma_shape_line(s: Seq<u8>, start: int, n: int, tag: u8, p: Seq<u8>)
    requires
        0 <= start <= n <= s.len(),
        s.subrange(start, n) == seq![tag] + p + crlf(),
    ensures
        n == start + 3 + p.len(),
        s[start] == tag,
        s.subrange(start + 1, start + 1 + p.len()) == p,
        s[start + 1 + p.len()] == 13,
        s[start + 2 + p.len()] == 10,
{
    lemma_concat3_at(s, start, n, seq![tag], p, crlf());
    assert(s.subrange(start, start + 1)[0] == s[start]);
    let c = s.subrange(start + 1 + p.len(), n);
    assert(c[0] == s[start + 1 + p.len()]);
    assert(c[1] == s[start + 2 + p.len()]);
}

/// Where a header (tag, decimal text, terminator) and its remainder sit.
pub proof fn lemma_shape_header(s: Seq<u8>, start: int, n: int, tag: u8, t: Seq<u8>, rest: Seq<u8>)
    requires
        0 <= start <= n <= s.len(),
        s.subrange(start, n) == seq![tag] + t + (crlf() + rest),
    ensures
        n == start + 3 + t.len() + rest.len(),
        s[start] == tag,
        s.subrange(start + 1, start + 1 + t.len()) == t,
        s[start + 1 + t.len()] == 13,
        s[start + 2 + t.len()] == 10,
        s.subrange(start + 3 + t.len(), n) == rest,
{
    lemma_concat3_at(s, start, n, seq![tag], t, crlf() + rest);
    assert(s.subrange(start, start + 1)[0] == s[start]);
    let tail_start = start + 1 + t.len();
    lemma_concat3_at(s, tail_start, n, crlf(), rest, Seq::empty());
    let c = s.subrange(tail_start, tail_start + 2);
    assert(c[0] == s[tail_start]);
    assert(c[1] == s[tail_start + 1]);
    assert(s.subrange(start + 3 + t.len(), start + 3 + t.len() + rest.len()) == rest);
}

/// Where a bulk string frame sits: length line, payload, trailing terminator.
pub proof fn lemma_shape_bulk(s: Seq<u8>, start: int, n: int, b: Seq<u8>)
    requires
        0 <= start <= n <= s.len(),
        s.subrange(start, n) == spec_encode(Frame::BulkString(b)),
    ensures
        n == start + 5 + dec_of(b.len()).len() + b.len(),
        s[start] == 36,
        s.subrange(start + 1, start + 1 + dec_of(b.len()).len()) == dec_of(b.len()),
        s[start + 1 + dec_of(b.len()).len()] == 13,
        s[start + 2 + dec_of(b.len()).len()] == 10,
        s.subrange(start + 3 + dec_of(b.len()).len(), start + 3 + dec_of(b.len()).len() + b.len())
            == b,
        s[n - 2] == 13,
        s[n - 1] == 10,
{
    let t = dec_of(b.len());
    assert(s.subrange(start, n) =~= seq![36u8] + t + (crlf() + (b + crlf())));
    lemma_shape_header(s, start, n, 36, t, b + crlf());
    let q = start + 3 + t.len();
    lemma_concat3_at(s, q, n, b, crlf(), Seq::empty());
    assert(s.subrange(q, q + b.len()) == b);
    let c = s.subrange(q + b.len(), q + b.len() + 2);
    assert(c[0] == s[q + b.len()]);
    assert(c[1] == s[q + b.len() + 1]);
}

/// Where the null bulk string frame sits.
pub proof fn lemma_shape_null(s: Seq<u8>, start: int, n: int)
    requires
        0 <= start <= n <= s.len(),
        s.subrange(start, n) == spec_encode(Frame::NullBulkString),
    ensures
        n == start + 5,
        s[start] == 36,
        s[start + 1] == 45,
        s[start + 2] == 49,
        s[start + 3] == 13,
        s[start + 4] == 10,
{
    let e = s.subrange(start, n);
    assert(e.len() == 5);
    assert(e[0] == s[start]);
    assert(e[1] == s[start + 1]);
    assert(e[2] == s[start + 2]);
    assert(e[3] == s[start + 3]);
    assert(e[4] == s[start + 4]);
}

/// Where an array frame sits: count line, then the encoded elements.
pub proof fn lemma_shape_array(s: Seq<u8>, start: int, n: int, items: Seq<Frame>)
    requires
        0 <= start <= n <= s.len(),
        s.subrange(start, n) == spec_encode(Frame::Arrays(items)),
    ensures
        n == start + 3 + dec_of(items.len()).len() + encode_seq(items).len(),
        s[start] == 42,
        s.subrange(start + 1, start + 1 + dec_of(items.len()).len()) == dec_of(items.len()),
        s[start + 1 + dec_of(items.len()).len()] == 13,
        s[start + 2 + dec_of(items.len()).len()] == 10,
        s.subrange(start + 3 + dec_of(items.len()).len(), n) == encode_seq(items),
{
    let t = dec_of(items.len());
    assert(s.subrange(start, n) =~= seq![42u8] + t + (crlf() + encode_seq(items)));
    lemma_shape_header(s, start, n, 42, t, encode_seq(items));
}

/// The canonical decimal of a number contains no carriage return.
pub proof fn lemma_dec_of_no_cr(m: nat)
    ensures
        no_cr(dec_of(m)),
        dec_of(m).len() >= 1,
{
    lemma_dec_of_canon(m);
    assert forall|i: int| 0 <= i < dec_of(m).len() implies #[trigger] dec_of(m)[i] != 13 by {
        assert(48 <= dec_of(m)[i] <= 57);
    }
}

/// Two terminated lines starting at the same position are the same line.
proof fn lemma_line_at_unique(s: Seq<u8>, a: int, p1: Seq<u8>, p2: Seq<u8>)
    requires
        no_cr(p1),
        no_cr(p2),
        0 <= a,
        a + p1.len() < s.len(),
        a + p2.len() < s.len(),
        s.subrange(a, a + p1.len()) == p1,
        s.subrange(a, a + p2.len()) == p2,
        s[a + p1.len()] == 13,
        s[a + p2.len()] == 13,
    ensures
        p1 == p2,
{
    if p1.len() < p2.len() {
        assert(s.subrange(a, a + p2.len())[p1.len() as int] == s[a + p1.len()]);
        assert(false);
    } else if p2.len() < p1.len() {
        assert(s.subrange(a, a + p1.len())[p2.len() as int] == s[a + p2.len()]);
        assert(false);
    } else {
        assert(p1 =~= p2);
    }
}

/// At most one decodable frame starts at a given position: the encoding is
/// prefix-free.  Together with the decoder's and encoder's contracts this
/// gives the round trip: re-encoding a decoded well-formed buffer yields the
/// buffer.
pub proof fn lemma_frame_at_unique(s: Seq<u8>, start: int, v1: Frame, n1: int, v2: Frame, n2: int)
    requires
        frame_at(s, start, v1, n1),
        frame_at(s, start, v2, n2),
    ensures
        v1 == v2,
        n1 == n2,
    decreases v1,
{
    match v1 {
        Frame::SimpleString(p1) => {
            lemma_shape_line(s, start, n1, 43, p1);
            match v2 {
                Frame::SimpleString(p2) => {
                    lemma_shape_line(s, start, n2, 43, p2);
                    lemma_line_at_unique(s, start + 1, p1, p2);
                },
                Frame::Integer(p2) => {
                    lemma_shape_line(s, start, n2, 58, p2);
                },
                Frame::Error(_) => {
                },
                Frame::BulkString(b2) => {
                    lemma_shape_bulk(s, start, n2, b2);
                },
                Frame::NullBulkString => {
                    lemma_shape_null(s, start, n2);
                },
                Frame::Arrays(items2) => {
                    lemma_shape_array(s, start, n2, items2);
                },
            }
        },
        Frame::Integer(p1) => {
            lemma_shape_line(s, start, n1, 58, p1);
            match v2 {
                Frame::SimpleString(p2) => {
                    lemma_shape_line(s, start, n2, 43, p2);
                },
                Frame::Integer(p2) => {
                    lemma_shape_line(s, start, n2, 58, p2);
                    lemma_line_at_unique(s, start + 1, p1, p2);
                },
                Frame::Error(_) => {
                },
                Frame::BulkString(b2) => {
                    lemma_shape_bulk(s, start, n2, b2);
                },
                Frame::NullBulkString => {
                    lemma_shape_null(s, start, n2);
                },
                Frame::Arrays(items2) => {
                    lemma_shape_array(s, start, n2, items2);
                },
            }
        },
        Frame::Error(_) => {
        },
        Frame::BulkString(b1) => {
            lemma_shape_bulk(s, start, n1, b1);
            let t1 = dec_of(b1.len());
            lemma_dec_of_no_cr(b1.len());
            lemma_dec_of_canon(b1.len());
            match v2 {
                Frame::SimpleString(p2) => {
                    lemma_shape_line(s, start, n2, 43, p2);
                },
                Frame::Integer(p2) => {
                    lemma_shape_line(s, start, n2, 58, p2);
                },
                Frame::Error(_) => {
                },
                Frame::BulkString(b2) => {
                    lemma_shape_bulk(s, start, n2, b2);
                    let t2 = dec_of(b2.len());
                    lemma_dec_of_no_cr(b2.len());
                    lemma_line_at_unique(s, start + 1, t1, t2);
                    lemma_dec_val_of(b1.len());
                    lemma_dec_val_of(b2.len());
                    assert(b1.len() == b2.len());
                    let q = start + 3 + t1.len();
                    assert(b1 == s.subrange(q, q + b1.len()));
                    assert(b2 == s.subrange(q, q + b2.len()));
                },
                Frame::NullBulkString => {
                    lemma_shape_null(s, start, n2);
                    let t2 = seq![45u8, 49u8];
                    assert(s.subrange(start + 1, start + 3) =~= t2) by {
                        assert(s.subrange(start + 1, start + 3)[0] == s[start + 1]);
                        assert(s.subrange(start + 1, start + 3)[1] == s[start + 2]);
                    }
                    assert(no_cr(t2));
                    lemma_line_at_unique(s, start + 1, t1, t2);
                    assert(t1[0] == 45);
                    assert(48 <= t1[0] <= 57);
                    assert(false);
                },
                Frame::Arrays(items2) => {
                    lemma_shape_array(s, start, n2, items2);
                },
            }
        },
        Frame::NullBulkString => {
            lemma_shape_null(s, start, n1);
            let t1 = seq![45u8, 49u8];
            assert(s.subrange(start + 1, start + 3) =~= t1) by {
                assert(s.subrange(start + 1, start + 3)[0] == s[start + 1]);
                assert(s.subrange(start + 1, start + 3)[1] == s[start + 2]);
            }
            assert(no_cr(t1));
            match v2 {
                Frame::SimpleString(p2) => {
                    lemma_shape_line(s, start, n2, 43, p2);
                },
                Frame::Integer(p2) => {
                    lemma_shape_line(s, start, n2, 58, p2);
                },
                Frame::Error(_) => {
                },
                Frame::BulkString(b2) => {
                    lemma_shape_bulk(s, start, n2, b2);
                    let t2 = dec_of(b2.len());
                    lemma_dec_of_no_cr(b2.len());
                    lemma_dec_of_canon(b2.len());
                    lemma_line_at_unique(s, start + 1, t1, t2);
                    assert(t2[0] == 45);
                    assert(48 <= t2[0] <= 57);
                    assert(false);
                },
                Frame::NullBulkString => {
                    lemma_shape_null(s, start, n2);
                },
                Frame::Arrays(items2) => {
                    lemma_shape_array(s, start, n2, items2);
                },
            }
        },
        Frame::Arrays(items1) => {
            lemma_shape_array(s, start, n1, items1);
            let t1 = dec_of(items1.len());
            lemma_dec_of_no_cr(items1.len());
            match v2 {
                Frame::SimpleString(p2) => {
                    lemma_shape_line(s, start, n2, 43, p2);
                },
                Frame::Integer(p2) => {
                    lemma_shape_line(s, start, n2, 58, p2);
                },
                Frame::Error(_) => {
                },
                Frame::BulkString(b2) => {
                    lemma_shape_bulk(s, start, n2, b2);
                },
                Frame::NullBulkString => {
                    lemma_shape_null(s, start, n2);
                },
                Frame::Arrays(items2) => {
                    lemma_shape_array(s, start, n2, items2);
                    let t2 = dec_of(items2.len());
                    lemma_dec_of_no_cr(items2.len());
                    lemma_line_at_unique(s, start + 1, t1, t2);
                    lemma_dec_val_of(items1.len());
                    lemma_dec_val_of(items2.len());
                    assert(items1.len() == items2.len());
                    let h = start + 3 + t1.len();
                    lemma_frames_at_unique_seq(s, h, items1, n1, items2, n2);
                },
            }
        },
    }
}

/// At most one decodable run of a given element count starts at a position.
proof fn lemma_frames_at_unique_seq(
    s: Seq<u8>,
    pos: int,
    items1: Seq<Frame>,
    n1: int,
    items2: Seq<Frame>,
    n2: int,
)
    requires
        items1.len() == items2.len(),
        decodable_seq(items1),
        decodable_seq(items2),
        0 <= pos <= n1 <= s.len(),
        pos <= n2 <= s.len(),
        s.subrange(pos, n1) == encode_seq(items1),
        s.subrange(pos, n2) == encode_seq(items2),
    ensures
        items1 == items2,
        n1 == n2,
    decreases items1,
{
    if items1.len() == 0 {
        assert(encode_seq(items1) =~= Seq::<u8>::empty());
        assert(s.subrange(pos, n1).len() == 0);
        assert(s.subrange(pos, n2).len() == 0);
        assert(items1 =~= items2);
    } else {
        let h1 = items1[0];
        let h2 = items2[0];
        let e1 = spec_encode(h1);
        let e2 = spec_encode(h2);
        assert(encode_seq(items1) == e1 + encode_seq(items1.drop_first()));
        assert(encode_seq(items2) == e2 + encode_seq(items2.drop_first()));
        lemma_concat3_at(s, pos, n1, e1, encode_seq(items1.drop_first()), Seq::empty());
        lemma_concat3_at(s, pos, n2, e2, encode_seq(items2.drop_first()), Seq::empty());
        let m1 = pos + e1.len();
        let m2 = pos + e2.len();
        assert(frame_at(s, pos, h1, m1));
        assert(frame_at(s, pos, h2, m2));
        lemma_frame_at_unique(s, pos, h1, m1, h2, m2);
        assert(s.subrange(m1, n1) == encode_seq(items1.drop_first())) by {
            assert(s.subrange(pos + e1.len(), pos + e1.len() + encode_seq(
                items1.drop_first(),
            ).len()) == encode_seq(items1.drop_first()));
        }
        assert(s.subrange(m1, n2) == encode_seq(items2.drop_first()));
        lemma_frames_at_unique_seq(s, m1, items1.drop_first(), n1, items2.drop_first(), n2);
        assert forall|i: int| 0 <= i < items1.len() implies items1[i] == items2[i] by {
            if i > 0 {
                assert(items1.drop_first()[i - 1] == items1[i]);
                assert(items2.drop_first()[i - 1] == items2[i]);
            }
        }
        assert(items1 =~= items2);
    }
}

/// A decoded run of frames is the leading slice of any decodable run carried
/// by the same bytes: the elements already read agree, and the bytes after
/// them carry exactly the remaining elements.
pub proof fn lemma_frames_at_prefix(
    s: Seq<u8>,
    pos: int,
    done: Seq<Frame>,
    pos_end: int,
    items: Seq<Frame>,
    n: int,
)
    requires
        done.len() <= items.len(),
        decodable_seq(done),
        decodable_seq(items),
        0 <= pos <= pos_end <= s.len(),
        pos <= n <= s.len(),
        s.subrange(pos, pos_end) == encode_seq(done),
        s.subrange(pos, n) == encode_seq(items),
    ensures
        done == items.take(done.len() as int),
        pos_end <= n,
        s.subrange(pos_end, n) == encode_seq(items.skip(done.len() as int)),
        decodable_seq(items.skip(done.len() as int)),
    decreases done.len(),
{
    if done.len() == 0 {
        assert(encode_seq(done) =~= Seq::<u8>::empty());
        assert(s.subrange(pos, pos_end).len() == 0);
        assert(done =~= items.take(0));
        assert(items.skip(0) =~= items);
    } else {
        let d0 = done[0];
        let i0 = items[0];
        let ed = spec_encode(d0);
        let ei = spec_encode(i0);
        assert(encode_seq(done) == ed + encode_seq(done.drop_first()));
        assert(encode_seq(items) == ei + encode_seq(items.drop_first()));
        lemma_concat3_at(s, pos, pos_end, ed, encode_seq(done.drop_first()), Seq::empty());
        lemma_concat3_at(s, pos, n, ei, encode_seq(items.drop_first()), Seq::empty());
        let md = pos + ed.len();
        let mi = pos + ei.len();
        assert(frame_at(s, pos, d0, md));
        assert(frame_at(s, pos, i0, mi));
        lemma_frame_at_unique(s, pos, d0, md, i0, mi);
        assert(s.subrange(md, pos_end) == encode_seq(done.drop_first()));
        assert(s.subrange(md, n) == encode_seq(items.drop_first()));
        lemma_frames_at_prefix(s, md, done.drop_first(), pos_end, items.drop_first(), n);
        assert(done.drop_first() == items.drop_first().take(done.len() - 1));
        assert forall|i: int| 0 <= i < done.len() implies done[i] == items.take(
            done.len() as int,
        )[i] by {
            if i > 0 {
                assert(done.drop_first()[i - 1] == done[i]);
                assert(items.drop_first().take(done.len() - 1)[i - 1] == items.drop_first()[i - 1]);
                assert(items.drop_first()[i - 1] == items[i]);
            }
        }
        assert(done =~= items.take(done.len() as int));
        assert(items.skip(done.len() as int) =~= items.drop_first().skip(done.len() - 1));
    }
}

/// Every frame's encoding is at least the tag byte and a terminator.
pub proof fn lemma_spec_encode_len(v: Frame)
    ensures
        spec_encode(v).len() >= 3,
{
    match v {
        Frame::SimpleString(p) => {
            assert(spec_encode(v).len() == 3 + p.len());
        },
        Frame::Integer(p) => {
            assert(spec_encode(v).len() == 3 + p.len());
        },
        Frame::Error(p) => {
            assert(spec_encode(v).len() == 3 + p.len());
        },
        Frame::BulkString(b) => {
            lemma_dec_of_canon(b.len());
            assert(spec_encode(v).len() == 5 + dec_of(b.len()).len() + b.len());
        },
        Frame::NullBulkString => {
        },
        Frame::Arrays(items) => {
            lemma_dec_of_canon(items.len());
            assert(spec_encode(v).len() == 3 + dec_of(items.len()).len() + encode_seq(
                items,
            ).len());
        },
    }
}

/// A run of frames takes at least three bytes per frame.
pub proof fn lemma_encode_seq_min_len(items: Seq<Frame>)
    ensures
        encode_seq(items).len() >= 3 * items.len(),
    decreases items,
{
    if items.len() > 0 {
        lemma_spec_encode_len(items[0]);
        lemma_encode_seq_min_len(items.drop_first());
    }
}

/// The tag byte decides the kind of the frame found at a position.
pub proof fn lemma_frame_tag(s: Seq<u8>, start: int, v: Frame, n: int)
    requires
        frame_at(s, start, v, n),
    ensures
        start < s.len(),
        s[start] == 43 ==> v is SimpleString,
        s[start] == 58 ==> v is Integer,
        s[start] == 36 ==> (v is BulkString || v is NullBulkString),
        s[start] == 42 ==> v is Arrays,
        s[start] == 43 || s[start] == 58 || s[start] == 36 || s[start] == 42,
{
    lemma_spec_encode_len(v);
    match v {
        Frame::SimpleString(p) => {
            lemma_shape_line(s, start, n, 43, p);
        },
        Frame::Integer(p) => {
            lemma_shape_line(s, start, n, 58, p);
        },
        Frame::Error(_) => {
        },
        Frame::BulkString(b) => {
            lemma_shape_bulk(s, start, n, b);
        },
        Frame::NullBulkString => {
            lemma_shape_null(s, start, n);
        },
        Frame::Arrays(items) => {
            lemma_shape_array(s, start, n, items);
        },
    }
}

/// The first carriage return after the tag of a line is the line's end.
pub proof fn lemma_first_cr_position(s: Seq<u8>, a: int, p: Seq<u8>, e: int)
    requires
        no_cr(p),
        0 <= a,
        a + p.len() < s.len(),
        s.subrange(a, a + p.len()) == p,
        s[a + p.len()] == 13,
        a <= e < s.len(),
        s[e] == 13,
        forall|j: int| a <= j < e ==> s[j] != 13,
    ensures
        e == a + p.len(),
{
    if e < a + p.len() {
        assert(s.subrange(a, a + p.len())[e - a] == s[e]);
        assert(false);
    }
}

/// Reassembles a line frame's bytes out of its parts.
pub proof fn lemma_assemble_line(s: Seq<u8>, start: int, n: int, tag: u8, p: Seq<u8>)
    requires
        0 <= start,
        n == start + 3 + p.len(),
        n <= s.len(),
        s[start] == tag,
        s.subrange(start + 1, start + 1 + p.len()) == p,
        s[start + 1 + p.len()] == 13,
        s[start + 2 + p.len()] == 10,
    ensures
        s.subrange(start, n) == seq![tag] + p + crlf(),
{
    let e = seq![tag] + p + crlf();
    assert(s.subrange(start, n) =~= e) by {
        assert forall|k: int| 0 <= k < e.len() implies s.subrange(start, n)[k] == e[k] by {
            assert(s.subrange(start, n)[k] == s[start + k]);
            if 1 <= k < 1 + p.len() {
                assert(s.subrange(start + 1, start + 1 + p.len())[k - 1] == s[start + k]);
                assert(e[k] == p[k - 1]);
            }
        }
    }
}

/// Reassembles a header and its remainder out of their parts.
pub proof fn lemma_assemble_header(
    s: Seq<u8>,
    start: int,
    n: int,
    tag: u8,
    t: Seq<u8>,
    rest: Seq<u8>,
)
    requires
        0 <= start,
        n == start + 3 + t.len() + rest.len(),
        n <= s.len(),
        s[start] == tag,
        s.subrange(start + 1, start + 1 + t.len()) == t,
        s[start + 1 + t.len()] == 13,
        s[start + 2 + t.len()] == 10,
        s.subrange(start + 3 + t.len(), n) == rest,
    ensures
        s.subrange(start, n) == seq![tag] + t + (crlf() + rest),
{
    let e = seq![tag] + t + (crlf() + rest);
    assert(s.subrange(start, n) =~= e) by {
        assert forall|k: int| 0 <= k < e.len() implies s.subrange(start, n)[k] == e[k] by {
            assert(s.subrange(start, n)[k] == s[start + k]);
            if 1 <= k < 1 + t.len() {
                assert(s.subrange(start + 1, start + 1 + t.len())[k - 1] == s[start + k]);
                assert(e[k] == t[k - 1]);
            }
            if 3 + t.len() <= k {
                assert(s.subrange(start + 3 + t.len(), n)[k - 3 - t.len()] == s[start + k]);
                assert(e[k] == rest[k - 3 - t.len()]);
            }
        }
    }
}

} // verus!
