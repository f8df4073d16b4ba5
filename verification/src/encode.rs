//! Owned protocol values and their encoding into wire bytes.

use vstd::prelude::*;
use crate::num::dec_of;
use crate::num::to_dec;
use crate::resp::Frame;
use crate::resp::crlf;
use crate::resp::spec_encode;
use crate::resp::encode_seq;
use crate::resp::lemma_encode_seq_push;
use crate::decode::RedisResp;
use crate::decode::resp_model;
use crate::decode::resp_models;
use crate::decode::resp_wf;
use crate::decode::resp_wfs;

verus! {

/// One owned protocol value: what a handler produces as a reply, and what a
/// decoded frame becomes once its bytes are copied out of the read buffer.
pub enum Reply {
    SimpleString(Vec<u8>),
    Integer(Vec<u8>),
    Error(Vec<u8>),
    BulkString(Vec<u8>),
    NullBulkString,
    Arrays(Vec<Reply>),
}

pub open spec fn reply_model(r: Reply) -> Frame
    decreases r,
{
    match r {
        Reply::SimpleString(p) => Frame::SimpleString(p@),
        Reply::Integer(p) => Frame::Integer(p@),
        Reply::Error(p) => Frame::Error(p@),
        Reply::BulkString(b) => Frame::BulkString(b@),
        Reply::NullBulkString => Frame::NullBulkString,
        Reply::Arrays(items) => Frame::Arrays(reply_models(items@)),
    }
}

pub open spec fn reply_models(rs: Seq<Reply>) -> Seq<Frame>
    decreases rs,
{
    if rs.len() == 0 {
        Seq::empty()
    } else {
        reply_models(rs.drop_last()).push(reply_model(rs.last()))
    }
}

impl View for Reply {
    type V = Frame;

    open spec fn view(&self) -> Frame {
        reply_model(*self)
    }
}

/// Appends a line frame: tag, payload, terminator.
fn push_line(out: &mut Vec<u8>, tag: u8, p: &Vec<u8>)
    ensures
        final(out)@ == old(out)@ + seq![tag] + p@ + crlf(),
{
    out.push(tag);
    let mut payload = p.clone();
    out.append(&mut payload);
    out.push(13);
    out.push(10);
    proof {
        assert(out@ =~= old(out)@ + seq![tag] + p@ + crlf());
    }
}

/// Encodes a value into exactly its wire bytes.
#[verifier::loop_isolation(false)]
pub fn encode(v: &Reply) -> (out: Vec<u8>)
    ensures
        out@ == spec_encode(v@),
    decreases v,
{
    match v {
        Reply::SimpleString(p) => {
            let mut out = Vec::new();
            push_line(&mut out, 43, p);
            proof {
                assert(out@ =~= spec_encode(v@));
            }
            out
        },
        Reply::Integer(p) => {
            let mut out = Vec::new();
            push_line(&mut out, 58, p);
            proof {
                assert(out@ =~= spec_encode(v@));
            }
            out
        },
        Reply::Error(p) => {
            let mut out = Vec::new();
            push_line(&mut out, 45, p);
            proof {
                assert(out@ =~= spec_encode(v@));
            }
            out
        },
        Reply::BulkString(b) => {
            let mut out = Vec::new();
            out.push(36);
            let mut t = to_dec(b.len());
            out.append(&mut t);
            out.push(13);
            out.push(10);
            out.extend_from_slice(b.as_slice());
            out.push(13);
            out.push(10);
            proof {
                assert(out@ =~= spec_encode(v@));
            }
            out
        },
        Reply::NullBulkString => {
            let mut out = Vec::new();
            out.push(36);
            out.push(45);
            out.push(49);
            out.push(13);
            out.push(10);
            proof {
                assert(out@ =~= spec_encode(v@));
            }
            out
        },
        Reply::Arrays(items) => {
            let mut out = Vec::new();
            out.push(42);
            let mut t = to_dec(items.len());
            out.append(&mut t);
            out.push(13);
            out.push(10);
            let ghost header = seq![42u8] + dec_of(items@.len() as nat) + crlf();
            proof {
                assert(out@ =~= header);
                assert(reply_models(items@.take(0)) =~= Seq::<Frame>::empty());
                assert(encode_seq(Seq::<Frame>::empty()) =~= Seq::<u8>::empty());
            }
            let mut i: usize = 0;
            while i < items.len()
                invariant
                    i <= items@.len(),
                    out@ == header + encode_seq(reply_models(items@.take(i as int))),
                decreases items@.len() - i,
            {
                let mut piece = encode(&items[i]);
                proof {
                    let done = reply_models(items@.take(i as int));
                    assert(items@.take(i + 1).drop_last() =~= items@.take(i as int));
                    assert(items@.take(i + 1).last() == items@[i as int]);
                    lemma_encode_seq_push(done, reply_model(items@[i as int]));
                }
                out.append(&mut piece);
                i = i + 1;
                proof {
                    assert(out@ =~= header + encode_seq(reply_models(items@.take(i as int))));
                }
            }
            proof {
                assert(items@.take(items@.len() as int) =~= items@);
                lemma_reply_models_len(items@);
                assert(out@ =~= spec_encode(v@));
            }
            out
        },
    }
}

/// The length of the run of models equals the length of the run.
pub proof fn lemma_reply_models_len(rs: Seq<Reply>)
    ensures
        reply_models(rs).len() == rs.len(),
    decreases rs,
{
    if rs.len() > 0 {
        lemma_reply_models_len(rs.drop_last());
    }
}

/// Copies the byte range `[a, b)` out of the buffer.
fn copy_range(bytes: &[u8], a: usize, b: usize) -> (r: Vec<u8>)
    requires
        a <= b <= bytes@.len(),
    ensures
        r@ == bytes@.subrange(a as int, b as int),
{
    vstd::slice::slice_to_vec(vstd::slice::slice_subrange(bytes, a, b))
}

/// Every range of a well-formed run lies inside the buffer.
pub proof fn lemma_resp_wfs_index(rs: Seq<RedisResp>, s: Seq<u8>, i: int)
    requires
        resp_wfs(rs, s),
        0 <= i < rs.len(),
    ensures
        resp_wf(rs[i], s),
    decreases rs,
{
    if i == rs.len() - 1 {
    } else {
        assert(rs.drop_last()[i] == rs[i]);
        lemma_resp_wfs_index(rs.drop_last(), s, i);
    }
}

/// Turns a decoded frame into an owned value standing for the same frame,
/// copying its payload bytes out of the transient read buffer.
#[verifier::loop_isolation(false)]
pub fn resolve(bytes: &[u8], resp: &RedisResp) -> (r: Reply)
    requires
        resp_wf(*resp, bytes@),
    ensures
        r@ == resp_model(*resp, bytes@),
    decreases resp,
{
    match resp {
        RedisResp::SimpleString(sp) => Reply::SimpleString(copy_range(bytes, sp.0, sp.1)),
        RedisResp::Integer(sp) => Reply::Integer(copy_range(bytes, sp.0, sp.1)),
        RedisResp::Error(sp) => Reply::Error(copy_range(bytes, sp.0, sp.1)),
        RedisResp::BulkString(sp) => Reply::BulkString(copy_range(bytes, sp.0, sp.1)),
        RedisResp::NullBulkString => Reply::NullBulkString,
        RedisResp::Arrays(elems) => {
            let mut acc: Vec<Reply> = Vec::new();
            proof {
                assert(reply_models(acc@) =~= Seq::<Frame>::empty());
                assert(resp_models(elems@.take(0), bytes@) =~= Seq::<Frame>::empty());
            }
            let mut i: usize = 0;
            while i < elems.len()
                invariant
                    i <= elems@.len(),
                    acc@.len() == i,
                    reply_models(acc@) == resp_models(elems@.take(i as int), bytes@),
                decreases elems@.len() - i,
            {
                proof {
                    lemma_resp_wfs_index(elems@, bytes@, i as int);
                }
                let piece = resolve(bytes, &elems[i]);
                proof {
                    assert(elems@.take(i + 1).drop_last() =~= elems@.take(i as int));
                    assert(elems@.take(i + 1).last() == elems@[i as int]);
                }
                let ghost old_acc = acc@;
                acc.push(piece);
                i = i + 1;
                proof {
                    assert(acc@.drop_last() =~= old_acc);
                    assert(acc@.last() == piece);
                }
            }
            proof {
                assert(elems@.take(elems@.len() as int) =~= elems@);
            }
            Reply::Arrays(acc)
        },
    }
}

} // verus!
