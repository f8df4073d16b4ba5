//! The command dispatcher: what each request does to the store and what it
//! replies, stated once as the spec function `step` and implemented against
//! it.

use vstd::prelude::*;
use crate::bytes::bytes_eq;
use crate::num::dec_of;
use crate::num::lenient_dec;
use crate::num::parse_u64;
use crate::num::to_dec;
use crate::resp::Frame;
use crate::resp::frame_at;
use crate::resp::spec_encode;
use crate::resp::lemma_frame_at_unique;
use crate::decode::RedisResp;
use crate::decode::decode;
use crate::decode::resp_model;
use crate::decode::resp_models;
use crate::decode::resp_wf;
use crate::decode::lemma_resp_models_index;
use crate::encode::Reply;
use crate::encode::encode;
use crate::encode::lemma_resp_wfs_index;
use crate::store::Redis;
use crate::store::live_at;
use crate::store::views_of;
use crate::store::slice_to_vec_u8;

verus! {

pub open spec fn txt_ping() -> Seq<u8> {
    seq![80u8, 73u8, 78u8, 71u8]
}

pub open spec fn txt_echo() -> Seq<u8> {
    seq![69u8, 67u8, 72u8, 79u8]
}

pub open spec fn txt_set() -> Seq<u8> {
    seq![83u8, 69u8, 84u8]
}

pub open spec fn txt_get() -> Seq<u8> {
    seq![71u8, 69u8, 84u8]
}

pub open spec fn txt_rpush() -> Seq<u8> {
    seq![82u8, 80u8, 85u8, 83u8, 72u8]
}

pub open spec fn txt_px() -> Seq<u8> {
    seq![80u8, 88u8]
}

pub open spec fn txt_ex() -> Seq<u8> {
    seq![69u8, 88u8]
}

pub open spec fn txt_pong() -> Seq<u8> {
    seq![80u8, 79u8, 78u8, 71u8]
}

pub open spec fn txt_ok() -> Seq<u8> {
    seq![79u8, 75u8]
}

/// The reply text for an unrecognized command name or SET modifier.
pub open spec fn txt_err_unknown() -> Seq<u8> {
    seq![69u8, 82u8, 82u8, 32u8, 85u8, 110u8, 107u8, 110u8, 111u8, 119u8, 110u8, 32u8, 99u8, 111u8, 109u8, 109u8, 97u8, 110u8, 100u8]
}

/// The reply text for a request that is not a well-formed command at all.
pub open spec fn txt_err_proto() -> Seq<u8> {
    seq![69u8, 82u8, 82u8, 32u8, 80u8, 114u8, 111u8, 116u8, 111u8, 99u8, 111u8, 108u8, 32u8, 101u8, 114u8, 114u8, 111u8, 114u8]
}

/// The reply text for RPUSH called without any value.
pub open spec fn txt_err_rpush() -> Seq<u8> {
    seq![87u8, 114u8, 111u8, 110u8, 103u8, 32u8, 110u8, 117u8, 109u8, 98u8, 101u8, 114u8, 32u8, 111u8, 102u8, 32u8, 97u8, 114u8, 103u8, 117u8, 109u8, 101u8, 110u8, 116u8, 115u8, 32u8, 102u8, 111u8, 114u8, 32u8, 39u8, 82u8, 80u8, 85u8, 83u8, 72u8, 39u8, 32u8, 99u8, 111u8, 109u8, 109u8, 97u8, 110u8, 100u8]
}

fn lit_ping() -> (r: Vec<u8>)
    ensures
        r@ == txt_ping(),
{
    let mut v = Vec::new();
    v.push(80u8);
    v.push(73u8);
    v.push(78u8);
    v.push(71u8);
    proof {
        assert(v@ =~= txt_ping());
    }
    v
}

fn lit_echo() -> (r: Vec<u8>)
    ensures
        r@ == txt_echo(),
{
    let mut v = Vec::new();
    v.push(69u8);
    v.push(67u8);
    v.push(72u8);
    v.push(79u8);
    proof {
        assert(v@ =~= txt_echo());
    }
    v
}

fn lit_set() -> (r: Vec<u8>)
    ensures
        r@ == txt_set(),
{
    let mut v = Vec::new();
    v.push(83u8);
    v.push(69u8);
    v.push(84u8);
    proof {
        assert(v@ =~= txt_set());
    }
    v
}

fn lit_get() -> (r: Vec<u8>)
    ensures
        r@ == txt_get(),
{
    let mut v = Vec::new();
    v.push(71u8);
    v.push(69u8);
    v.push(84u8);
    proof {
        assert(v@ =~= txt_get());
    }
    v
}

fn lit_rpush() -> (r: Vec<u8>)
    ensures
        r@ == txt_rpush(),
{
    let mut v = Vec::new();
    v.push(82u8);
    v.push(80u8);
    v.push(85u8);
    v.push(83u8);
    v.push(72u8);
    proof {
        assert(v@ =~= txt_rpush());
    }
    v
}

fn lit_px() -> (r: Vec<u8>)
    ensures
        r@ == txt_px(),
{
    let mut v = Vec::new();
    v.push(80u8);
    v.push(88u8);
    proof {
        assert(v@ =~= txt_px());
    }
    v
}

fn lit_ex() -> (r: Vec<u8>)
    ensures
        r@ == txt_ex(),
{
    let mut v = Vec::new();
    v.push(69u8);
    v.push(88u8);
    proof {
        assert(v@ =~= txt_ex());
    }
    v
}

fn lit_pong() -> (r: Vec<u8>)
    ensures
        r@ == txt_pong(),
{
    let mut v = Vec::new();
    v.push(80u8);
    v.push(79u8);
    v.push(78u8);
    v.push(71u8);
    proof {
        assert(v@ =~= txt_pong());
    }
    v
}

fn lit_ok() -> (r: Vec<u8>)
    ensures
        r@ == txt_ok(),
{
    let mut v = Vec::new();
    v.push(79u8);
    v.push(75u8);
    proof {
        assert(v@ =~= txt_ok());
    }
    v
}

fn lit_err_unknown() -> (r: Vec<u8>)
    ensures
        r@ == txt_err_unknown(),
{
    let mut v = Vec::new();
    v.push(69u8);
    v.push(82u8);
    v.push(82u8);
    v.push(32u8);
    v.push(85u8);
    v.push(110u8);
    v.push(107u8);
    v.push(110u8);
    v.push(111u8);
    v.push(119u8);
    v.push(110u8);
    v.push(32u8);
    v.push(99u8);
    v.push(111u8);
    v.push(109u8);
    v.push(109u8);
    v.push(97u8);
    v.push(110u8);
    v.push(100u8);
    proof {
        assert(v@ =~= txt_err_unknown());
    }
    v
}

fn lit_err_proto() -> (r: Vec<u8>)
    ensures
        r@ == txt_err_proto(),
{
    let mut v = Vec::new();
    v.push(69u8);
    v.push(82u8);
    v.push(82u8);
    v.push(32u8);
    v.push(80u8);
    v.push(114u8);
    v.push(111u8);
    v.push(116u8);
    v.push(111u8);
    v.push(99u8);
    v.push(111u8);
    v.push(108u8);
    v.push(32u8);
    v.push(101u8);
    v.push(114u8);
    v.push(114u8);
    v.push(111u8);
    v.push(114u8);
    proof {
        assert(v@ =~= txt_err_proto());
    }
    v
}

fn lit_err_rpush() -> (r: Vec<u8>)
    ensures
        r@ == txt_err_rpush(),
{
    let mut v = Vec::new();
    v.push(87u8);
    v.push(114u8);
    v.push(111u8);
    v.push(110u8);
    v.push(103u8);
    v.push(32u8);
    v.push(110u8);
    v.push(117u8);
    v.push(109u8);
    v.push(98u8);
    v.push(101u8);
    v.push(114u8);
    v.push(32u8);
    v.push(111u8);
    v.push(102u8);
    v.push(32u8);
    v.push(97u8);
    v.push(114u8);
    v.push(103u8);
    v.push(117u8);
    v.push(109u8);
    v.push(101u8);
    v.push(110u8);
    v.push(116u8);
    v.push(115u8);
    v.push(32u8);
    v.push(102u8);
    v.push(111u8);
    v.push(114u8);
    v.push(32u8);
    v.push(39u8);
    v.push(82u8);
    v.push(80u8);
    v.push(85u8);
    v.push(83u8);
    v.push(72u8);
    v.push(39u8);
    v.push(32u8);
    v.push(99u8);
    v.push(111u8);
    v.push(109u8);
    v.push(109u8);
    v.push(97u8);
    v.push(110u8);
    v.push(100u8);
    proof {
        assert(v@ =~= txt_err_rpush());
    }
    v
}

/// What one dispatched request leaves behind: the two namespaces and the
/// reply frame.
pub struct Outcome {
    pub strings: Map<Seq<u8>, (Seq<u8>, Option<u64>)>,
    pub lists: Map<Seq<u8>, Seq<Seq<u8>>>,
    pub reply: Frame,
}

/// Clamps a mathematical instant into the `u64` millisecond clock.
pub open spec fn sat64(x: nat) -> u64 {
    if x > u64::MAX {
        u64::MAX
    } else {
        x as u64
    }
}

pub open spec fn step_set(
    strings: Map<Seq<u8>, (Seq<u8>, Option<u64>)>,
    lists: Map<Seq<u8>, Seq<Seq<u8>>>,
    args: Seq<Seq<u8>>,
    now: u64,
) -> Outcome {
    if args.len() == 3 {
        Outcome {
            strings: strings.insert(args[1], (args[2], None)),
            lists,
            reply: Frame::SimpleString(txt_ok()),
        }
    } else if args.len() == 5 {
        if args[3] == txt_px() {
            match lenient_dec(args[4]) {
                Some(m) => if m <= u64::MAX {
                    Outcome {
                        strings: strings.insert(args[1], (args[2], Some(sat64(now as nat + m)))),
                        lists,
                        reply: Frame::SimpleString(txt_ok()),
                    }
                } else {
                    Outcome { strings, lists, reply: Frame::Error(txt_err_proto()) }
                },
                None => Outcome { strings, lists, reply: Frame::Error(txt_err_proto()) },
            }
        } else if args[3] == txt_ex() {
            match lenient_dec(args[4]) {
                Some(m) => if m <= u64::MAX {
                    Outcome {
                        strings: strings.insert(args[1], (args[2], Some(sat64(now as nat + m * 1000)))),
                        lists,
                        reply: Frame::SimpleString(txt_ok()),
                    }
                } else {
                    Outcome { strings, lists, reply: Frame::Error(txt_err_proto()) }
                },
                None => Outcome { strings, lists, reply: Frame::Error(txt_err_proto()) },
            }
        } else {
            Outcome { strings, lists, reply: Frame::Error(txt_err_unknown()) }
        }
    } else {
        Outcome { strings, lists, reply: Frame::Error(txt_err_proto()) }
    }
}

pub open spec fn step_get(
    strings: Map<Seq<u8>, (Seq<u8>, Option<u64>)>,
    lists: Map<Seq<u8>, Seq<Seq<u8>>>,
    key: Seq<u8>,
    now: u64,
) -> Outcome {
    if strings.contains_key(key) && live_at(strings[key], now) {
        Outcome { strings, lists, reply: Frame::BulkString(strings[key].0) }
    } else if strings.contains_key(key) {
        Outcome { strings: strings.remove(key), lists, reply: Frame::NullBulkString }
    } else {
        Outcome { strings, lists, reply: Frame::NullBulkString }
    }
}

/// The whole command table: how a request, as its list of argument strings,
/// reads or rewrites the two namespaces and what it replies.
pub open spec fn step(
    strings: Map<Seq<u8>, (Seq<u8>, Option<u64>)>,
    lists: Map<Seq<u8>, Seq<Seq<u8>>>,
    args: Seq<Seq<u8>>,
    now: u64,
) -> Outcome {
    if args.len() == 0 {
        Outcome { strings, lists, reply: Frame::Error(txt_err_proto()) }
    } else {
        let cmd = args[0];
        if cmd == txt_ping() {
            if args.len() == 1 {
                Outcome { strings, lists, reply: Frame::SimpleString(txt_pong()) }
            } else {
                Outcome { strings, lists, reply: Frame::Error(txt_err_proto()) }
            }
        } else if cmd == txt_echo() {
            if args.len() == 2 {
                Outcome { strings, lists, reply: Frame::BulkString(args[1]) }
            } else {
                Outcome { strings, lists, reply: Frame::Error(txt_err_proto()) }
            }
        } else if cmd == txt_set() {
            step_set(strings, lists, args, now)
        } else if cmd == txt_get() {
            if args.len() == 2 {
                step_get(strings, lists, args[1], now)
            } else {
                Outcome { strings, lists, reply: Frame::Error(txt_err_proto()) }
            }
        } else if cmd == txt_rpush() {
            if args.len() >= 3 {
                let before = if lists.contains_key(args[1]) {
                    lists[args[1]]
                } else {
                    Seq::empty()
                };
                let after = before + args.skip(2);
                Outcome {
                    strings,
                    lists: lists.insert(args[1], after),
                    reply: Frame::Integer(dec_of(after.len())),
                }
            } else {
                Outcome { strings, lists, reply: Frame::Error(txt_err_rpush()) }
            }
        } else {
            Outcome { strings, lists, reply: Frame::Error(txt_err_unknown()) }
        }
    }
}

/// Adds with saturation at the top of the clock.
fn sat_add(a: u64, b: u64) -> (r: u64)
    ensures
        r == sat64(a as nat + b as nat),
{
    if a <= u64::MAX - b {
        a + b
    } else {
        u64::MAX
    }
}

/// A second count as milliseconds, saturating.
fn sat_mul_1000(x: u64) -> (r: u64)
    ensures
        r as nat == if x as nat * 1000 > u64::MAX { u64::MAX as nat } else { x as nat * 1000 },
{
    proof {
        assert(x <= u64::MAX / 1000 ==> x * 1000 <= u64::MAX) by (nonlinear_arith);
        assert(x > u64::MAX / 1000 ==> x * 1000 > u64::MAX) by (nonlinear_arith);
    }
    if x <= u64::MAX / 1000 {
        x * 1000
    } else {
        u64::MAX
    }
}

impl Redis {
    /// Runs one request, given as its argument strings, against the store at
    /// the instant `now`, and returns the reply.
    pub fn execute(&mut self, args: &Vec<Vec<u8>>, now: u64) -> (r: Reply)
        requires
            old(self).wf(),
        ensures
            final(self).wf(),
            ({
                let o = step(old(self).strings(), old(self).lists(), views_of(args@), now);
                &&& final(self).strings() == o.strings
                &&& final(self).lists() == o.lists
                &&& r@ == o.reply
            }),
    {
        let ghost sargs = views_of(args@);
        if args.len() == 0 {
            return Reply::Error(lit_err_proto());
        }
        let cmd = args[0].as_slice();
        proof {
            assert(sargs[0] == cmd@);
        }
        if bytes_eq(cmd, lit_ping().as_slice()) {
            if args.len() == 1 {
                Reply::SimpleString(lit_pong())
            } else {
                Reply::Error(lit_err_proto())
            }
        } else if bytes_eq(cmd, lit_echo().as_slice()) {
            if args.len() == 2 {
                proof {
                    assert(sargs[1] == args@[1]@);
                }
                Reply::BulkString(slice_to_vec_u8(args[1].as_slice()))
            } else {
                Reply::Error(lit_err_proto())
            }
        } else if bytes_eq(cmd, lit_set().as_slice()) {
            if args.len() == 3 {
                proof {
                    assert(sargs[1] == args@[1]@ && sargs[2] == args@[2]@);
                }
                self.set(args[1].as_slice(), slice_to_vec_u8(args[2].as_slice()), None);
                Reply::SimpleString(lit_ok())
            } else if args.len() == 5 {
                proof {
                    assert(sargs[1] == args@[1]@ && sargs[2] == args@[2]@ && sargs[3] == args@[3]@
                        && sargs[4] == args@[4]@);
                }
                let modifier = args[3].as_slice();
                if bytes_eq(modifier, lit_px().as_slice()) {
                    match parse_u64(args[4].as_slice()) {
                        Some(x) => {
                            let expiry = sat_add(now, x);
                            self.set(
                                args[1].as_slice(),
                                slice_to_vec_u8(args[2].as_slice()),
                                Some(expiry),
                            );
                            Reply::SimpleString(lit_ok())
                        },
                        None => Reply::Error(lit_err_proto()),
                    }
                } else if bytes_eq(modifier, lit_ex().as_slice()) {
                    match parse_u64(args[4].as_slice()) {
                        Some(x) => {
                            let ms = sat_mul_1000(x);
                            let expiry = sat_add(now, ms);
                            proof {
                                let m = x as nat;
                                if m * 1000 > u64::MAX {
                                    assert(expiry == u64::MAX);
                                    assert(sat64(now as nat + m * 1000) == u64::MAX);
                                }
                            }
                            self.set(
                                args[1].as_slice(),
                                slice_to_vec_u8(args[2].as_slice()),
                                Some(expiry),
                            );
                            Reply::SimpleString(lit_ok())
                        },
                        None => Reply::Error(lit_err_proto()),
                    }
                } else {
                    Reply::Error(lit_err_unknown())
                }
            } else {
                Reply::Error(lit_err_proto())
            }
        } else if bytes_eq(cmd, lit_get().as_slice()) {
            if args.len() == 2 {
                proof {
                    assert(sargs[1] == args@[1]@);
                }
                match self.get(args[1].as_slice(), now) {
                    Some(v) => Reply::BulkString(v),
                    None => Reply::NullBulkString,
                }
            } else {
                Reply::Error(lit_err_proto())
            }
        } else if bytes_eq(cmd, lit_rpush().as_slice()) {
            if args.len() >= 3 {
                proof {
                    assert(sargs[1] == args@[1]@);
                }
                let values = vstd::slice::slice_subrange(args.as_slice(), 2, args.len());
                proof {
                    assert(views_of(values@) =~= sargs.skip(2)) by {
                        assert forall|j: int| 0 <= j < values@.len() implies views_of(values@)[j]
                            == sargs.skip(2)[j] by {
                            assert(values@[j] == args@[2 + j]);
                        }
                    }
                }
                let n = self.rpush(args[1].as_slice(), values);
                Reply::Integer(to_dec(n))
            } else {
                Reply::Error(lit_err_rpush())
            }
        } else {
            Reply::Error(lit_err_unknown())
        }
    }
}

/// The argument strings of a request frame: an array of bulk strings, each
/// one an argument; anything else is no request.
pub open spec fn args_of(v: Frame) -> Option<Seq<Seq<u8>>> {
    match v {
        Frame::Arrays(items) => if forall|i: int|
            0 <= i < items.len() ==> (#[trigger] items[i]) is BulkString {
            Some(Seq::new(items.len(), |i: int| items[i]->BulkString_0))
        } else {
            Option::None
        },
        _ => Option::None,
    }
}

/// What serving one decoded frame leaves behind: a command request runs
/// through `step`; any other frame is answered with a protocol error and
/// leaves the store alone.
pub open spec fn served(
    strings: Map<Seq<u8>, (Seq<u8>, Option<u64>)>,
    lists: Map<Seq<u8>, Seq<Seq<u8>>>,
    v: Frame,
    now: u64,
) -> Outcome {
    match args_of(v) {
        Some(args) => step(strings, lists, args, now),
        None => Outcome { strings, lists, reply: Frame::Error(txt_err_proto()) },
    }
}

/// Copies the arguments of a request frame out of the read buffer: the frame
/// must be an array of bulk strings.
#[verifier::loop_isolation(false)]
fn request_args(bytes: &[u8], resp: &RedisResp) -> (r: Option<Vec<Vec<u8>>>)
    requires
        resp_wf(*resp, bytes@),
    ensures
        match r {
            Some(args) => args_of(resp_model(*resp, bytes@)) == Some(views_of(args@)),
            None => args_of(resp_model(*resp, bytes@)) is None,
        },
{
    match resp {
        RedisResp::Arrays(elems) => {
            let ghost models = resp_models(elems@, bytes@);
            proof {
                if elems@.len() > 0 {
                    lemma_resp_models_index(elems@, bytes@, 0);
                }
                assert(models.len() == elems@.len()) by {
                    if elems@.len() == 0 {
                    } else {
                        lemma_resp_models_index(elems@, bytes@, 0);
                    }
                }
            }
            let mut args: Vec<Vec<u8>> = Vec::new();
            let mut i: usize = 0;
            while i < elems.len()
                invariant
                    i <= elems@.len(),
                    args@.len() == i,
                    models == resp_models(elems@, bytes@),
                    models.len() == elems@.len(),
                    resp_wf(RedisResp::Arrays(*elems), bytes@),
                    forall|j: int|
                        0 <= j < i ==> (#[trigger] models[j]) is BulkString && args@[j]@
                            == models[j]->BulkString_0,
                decreases elems@.len() - i,
            {
                proof {
                    lemma_resp_wfs_index(elems@, bytes@, i as int);
                    lemma_resp_models_index(elems@, bytes@, i as int);
                }
                match &elems[i] {
                    RedisResp::BulkString(sp) => {
                        let piece = slice_to_vec_u8(
                            vstd::slice::slice_subrange(bytes, sp.0, sp.1),
                        );
                        args.push(piece);
                        i = i + 1;
                    },
                    _ => {
                        proof {
                            assert(!(models[i as int] is BulkString));
                            assert(!(forall|j: int|
                                0 <= j < models.len() ==> (#[trigger] models[j]) is BulkString));
                        }
                        return Option::None;
                    },
                }
            }
            proof {
                assert(args_of(Frame::Arrays(models)) == Some(views_of(args@))) by {
                    assert(forall|j: int|
                        0 <= j < models.len() ==> (#[trigger] models[j]) is BulkString);
                    assert(views_of(args@) =~= Seq::new(
                        models.len(),
                        |j: int| models[j]->BulkString_0,
                    ));
                }
            }
            Some(args)
        },
        _ => Option::None,
    }
}

impl Redis {
    /// Serves one raw request: decodes the frame at the head of the buffer,
    /// dispatches it, and returns the encoded reply bytes.  A buffer that
    /// holds no decodable frame, or a frame that is not an array of bulk
    /// strings, earns a protocol error reply and leaves the store alone.
    pub fn handle_request(&mut self, bytes: &[u8], now: u64) -> (out: Vec<u8>)
        requires
            old(self).wf(),
        ensures
            final(self).wf(),
            forall|v: Frame, n: int|
                frame_at(bytes@, 0, v, n) ==> ({
                    let o = served(old(self).strings(), old(self).lists(), v, now);
                    &&& final(self).strings() == o.strings
                    &&& final(self).lists() == o.lists
                    &&& out@ == spec_encode(o.reply)
                }),
            (forall|v: Frame, n: int| !frame_at(bytes@, 0, v, n)) ==> {
                &&& final(self).strings() == old(self).strings()
                &&& final(self).lists() == old(self).lists()
                &&& out@ == spec_encode(Frame::Error(txt_err_proto()))
            },
    {
        match decode(bytes, 0) {
            Err(_) => encode(&Reply::Error(lit_err_proto())),
            Ok((resp, next)) => {
                let ghost model = resp_model(resp, bytes@);
                match request_args(bytes, &resp) {
                    Option::None => {
                        let out = encode(&Reply::Error(lit_err_proto()));
                        proof {
                            assert forall|v: Frame, n: int|
                                frame_at(bytes@, 0, v, n) implies v == model by {
                                lemma_frame_at_unique(bytes@, 0, v, n, model, next as int);
                            }
                        }
                        out
                    },
                    Some(args) => {
                        let r = self.execute(&args, now);
                        let out = encode(&r);
                        proof {
                            assert forall|v: Frame, n: int|
                                frame_at(bytes@, 0, v, n) implies v == model by {
                                lemma_frame_at_unique(bytes@, 0, v, n, model, next as int);
                            }
                        }
                        out
                    },
                }
            },
        }
    }
}

} // verus!
