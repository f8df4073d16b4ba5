//! The laws the library keeps, stated over the spec models its contracts
//! use.

use vstd::prelude::*;
use crate::num::dec_of;
use crate::num::lenient_dec;
use crate::num::lemma_dec_of_canon;
use crate::num::lemma_dec_val_of;
use crate::resp::Frame;
use crate::resp::frame_at;
use crate::resp::spec_encode;
use crate::resp::decodable;
use crate::resp::lemma_frame_at_unique;
use crate::store::live_at;
use crate::commands::step;
use crate::commands::txt_set;
use crate::commands::txt_get;
use crate::commands::txt_rpush;
use crate::commands::txt_ping;
use crate::commands::txt_echo;
use crate::commands::txt_px;
use crate::commands::txt_ok;
use crate::commands::txt_err_unknown;

verus! {

/// Round trip: when a buffer is exactly the encoding of one decodable frame,
/// then any frame found at its head is that frame, it spans the whole
/// buffer, and its re-encoding is the buffer itself.  The decoder's contract
/// yields such a found frame for the value it returns, and the encoder's
/// contract turns it back into exactly these bytes.
pub proof fn lemma_round_trip(s: Seq<u8>, v0: Frame, v: Frame, n: int)
    requires
        decodable(v0),
        s == spec_encode(v0),
        frame_at(s, 0, v, n),
    ensures
        v == v0,
        n == s.len(),
        spec_encode(v) == s,
{
    assert(s.subrange(0, s.len() as int) =~= s);
    assert(frame_at(s, 0, v0, s.len() as int));
    lemma_frame_at_unique(s, 0, v, n, v0, s.len() as int);
}

proof fn lemma_commands_distinct()
    ensures
        txt_set() != txt_ping(),
        txt_set() != txt_echo(),
        txt_get() != txt_ping(),
        txt_get() != txt_echo(),
        txt_get() != txt_set(),
        txt_rpush() != txt_ping(),
        txt_rpush() != txt_echo(),
        txt_rpush() != txt_set(),
        txt_rpush() != txt_get(),
{
    assert(txt_get()[0] == 71 && txt_set()[0] == 83);
}

/// Setting a key without expiry and reading it straight back, at any later
/// instant, yields exactly the value that was set.
pub proof fn lemma_set_then_get(
    strings: Map<Seq<u8>, (Seq<u8>, Option<u64>)>,
    lists: Map<Seq<u8>, Seq<Seq<u8>>>,
    k: Seq<u8>,
    v: Seq<u8>,
    now1: u64,
    now2: u64,
)
    ensures
        ({
            let o1 = step(strings, lists, seq![txt_set(), k, v], now1);
            let o2 = step(o1.strings, o1.lists, seq![txt_get(), k], now2);
            &&& o1.reply == Frame::SimpleString(txt_ok())
            &&& o2.reply == Frame::BulkString(v)
            &&& o2.strings == o1.strings
            &&& o2.lists == lists
        }),
{
    lemma_commands_distinct();
    let o1 = step(strings, lists, seq![txt_set(), k, v], now1);
    assert(o1.strings == strings.insert(k, (v, Option::None)));
    assert(o1.strings[k] == (v, Option::<u64>::None));
}

/// Setting a key with a millisecond expiry and reading it after the deadline
/// yields the null reply, and the read itself removes the key: it no longer
/// exists in the store afterwards.
pub proof fn lemma_set_px_then_get_expired(
    strings: Map<Seq<u8>, (Seq<u8>, Option<u64>)>,
    lists: Map<Seq<u8>, Seq<Seq<u8>>>,
    k: Seq<u8>,
    v: Seq<u8>,
    t: u64,
    now1: u64,
    now2: u64,
)
    requires
        now1 + t <= u64::MAX,
        now2 > now1 + t,
    ensures
        ({
            let o1 = step(strings, lists, seq![txt_set(), k, v, txt_px(), dec_of(t as nat)], now1);
            let o2 = step(o1.strings, o1.lists, seq![txt_get(), k], now2);
            &&& o1.reply == Frame::SimpleString(txt_ok())
            &&& o2.reply == Frame::NullBulkString
            &&& !o2.strings.contains_key(k)
            &&& o2.lists == lists
        }),
{
    lemma_commands_distinct();
    let d = dec_of(t as nat);
    lemma_dec_of_canon(t as nat);
    lemma_dec_val_of(t as nat);
    assert(48 <= d[0] <= 57);
    assert(lenient_dec(d) == Some(t as nat));
    let o1 = step(strings, lists, seq![txt_set(), k, v, txt_px(), d], now1);
    assert(o1.strings == strings.insert(k, (v, Some((now1 + t) as u64))));
    assert(o1.strings[k] == (v, Some((now1 + t) as u64)));
    assert(!live_at(o1.strings[k], now2));
}

/// Appending two values to a fresh list and then one more leaves the list
/// holding the three in order, and each call replies with the list's length
/// right after it.
pub proof fn lemma_rpush_twice(
    strings: Map<Seq<u8>, (Seq<u8>, Option<u64>)>,
    lists: Map<Seq<u8>, Seq<Seq<u8>>>,
    l: Seq<u8>,
    a: Seq<u8>,
    b: Seq<u8>,
    c: Seq<u8>,
    now1: u64,
    now2: u64,
)
    requires
        !lists.contains_key(l),
    ensures
        ({
            let o1 = step(strings, lists, seq![txt_rpush(), l, a, b], now1);
            let o2 = step(o1.strings, o1.lists, seq![txt_rpush(), l, c], now2);
            &&& o1.reply == Frame::Integer(dec_of(2))
            &&& o2.reply == Frame::Integer(dec_of(3))
            &&& o2.lists[l] == seq![a, b, c]
            &&& o2.strings == strings
        }),
{
    lemma_commands_distinct();
    let args1 = seq![txt_rpush(), l, a, b];
    assert(args1.skip(2) =~= seq![a, b]);
    let after1 = Seq::<Seq<u8>>::empty() + args1.skip(2);
    assert(after1 =~= seq![a, b]);
    let o1 = step(strings, lists, args1, now1);
    assert(o1.lists == lists.insert(l, after1));
    let args2 = seq![txt_rpush(), l, c];
    assert(args2.skip(2) =~= seq![c]);
    let after2 = o1.lists[l] + args2.skip(2);
    assert(after2 =~= seq![a, b, c]);
    assert(after2.len() == 3);
}

/// Reading a key that was never set yields the null bulk reply, never an
/// error, and changes nothing.
pub proof fn lemma_get_absent(
    strings: Map<Seq<u8>, (Seq<u8>, Option<u64>)>,
    lists: Map<Seq<u8>, Seq<Seq<u8>>>,
    k: Seq<u8>,
    now: u64,
)
    requires
        !strings.contains_key(k),
    ensures
        ({
            let o = step(strings, lists, seq![txt_get(), k], now);
            &&& o.reply == Frame::NullBulkString
            &&& !(o.reply is Error)
            &&& o.strings == strings
            &&& o.lists == lists
        }),
{
    lemma_commands_distinct();
}

/// An unknown command name earns an error reply, leaves both namespaces
/// untouched, and every later request behaves exactly as it would have
/// without it.
pub proof fn lemma_unknown_command(
    strings: Map<Seq<u8>, (Seq<u8>, Option<u64>)>,
    lists: Map<Seq<u8>, Seq<Seq<u8>>>,
    args: Seq<Seq<u8>>,
    now: u64,
)
    requires
        args.len() > 0,
        args[0] != txt_ping(),
        args[0] != txt_echo(),
        args[0] != txt_set(),
        args[0] != txt_get(),
        args[0] != txt_rpush(),
    ensures
        ({
            let o = step(strings, lists, args, now);
            &&& o.reply == Frame::Error(txt_err_unknown())
            &&& o.strings == strings
            &&& o.lists == lists
        }),
        forall|args2: Seq<Seq<u8>>, now2: u64|
            step(
                step(strings, lists, args, now).strings,
                step(strings, lists, args, now).lists,
                args2,
                now2,
            ) == step(strings, lists, args2, now2),
{
}

} // verus!
