//! The expiry-aware string store and the independent list store.
//!
//! Both namespaces are association vectors with unique keys, read as maps.
//! Time enters only as a plain millisecond instant handed in by the caller:
//! an entry whose expiry lies before that instant is logically absent and is
//! deleted by the read that observes it.

use vstd::prelude::*;
use crate::bytes::bytes_eq;
use crate::table::assoc_map;
use crate::table::unique_keys;
use crate::table::lemma_assoc_map_contains;
use crate::table::lemma_assoc_map_index;
use crate::table::lemma_assoc_map_push;
use crate::table::lemma_assoc_map_remove;

verus! {

/// A stored string value and its optional absolute expiry instant, in
/// milliseconds on the caller's clock.
pub struct RedisValue {
    pub value: Vec<u8>,
    pub expire_time: Option<u64>,
}

/// The two independent key namespaces: string values and lists.
pub struct Redis {
    data: Vec<(Vec<u8>, RedisValue)>,
    list: Vec<(Vec<u8>, Vec<Vec<u8>>)>,
}

/// A string entry is live at `now` unless its expiry lies strictly before.
pub open spec fn live_at(entry: (Seq<u8>, Option<u64>), now: u64) -> bool {
    match entry.1 {
        None => true,
        Some(t) => now <= t,
    }
}

pub open spec fn entry_views(rows: Seq<(Vec<u8>, RedisValue)>) -> Seq<
    (Seq<u8>, (Seq<u8>, Option<u64>)),
> {
    Seq::new(rows.len(), |i: int| (rows[i].0@, (rows[i].1.value@, rows[i].1.expire_time)))
}

/// The views of a run of list elements.
pub open spec fn views_of(vals: Seq<Vec<u8>>) -> Seq<Seq<u8>> {
    Seq::new(vals.len(), |i: int| vals[i]@)
}

pub open spec fn list_views(rows: Seq<(Vec<u8>, Vec<Vec<u8>>)>) -> Seq<(Seq<u8>, Seq<Seq<u8>>)> {
    Seq::new(rows.len(), |i: int| (rows[i].0@, views_of(rows[i].1@)))
}

impl Redis {
    /// The string namespace: key to value and optional expiry.
    pub closed spec fn strings(self) -> Map<Seq<u8>, (Seq<u8>, Option<u64>)> {
        assoc_map(entry_views(self.data@))
    }

    /// The list namespace: key to its ordered elements.
    pub closed spec fn lists(self) -> Map<Seq<u8>, Seq<Seq<u8>>> {
        assoc_map(list_views(self.list@))
    }

    pub closed spec fn wf(self) -> bool {
        unique_keys(entry_views(self.data@)) && unique_keys(list_views(self.list@))
    }

    /// An empty store.
    pub fn new() -> (r: Redis)
        ensures
            r.wf(),
            r.strings() == Map::<Seq<u8>, (Seq<u8>, Option<u64>)>::empty(),
            r.lists() == Map::<Seq<u8>, Seq<Seq<u8>>>::empty(),
    {
        let r = Redis { data: Vec::new(), list: Vec::new() };
        proof {
            assert(entry_views(r.data@) =~= Seq::<(Seq<u8>, (Seq<u8>, Option<u64>))>::empty());
            assert(list_views(r.list@) =~= Seq::<(Seq<u8>, Seq<Seq<u8>>)>::empty());
        }
        r
    }

    fn find_str(&self, key: &[u8]) -> (r: Option<usize>)
        ensures
            match r {
                Some(i) => i < self.data@.len() && self.data@[i as int].0@ == key@,
                None => forall|i: int| 0 <= i < self.data@.len() ==> self.data@[i].0@ != key@,
            },
    {
        let mut i: usize = 0;
        while i < self.data.len()
            invariant
                i <= self.data@.len(),
                forall|j: int| 0 <= j < i ==> self.data@[j].0@ != key@,
            decreases self.data@.len() - i,
        {
            if bytes_eq(self.data[i].0.as_slice(), key) {
                return Some(i);
            }
            i = i + 1;
        }
        None
    }

    fn find_list(&self, key: &[u8]) -> (r: Option<usize>)
        ensures
            match r {
                Some(i) => i < self.list@.len() && self.list@[i as int].0@ == key@,
                None => forall|i: int| 0 <= i < self.list@.len() ==> self.list@[i].0@ != key@,
            },
    {
        let mut i: usize = 0;
        while i < self.list.len()
            invariant
                i <= self.list@.len(),
                forall|j: int| 0 <= j < i ==> self.list@[j].0@ != key@,
            decreases self.list@.len() - i,
        {
            if bytes_eq(self.list[i].0.as_slice(), key) {
                return Some(i);
            }
            i = i + 1;
        }
        None
    }

    /// Unconditional upsert of a string entry, value and expiry together.
    pub fn set(&mut self, key: &[u8], value: Vec<u8>, expire_time: Option<u64>)
        requires
            old(self).wf(),
        ensures
            final(self).wf(),
            final(self).lists() == old(self).lists(),
            final(self).strings() == old(self).strings().insert(key@, (value@, expire_time)),
    {
        let ghost rows0 = self.data@;
        let entry = RedisValue { value, expire_time };
        match self.find_str(key) {
            Some(i) => {
                proof {
                    assert(entry_views(rows0)[i as int].0 == key@);
                    lemma_assoc_map_remove(entry_views(rows0), i as int);
                }
                let _ = self.data.remove(i);
                proof {
                    assert(entry_views(self.data@) =~= entry_views(rows0).remove(i as int)) by {
                        rows0.remove_ensures(i as int);
                        entry_views(rows0).remove_ensures(i as int);
                    }
                }
                let ghost rows1 = self.data@;
                proof {
                    lemma_assoc_map_contains(entry_views(rows1), key@);
                    assert(forall|x: int|
                        0 <= x < entry_views(rows1).len() ==> (#[trigger] entry_views(rows1)[x]).0
                            != key@) by {
                        lemma_assoc_map_remove(entry_views(rows0), i as int);
                    }
                    lemma_assoc_map_push(entry_views(rows1), key@, (value@, expire_time));
                }
                self.data.push((slice_to_vec_u8(key), entry));
                proof {
                    assert(entry_views(self.data@) =~= entry_views(rows1).push(
                        (key@, (value@, expire_time)),
                    ));
                    assert(self.strings() =~= old(self).strings().insert(
                        key@,
                        (value@, expire_time),
                    ));
                }
            },
            None => {
                proof {
                    assert(forall|x: int|
                        0 <= x < entry_views(rows0).len() ==> (#[trigger] entry_views(rows0)[x]).0
                            != key@);
                    lemma_assoc_map_push(entry_views(rows0), key@, (value@, expire_time));
                }
                self.data.push((slice_to_vec_u8(key), entry));
                proof {
                    assert(entry_views(self.data@) =~= entry_views(rows0).push(
                        (key@, (value@, expire_time)),
                    ));
                }
            },
        }
    }

    /// Reads a string entry.  An absent key yields nothing; an expired entry
    /// is deleted by this very read and also yields nothing.
    pub fn get(&mut self, key: &[u8], now: u64) -> (r: Option<Vec<u8>>)
        requires
            old(self).wf(),
        ensures
            final(self).wf(),
            final(self).lists() == old(self).lists(),
            match r {
                Some(v) => {
                    &&& old(self).strings().contains_key(key@)
                    &&& live_at(old(self).strings()[key@], now)
                    &&& v@ == old(self).strings()[key@].0
                    &&& final(self).strings() == old(self).strings()
                },
                None => {
                    &&& !(old(self).strings().contains_key(key@) && live_at(
                        old(self).strings()[key@],
                        now,
                    ))
                    &&& if old(self).strings().contains_key(key@) {
                        final(self).strings() == old(self).strings().remove(key@)
                    } else {
                        final(self).strings() == old(self).strings()
                    }
                },
            },
    {
        let ghost rows0 = self.data@;
        match self.find_str(key) {
            None => {
                proof {
                    lemma_assoc_map_contains(entry_views(rows0), key@);
                    assert(forall|x: int|
                        0 <= x < entry_views(rows0).len() ==> (#[trigger] entry_views(rows0)[x]).0
                            != key@);
                }
                None
            },
            Some(i) => {
                proof {
                    assert(entry_views(rows0)[i as int].0 == key@);
                    lemma_assoc_map_index(entry_views(rows0), i as int);
                }
                let expired = match self.data[i].1.expire_time {
                    Some(t) => now > t,
                    None => false,
                };
                if expired {
                    proof {
                        lemma_assoc_map_remove(entry_views(rows0), i as int);
                    }
                    let _ = self.data.remove(i);
                    proof {
                        assert(entry_views(self.data@) =~= entry_views(rows0).remove(i as int)) by {
                            rows0.remove_ensures(i as int);
                            entry_views(rows0).remove_ensures(i as int);
                        }
                    }
                    None
                } else {
                    let out = slice_to_vec_u8(self.data[i].1.value.as_slice());
                    Some(out)
                }
            },
        }
    }

    /// Appends values to the list at `key`, creating it first if absent, and
    /// returns the list's length after the append.
    pub fn rpush(&mut self, key: &[u8], values: &[Vec<u8>]) -> (r: usize)
        requires
            old(self).wf(),
        ensures
            final(self).wf(),
            final(self).strings() == old(self).strings(),
            ({
                let before = if old(self).lists().contains_key(key@) {
                    old(self).lists()[key@]
                } else {
                    Seq::empty()
                };
                &&& final(self).lists() == old(self).lists().insert(
                    key@,
                    before + views_of(values@),
                )
                &&& r == before.len() + values@.len()
            }),
    {
        let ghost rows0 = self.list@;
        match self.find_list(key) {
            Some(i) => {
                proof {
                    assert(list_views(rows0)[i as int].0 == key@);
                    lemma_assoc_map_index(list_views(rows0), i as int);
                    lemma_assoc_map_remove(list_views(rows0), i as int);
                }
                let row = self.list.remove(i);
                proof {
                    assert(list_views(self.list@) =~= list_views(rows0).remove(i as int)) by {
                        rows0.remove_ensures(i as int);
                        list_views(rows0).remove_ensures(i as int);
                    }
                }
                let ghost rows1 = self.list@;
                let (row_key, mut lst) = row;
                let ghost before = views_of(lst@);
                append_all(&mut lst, values);
                let n = lst.len();
                proof {
                    lemma_assoc_map_contains(list_views(rows1), key@);
                    assert(forall|x: int|
                        0 <= x < list_views(rows1).len() ==> (#[trigger] list_views(rows1)[x]).0
                            != key@) by {
                        lemma_assoc_map_remove(list_views(rows0), i as int);
                    }
                    lemma_assoc_map_push(list_views(rows1), key@, views_of(lst@));
                }
                self.list.push((row_key, lst));
                proof {
                    assert(list_views(self.list@) =~= list_views(rows1).push(
                        (key@, old(self).lists()[key@] + views_of(values@)),
                    ));
                    assert(self.lists() =~= old(self).lists().insert(
                        key@,
                        old(self).lists()[key@] + views_of(values@),
                    ));
                }
                n
            },
            None => {
                proof {
                    lemma_assoc_map_contains(list_views(rows0), key@);
                    assert(forall|x: int|
                        0 <= x < list_views(rows0).len() ==> (#[trigger] list_views(rows0)[x]).0
                            != key@);
                }
                let mut lst: Vec<Vec<u8>> = Vec::new();
                proof {
                    assert(views_of(lst@) =~= Seq::<Seq<u8>>::empty());
                }
                append_all(&mut lst, values);
                let n = lst.len();
                proof {
                    lemma_assoc_map_push(list_views(rows0), key@, views_of(lst@));
                }
                self.list.push((slice_to_vec_u8(key), lst));
                proof {
                    assert(list_views(self.list@) =~= list_views(rows0).push(
                        (key@, Seq::empty() + views_of(values@)),
                    ));
                    assert(self.lists() =~= old(self).lists().insert(
                        key@,
                        Seq::<Seq<u8>>::empty() + views_of(values@),
                    ));
                }
                n
            },
        }
    }

    /// Whether the string namespace holds the key at all, expired or not.
    pub fn contains_string_key(&self, key: &[u8]) -> (r: bool)
        requires
            self.wf(),
        ensures
            r == self.strings().contains_key(key@),
    {
        proof {
            lemma_assoc_map_contains(entry_views(self.data@), key@);
        }
        match self.find_str(key) {
            Some(i) => {
                proof {
                    assert(entry_views(self.data@)[i as int].0 == key@);
                }
                true
            },
            None => {
                proof {
                    assert(forall|x: int|
                        0 <= x < entry_views(self.data@).len() ==> (#[trigger] entry_views(
                            self.data@,
                        )[x]).0 != key@);
                }
                false
            },
        }
    }
}

/// Copies a byte slice into an owned vector.
pub fn slice_to_vec_u8(bytes: &[u8]) -> (r: Vec<u8>)
    ensures
        r@ == bytes@,
{
    let r = vstd::slice::slice_to_vec(bytes);
    proof {
        assert(r@ =~= bytes@);
    }
    r
}

/// Appends copies of all given values to the list.
fn append_all(lst: &mut Vec<Vec<u8>>, values: &[Vec<u8>])
    ensures
        final(lst)@.len() == old(lst)@.len() + values@.len(),
        views_of(final(lst)@) == views_of(old(lst)@) + views_of(values@),
{
    let mut j: usize = 0;
    while j < values.len()
        invariant
            j <= values@.len(),
            lst@.len() == old(lst)@.len() + j,
            views_of(lst@) == views_of(old(lst)@) + views_of(values@.subrange(0, j as int)),
        decreases values@.len() - j,
    {
        let piece = slice_to_vec_u8(values[j].as_slice());
        let ghost pv = piece@;
        let ghost prev = lst@;
        lst.push(piece);
        j = j + 1;
        proof {
            assert forall|k: int| 0 <= k < lst@.len() implies views_of(lst@)[k] == (views_of(
                old(lst)@,
            ) + views_of(values@.subrange(0, j as int)))[k] by {
                if k < prev.len() {
                    assert(lst@[k] == prev[k]);
                    assert(views_of(prev)[k] == prev[k]@);
                } else {
                    assert(lst@[k]@ == pv);
                }
                if k >= old(lst)@.len() {
                    assert(values@.subrange(0, j as int)[k - old(lst)@.len()] == values@[k - old(
                        lst,
                    )@.len()]);
                }
            }
            assert(views_of(lst@) =~= views_of(old(lst)@) + views_of(
                values@.subrange(0, j as int),
            ));
        }
    }
    proof {
        assert(values@.subrange(0, values@.len() as int) =~= values@);
        assert(views_of(lst@) =~= views_of(old(lst)@) + views_of(values@));
    }
}

} // verus!
