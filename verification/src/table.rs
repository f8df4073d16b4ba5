//! Association rows as a mathematical map: the spec-level reading of a
//! vector of key/value rows, and how row edits act on that map.

use vstd::prelude::*;

verus! {

/// The map a run of rows denotes; a later row with the same key wins.
pub open spec fn assoc_map<T>(s: Seq<(Seq<u8>, T)>) -> Map<Seq<u8>, T>
    decreases s.len(),
{
    if s.len() == 0 {
        Map::empty()
    } else {
        assoc_map(s.drop_last()).insert(s.last().0, s.last().1)
    }
}

/// No two rows share a key.
pub open spec fn unique_keys<T>(s: Seq<(Seq<u8>, T)>) -> bool {
    forall|i: int, j: int|
        0 <= i < j < s.len() ==> (#[trigger] s[i]).0 != (#[trigger] s[j]).0
}

/// The map holds a key exactly when some row carries it.
pub proof fn lemma_assoc_map_contains<T>(s: Seq<(Seq<u8>, T)>, k: Seq<u8>)
    ensures
        assoc_map(s).contains_key(k) <==> exists|i: int|
            0 <= i < s.len() && (#[trigger] s[i]).0 == k,
    decreases s.len(),
{
    if s.len() == 0 {
        assert(!assoc_map(s).contains_key(k));
    } else {
        let dl = s.drop_last();
        lemma_assoc_map_contains(dl, k);
        if s.last().0 == k {
            assert((s[s.len() - 1]).0 == k);
        } else {
            if assoc_map(s).contains_key(k) {
                let i = choose|i: int| 0 <= i < dl.len() && (#[trigger] dl[i]).0 == k;
                assert((s[i]).0 == k);
            }
            if exists|i: int| 0 <= i < s.len() && (#[trigger] s[i]).0 == k {
                let i = choose|i: int| 0 <= i < s.len() && (#[trigger] s[i]).0 == k;
                assert(i < s.len() - 1);
                assert((dl[i]).0 == k);
            }
        }
    }
}

/// With unique keys, the map sends each row's key to that row's value.
pub proof fn lemma_assoc_map_index<T>(s: Seq<(Seq<u8>, T)>, i: int)
    requires
        unique_keys(s),
        0 <= i < s.len(),
    ensures
        assoc_map(s).contains_key((s[i]).0),
        assoc_map(s)[(s[i]).0] == (s[i]).1,
    decreases s.len(),
{
    if i < s.len() - 1 {
        let dl = s.drop_last();
        assert(unique_keys(dl)) by {
            assert(forall|x: int| 0 <= x < dl.len() ==> dl[x] == s[x]);
        }
        assert(dl[i] == s[i]);
        lemma_assoc_map_index(dl, i);
        assert((s.last()).0 != (s[i]).0);
    }
}

/// Replacing a row's value updates its key's image and nothing else.
pub proof fn lemma_assoc_map_update<T>(s: Seq<(Seq<u8>, T)>, i: int, v: T)
    requires
        unique_keys(s),
        0 <= i < s.len(),
    ensures
        unique_keys(s.update(i, ((s[i]).0, v))),
        assoc_map(s.update(i, ((s[i]).0, v))) == assoc_map(s).insert((s[i]).0, v),
    decreases s.len(),
{
    let k = (s[i]).0;
    let s2 = s.update(i, (k, v));
    assert(forall|x: int| 0 <= x < s.len() ==> ((#[trigger] s2[x]).0 == (s[x]).0));
    let dl = s.drop_last();
    assert(unique_keys(dl)) by {
        assert(forall|x: int| 0 <= x < dl.len() ==> dl[x] == s[x]);
    }
    if i == s.len() - 1 {
        assert(s2.drop_last() =~= dl);
        assert(s2.last() == (k, v));
        assert(assoc_map(s2) == assoc_map(dl).insert(k, v));
        assert(assoc_map(dl).insert(s.last().0, s.last().1).insert(k, v) =~= assoc_map(dl).insert(
            k,
            v,
        ));
    } else {
        assert(s2.drop_last() =~= dl.update(i, (k, v))) by {
            assert(forall|x: int|
                0 <= x < s.len() - 1 ==> #[trigger] s2.drop_last()[x] == s2[x]);
        }
        assert(dl[i] == s[i]);
        lemma_assoc_map_update(dl, i, v);
        assert(s2.last() == s.last());
        let lk = (s.last()).0;
        let lv = (s.last()).1;
        assert(lk != k);
        assert(assoc_map(s2) == assoc_map(dl).insert(k, v).insert(lk, lv));
        assert(assoc_map(dl).insert(k, v).insert(lk, lv) =~= assoc_map(dl).insert(lk, lv).insert(
            k,
            v,
        ));
    }
}

/// Appending a row with a fresh key inserts it into the map.
pub proof fn lemma_assoc_map_push<T>(s: Seq<(Seq<u8>, T)>, k: Seq<u8>, v: T)
    requires
        unique_keys(s),
        forall|i: int| 0 <= i < s.len() ==> (#[trigger] s[i]).0 != k,
    ensures
        unique_keys(s.push((k, v))),
        assoc_map(s.push((k, v))) == assoc_map(s).insert(k, v),
{
    let s2 = s.push((k, v));
    assert(s2.drop_last() =~= s);
    assert(s2.last() == (k, v));
    assert(forall|x: int| 0 <= x < s.len() ==> s2[x] == s[x]);
}

/// Deleting a row removes its key from the map and nothing else.
pub proof fn lemma_assoc_map_remove<T>(s: Seq<(Seq<u8>, T)>, i: int)
    requires
        unique_keys(s),
        0 <= i < s.len(),
    ensures
        unique_keys(s.remove(i)),
        assoc_map(s.remove(i)) == assoc_map(s).remove((s[i]).0),
    decreases s.len(),
{
    let k = (s[i]).0;
    let s2 = s.remove(i);
    s.remove_ensures(i);
    assert(unique_keys(s2)) by {
        assert forall|x: int, y: int|
            0 <= x < y < s2.len() implies (#[trigger] s2[x]).0 != (#[trigger] s2[y]).0 by {
            if x < i {
                assert(s2[x] == s[x]);
            } else {
                assert(s2[x] == s[x + 1]);
            }
            if y < i {
                assert(s2[y] == s[y]);
            } else {
                assert(s2[y] == s[y + 1]);
            }
        }
    }
    let dl = s.drop_last();
    assert(unique_keys(dl)) by {
        assert(forall|x: int| 0 <= x < dl.len() ==> dl[x] == s[x]);
    }
    if i == s.len() - 1 {
        assert(s2 =~= dl);
        lemma_assoc_map_contains(dl, k);
        assert(forall|x: int| 0 <= x < dl.len() ==> (#[trigger] dl[x]).0 != k);
        assert(!assoc_map(dl).contains_key(k));
        assert(assoc_map(s) == assoc_map(dl).insert(k, (s.last()).1));
        assert(assoc_map(dl) =~= assoc_map(dl).insert(k, (s.last()).1).remove(k));
    } else {
        dl.remove_ensures(i);
        assert(s2.drop_last() =~= dl.remove(i)) by {
            assert forall|x: int|
                0 <= x < s2.len() - 1 implies #[trigger] s2.drop_last()[x] == dl.remove(i)[x] by {
                if x < i {
                    assert(s2[x] == s[x] && dl.remove(i)[x] == dl[x]);
                } else {
                    assert(s2[x] == s[x + 1] && dl.remove(i)[x] == dl[x + 1]);
                }
            }
        }
        assert(s2.last() == s.last());
        assert(dl[i] == s[i]);
        lemma_assoc_map_remove(dl, i);
        let lk = (s.last()).0;
        let lv = (s.last()).1;
        assert(lk != k);
        assert(assoc_map(s2) == assoc_map(dl).remove(k).insert(lk, lv));
        assert(assoc_map(dl).remove(k).insert(lk, lv) =~= assoc_map(dl).insert(lk, lv).remove(k));
    }
}

} // verus!
