//! Canonical decimal numerals: the spec-level text of a number, and verified
//! parsing and printing of that text.

use vstd::prelude::*;

verus! {

/// The canonical decimal text of `n`: no sign, no leading zero.
pub open spec fn dec_of(n: nat) -> Seq<u8>
    decreases n,
{
    if n < 10 {
        seq![(48 + n) as u8]
    } else {
        dec_of(n / 10).push((48 + n % 10) as u8)
    }
}

/// The number a digit string denotes (non-digit bytes count as zero).
pub open spec fn dec_val(t: Seq<u8>) -> nat
    decreases t.len(),
{
    if t.len() == 0 {
        0
    } else {
        dec_val(t.drop_last()) * 10 + (if 48 <= t.last() <= 57 {
            (t.last() - 48) as nat
        } else {
            0
        })
    }
}

pub open spec fn is_digits(t: Seq<u8>) -> bool {
    forall|i: int| 0 <= i < t.len() ==> 48 <= #[trigger] t[i] <= 57
}

/// A digit string in canonical form: nonempty and no leading zero.
pub open spec fn is_canon_dec(t: Seq<u8>) -> bool {
    &&& t.len() > 0
    &&& is_digits(t)
    &&& (t.len() == 1 || t[0] != 48)
}

/// The canonical text of any number is a canonical digit string.
pub proof fn lemma_dec_of_canon(n: nat)
    ensures
        is_canon_dec(dec_of(n)),
        n < 10 ==> dec_of(n).len() == 1,
        n >= 1 ==> dec_of(n)[0] != 48,
    decreases n,
{
    if n < 10 {
        assert(dec_of(n) =~= seq![(48 + n) as u8]);
    } else {
        lemma_dec_of_canon(n / 10);
        let front = dec_of(n / 10);
        assert(dec_of(n) =~= front.push((48 + n % 10) as u8));
        assert(dec_of(n)[0] == front[0]);
        assert forall|i: int| 0 <= i < dec_of(n).len() implies 48 <= #[trigger] dec_of(n)[i]
            <= 57 by {
            if i < front.len() {
                assert(dec_of(n)[i] == front[i]);
            }
        }
    }
}

/// Printing then reading a number gives the number back.
pub proof fn lemma_dec_val_of(n: nat)
    ensures
        dec_val(dec_of(n)) == n,
    decreases n,
{
    if n < 10 {
        let t = dec_of(n);
        assert(t.drop_last() =~= Seq::<u8>::empty());
        assert(dec_val(Seq::<u8>::empty()) == 0);
        assert(t.last() == (48 + n) as u8 == 48 + n);
    } else {
        lemma_dec_val_of(n / 10);
        let t = dec_of(n);
        assert(t.drop_last() =~= dec_of(n / 10));
        assert(t.last() == (48 + n % 10) as u8 == 48 + n % 10);
        assert(dec_val(t) == dec_val(dec_of(n / 10)) * 10 + n % 10);
        assert(n / 10 * 10 + n % 10 == n) by (nonlinear_arith);
    }
}

/// A digit string with a nonzero leading digit denotes a positive number.
pub proof fn lemma_dec_val_pos(t: Seq<u8>)
    requires
        is_digits(t),
        t.len() >= 1,
        t[0] != 48,
    ensures
        dec_val(t) >= 1,
    decreases t.len(),
{
    if t.len() == 1 {
        assert(49 <= t[0] <= 57);
    } else {
        let front = t.drop_last();
        assert(front[0] == t[0]);
        lemma_dec_val_pos(front);
    }
}

/// A canonical digit string is the canonical text of the number it denotes.
pub proof fn lemma_canon_dec_of(t: Seq<u8>)
    requires
        is_canon_dec(t),
    ensures
        t == dec_of(dec_val(t)),
    decreases t.len(),
{
    if t.len() == 1 {
        let d = t[0];
        assert(t.drop_last() =~= Seq::<u8>::empty());
        assert(dec_val(Seq::<u8>::empty()) == 0);
        assert(dec_val(t) == (d - 48) as nat);
        assert(t =~= dec_of(dec_val(t)));
    } else {
        let front = t.drop_last();
        let d = t.last();
        assert(front[0] == t[0]);
        assert(forall|i: int| 0 <= i < front.len() ==> front[i] == t[i]);
        lemma_canon_dec_of(front);
        lemma_dec_val_pos(front);
        let f = dec_val(front);
        let v = dec_val(t);
        assert(v == f * 10 + (d - 48));
        assert(v >= 10) by {
            assert(f >= 1);
            assert(f * 10 >= 10) by (nonlinear_arith)
                requires
                    f >= 1,
            ;
        }
        assert(v / 10 == f && v % 10 == (d - 48)) by (nonlinear_arith)
            requires
                v == f * 10 + (d - 48),
                0 <= d - 48 < 10,
        ;
        assert(dec_of(v) == dec_of(f).push((48 + v % 10) as u8));
        assert(t =~= dec_of(v));
    }
}

/// Reading more digits never shrinks the value: a prefix denotes at most as
/// much as the whole string.
pub proof fn lemma_dec_val_take(t: Seq<u8>, i: int)
    requires
        0 <= i <= t.len(),
    ensures
        dec_val(t.take(i)) <= dec_val(t),
    decreases t.len() - i,
{
    if i == t.len() {
        assert(t.take(i) =~= t);
    } else {
        lemma_dec_val_take(t, i + 1);
        let u = t.take(i + 1);
        assert(u.drop_last() =~= t.take(i));
        assert(dec_val(t.take(i)) * 10 >= dec_val(t.take(i))) by (nonlinear_arith);
        assert(dec_val(t.take(i)) <= dec_val(u));
    }
}

/// Parses the byte range `[from, to)` as a canonical decimal number of at
/// most `max`.  `None` exactly when the range is not canonical decimal text,
/// or denotes a number above `max`.
pub fn parse_canon_dec(bytes: &[u8], from: usize, to: usize, max: usize) -> (r: Option<usize>)
    requires
        from <= to <= bytes@.len(),
    ensures
        match r {
            Some(l) => l <= max && bytes@.subrange(from as int, to as int) == dec_of(l as nat),
            None => forall|m: nat|
                bytes@.subrange(from as int, to as int) == dec_of(m) ==> m > max,
        },
{
    let ghost t = bytes@.subrange(from as int, to as int);
    if to == from {
        proof {
            assert forall|m: nat| t == dec_of(m) implies m > max by {
                lemma_dec_of_canon(m);
            }
        }
        return None;
    }
    if to - from > 1 && bytes[from] == 48 {
        proof {
            assert forall|m: nat| t == dec_of(m) implies m > max by {
                lemma_dec_of_canon(m);
                assert(t[0] == 48);
            }
        }
        return None;
    }
    let mut acc: usize = 0;
    let mut i: usize = from;
    while i < to
        invariant
            from <= i <= to <= bytes@.len(),
            t == bytes@.subrange(from as int, to as int),
            acc <= max,
            is_digits(t.take(i - from)),
            acc == dec_val(t.take(i - from)),
        decreases to - i,
    {
        let b = bytes[i];
        proof {
            assert(t[i - from] == b);
            assert(t.take(i - from + 1).drop_last() =~= t.take(i - from));
        }
        if !(48 <= b && b <= 57) {
            proof {
                assert forall|m: nat| t == dec_of(m) implies m > max by {
                    lemma_dec_of_canon(m);
                }
            }
            return None;
        }
        let d = (b - 48) as usize;
        let over = acc > max / 10 || {
            let shifted = acc * 10;
            d > max - shifted
        };
        proof {
            assert(acc <= max / 10 ==> acc * 10 <= max) by (nonlinear_arith)
                requires
                    acc <= max,
            ;
        }
        if over {
            proof {
                assert(dec_val(t.take(i - from + 1)) == acc * 10 + d);
                assert(acc > max / 10 ==> acc * 10 + d > max) by (nonlinear_arith)
                    requires
                        0 <= d,
                ;
                assert forall|m: nat| t == dec_of(m) implies m > max by {
                    lemma_dec_of_canon(m);
                    lemma_dec_val_of(m);
                    lemma_dec_val_take(t, i - from + 1);
                }
            }
            return None;
        }
        acc = acc * 10 + d;
        i = i + 1;
    }
    proof {
        assert(t.take(to - from) =~= t);
        assert(is_canon_dec(t));
        lemma_canon_dec_of(t);
    }
    Some(acc)
}

/// Parses a whole argument as an unsigned decimal with an optional leading
/// plus sign, as an expiry amount is written; leading zeros are allowed.
pub open spec fn lenient_dec(t: Seq<u8>) -> Option<nat> {
    let d = if t.len() > 0 && t[0] == 43 {
        t.drop_first()
    } else {
        t
    };
    if d.len() > 0 && is_digits(d) {
        Some(dec_val(d))
    } else {
        None
    }
}

/// Parses an expiry amount.  `None` exactly when the text is not a decimal
/// number, or denotes a number that does not fit in a `u64`.
pub fn parse_u64(arg: &[u8]) -> (r: Option<u64>)
    ensures
        match r {
            Some(x) => lenient_dec(arg@) == Some(x as nat),
            None => forall|m: nat| lenient_dec(arg@) == Some(m) ==> m > u64::MAX,
        },
{
    let start: usize = if arg.len() > 0 && arg[0] == 43 {
        1
    } else {
        0
    };
    let ghost d = if arg@.len() > 0 && arg@[0] == 43 {
        arg@.drop_first()
    } else {
        arg@
    };
    proof {
        assert(d =~= arg@.subrange(start as int, arg@.len() as int));
    }
    if arg.len() == start {
        return None;
    }
    let mut acc: u64 = 0;
    let mut i: usize = start;
    while i < arg.len()
        invariant
            start <= i <= arg@.len(),
            d == arg@.subrange(start as int, arg@.len() as int),
            d.len() > 0,
            is_digits(d) ==> lenient_dec(arg@) == Some(dec_val(d)),
            !is_digits(d) ==> lenient_dec(arg@) is None,
            is_digits(d.take(i - start)),
            acc == dec_val(d.take(i - start)),
        decreases arg@.len() - i,
    {
        let b = arg[i];
        proof {
            assert(d[i - start] == b);
            assert(d.take(i - start + 1).drop_last() =~= d.take(i - start));
            assert(d.take(i - start + 1).last() == b);
        }
        if !(48 <= b && b <= 57) {
            proof {
                assert(!is_digits(d));
            }
            return None;
        }
        let dd = (b - 48) as u64;
        let over = acc > u64::MAX / 10 || {
            let shifted = acc * 10;
            dd > u64::MAX - shifted
        };
        proof {
            assert(acc <= u64::MAX / 10 ==> acc * 10 <= u64::MAX) by (nonlinear_arith);
        }
        if over {
            proof {
                assert(dec_val(d.take(i - start + 1)) == acc * 10 + dd);
                assert(acc > u64::MAX / 10 ==> acc * 10 + dd > u64::MAX) by (nonlinear_arith)
                    requires
                        0 <= dd,
                ;
                lemma_dec_val_take(d, i - start + 1);
                assert(dec_val(d) > u64::MAX);
            }
            return None;
        }
        acc = acc * 10 + dd;
        i = i + 1;
    }
    proof {
        assert(d.take(arg@.len() - start) =~= d);
    }
    Some(acc)
}

/// Prints `n` as canonical decimal text.
pub fn to_dec(n: usize) -> (r: Vec<u8>)
    ensures
        r@ == dec_of(n as nat),
    decreases n,
{
    if n < 10 {
        let mut v = Vec::new();
        v.push((48 + n) as u8);
        proof {
            assert(v@ =~= dec_of(n as nat));
        }
        v
    } else {
        let mut v = to_dec(n / 10);
        v.push((48 + n % 10) as u8);
        v
    }
}

} // verus!
