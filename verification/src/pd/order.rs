//! Stable sorting by a byte-string key.

use vstd::prelude::*;
use crate::bytes;

verus! {

/// Something that is sorted by a byte string.
pub trait Keyed: View + Sized {
    /// What it is sorted by.
    spec fn key(v: Self::V) -> Seq<u8>;

    /// Whether it sorts in front of another.
    fn before(&self, other: &Self) -> (r: bool)
        ensures
            r == bytes::lex_lt(Self::key(self@), Self::key(other@)),
    ;
}

/// Where a value goes in a sorted list: behind everything that does not sort after it.
pub open spec fn slot<V>(key: spec_fn(V) -> Seq<u8>, s: Seq<V>, x: V) -> int
    decreases s.len(),
{
    if s.len() == 0 {
        0
    } else if bytes::lex_lt(key(x), key(s.last())) {
        slot(key, s.drop_last(), x)
    } else {
        s.len() as int
    }
}

/// A list sorted by key; values with the same key keep their order.
pub open spec fn sorted<V>(key: spec_fn(V) -> Seq<u8>, s: Seq<V>) -> Seq<V>
    decreases s.len(),
{
    if s.len() == 0 {
        s
    } else {
        let t = sorted(key, s.drop_last());
        t.insert(slot(key, t, s.last()), s.last())
    }
}

/// The key of a type, as a function.
pub open spec fn key_of<T: Keyed>() -> spec_fn(T::V) -> Seq<u8> {
    |v: T::V| T::key(v)
}

/// The views of a list.
pub open spec fn views<T: View>(s: Seq<T>) -> Seq<T::V> {
    Seq::new(s.len(), |i: int| s[i]@)
}

/// Keys do not go down along a list.
pub open spec fn in_order<V>(key: spec_fn(V) -> Seq<u8>, s: Seq<V>) -> bool {
    forall|i: int, j: int|
        #![trigger s[i], s[j]]
        0 <= i < j < s.len() ==> bytes::lex_le(key(s[i]), key(s[j]))
}

/// A slot is a position.
pub proof fn lemma_slot<V>(key: spec_fn(V) -> Seq<u8>, s: Seq<V>, x: V)
    ensures
        0 <= slot(key, s, x) <= s.len(),
        forall|j: int|
            slot(key, s, x) <= j < s.len() ==> bytes::lex_lt(key(x), key(#[trigger] s[j])),
        slot(key, s, x) > 0 ==> !bytes::lex_lt(key(x), key(s[slot(key, s, x) - 1])),
    decreases s.len(),
{
    if s.len() > 0 && bytes::lex_lt(key(x), key(s.last())) {
        lemma_slot(key, s.drop_last(), x);
        assert forall|j: int| slot(key, s, x) <= j < s.len() implies bytes::lex_lt(
            key(x),
            key(#[trigger] s[j]),
        ) by {
            if j < s.len() - 1 {
                assert(s.drop_last()[j] == s[j]);
            }
        }
    }
}

/// Sorting puts a list in order, and leaves its values.
pub proof fn lemma_sorted<V>(key: spec_fn(V) -> Seq<u8>, s: Seq<V>)
    ensures
        in_order(key, sorted(key, s)),
        sorted(key, s).to_multiset() == s.to_multiset(),
        sorted(key, s).len() == s.len(),
    decreases s.len(),
{
    if s.len() > 0 {
        let t = sorted(key, s.drop_last());
        let x = s.last();
        lemma_sorted(key, s.drop_last());
        lemma_slot(key, t, x);
        let p = slot(key, t, x);
        let r = t.insert(p, x);
        assert forall|i: int, j: int| #![trigger r[i], r[j]] 0 <= i < j < r.len() implies bytes::lex_le(
            key(r[i]),
            key(r[j]),
        ) by {
            let a = if i < p {
                t[i]
            } else if i == p {
                x
            } else {
                t[i - 1]
            };
            let b = if j < p {
                t[j]
            } else if j == p {
                x
            } else {
                t[j - 1]
            };
            assert(r[i] == a && r[j] == b);
            bytes::lemma_lex_facts(key(a), key(x), key(b));
            bytes::lemma_lex_facts(key(a), key(b), key(x));
            if j == p && p > 0 {
                bytes::lemma_lex_facts(key(t[p - 1]), key(x), key(x));
                bytes::lemma_lex_facts(key(a), key(t[p - 1]), key(x));
                if i < p - 1 {
                    assert(bytes::lex_le(key(t[i]), key(t[p - 1])));
                }
            }
            if i < p && j > p {
                assert(bytes::lex_le(key(t[i]), key(t[j - 1])));
            }
        }
        t.insert_ensures(p, x);
        vstd::seq_lib::to_multiset_insert(t, p, x);
        vstd::seq_lib::to_multiset_insert(s.drop_last(), s.len() - 1, x);
        assert(s.drop_last().insert(s.len() - 1, x) =~= s);
    }
}

/// Where no two values have the same key, sorting leaves no two next to each other that do.
pub proof fn lemma_sorted_strictly<V>(key: spec_fn(V) -> Seq<u8>, s: Seq<V>)
    requires
        forall|i: int, j: int|
            #![trigger s[i], s[j]]
            0 <= i < j < s.len() ==> key(s[i]) != key(s[j]),
    ensures
        forall|i: int, j: int|
            #![trigger sorted(key, s)[i], sorted(key, s)[j]]
            0 <= i < j < sorted(key, s).len() ==> bytes::lex_lt(
                key(sorted(key, s)[i]),
                key(sorted(key, s)[j]),
            ),
    decreases s.len(),
{
    if s.len() > 0 {
        let front = s.drop_last();
        let t = sorted(key, front);
        let x = s.last();
        assert forall|i: int, j: int|
            #![trigger front[i], front[j]]
            0 <= i < j < front.len() implies key(front[i]) != key(front[j]) by {
            assert(s[i] == front[i] && s[j] == front[j]);
        }
        lemma_sorted_strictly(key, front);
        lemma_sorted(key, front);
        lemma_sorted(key, s);
        lemma_slot(key, t, x);
        let p = slot(key, t, x);
        let r = sorted(key, s);
        t.insert_ensures(p, x);
        assert forall|k: int| 0 <= k < t.len() implies key(#[trigger] t[k]) != key(x) by {
            lemma_from(key, front, k);
            let i = choose|i: int| 0 <= i < front.len() && front[i] == t[k];
            assert(s[i] == t[k] && s[s.len() - 1] == x);
        }
        assert forall|i: int, j: int| #![trigger r[i], r[j]] 0 <= i < j < r.len() implies bytes::lex_lt(
            key(r[i]),
            key(r[j]),
        ) by {
            bytes::lemma_lex_facts(key(r[i]), key(r[j]), key(x));
            assert(bytes::lex_le(key(r[i]), key(r[j])));
            let (a, b) = (if i < p { i } else { i - 1 }, if j < p { j } else { j - 1 });
            if i != p {
                assert(r[i] == t[a]);
            }
            if j != p {
                assert(r[j] == t[b]);
            }
            if i != p && j != p {
                assert(bytes::lex_lt(key(t[a]), key(t[b])));
            }
        }
    }
}

/// What is in a sorted list is in the list.
pub proof fn lemma_from<V>(key: spec_fn(V) -> Seq<u8>, s: Seq<V>, k: int)
    requires
        0 <= k < s.len(),
    ensures
        s.contains(sorted(key, s)[k]),
        sorted(key, s).contains(s[k]),
{
    let t = sorted(key, s);
    lemma_sorted(key, s);
    s.to_multiset_ensures();
    t.to_multiset_ensures();
    assert(t.contains(t[k]));
    assert(t.to_multiset().count(t[k]) > 0);
    assert(s.contains(s[k]));
    assert(s.to_multiset().count(s[k]) > 0);
}

/// Sort a list by key, stably.
pub fn sort<T: Keyed>(s: Vec<T>) -> (r: Vec<T>)
    ensures
        views(r@) == sorted(key_of::<T>(), views(s@)),
{
    let ghost all = views(s@);
    let ghost key = key_of::<T>();
    let mut src: Vec<T> = s;
    let mut rest: Vec<T> = Vec::new();
    // Turn the list round, so that its values can be taken from the front.
    while src.len() > 0
        invariant
            views(src@).len() + rest@.len() == all.len(),
            forall|j: int| 0 <= j < src@.len() ==> (#[trigger] src@[j])@ == all[j],
            forall|j: int| 0 <= j < rest@.len() ==> (#[trigger] rest@[j])@ == all[all.len() - 1 - j],
        decreases src@.len(),
    {
        match src.pop() {
            Some(x) => {
                rest.push(x);
            },
            None => {},
        }
    }
    let mut out: Vec<T> = Vec::new();
    assert(all.take(0) =~= Seq::<T::V>::empty());
    assert(views(out@) =~= all.take(0));
    while rest.len() > 0
        invariant
            key == key_of::<T>(),
            rest@.len() <= all.len(),
            views(out@) == sorted(key, all.take(all.len() - rest@.len())),
            forall|j: int| 0 <= j < rest@.len() ==> (#[trigger] rest@[j])@ == all[all.len() - 1 - j],
        decreases rest@.len(),
    {
        let ghost done = all.len() - rest@.len();
        match rest.pop() {
            Some(x) => {
                let ghost before = views(out@);
                proof {
                    assert(x@ == all[done]);
                    assert(all.take(done + 1).drop_last() =~= all.take(done));
                }
                let mut p: usize = out.len();
                assert(before.take(p as int) =~= before);
                while p > 0 && x.before(&out[p - 1])
                    invariant
                        0 <= p <= out@.len(),
                        key == key_of::<T>(),
                        before == views(out@),
                        slot(key, before, x@) == slot(key, before.take(p as int), x@),
                    decreases p,
                {
                    assert(before.take(p as int).last() == out@[p - 1]@);
                    assert(before.take(p as int).drop_last() =~= before.take(p - 1));
                    p = p - 1;
                }
                proof {
                    if p > 0 {
                        assert(before.take(p as int).last() == out@[p - 1]@);
                    }
                    assert(slot(key, before, x@) == p);
                }
                let ghost xv = x@;
                out.insert(p, x);
                assert(views(out@) =~= before.insert(p as int, xv));
            },
            None => {},
        }
    }
    assert(all.take(all.len() as int) =~= all);
    out
}

/// Where a number goes in an ascending list: behind everything that is not larger.
pub open spec fn number_slot(s: Seq<u64>, x: u64) -> int
    decreases s.len(),
{
    if s.len() == 0 {
        0
    } else if x < s.last() {
        number_slot(s.drop_last(), x)
    } else {
        s.len() as int
    }
}

/// Numbers in ascending order.
pub open spec fn ascending_numbers(s: Seq<u64>) -> Seq<u64>
    decreases s.len(),
{
    if s.len() == 0 {
        s
    } else {
        let t = ascending_numbers(s.drop_last());
        t.insert(number_slot(t, s.last()), s.last())
    }
}

/// Sort numbers.
pub fn sort_numbers(s: &Vec<u64>) -> (r: Vec<u64>)
    ensures
        r@ == ascending_numbers(s@),
{
    let mut out: Vec<u64> = Vec::new();
    let mut i: usize = 0;
    assert(s@.take(0) =~= Seq::<u64>::empty());
    while i < s.len()
        invariant
            0 <= i <= s@.len(),
            out@ == ascending_numbers(s@.take(i as int)),
        decreases s@.len() - i,
    {
        assert(s@.take(i + 1).drop_last() =~= s@.take(i as int));
        let x: u64 = s[i];
        let mut p: usize = out.len();
        assert(out@.take(p as int) =~= out@);
        while p > 0 && x < out[p - 1]
            invariant
                0 <= p <= out@.len(),
                number_slot(out@, x) == number_slot(out@.take(p as int), x),
            decreases p,
        {
            assert(out@.take(p as int).drop_last() =~= out@.take(p - 1));
            p = p - 1;
        }
        out.insert(p, x);
        i = i + 1;
    }
    assert(s@.take(i as int) =~= s@);
    out
}

/// Sorting numbers leaves which there are.
pub proof fn lemma_ascending_numbers(s: Seq<u64>)
    ensures
        forall|x: u64| #[trigger] ascending_numbers(s).contains(x) <==> s.contains(x),
        ascending_numbers(s).len() == s.len(),
    decreases s.len(),
{
    if s.len() > 0 {
        let t = ascending_numbers(s.drop_last());
        let y = s.last();
        lemma_ascending_numbers(s.drop_last());
        lemma_number_slot(t, y);
        let p = number_slot(t, y);
        let r = t.insert(p, y);
        assert forall|x: u64| #[trigger] r.contains(x) <==> s.contains(x) by {
            if r.contains(x) {
                let k = choose|k: int| 0 <= k < r.len() && r[k] == x;
                if k != p {
                    let j = if k < p {
                        k
                    } else {
                        k - 1
                    };
                    assert(t[j] == x);
                    assert(t.contains(x));
                    let i = choose|i: int| 0 <= i < s.drop_last().len() && s.drop_last()[i] == x;
                    assert(s[i] == x);
                } else {
                    assert(s[s.len() - 1] == x);
                }
            }
            if s.contains(x) {
                let k = choose|k: int| 0 <= k < s.len() && s[k] == x;
                if k < s.len() - 1 {
                    assert(s.drop_last()[k] == x);
                    assert(t.contains(x));
                    let j = choose|j: int| 0 <= j < t.len() && t[j] == x;
                    let i = if j < p {
                        j
                    } else {
                        j + 1
                    };
                    assert(r[i] == x);
                } else {
                    assert(r[p] == x);
                }
            }
        }
    }
}

proof fn lemma_number_slot(s: Seq<u64>, x: u64)
    ensures
        0 <= number_slot(s, x) <= s.len(),
    decreases s.len(),
{
    if s.len() > 0 && x < s.last() {
        lemma_number_slot(s.drop_last(), x);
    }
}

} // verus!
