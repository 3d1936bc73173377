//! What a range scan promises: the visible pairs of the range, each once, in key order.

use vstd::prelude::*;
use crate::bytes;
use crate::engine::db::EngineView;
use crate::engine::encoding;
use crate::engine::error::ErrorView;
use crate::engine::finite;
use crate::engine::isolation;
use crate::engine::keys;
use crate::engine::keys::Cf;
use crate::engine::memtable;
use crate::engine::memtable::KeyMap;
use crate::engine::merged;
use crate::engine::scan;
use crate::engine::scan::{Pair, ScanView};

verus! {

/// The value that a scan sees of a user key.
pub open spec fn visible(v: EngineView, q: ScanView, key: Seq<u8>) -> Option<Seq<u8>> {
    match v.scan_read(key, q).1 {
        Ok(x) => x,
        Err(_) => None,
    }
}

/// Whether the reads of a scan leave the engine as it is.
pub open spec fn quiet(v: EngineView, q: ScanView) -> bool {
    forall|key: Seq<u8>| (#[trigger] v.scan_read(key, q)).0 == v
}

/// Whether a user key is in the range.
pub open spec fn ranged(start: Seq<u8>, q: ScanView, key: Seq<u8>) -> bool {
    scan::in_range(start, q.end, key)
}

/// Pairs whose keys go up.
pub open spec fn rising(s: Seq<Pair>) -> bool {
    forall|i: int, j: int|
        0 <= i < j < s.len() ==> bytes::lex_lt((#[trigger] s[i]).0, (#[trigger] s[j]).0)
}

/// Pairs of the range, as they are visible.
pub open spec fn seen_right(v: EngineView, q: ScanView, start: Seq<u8>, s: Seq<Pair>) -> bool {
    forall|i: int|
        0 <= i < s.len() ==> ranged(start, q, (#[trigger] s[i]).0) && visible(v, q, s[i].0)
            == Some(s[i].1)
}

/// Whether a limit is reached.
pub open spec fn at_limit(q: ScanView, s: Seq<Pair>) -> bool {
    q.limit != 0 && s.len() == q.limit
}

/// Whether a visible pair is among the pairs, or behind the last one where the limit is reached.
pub open spec fn given(q: ScanView, s: Seq<Pair>, key: Seq<u8>, value: Seq<u8>) -> bool {
    ||| s.contains((key, value))
    ||| at_limit(q, s) && bytes::lex_lt(s.last().0, key)
}

/// What a scan that succeeds gives.
pub open spec fn answers(v: EngineView, q: ScanView, start: Seq<u8>, s: Seq<Pair>) -> bool {
    &&& rising(s)
    &&& seen_right(v, q, start, s)
    &&& q.limit != 0 ==> s.len() <= q.limit
    &&& forall|key: Seq<u8>| #[trigger]
        visible(v, q, key) is Some && ranged(start, q, key) ==> given(
            q,
            s,
            key,
            visible(v, q, key).unwrap(),
        )
}

/// A scan that does not resolve locks, or meets none from before its snapshot, reads only.
pub proof fn law_quiet(v: EngineView, q: ScanView)
    requires
        !q.resolve || forall|key: Seq<u8>|
            (#[trigger] v.lock_on(key)) matches Ok(l) && (l matches Some(x) ==> x.start_ts
                > q.read_ts),
    ensures
        quiet(v, q),
{
    reveal(EngineView::scan_read);
    assert forall|key: Seq<u8>| (#[trigger] v.scan_read(key, q)).0 == v by {
        if q.resolve {
            assert(v.lock_on(key) is Ok);
            isolation::law_read_unlocked(v, key, q.read_ts);
        }
    }
}

/// Whether a user key has a version.
pub open spec fn has_version(w: KeyMap, key: Seq<u8>) -> bool {
    exists|c: u64| #[trigger] w.contains_key(keys::data_key(key, c))
}

/// A key is before every longer one that it begins.
proof fn lemma_prefix_before(k: Seq<u8>, x: Seq<u8>)
    requires
        x.len() > 0,
    ensures
        bytes::lex_lt(k, k + x),
{
    let none = Seq::<u8>::empty();
    bytes::lemma_lex_common_prefix(k, none, x);
    assert(k + none =~= k);
}

/// What is before an end, and not so with something behind it, begins the end.
proof fn lemma_begins(u: Seq<u8>, x: Seq<u8>, end: Seq<u8>)
    requires
        bytes::lex_lt(u, end),
        bytes::lex_le(end, u + x),
    ensures
        u.len() < end.len(),
        u == end.take(u.len() as int),
    decreases u.len(),
{
    if u.len() == 0 {
        assert(u =~= end.take(0));
    } else {
        let (v, e) = (u.skip(1), end.skip(1));
        assert((u + x).skip(1) =~= v + x);
        assert((u + x)[0] == u[0]);
        lemma_begins(v, x, e);
        assert(u =~= end.take(u.len() as int)) by {
            assert(u =~= seq![u[0]] + v);
            assert(end.take(u.len() as int) =~= seq![end[0]] + e.take(v.len() as int));
        }
    }
}

/// Whether a storage key from `from` on and before the end has the user key.
spec fn walks(w: KeyMap, end: Seq<u8>, from: Seq<u8>, u: Seq<u8>, c: u64) -> bool {
    let k = keys::data_key(u, c);
    &&& w.contains_key(k)
    &&& bytes::lex_le(from, k)
    &&& end.len() == 0 || bytes::lex_lt(k, end)
}

/// What a walk along the storage keys finds.
proof fn lemma_walked(
    v: EngineView,
    start: Seq<u8>,
    end: Seq<u8>,
    from: Seq<u8>,
    seen: Set<Seq<u8>>,
)
    requires
        v.sound(),
    ensures
        v.walked(start, end, from, seen) is Ok,
        forall|u: Seq<u8>| #[trigger]
            v.walked(start, end, from, seen)->Ok_0.contains(u) ==> seen.contains(u) || (
            scan::in_range(start, end, u) && has_version(v.merged().write, u)),
        forall|u: Seq<u8>|
            seen.contains(u) ==> #[trigger] v.walked(start, end, from, seen)->Ok_0.contains(u),
        forall|u: Seq<u8>, c: u64| #[trigger]
            walks(v.merged().write, end, from, u, c) && scan::in_range(start, end, u)
                ==> v.walked(start, end, from, seen)->Ok_0.contains(u),
    decreases finite::keys_behind(v, Cf::Write, from).len(),
{
    let w = v.merged().write;
    finite::lemma_seek_advances(v, Cf::Write, from);
    merged::law_seek(v, Cf::Write, from);
    merged::lemma_merged_finite(v);
    merged::lemma_seek_finite(w, from);
    if let Some((k, e)) = memtable::seek_in(w, from) {
        assert(memtable::is_least(w, from, k));
        if end.len() > 0 && bytes::lex_le(end, k) {
            assert forall|u: Seq<u8>, c: u64| #[trigger] walks(w, end, from, u, c) implies false by {
                bytes::lemma_lex_facts(end, k, keys::data_key(u, c));
            }
        } else {
            let next = k.push(0u8);
            let more = scan::with_user(start, end, k, seen);
            lemma_walked(v, start, end, next, more);
            if let Some((x, d)) = keys::split_data_key(k) {
                keys::lemma_split_data_key_inverse(k);
                assert(w.contains_key(keys::data_key(x, d)));
            }
            assert forall|u: Seq<u8>, c: u64| #[trigger]
                walks(w, end, from, u, c) && scan::in_range(start, end, u) implies v.walked(
                start,
                end,
                from,
                seen,
            )->Ok_0.contains(u) by {
                let x = keys::data_key(u, c);
                keys::law_data_key_roundtrip(u, c);
                if x == k {
                    assert(more.contains(u));
                } else {
                    bytes::lemma_lex_successor(k, x);
                    bytes::lemma_lex_facts(k, x, k);
                    assert(walks(w, end, next, u, c));
                }
            }
        }
    }
}

/// Whether a key has a version, as a search for its newest one tells.
proof fn lemma_found(v: EngineView, key: Seq<u8>)
    requires
        v.sound(),
    ensures
        v.version_from(key, keys::data_key(key, u64::MAX), false) matches Ok(x) && (x is Some
            <==> has_version(v.merged().write, key)),
{
    let w = v.merged().write;
    isolation::lemma_newest_from_top(v, key);
    if has_version(w, key) {
        let c = choose|c: u64| #[trigger] w.contains_key(keys::data_key(key, c));
        let n = isolation::lemma_newest_exists(w, key, u64::MAX, c);
        isolation::lemma_newest(w, key, u64::MAX, n);
    } else if let Some((c, e)) = isolation::version_in(w, key, u64::MAX) {
        assert(isolation::newest(w, key, u64::MAX, c));
    }
}

/// Looking at one more beginning of the end adds it where it has a version.
#[verifier::spinoff_prover]
proof fn lemma_stem(
    v: EngineView,
    start: Seq<u8>,
    end: Seq<u8>,
    n: nat,
    seen: Set<Seq<u8>>,
    had: Set<Seq<u8>>,
)
    requires
        v.sound(),
        0 < n <= end.len(),
        v.stems(start, end, (n - 1) as nat, seen) == Ok::<Set<Seq<u8>>, ErrorView>(had),
    ensures
        v.stems(start, end, n, seen) == Ok::<Set<Seq<u8>>, ErrorView>(
            if bytes::lex_le(start, end.take(n - 1)) && has_version(
                v.merged().write,
                end.take(n - 1),
            ) {
                had.insert(end.take(n - 1))
            } else {
                had
            },
        ),
{
    let p = end.take(n - 1);
    lemma_found(v, p);
    bytes::lemma_lex_facts(start, p, start);
    bytes::lemma_lex_total(start, p);
}

/// What looking at the beginnings of the end finds.
#[verifier::spinoff_prover]
#[verifier::rlimit(60)]
proof fn lemma_stems(v: EngineView, start: Seq<u8>, end: Seq<u8>, n: nat, seen: Set<Seq<u8>>)
    requires
        v.sound(),
        n <= end.len(),
    ensures
        v.stems(start, end, n, seen) is Ok,
        forall|u: Seq<u8>| #[trigger]
            v.stems(start, end, n, seen)->Ok_0.contains(u) ==> seen.contains(u) || (
            scan::in_range(start, end, u) && has_version(v.merged().write, u)),
        forall|u: Seq<u8>|
            seen.contains(u) ==> #[trigger] v.stems(start, end, n, seen)->Ok_0.contains(u),
        forall|m: int|
            0 <= m < n && bytes::lex_le(start, #[trigger] end.take(m)) && has_version(
                v.merged().write,
                end.take(m),
            ) ==> v.stems(start, end, n, seen)->Ok_0.contains(end.take(m)),
    decreases n,
{
    if n > 0 {
        let k = (n - 1) as nat;
        lemma_stems(v, start, end, k, seen);
        let p = end.take(n - 1);
        let x = end.skip(n - 1);
        assert(p + x =~= end);
        lemma_prefix_before(p, x);
        let had = v.stems(start, end, k, seen)->Ok_0;
        lemma_stem(v, start, end, n, seen, had);
        let now = v.stems(start, end, n, seen)->Ok_0;
        assert forall|m: int|
            0 <= m < n && bytes::lex_le(start, #[trigger] end.take(m)) && has_version(
                v.merged().write,
                end.take(m),
            ) implies now.contains(end.take(m)) by {
            if m < k {
                assert(had.contains(end.take(m)));
            }
        }
    }
}

/// The user keys that a scan gathers are those of the range that have a version.
proof fn lemma_users(v: EngineView, start: Seq<u8>, end: Seq<u8>)
    requires
        v.sound(),
    ensures
        v.users(start, end) is Ok,
        forall|u: Seq<u8>| #[trigger]
            v.users(start, end)->Ok_0.contains(u) <==> scan::in_range(start, end, u)
                && has_version(v.merged().write, u),
{
    let w = v.merged().write;
    let none = Set::<Seq<u8>>::empty();
    lemma_walked(v, start, end, start, none);
    let s = v.walked(start, end, start, none)->Ok_0;
    lemma_stems(v, start, end, end.len(), s);
    assert forall|u: Seq<u8>| scan::in_range(start, end, u) && has_version(w, u) implies #[trigger]
        v.users(start, end)->Ok_0.contains(u) by {
        let c = choose|c: u64| #[trigger] w.contains_key(keys::data_key(u, c));
        let t = encoding::ts_bytes(c);
        let k = keys::data_key(u, c);
        assert(k =~= u + t);
        encoding::law_ts_roundtrip(c);
        lemma_prefix_before(u, t);
        bytes::lemma_lex_facts(start, u, k);
        bytes::lemma_lex_facts(start, k, u);
        if end.len() == 0 || bytes::lex_lt(k, end) {
            assert(walks(w, end, start, u, c));
            assert(s.contains(u));
        } else {
            lemma_begins(u, t, end);
            assert(v.users(start, end)->Ok_0.contains(end.take(u.len() as int)));
        }
    }
}

/// The gathered user keys can be put in order.
proof fn lemma_ordered(v: EngineView, start: Seq<u8>, end: Seq<u8>)
    requires
        v.sound(),
    ensures
        ({
            let s = v.users(start, end)->Ok_0;
            &&& scan::going_up(scan::in_turn(s))
            &&& scan::in_turn(s).to_set() == s
        }),
{
    let w = v.merged().write;
    let s = v.users(start, end)->Ok_0;
    lemma_users(v, start, end);
    merged::lemma_merged_finite(v);
    let f = |k: Seq<u8>| k.take(k.len() - 8);
    w.dom().lemma_map_finite(f);
    assert forall|u: Seq<u8>| s.contains(u) implies w.dom().map(f).contains(u) by {
        let c = choose|c: u64| #[trigger] w.contains_key(keys::data_key(u, c));
        keys::law_data_key_roundtrip(u, c);
        assert(f(keys::data_key(u, c)) == u);
        assert(w.dom().contains(keys::data_key(u, c)));
    }
    vstd::set_lib::lemma_len_subset(s, w.dom().map(f));
    let r = merged::lemma_sorted_keys(s);
    assert(scan::going_up(r) && r.to_set() =~= s);
    scan::lemma_in_turn(r);
}

/// A visible key has a version.
proof fn lemma_visible_version(v: EngineView, q: ScanView, key: Seq<u8>)
    requires
        v.sound(),
        quiet(v, q),
        visible(v, q, key) is Some,
    ensures
        has_version(v.merged().write, key),
{
    reveal(EngineView::scan_read);
    assert(v.scan_read(key, q).0 == v);
    assert(v.scan_read(key, q).1 == v.read_committed(key, q.read_ts));
    lemma_real(v, key, keys::data_key(key, q.read_ts), true);
}

/// A version that a search finds is there.
proof fn lemma_real(v: EngineView, key: Seq<u8>, from: Seq<u8>, strict: bool)
    requires
        v.sound(),
    ensures
        v.version_from(key, from, strict) matches Ok(Some(x)) ==> has_version(
            v.merged().write,
            key,
        ),
    decreases finite::keys_behind(v, Cf::Write, from).len(),
{
    let w = v.merged().write;
    finite::lemma_seek_advances(v, Cf::Write, from);
    merged::law_seek(v, Cf::Write, from);
    if let Some((k, e)) = memtable::seek_in(w, from) {
        assert(w.contains_key(k));
        if let Some((u, c)) = keys::split_data_key(k) {
            keys::lemma_split_data_key_inverse(k);
            if u == key {
                assert(w.contains_key(keys::data_key(key, c)));
            }
        }
        lemma_real(v, key, k.push(0u8), strict);
    }
}

/// What reading a list of keys adds to the pairs.
spec fn adds(v: EngineView, q: ScanView, todo: Seq<Seq<u8>>, out: Seq<Pair>, s: Seq<Pair>) -> bool {
    &&& rising(s)
    &&& q.limit != 0 ==> s.len() <= q.limit
    &&& out.is_prefix_of(s)
    &&& forall|i: int|
        out.len() <= i < s.len() ==> todo.contains((#[trigger] s[i]).0) && visible(v, q, s[i].0)
            == Some(s[i].1)
    &&& forall|key: Seq<u8>| #[trigger]
        todo.contains(key) && visible(v, q, key) is Some ==> given(
            q,
            s,
            key,
            visible(v, q, key).unwrap(),
        )
}

/// Whether the pairs are before all of the keys.
spec fn ahead(out: Seq<Pair>, todo: Seq<Seq<u8>>) -> bool {
    forall|i: int, j: int|
        0 <= i < out.len() && 0 <= j < todo.len() ==> bytes::lex_lt(
            (#[trigger] out[i]).0,
            #[trigger] todo[j],
        )
}

/// One pair more stays in order.
proof fn lemma_push(out: Seq<Pair>, todo: Seq<Seq<u8>>, x: Seq<u8>)
    requires
        rising(out),
        scan::going_up(todo),
        todo.len() > 0,
        ahead(out, todo),
    ensures
        rising(out.push((todo[0], x))),
        ahead(out.push((todo[0], x)), todo.skip(1)),
        ahead(out, todo.skip(1)),
        scan::going_up(todo.skip(1)),
{
    let more = out.push((todo[0], x));
    let rest = todo.skip(1);
    assert forall|i: int, j: int| 0 <= i < j < more.len() implies bytes::lex_lt(
        (#[trigger] more[i]).0,
        (#[trigger] more[j]).0,
    ) by {
        assert(more[i] == out[i]);
        if j < out.len() {
            assert(more[j] == out[j]);
        }
    }
    assert forall|j: int| 0 <= j < rest.len() implies #[trigger] rest[j] == todo[j + 1] by {}
    assert forall|i: int, j: int| 0 <= i < more.len() && 0 <= j < rest.len() implies bytes::lex_lt(
        (#[trigger] more[i]).0,
        #[trigger] rest[j],
    ) by {
        if i < out.len() {
            assert(more[i] == out[i]);
        }
    }
}

/// What reading keys in turn finds.
#[verifier::spinoff_prover]
#[verifier::rlimit(60)]
proof fn lemma_scan_keys(v: EngineView, q: ScanView, todo: Seq<Seq<u8>>, out: Seq<Pair>)
    requires
        quiet(v, q),
        scan::going_up(todo),
        rising(out),
        ahead(out, todo),
        q.limit != 0 ==> out.len() < q.limit,
    ensures
        v.scan_keys(q, todo, out).0 == v,
        match v.scan_keys(q, todo, out).1 {
            Ok(s) => adds(v, q, todo, out, s),
            Err(e) => e !is KeyIsLocked && exists|key: Seq<u8>|
                todo.contains(key) && (#[trigger] v.scan_read(key, q)).1 == Err::<
                    Option<Seq<u8>>,
                    ErrorView,
                >(e),
        },
    decreases todo.len(),
{
    if todo.len() > 0 {
        let key = todo[0];
        let rest = todo.skip(1);
        assert(v.scan_read(key, q).0 == v);
        assert forall|k: Seq<u8>| todo.contains(k) implies k == key || rest.contains(k) by {
            let i = choose|i: int| 0 <= i < todo.len() && todo[i] == k;
            if i > 0 {
                assert(rest[i - 1] == k);
            }
        }
        assert forall|k: Seq<u8>| rest.contains(k) implies todo.contains(k) by {
            let i = choose|i: int| 0 <= i < rest.len() && rest[i] == k;
            assert(todo[i + 1] == k);
        }
        assert(todo.contains(key));
        match v.scan_read(key, q).1 {
            Ok(Some(x)) => {
                let more = out.push((key, x));
                lemma_push(out, todo, x);
                assert(more[out.len() as int] == (key, x));
                if q.limit != 0 && more.len() >= q.limit {
                    assert(out.is_prefix_of(more)) by {
                        assert(out =~= more.subrange(0, out.len() as int));
                    }
                    assert forall|k: Seq<u8>| #[trigger]
                        todo.contains(k) && visible(v, q, k) is Some implies given(
                        q,
                        more,
                        k,
                        visible(v, q, k).unwrap(),
                    ) by {
                        if k == key {
                            assert(more.contains((key, x)));
                        } else {
                            let i = choose|i: int| 0 <= i < todo.len() && todo[i] == k;
                            assert(bytes::lex_lt(todo[0], todo[i]));
                        }
                    }
                    assert(adds(v, q, todo, out, more));
                } else {
                    lemma_scan_keys(v, q, rest, more);
                    if let Ok(s) = v.scan_keys(q, rest, more).1 {
                        assert(s[out.len() as int] == (key, x)) by {
                            assert(more == s.subrange(0, more.len() as int));
                        }
                        assert(out.is_prefix_of(s)) by {
                            assert(more == s.subrange(0, more.len() as int));
                            assert(out =~= s.subrange(0, out.len() as int));
                        }
                        assert(s.contains((key, x)));
                        assert(adds(v, q, todo, out, s));
                    }
                }
            },
            Ok(None) | Err(ErrorView::KeyIsLocked(_)) => {
                lemma_push(out, todo, Seq::empty());
                lemma_scan_keys(v, q, rest, out);
                if let Ok(s) = v.scan_keys(q, rest, out).1 {
                    assert(adds(v, q, todo, out, s));
                }
            },
            Err(e) => {},
        }
    } else {
        assert(out.is_prefix_of(out)) by {
            assert(out =~= out.subrange(0, out.len() as int));
        }
    }
}

/// A range scan gives exactly the visible pairs of the range, each once and in key order, up to
/// its limit: of the rest, all are behind the last one given. It fails only where a read of the
/// range fails, with that read's error, and never because of a lock: a locked key is left out.
pub proof fn law_scan(v: EngineView, start: Seq<u8>, q: ScanView)
    requires
        v.sound(),
        quiet(v, q),
    ensures
        v.scan(start, q).0 == v,
        match v.scan(start, q).1 {
            Ok(pairs) => answers(v, q, start, pairs),
            Err(e) => e !is KeyIsLocked && exists|key: Seq<u8>|
                ranged(start, q, key) && (#[trigger] v.scan_read(key, q)).1 == Err::<
                    Option<Seq<u8>>,
                    ErrorView,
                >(e),
        },
        (forall|key: Seq<u8>| (#[trigger] v.scan_read(key, q)).1 is Ok) ==> v.scan(start, q).1 is Ok,
{
    lemma_users(v, start, q.end);
    lemma_ordered(v, start, q.end);
    let s = v.users(start, q.end)->Ok_0;
    let todo = scan::in_turn(s);
    lemma_scan_keys(v, q, todo, Seq::empty());
    if let Err(e) = v.scan(start, q).1 {
        let key = choose|key: Seq<u8>|
            todo.contains(key) && (#[trigger] v.scan_read(key, q)).1 == Err::<
                Option<Seq<u8>>,
                ErrorView,
            >(e);
        assert(todo.to_set().contains(key) == todo.contains(key));
        assert(s.contains(key));
    }
    if let Ok(pairs) = v.scan(start, q).1 {
        assert forall|k: Seq<u8>| todo.contains(k) == s.contains(k) by {
            assert(todo.to_set().contains(k) == todo.contains(k));
        }
        assert forall|key: Seq<u8>| #[trigger]
            visible(v, q, key) is Some && ranged(start, q, key) implies given(
            q,
            pairs,
            key,
            visible(v, q, key).unwrap(),
        ) by {
            lemma_visible_version(v, q, key);
            assert(s.contains(key));
            assert(todo.contains(key));
        }
        assert forall|i: int| 0 <= i < pairs.len() implies ranged(
            start,
            q,
            (#[trigger] pairs[i]).0,
        ) && visible(v, q, pairs[i].0) == Some(pairs[i].1) by {
            assert(todo.contains(pairs[i].0));
            assert(s.contains(pairs[i].0));
        }
    }
}

} // verus!
