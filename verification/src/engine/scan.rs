//! Merging range iterator and snapshot range scan.
//!
//! A [`MergeIter`] walks one column family in key order across **all** levels, the newest level
//! winning on identical keys. It is built on the engine's merged seek: each step seeks the
//! smallest key at or behind the cursor, then moves the cursor just past it. [`Engine::scan`]
//! layers multi-version reads on top.
//!
//! Storage keys hold no mark between the user key and the timestamp, so they are not ordered as
//! their user keys are where one user key begins another. A scan therefore gathers the user keys of
//! its range first, and reads them in their own order.

use vstd::prelude::*;
use crate::bytes;
use crate::engine::db;
use crate::engine::db::{Engine, EngineView};
use crate::engine::error::{Error, ErrorView, Result};
use crate::engine::finite;
use crate::engine::keys;
use crate::engine::keys::Cf;
use crate::engine::memtable::MemValue;
use crate::engine::sstable::reader::ReadResult;

verus! {

/// A forward merging iterator over one family, in key order across all levels.
pub struct MergeIter {
    cf: Cf,
    /// The next key to seek from; `None` once exhausted.
    cursor: Option<Vec<u8>>,
}

impl MergeIter {
    /// The family.
    pub closed spec fn family(&self) -> Cf {
        self.cf
    }

    /// The next key to seek from.
    pub closed spec fn at(&self) -> Option<Seq<u8>> {
        match self.cursor {
            Some(c) => Some(c@),
            None => None,
        }
    }

    /// The next entry, or `None` once exhausted. An error ends the iteration.
    pub fn next(&mut self, engine: &Engine) -> (r: Option<Result<(Vec<u8>, MemValue)>>)
        ensures
            final(self).family() == old(self).family(),
            match old(self).at() {
                None => r is None && final(self).at() is None,
                Some(from) => match engine@.seek(old(self).family(), from) {
                    Ok(Some((k, v))) => r matches Some(Ok((rk, rv))) && rk@ == k && rv@ == v
                        && final(self).at() == Some(k.push(0u8)),
                    Ok(None) => r is None && final(self).at() is None,
                    Err(e) => r matches Some(Err(x)) && x@ == e && final(self).at() is None,
                },
            },
    {
        let from = match self.cursor.take() {
            Some(c) => c,
            None => {
                return None;
            },
        };
        match engine.seek_cf_raw(self.cf, from.as_slice()) {
            Ok(Some((key, value))) => {
                let mut next = bytes::copy(key.as_slice());
                next.push(0);
                self.cursor = Some(next);
                Some(Ok((key, value)))
            },
            Ok(None) => None,
            Err(e) => Some(Err(e)),
        }
    }
}

/// A set of byte strings, kept in order.
struct KeySet {
    keys: Vec<Vec<u8>>,
}

spec fn key_views(s: Seq<Vec<u8>>) -> Seq<Seq<u8>> {
    Seq::new(s.len(), |i: int| s[i]@)
}

impl KeySet {
    spec fn wf(&self) -> bool {
        forall|i: int, j: int|
            0 <= i < j < self.keys@.len() ==> bytes::lex_lt(
                #[trigger] self.keys@[i]@,
                #[trigger] self.keys@[j]@,
            )
    }

    spec fn set(&self) -> Set<Seq<u8>> {
        key_views(self.keys@).to_set()
    }

    fn new() -> (s: KeySet)
        ensures
            s.wf(),
            s.set() == Set::<Seq<u8>>::empty(),
            s.keys@.len() == 0,
    {
        let s = KeySet { keys: Vec::new() };
        assert(s.set() =~= Set::<Seq<u8>>::empty());
        s
    }

    /// Add `key`; whether it was new.
    fn insert(&mut self, key: &[u8]) -> (r: bool)
        requires
            old(self).wf(),
        ensures
            final(self).wf(),
            r == !old(self).set().contains(key@),
            r ==> final(self).set() == old(self).set().insert(key@),
            r ==> final(self).keys@.len() == old(self).keys@.len() + 1,
            !r ==> final(self).keys@ == old(self).keys@,
            final(self).keys@.len() <= usize::MAX,
    {
        let mut lo: usize = 0;
        let mut hi: usize = self.keys.len();
        while lo < hi
            invariant
                0 <= lo <= hi <= self.keys@.len(),
                self.wf(),
                forall|i: int| 0 <= i < lo ==> bytes::lex_lt(#[trigger] self.keys@[i]@, key@),
                forall|i: int|
                    hi <= i < self.keys@.len() ==> bytes::lex_le(key@, #[trigger] self.keys@[i]@),
            decreases hi - lo,
        {
            let mid: usize = lo + (hi - lo) / 2;
            if bytes::bytes_lt(self.keys[mid].as_slice(), key) {
                proof {
                    assert forall|i: int| 0 <= i < mid + 1 implies bytes::lex_lt(
                        #[trigger] self.keys@[i]@,
                        key@,
                    ) by {
                        if i < mid {
                            bytes::lemma_lex_facts(self.keys@[i]@, self.keys@[mid as int]@, key@);
                        }
                    }
                }
                lo = mid + 1;
            } else {
                proof {
                    assert forall|i: int| mid <= i < self.keys@.len() implies bytes::lex_le(
                        key@,
                        #[trigger] self.keys@[i]@,
                    ) by {
                        if i > mid {
                            bytes::lemma_lex_facts(key@, self.keys@[mid as int]@, self.keys@[i]@);
                            bytes::lemma_lex_facts(key@, self.keys@[i]@, key@);
                        }
                    }
                }
                hi = mid;
            }
        }
        let ghost before = self.keys@;
        let ghost views = key_views(before);
        let n: usize = self.keys.len();
        if lo < n && bytes::bytes_eq(self.keys[lo].as_slice(), key) {
            assert(views[lo as int] == key@);
            return false;
        }
        proof {
            if views.contains(key@) {
                let i = choose|i: int| 0 <= i < views.len() && views[i] == key@;
                bytes::lemma_lex_irreflexive(key@);
                assert(before[i]@ == key@);
                assert(i >= lo);
                if i > lo {
                    assert(bytes::lex_lt(before[lo as int]@, before[i]@));
                    assert(bytes::lex_le(key@, before[lo as int]@));
                }
            }
        }
        self.keys.insert(lo, bytes::copy(key));
        let total: usize = self.keys.len();
        proof {
            let now = key_views(self.keys@);
            assert forall|i: int, j: int| 0 <= i < j < self.keys@.len() implies bytes::lex_lt(
                #[trigger] self.keys@[i]@,
                #[trigger] self.keys@[j]@,
            ) by {
                if j == lo {
                    assert(self.keys@[i] == before[i]);
                } else if i == lo {
                    assert(self.keys@[j] == before[j - 1]);
                    assert(bytes::lex_le(key@, before[j - 1]@));
                    assert(views[j - 1] == before[j - 1]@);
                    bytes::lemma_lex_facts(key@, before[j - 1]@, key@);
                } else {
                    let x = if i < lo {
                        i
                    } else {
                        i - 1
                    };
                    let y = if j < lo {
                        j as int
                    } else {
                        j - 1
                    };
                    assert(self.keys@[i] == before[x]);
                    assert(self.keys@[j] == before[y]);
                    assert(bytes::lex_lt(before[x]@, before[y]@));
                }
            }
            assert forall|k: Seq<u8>| now.contains(k) <==> (views.contains(k) || k == key@) by {
                if now.contains(k) {
                    let i = choose|i: int| 0 <= i < now.len() && now[i] == k;
                    if i < lo {
                        assert(views[i] == k);
                    } else if i > lo {
                        assert(views[i - 1] == k);
                    }
                }
                if views.contains(k) {
                    let i = choose|i: int| 0 <= i < views.len() && views[i] == k;
                    if i < lo {
                        assert(now[i] == k);
                    } else {
                        assert(now[i + 1] == k);
                    }
                }
                assert(now[lo as int] == key@);
            }
            assert(self.set() =~= old(self).set().insert(key@));
        }
        true
    }
}

/// A user key and its value.
pub type Pair = (Seq<u8>, Seq<u8>);

/// What a scan asks for.
pub struct ScanView {
    /// The first key behind the range; empty for no end.
    pub end: Seq<u8>,
    pub read_ts: u64,
    /// The most pairs to give; 0 for no limit.
    pub limit: nat,
    /// Whether locks are resolved rather than reported.
    pub resolve: bool,
}

impl EngineView {
    /// The read that a scan makes of each user key.
    #[verifier::opaque]
    pub open spec fn scan_read(self, key: Seq<u8>, q: ScanView) -> (
        EngineView,
        ReadResult<Option<Seq<u8>>>,
    ) {
        if q.resolve {
            self.mvcc_get(key, q.read_ts)
        } else {
            (self, self.mvcc_get_unresolved(key, q.read_ts))
        }
    }

    /// The user keys of `[start, end)` that the storage keys from `from` on have, as far as those
    /// stand before `end`, together with `seen`.
    pub open spec fn walked(
        self,
        start: Seq<u8>,
        end: Seq<u8>,
        from: Seq<u8>,
        seen: Set<Seq<u8>>,
    ) -> ReadResult<Set<Seq<u8>>>
        decreases finite::keys_behind(self, Cf::Write, from).len(),
        when self.finite()
        via Self::walked_ends
    {
        match self.seek(Cf::Write, from) {
            Err(e) => Err(e),
            Ok(None) => Ok(seen),
            Ok(Some((wkey, _))) => if end.len() > 0 && bytes::lex_le(end, wkey) {
                Ok(seen)
            } else {
                self.walked(start, end, wkey.push(0u8), with_user(start, end, wkey, seen))
            },
        }
    }

    #[via_fn]
    proof fn walked_ends(self, start: Seq<u8>, end: Seq<u8>, from: Seq<u8>, seen: Set<Seq<u8>>) {
        finite::lemma_seek_advances(self, Cf::Write, from);
    }

    /// The user keys at or behind `start` among the first `n` beginnings of `end`, the shortest
    /// first, together with `seen`: their storage keys can stand behind `end`.
    pub open spec fn stems(self, start: Seq<u8>, end: Seq<u8>, n: nat, seen: Set<Seq<u8>>) -> ReadResult<
        Set<Seq<u8>>,
    >
        decreases n,
    {
        if n == 0 {
            Ok(seen)
        } else {
            match self.stems(start, end, (n - 1) as nat, seen) {
                Err(e) => Err(e),
                Ok(s) => {
                    let p = end.take(n - 1);
                    if bytes::lex_lt(p, start) {
                        Ok(s)
                    } else {
                        match self.version_from(p, keys::data_key(p, u64::MAX), false) {
                            Err(e) => Err(e),
                            Ok(Some(_)) => Ok(s.insert(p)),
                            Ok(None) => Ok(s),
                        }
                    }
                },
            }
        }
    }

    /// The user keys of `[start, end)` that have a version in the Write family.
    pub open spec fn users(self, start: Seq<u8>, end: Seq<u8>) -> ReadResult<Set<Seq<u8>>> {
        match self.walked(start, end, start, Set::empty()) {
            Err(e) => Err(e),
            Ok(s) => self.stems(start, end, end.len(), s),
        }
    }

    /// The rest of a scan: `out` was found, and the keys are still to be read.
    pub open spec fn scan_keys(self, q: ScanView, todo: Seq<Seq<u8>>, out: Seq<Pair>) -> (
        EngineView,
        ReadResult<Seq<Pair>>,
    )
        decreases todo.len(),
    {
        if todo.len() == 0 {
            (self, Ok(out))
        } else {
            let key = todo[0];
            let rest = todo.skip(1);
            let (v, r) = self.scan_read(key, q);
            match r {
                Err(ErrorView::KeyIsLocked(_)) | Ok(None) => v.scan_keys(q, rest, out),
                Err(e) => (v, Err(e)),
                Ok(Some(val)) => {
                    let more = out.push((key, val));
                    if q.limit != 0 && more.len() >= q.limit {
                        (v, Ok(more))
                    } else {
                        v.scan_keys(q, rest, more)
                    }
                },
            }
        }
    }

    /// A range scan: the committed pairs with user keys from `start` on that are visible.
    pub open spec fn scan(self, start: Seq<u8>, q: ScanView) -> (EngineView, ReadResult<Seq<Pair>>) {
        match self.users(start, q.end) {
            Err(e) => (self, Err(e)),
            Ok(s) => self.scan_keys(q, in_turn(s), Seq::empty()),
        }
    }
}

/// Whether a user key is in `[start, end)`; an empty end is none.
pub open spec fn in_range(start: Seq<u8>, end: Seq<u8>, key: Seq<u8>) -> bool {
    bytes::lex_le(start, key) && (end.len() == 0 || bytes::lex_lt(key, end))
}

/// A set with the user key of a storage key, where that is in the range.
pub open spec fn with_user(start: Seq<u8>, end: Seq<u8>, wkey: Seq<u8>, seen: Set<Seq<u8>>) -> Set<
    Seq<u8>,
> {
    match keys::split_data_key(wkey) {
        Some((user, _)) => if in_range(start, end, user) {
            seen.insert(user)
        } else {
            seen
        },
        None => seen,
    }
}

/// Keys that go up.
pub open spec fn going_up(s: Seq<Seq<u8>>) -> bool {
    forall|i: int, j: int| 0 <= i < j < s.len() ==> bytes::lex_lt(#[trigger] s[i], #[trigger] s[j])
}

/// The keys of a set in their order.
pub open spec fn in_turn(s: Set<Seq<u8>>) -> Seq<Seq<u8>> {
    choose|r: Seq<Seq<u8>>| going_up(r) && #[trigger] r.to_set() == s
}

/// There is one order.
proof fn lemma_one_order(a: Seq<Seq<u8>>, b: Seq<Seq<u8>>)
    requires
        going_up(a),
        going_up(b),
        a.to_set() == b.to_set(),
    ensures
        a == b,
    decreases a.len(),
{
    if a.len() == 0 {
        if b.len() > 0 {
            assert(b.to_set().contains(b[0]));
        }
        assert(a =~= b);
    } else {
        assert(a.to_set().contains(a[0]));
        assert(b.contains(a[0]));
        let i = choose|i: int| 0 <= i < b.len() && b[i] == a[0];
        assert(b.to_set().contains(b[0]));
        assert(a.contains(b[0]));
        let j = choose|j: int| 0 <= j < a.len() && a[j] == b[0];
        bytes::lemma_lex_facts(a[0], b[0], a[0]);
        if i > 0 && j > 0 {
            assert(bytes::lex_lt(b[0], b[i]));
            assert(bytes::lex_lt(a[0], a[j]));
            bytes::lemma_lex_irreflexive(a[0]);
        }
        assert(a[0] == b[0]);
        let (c, d) = (a.skip(1), b.skip(1));
        lemma_behind_first(a);
        lemma_behind_first(b);
        assert(c.to_set() =~= d.to_set());
        lemma_one_order(c, d);
        assert(a =~= seq![a[0]] + c);
        assert(b =~= seq![b[0]] + d);
    }
}

/// Behind the first key are all the others.
proof fn lemma_behind_first(a: Seq<Seq<u8>>)
    requires
        going_up(a),
        a.len() > 0,
    ensures
        going_up(a.skip(1)),
        a.skip(1).to_set() == a.to_set().remove(a[0]),
{
    let c = a.skip(1);
    assert forall|i: int, j: int| 0 <= i < j < c.len() implies bytes::lex_lt(
        #[trigger] c[i],
        #[trigger] c[j],
    ) by {
        assert(c[i] == a[i + 1] && c[j] == a[j + 1]);
    }
    assert forall|k: Seq<u8>| c.to_set().contains(k) == a.to_set().remove(a[0]).contains(k) by {
        if c.contains(k) {
            let i = choose|i: int| 0 <= i < c.len() && c[i] == k;
            assert(a[i + 1] == k);
            assert(bytes::lex_lt(a[0], a[i + 1]));
            bytes::lemma_lex_irreflexive(k);
        }
        if a.contains(k) && k != a[0] {
            let i = choose|i: int| 0 <= i < a.len() && a[i] == k;
            assert(c[i - 1] == k);
        }
    }
    assert(c.to_set() =~= a.to_set().remove(a[0]));
}

/// A list of keys that go up is the order of its set.
pub proof fn lemma_in_turn(r: Seq<Seq<u8>>)
    requires
        going_up(r),
    ensures
        in_turn(r.to_set()) == r,
{
    let c = choose|c: Seq<Seq<u8>>| going_up(c) && #[trigger] c.to_set() == r.to_set();
    assert(going_up(c) && c.to_set() == r.to_set());
    lemma_one_order(c, r);
}

/// Pairs as values.
pub open spec fn pair_list(s: Seq<(Vec<u8>, Vec<u8>)>) -> Seq<Pair> {
    Seq::new(s.len(), |i: int| (s[i].0@, s[i].1@))
}

/// A scan's result as values.
pub open spec fn scan_result(r: Result<Vec<(Vec<u8>, Vec<u8>)>>) -> ReadResult<Seq<Pair>> {
    match r {
        Ok(v) => Ok(pair_list(v@)),
        Err(e) => Err(e@),
    }
}

impl Engine {
    /// A merging iterator over `cf`, from `from` on in key order.
    pub fn iter_cf(&self, cf: Cf, from: &[u8]) -> (i: MergeIter)
        ensures
            i.family() == cf,
            i.at() == Some(from@),
    {
        MergeIter { cf, cursor: Some(bytes::copy(from)) }
    }

    fn scan_read(&mut self, key: &[u8], read_ts: u64, resolve: bool) -> (r: Result<
        Option<Vec<u8>>,
    >)
        requires
            old(self)@.finite(),
        ensures
            forall|q: ScanView|
                q.read_ts == read_ts && q.resolve == resolve ==> (
                final(self)@,
                db::value_result(r),
                ) == #[trigger] old(self)@.scan_read(key@, q),
            final(self)@.finite(),
    {
        proof {
            reveal(EngineView::scan_read);
        }
        if resolve {
            self.mvcc_get(key, read_ts)
        } else {
            self.mvcc_get_unresolved(key, read_ts)
        }
    }

    /// The user keys of `[start, end)` that have a version in the Write family.
    fn users(&self, start: &[u8], end: &[u8]) -> (r: Result<KeySet>)
        requires
            self@.finite(),
        ensures
            match r {
                Ok(s) => s.wf() && self@.users(start@, end@) == Ok::<Set<Seq<u8>>, ErrorView>(
                    s.set(),
                ),
                Err(e) => self@.users(start@, end@) == Err::<Set<Seq<u8>>, ErrorView>(e@),
            },
    {
        let mut seen = KeySet::new();
        let mut iter = self.iter_cf(Cf::Write, start);
        let ghost walk = self@.walked(start@, end@, start@, Set::empty());
        loop
            invariant_except_break
                iter.at() is Some,
                walk == self@.walked(start@, end@, iter.at().unwrap(), seen.set()),
            invariant
                self@.finite(),
                seen.wf(),
                iter.family() == Cf::Write,
                walk == self@.walked(start@, end@, start@, Set::empty()),
            ensures
                walk == Ok::<Set<Seq<u8>>, ErrorView>(seen.set()),
            decreases finite::keys_behind(self@, Cf::Write, iter.at().unwrap()).len(),
        {
            proof {
                finite::lemma_seek_advances(self@, Cf::Write, iter.at().unwrap());
            }
            let wkey = match iter.next(self) {
                Some(Ok((k, _))) => k,
                Some(Err(e)) => {
                    return Err(e);
                },
                None => {
                    break;
                },
            };
            if end.len() > 0 && bytes::bytes_le(end, wkey.as_slice()) {
                break;
            }
            match keys::decode_data_key(wkey.as_slice()) {
                Some((user, _)) => {
                    if bytes::bytes_le(start, user) && (end.len() == 0 || bytes::bytes_lt(
                        user,
                        end,
                    )) {
                        let ghost had = seen.set();
                        let fresh = seen.insert(user);
                        assert(seen.set() =~= had.insert(user@));
                    }
                },
                None => {},
            }
        }
        let ghost found = seen.set();
        let mut n: usize = 0;
        while n < end.len()
            invariant
                0 <= n <= end@.len(),
                self@.finite(),
                seen.wf(),
                walk == Ok::<Set<Seq<u8>>, ErrorView>(found),
                walk == self@.walked(start@, end@, start@, Set::empty()),
                self@.stems(start@, end@, n as nat, found) == Ok::<Set<Seq<u8>>, ErrorView>(
                    seen.set(),
                ),
            decreases end@.len() - n,
        {
            let p = bytes::slice(end, 0, n);
            assert(p@ =~= end@.take(n as int));
            let ghost had = seen.set();
            if !bytes::bytes_lt(p, start) {
                match self.version_from(p, keys::encode_data_key(p, u64::MAX), false) {
                    Ok(Some(_)) => {
                        let fresh = seen.insert(p);
                        assert(seen.set() =~= had.insert(p@));
                    },
                    Ok(None) => {},
                    Err(e) => {
                        proof {
                            lemma_stems_error(self@, start@, end@, (n + 1) as nat, end@.len(), found);
                        }
                        return Err(e);
                    },
                }
            }
            n = n + 1;
        }
        Ok(seen)
    }

    /// Snapshot range scan: the committed `(user_key, value)` for each user key in `[start, end)`
    /// visible at `read_ts`, in key order, up to `limit` (`0` is unlimited).
    ///
    /// Gathers the **distinct** user keys from the Write family, and resolves the value of each
    /// with [`Engine::mvcc_get`] (or the non-mutating [`Engine::mvcc_get_unresolved`] when
    /// `resolve` is false: replicated reads must not resolve locks). Deleted keys are skipped; a
    /// key still locked by a transaction in flight is skipped (not visible at this snapshot).
    pub fn scan(
        &mut self,
        start: &[u8],
        end: &[u8],
        read_ts: u64,
        limit: usize,
        resolve: bool,
    ) -> (r: Result<Vec<(Vec<u8>, Vec<u8>)>>)
        requires
            old(self)@.finite(),
        ensures
            ({
                let q = ScanView { end: end@, read_ts, limit: limit as nat, resolve };
                &&& final(self)@ == old(self)@.scan(start@, q).0
                &&& scan_result(r) == old(self)@.scan(start@, q).1
            }),
            final(self)@.finite(),
    {
        let ghost q = ScanView { end: end@, read_ts, limit: limit as nat, resolve };
        let ghost whole = self@.scan(start@, q);
        let todo: Vec<Vec<u8>> = match self.users(start, end) {
            Ok(s) => {
                proof {
                    lemma_in_turn(key_views(s.keys@));
                }
                s.keys
            },
            Err(e) => {
                return Err(e);
            },
        };
        let ghost order = key_views(todo@);
        let mut out: Vec<(Vec<u8>, Vec<u8>)> = Vec::new();
        let mut i: usize = 0;
        assert(pair_list(out@) =~= Seq::<Pair>::empty());
        assert(order.skip(0) =~= order);
        while i < todo.len()
            invariant
                0 <= i <= todo@.len(),
                order == key_views(todo@),
                q == (ScanView { end: end@, read_ts, limit: limit as nat, resolve }),
                whole == old(self)@.scan(start@, q),
                self@.finite(),
                whole == self@.scan_keys(q, order.skip(i as int), pair_list(out@)),
            decreases todo@.len() - i,
        {
            let key = todo[i].as_slice();
            proof {
                assert(order.skip(i as int)[0] == key@);
                assert(order.skip(i as int).skip(1) =~= order.skip(i + 1));
            }
            let ghost so_far = pair_list(out@);
            match self.scan_read(key, read_ts, resolve) {
                Ok(Some(value)) => {
                    out.push((bytes::copy(key), value));
                    assert(pair_list(out@) =~= so_far.push((key@, value@)));
                    if limit != 0 && out.len() >= limit {
                        return Ok(out);
                    }
                },
                Ok(None) => {},
                Err(Error::KeyIsLocked(_)) => {},
                Err(e) => {
                    return Err(e);
                },
            }
            i = i + 1;
        }
        Ok(out)
    }
}

/// The first error stays.
proof fn lemma_stems_error(
    v: EngineView,
    start: Seq<u8>,
    end: Seq<u8>,
    k: nat,
    n: nat,
    seen: Set<Seq<u8>>,
)
    requires
        k <= n,
        v.stems(start, end, k, seen) is Err,
    ensures
        v.stems(start, end, n, seen) == v.stems(start, end, k, seen),
    decreases n - k,
{
    if k < n {
        lemma_stems_error(v, start, end, k, (n - 1) as nat, seen);
    }
}

} // verus!
