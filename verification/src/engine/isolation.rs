//! What transactions promise: snapshots that stay as they are, writes that nobody sees before
//! they are committed, one writer per key, and locks that heal.
//!
//! The laws speak of the merged tables of a sound engine, and of exactly the key that is read or
//! written. A storage key is a user key followed by a timestamp, with no mark in between, so a
//! version of another user key can stand among those of a key; no law depends on it.

use vstd::prelude::*;
use crate::bytes;
use crate::engine::batch::OpView;
use crate::engine::db;
use crate::engine::db::{
    DecisionView, EngineView, PrewriteView, RequestView, ResolveAction, Version,
};
use crate::engine::encoding;
use crate::engine::error::ErrorView;
use crate::engine::finite;
use crate::engine::keys;
use crate::engine::keys::{Cf, LockView};
use crate::engine::memtable;
use crate::engine::memtable::{KeyMap, Tables};
use crate::engine::merged;
use crate::engine::mvcc;
use crate::engine::sstable::reader::ReadResult;

verus! {

/// The value that the transaction that started at `start_ts` wrote.
pub open spec fn value_in(t: Tables, key: Seq<u8>, start_ts: u64) -> ReadResult<Option<Seq<u8>>> {
    match merged::present(t.default, keys::data_key(key, start_ts)) {
        None => Ok(None),
        Some(b) => match keys::untagged(b) {
            None => Err(ErrorView::Corruption("default-cf value"@)),
            Some(v) => Ok(v),
        },
    }
}

/// Whether the newest commit of `key` at or before `ts` is the one at `c`.
pub open spec fn newest(w: KeyMap, key: Seq<u8>, ts: u64, c: u64) -> bool {
    &&& c <= ts
    &&& w.contains_key(keys::data_key(key, c))
    &&& forall|d: u64| c < d <= ts ==> !(#[trigger] w.contains_key(keys::data_key(key, d)))
}

/// The newest commit of `key` at or before `ts`, and its entry.
pub open spec fn version_in(w: KeyMap, key: Seq<u8>, ts: u64) -> Version {
    if exists|c: u64| #[trigger] newest(w, key, ts, c) {
        let c = choose|c: u64| #[trigger] newest(w, key, ts, c);
        Some((c, w[keys::data_key(key, c)]))
    } else {
        None
    }
}

/// What a snapshot read at `ts` finds in the tables.
pub open spec fn read_in(t: Tables, key: Seq<u8>, ts: u64) -> ReadResult<Option<Seq<u8>>> {
    match version_in(t.write, key, ts) {
        None => Ok(None),
        Some((_, None)) => Ok(None),
        Some((_, Some(b))) => match keys::write_value_of(b) {
            None => Err(ErrorView::Corruption("write-cf value"@)),
            Some(start_ts) => value_in(t, key, start_ts),
        },
    }
}

/// There is one newest commit.
pub proof fn lemma_newest(w: KeyMap, key: Seq<u8>, ts: u64, c: u64)
    requires
        newest(w, key, ts, c),
    ensures
        version_in(w, key, ts) == Some((c, w[keys::data_key(key, c)])),
{
    let d = choose|d: u64| #[trigger] newest(w, key, ts, d);
    if c < d {
        assert(!w.contains_key(keys::data_key(key, d)));
    } else if d < c {
        assert(!w.contains_key(keys::data_key(key, c)));
    }
}

/// Where there is a commit, there is a newest one.
pub proof fn lemma_newest_exists(w: KeyMap, key: Seq<u8>, ts: u64, c: u64) -> (n: u64)
    requires
        c <= ts,
        w.contains_key(keys::data_key(key, c)),
    ensures
        newest(w, key, ts, n),
        c <= n,
    decreases ts,
{
    if c == ts || w.contains_key(keys::data_key(key, ts)) {
        ts
    } else {
        let n = lemma_newest_exists(w, key, (ts - 1) as u64, c);
        assert forall|d: u64| n < d <= ts implies !(#[trigger] w.contains_key(
            keys::data_key(key, d),
        )) by {
            if d < ts {
                assert(n < d <= (ts - 1) as u64);
            }
        }
        n
    }
}

/// Where the commits of a key up to `ts` are the same, so is the newest.
pub proof fn lemma_same_versions(a: KeyMap, b: KeyMap, key: Seq<u8>, ts: u64)
    requires
        forall|c: u64|
            c <= ts ==> (#[trigger] a.contains_key(keys::data_key(key, c)) == b.contains_key(
                keys::data_key(key, c),
            )),
        forall|c: u64|
            c <= ts && #[trigger] a.contains_key(keys::data_key(key, c)) ==> a[keys::data_key(
                key,
                c,
            )] == b[keys::data_key(key, c)],
    ensures
        version_in(a, key, ts) == version_in(b, key, ts),
{
    if exists|c: u64| #[trigger] newest(a, key, ts, c) {
        let c = choose|c: u64| #[trigger] newest(a, key, ts, c);
        assert forall|d: u64| c < d <= ts implies !(#[trigger] b.contains_key(
            keys::data_key(key, d),
        )) by {
            assert(!a.contains_key(keys::data_key(key, d)));
        }
        assert(newest(b, key, ts, c));
        lemma_newest(a, key, ts, c);
        lemma_newest(b, key, ts, c);
    } else if exists|c: u64| #[trigger] newest(b, key, ts, c) {
        let c = choose|c: u64| #[trigger] newest(b, key, ts, c);
        assert(a.contains_key(keys::data_key(key, c)));
        let n = lemma_newest_exists(a, key, ts, c);
        assert(newest(a, key, ts, n));
    }
}

/// Whether every storage key has a user key and a timestamp.
pub open spec fn split_keys(w: KeyMap) -> bool {
    forall|k: Seq<u8>| #[trigger] w.contains_key(k) ==> keys::split_data_key(k) is Some
}

/// Where a version of a key stands.
proof fn lemma_place(key: Seq<u8>, a: u64, b: u64)
    ensures
        a >= b ==> bytes::lex_le(keys::data_key(key, a), keys::data_key(key, b)),
        a < b ==> bytes::lex_lt(keys::data_key(key, b), keys::data_key(key, a)),
        keys::split_data_key(keys::data_key(key, a)) == Some((key, a)),
{
    keys::law_data_key_version_order(key, a, b);
    keys::law_data_key_version_order(key, b, a);
    keys::law_data_key_roundtrip(key, a);
}

/// What a search for the newest version finds from `from` on, where no version of the key at or
/// before `ts` stands in front of that.
pub proof fn lemma_search(v: EngineView, key: Seq<u8>, ts: u64, from: Seq<u8>, strict: bool)
    requires
        v.sound(),
        strict ==> split_keys(v.merged().write),
        bytes::lex_le(keys::data_key(key, ts), from),
        forall|c: u64|
            c <= ts && #[trigger] v.merged().write.contains_key(keys::data_key(key, c))
                ==> bytes::lex_le(from, keys::data_key(key, c)),
    ensures
        v.version_from(key, from, strict) == Ok::<Version, ErrorView>(
            version_in(v.merged().write, key, ts),
        ),
    decreases finite::keys_behind(v, Cf::Write, from).len(),
{
    let w = v.merged().write;
    finite::lemma_seek_advances(v, Cf::Write, from);
    merged::law_seek(v, Cf::Write, from);
    merged::lemma_merged_finite(v);
    merged::lemma_seek_finite(w, from);
    match memtable::seek_in(w, from) {
        None => {
            assert(version_in(w, key, ts) is None);
        },
        Some((k, e)) => {
            assert(memtable::is_least(w, from, k));
            let found = keys::split_data_key(k);
            if found is Some && found.unwrap().0 == key {
                let c = found.unwrap().1;
                keys::lemma_split_data_key_inverse(k);
                lemma_place(key, ts, c);
                bytes::lemma_lex_facts(keys::data_key(key, ts), from, k);
                bytes::lemma_lex_facts(keys::data_key(key, ts), k, from);
                assert forall|d: u64| c < d <= ts implies !(#[trigger] w.contains_key(
                    keys::data_key(key, d),
                )) by {
                    lemma_place(key, c, d);
                }
                assert(newest(w, key, ts, c));
                lemma_newest(w, key, ts, c);
            } else if bytes::lex_lt(keys::data_key(key, 0), k) {
                assert forall|c: u64| #[trigger] newest(w, key, ts, c) implies false by {
                    lemma_place(key, c, 0);
                    bytes::lemma_lex_facts(keys::data_key(key, c), keys::data_key(key, 0), k);
                    bytes::lemma_lex_facts(k, keys::data_key(key, c), k);
                }
            } else {
                lemma_pass_one(w, key, from, k);
                bytes::lemma_lex_successor(k, k.push(0u8));
                bytes::lemma_lex_irreflexive(k.push(0u8));
                bytes::lemma_lex_facts(keys::data_key(key, ts), from, k);
                bytes::lemma_lex_facts(keys::data_key(key, ts), k, k.push(0u8));
                bytes::lemma_lex_facts(keys::data_key(key, ts), k.push(0u8), k);
                lemma_search(v, key, ts, k.push(0u8), strict);
            }
        },
    }
}

/// Behind a storage key that is not the key's, the key's versions are still to come.
proof fn lemma_pass_one(w: KeyMap, key: Seq<u8>, from: Seq<u8>, k: Seq<u8>)
    requires
        memtable::is_least(w, from, k),
        !(keys::split_data_key(k) matches Some((u, _)) && u == key),
    ensures
        forall|c: u64| #[trigger]
            w.contains_key(keys::data_key(key, c)) && bytes::lex_le(
                from,
                keys::data_key(key, c),
            ) ==> bytes::lex_le(k.push(0u8), keys::data_key(key, c)),
{
    assert forall|c: u64| #[trigger]
        w.contains_key(keys::data_key(key, c)) && bytes::lex_le(
            from,
            keys::data_key(key, c),
        ) implies bytes::lex_le(k.push(0u8), keys::data_key(key, c)) by {
        let x = keys::data_key(key, c);
        lemma_place(key, c, c);
        assert(bytes::lex_le(k, x));
        bytes::lemma_lex_successor(k, x);
        bytes::lemma_lex_facts(k, x, k);
    }
}

/// Reads of a sound engine are reads of its merged tables.
pub proof fn law_reads_merged(v: EngineView, key: Seq<u8>, ts: u64)
    requires
        v.sound(),
        split_keys(v.merged().write),
    ensures
        v.read_committed(key, ts) == read_in(v.merged(), key, ts),
{
    let t = v.merged();
    let from = keys::data_key(key, ts);
    bytes::lemma_lex_irreflexive(from);
    assert forall|c: u64|
        c <= ts && #[trigger] t.write.contains_key(keys::data_key(key, c)) implies bytes::lex_le(
        from,
        keys::data_key(key, c),
    ) by {
        lemma_place(key, ts, c);
    }
    lemma_search(v, key, ts, from, true);
    assert forall|s: u64| #[trigger] v.value_at(key, s) == value_in(t, key, s) by {
        merged::law_get(v, Cf::Default, keys::data_key(key, s));
    }
}

/// A snapshot read gives the newest commit of its key at or before its timestamp, whatever other
/// keys there are.
pub proof fn law_read_newest(t: Tables, key: Seq<u8>, ts: u64, commit_ts: u64, start_ts: u64)
    requires
        t.write.contains_key(keys::data_key(key, commit_ts)),
        t.write[keys::data_key(key, commit_ts)] == Some(bytes::be64(start_ts)),
        commit_ts <= ts,
        forall|c: u64|
            commit_ts < c <= ts ==> !(#[trigger] t.write.contains_key(keys::data_key(key, c))),
    ensures
        read_in(t, key, ts) == value_in(t, key, start_ts),
{
    lemma_newest(t.write, key, ts, commit_ts);
    keys::law_write_value_roundtrip(start_ts);
}

/// A key without a commit at or before the timestamp reads as absent.
pub proof fn law_read_absent(t: Tables, key: Seq<u8>, ts: u64)
    requires
        forall|c: u64| c <= ts ==> !(#[trigger] t.write.contains_key(keys::data_key(key, c))),
    ensures
        read_in(t, key, ts) == Ok::<Option<Seq<u8>>, ErrorView>(None),
{
}

pub proof fn lemma_commit_tables(t: Tables, key: Seq<u8>, start_ts: u64, commit_ts: u64)
    ensures
        ({
            let t2 = t.apply_all(db::commit_ops(key, start_ts, commit_ts));
            &&& t2.write == t.write.insert(
                keys::data_key(key, commit_ts),
                Some(bytes::be64(start_ts)),
            )
            &&& t2.lock == t.lock.insert(key, None)
            &&& t2.default == t.default
        }),
{
    let ops = db::commit_ops(key, start_ts, commit_ts);
    reveal_with_fuel(Tables::apply_all, 3);
    assert(ops.drop_last() =~= seq![ops[0]]);
    assert(ops.drop_last().drop_last() =~= Seq::<OpView>::empty());
}

pub proof fn lemma_prewrite_tables(t: Tables, p: PrewriteView)
    ensures
        ({
            let t2 = t.apply_all(db::prewrite_ops(p));
            &&& t2.write == t.write
            &&& t2.lock == t.lock.insert(
                p.key,
                Some(
                    keys::lock_bytes(
                        LockView {
                            primary: p.primary,
                            start_ts: p.start_ts,
                            ttl: p.ttl,
                            kind: p.kind,
                        },
                    ),
                ),
            )
            &&& t2.default == t.default.insert(
                keys::data_key(p.key, p.start_ts),
                Some(p.value),
            )
        }),
{
    let ops = db::prewrite_ops(p);
    reveal_with_fuel(Tables::apply_all, 3);
    assert(ops.drop_last() =~= seq![ops[0]]);
    assert(ops.drop_last().drop_last() =~= Seq::<OpView>::empty());
}

pub proof fn lemma_rollback_tables(t: Tables, key: Seq<u8>, start_ts: u64)
    ensures
        ({
            let t2 = t.apply_all(db::rollback_ops(key, start_ts));
            &&& t2.write == t.write
            &&& t2.lock == t.lock.insert(key, None)
            &&& t2.default == t.default.insert(keys::data_key(key, start_ts), None)
        }),
{
    let ops = db::rollback_ops(key, start_ts);
    reveal_with_fuel(Tables::apply_all, 3);
    assert(ops.drop_last() =~= seq![ops[0]]);
    assert(ops.drop_last().drop_last() =~= Seq::<OpView>::empty());
}

/// A snapshot is stable: a commit of another key, or one after the snapshot's timestamp, does not
/// change what the snapshot reads.
pub proof fn law_snapshot_stable(
    t: Tables,
    key: Seq<u8>,
    ts: u64,
    other: Seq<u8>,
    start_ts: u64,
    commit_ts: u64,
)
    requires
        other == key ==> commit_ts > ts,
    ensures
        read_in(t.apply_all(db::commit_ops(other, start_ts, commit_ts)), key, ts) == read_in(
            t,
            key,
            ts,
        ),
{
    let t2 = t.apply_all(db::commit_ops(other, start_ts, commit_ts));
    lemma_commit_tables(t, other, start_ts, commit_ts);
    assert forall|c: u64| c <= ts implies keys::data_key(other, commit_ts)
        != #[trigger] keys::data_key(key, c) by {
        keys::law_data_key_roundtrip(key, c);
        keys::law_data_key_roundtrip(other, commit_ts);
    }
    lemma_same_versions(t.write, t2.write, key, ts);
    assert forall|s: u64| #[trigger] value_in(t2, key, s) == value_in(t, key, s) by {}
}

/// Whether no commit of the key points at this transaction.
pub open spec fn uncommitted(t: Tables, key: Seq<u8>, start_ts: u64) -> bool {
    forall|k: Seq<u8>| #[trigger]
        t.write.contains_key(k) ==> !(keys::split_data_key(k) matches Some((u, _)) && u == key
            && mvcc::points_at(t.write[k], start_ts))
}

proof fn lemma_other_values(t: Tables, t2: Tables, key: Seq<u8>, ts: u64, changed: Seq<u8>, start_ts: u64)
    requires
        t2.write == t.write,
        forall|k: Seq<u8>|
            k != keys::data_key(changed, start_ts) ==> #[trigger] merged::present(t2.default, k)
                == merged::present(t.default, k),
        uncommitted(t, changed, start_ts),
    ensures
        read_in(t2, key, ts) == read_in(t, key, ts),
{
    if let Some((c, Some(b))) = version_in(t.write, key, ts) {
        let wkey = keys::data_key(key, c);
        assert(newest(t.write, key, ts, c));
        keys::law_data_key_roundtrip(key, c);
        if let Some(s) = keys::write_value_of(b) {
            let at = keys::data_key(key, s);
            if at == keys::data_key(changed, start_ts) {
                keys::law_data_key_roundtrip(key, s);
                keys::law_data_key_roundtrip(changed, start_ts);
                assert(t.write.contains_key(wkey));
                assert(mvcc::points_at(t.write[wkey], start_ts));
            }
            assert(merged::present(t2.default, at) == merged::present(t.default, at));
        }
    }
}

/// No dirty reads: a prewrite changes no read, at any timestamp, of any key.
pub proof fn law_prewrite_invisible(t: Tables, p: PrewriteView, key: Seq<u8>, ts: u64)
    requires
        uncommitted(t, p.key, p.start_ts),
    ensures
        read_in(t.apply_all(db::prewrite_ops(p)), key, ts) == read_in(t, key, ts),
{
    lemma_prewrite_tables(t, p);
    lemma_other_values(t, t.apply_all(db::prewrite_ops(p)), key, ts, p.key, p.start_ts);
}

/// An abort leaves no trace: rolling back a transaction that did not commit changes no read.
pub proof fn law_rollback_invisible(
    t: Tables,
    rolled: Seq<u8>,
    start_ts: u64,
    key: Seq<u8>,
    ts: u64,
)
    requires
        uncommitted(t, rolled, start_ts),
    ensures
        read_in(t.apply_all(db::rollback_ops(rolled, start_ts)), key, ts) == read_in(t, key, ts),
{
    lemma_rollback_tables(t, rolled, start_ts);
    lemma_other_values(
        t,
        t.apply_all(db::rollback_ops(rolled, start_ts)),
        key,
        ts,
        rolled,
        start_ts,
    );
}

/// A commit is visible: a value that was prewritten and then committed is what snapshots from the
/// commit on read, up to the next commit of the key.
pub proof fn law_commit_visible(
    t: Tables,
    p: PrewriteView,
    value: Option<Seq<u8>>,
    commit_ts: u64,
    ts: u64,
)
    requires
        p.value == keys::tagged(value),
        commit_ts <= ts,
        forall|c: u64|
            commit_ts < c <= ts ==> !(#[trigger] t.write.contains_key(keys::data_key(p.key, c))),
    ensures
        read_in(
            t.apply_all(db::prewrite_ops(p)).apply_all(
                db::commit_ops(p.key, p.start_ts, commit_ts),
            ),
            p.key,
            ts,
        ) == Ok::<Option<Seq<u8>>, ErrorView>(value),
{
    let t1 = t.apply_all(db::prewrite_ops(p));
    let t2 = t1.apply_all(db::commit_ops(p.key, p.start_ts, commit_ts));
    lemma_prewrite_tables(t, p);
    lemma_commit_tables(t1, p.key, p.start_ts, commit_ts);
    encoding::law_ts_roundtrip(commit_ts);
    assert forall|c: u64| commit_ts < c <= ts implies !(#[trigger] t2.write.contains_key(
        keys::data_key(p.key, c),
    )) by {
        keys::law_data_key_version_order(p.key, c, commit_ts);
        assert(!t.write.contains_key(keys::data_key(p.key, c)));
    }
    law_read_newest(t2, p.key, ts, commit_ts, p.start_ts);
    keys::law_tagged_roundtrip(value);
}

/// Whether a request leaves a memtable that flushes to a table with lengths that fit.
pub open spec fn fits(v: EngineView, req: RequestView) -> bool {
    v.run_one(req, None).0.full() ==> v.run_one(req, None).0.roomy()
}

/// One writer per key: once a prewrite of a key succeeded, every other prewrite of that key is
/// refused, until its lock is resolved.
pub proof fn law_mutual_exclusion(v: EngineView, p: PrewriteView, q: PrewriteView)
    requires
        v.sound(),
        fits(v, RequestView::Prewrite(p)),
        v.submit(RequestView::Prewrite(p)).1 is Ok,
        q.key == p.key,
    ensures
        v.submit(RequestView::Prewrite(p)).0.decide(RequestView::Prewrite(q)) matches
            DecisionView::Done(Err(ErrorView::Conflict(_))),
{
    let req = RequestView::Prewrite(p);
    merged::law_submit(v, req);
    let e = v.submit(req).0;
    match v.decide(req) {
        DecisionView::Apply(ops) => {
            lemma_prewrite_tables(v.merged(), p);
            lemma_prewrite_check(e, q.key, q.start_ts);
        },
        DecisionView::Done(_) => {},
    }
}

/// Whether a commit of exactly this key is at or after a snapshot.
pub open spec fn committed_in(w: KeyMap, key: Seq<u8>, start_ts: u64) -> bool {
    exists|c: u64| c >= start_ts && #[trigger] w.contains_key(keys::data_key(key, c))
}

/// What a search for the newest version of all finds.
pub proof fn lemma_newest_from_top(v: EngineView, key: Seq<u8>)
    requires
        v.sound(),
    ensures
        v.version_from(key, keys::data_key(key, u64::MAX), false) == Ok::<Version, ErrorView>(
            version_in(v.merged().write, key, u64::MAX),
        ),
{
    let from = keys::data_key(key, u64::MAX);
    bytes::lemma_lex_irreflexive(from);
    assert forall|c: u64|
        c <= u64::MAX && #[trigger] v.merged().write.contains_key(
            keys::data_key(key, c),
        ) implies bytes::lex_le(from, keys::data_key(key, c)) by {
        lemma_place(key, u64::MAX, c);
    }
    lemma_search(v, key, u64::MAX, from, false);
}

/// The prewrite checks, from the merged tables.
pub proof fn lemma_prewrite_check(v: EngineView, key: Seq<u8>, start_ts: u64)
    requires
        v.sound(),
    ensures
        v.prewrite_check(key, start_ts) == if committed_in(v.merged().write, key, start_ts) {
            Err::<(), ErrorView>(ErrorView::Conflict("write conflict: a newer commit exists"@))
        } else if merged::present(v.merged().lock, key) is Some {
            Err(ErrorView::Conflict("key is already locked by another transaction"@))
        } else {
            Ok(())
        },
{
    reveal(EngineView::prewrite_check);
    let w = v.merged().write;
    lemma_newest_from_top(v, key);
    merged::law_get(v, Cf::Lock, key);
    if committed_in(w, key, start_ts) {
        let c = choose|c: u64| c >= start_ts && #[trigger] w.contains_key(keys::data_key(key, c));
        let n = lemma_newest_exists(w, key, u64::MAX, c);
        lemma_newest(w, key, u64::MAX, n);
    } else if let Some((c, e)) = version_in(w, key, u64::MAX) {
        assert(newest(w, key, u64::MAX, c));
        assert(w.contains_key(keys::data_key(key, c)));
    }
}

/// A prewrite is refused with a conflict exactly where a commit of its very key is at or after its
/// snapshot, or the key is locked; it is applied everywhere else.
pub proof fn law_write_conflict(v: EngineView, p: PrewriteView)
    requires
        v.sound(),
    ensures
        committed_in(v.merged().write, p.key, p.start_ts) ==> v.decide(RequestView::Prewrite(p))
            == DecisionView::Done(
            Err(ErrorView::Conflict("write conflict: a newer commit exists"@)),
        ),
        !committed_in(v.merged().write, p.key, p.start_ts) && merged::present(
            v.merged().lock,
            p.key,
        ) is Some ==> v.decide(RequestView::Prewrite(p)) == DecisionView::Done(
            Err(ErrorView::Conflict("key is already locked by another transaction"@)),
        ),
        !committed_in(v.merged().write, p.key, p.start_ts) && merged::present(
            v.merged().lock,
            p.key,
        ) is None ==> v.decide(RequestView::Prewrite(p)) == DecisionView::Apply(
            db::prewrite_ops(p),
        ),
{
    lemma_prewrite_check(v, p.key, p.start_ts);
}

/// A prewrite that is submitted, with every file operation succeeding: where a commit of its very
/// key is at or after its snapshot, or the key is locked, it gets a conflict and nothing changes;
/// everywhere else it is acknowledged, and what changes is its value and its lock.
pub proof fn law_prewrite(v: EngineView, p: PrewriteView)
    requires
        v.sound(),
        fits(v, RequestView::Prewrite(p)),
    ensures
        ({
            let (w, r) = v.submit(RequestView::Prewrite(p));
            let t = v.merged();
            if committed_in(t.write, p.key, p.start_ts) || merged::present(t.lock, p.key) is Some {
                &&& r matches Err(ErrorView::Conflict(_))
                &&& w.merged() == t
                &&& w.seq == v.seq
            } else {
                let lock = LockView {
                    primary: p.primary,
                    start_ts: p.start_ts,
                    ttl: p.ttl,
                    kind: p.kind,
                };
                &&& r == Ok::<u64, ErrorView>(db::succ(v.seq))
                &&& w.merged().write == t.write
                &&& w.merged().lock == t.lock.insert(p.key, Some(keys::lock_bytes(lock)))
                &&& w.merged().default == t.default.insert(
                    keys::data_key(p.key, p.start_ts),
                    Some(p.value),
                )
            }
        }),
{
    law_write_conflict(v, p);
    merged::law_submit(v, RequestView::Prewrite(p));
    lemma_prewrite_tables(v.merged(), p);
}

/// Whether the newest commit of `key` that points at the transaction is the one at `c`.
pub open spec fn committed_at(w: KeyMap, key: Seq<u8>, start_ts: u64, c: u64) -> bool {
    &&& w.contains_key(keys::data_key(key, c))
    &&& mvcc::points_at(w[keys::data_key(key, c)], start_ts)
    &&& forall|d: u64|
        d > c && #[trigger] w.contains_key(keys::data_key(key, d)) ==> !mvcc::points_at(
            w[keys::data_key(key, d)],
            start_ts,
        )
}

/// Whether no commit of `key` points at the transaction.
pub open spec fn never_committed(w: KeyMap, key: Seq<u8>, start_ts: u64) -> bool {
    forall|c: u64| #[trigger]
        w.contains_key(keys::data_key(key, c)) ==> !mvcc::points_at(
            w[keys::data_key(key, c)],
            start_ts,
        )
}

/// What a search for a commit finds from `from` on.
proof fn lemma_commit_search(v: EngineView, key: Seq<u8>, start_ts: u64, from: Seq<u8>)
    requires
        v.sound(),
        split_keys(v.merged().write),
        forall|c: u64| #[trigger]
            v.merged().write.contains_key(keys::data_key(key, c)) && mvcc::points_at(
                v.merged().write[keys::data_key(key, c)],
                start_ts,
            ) ==> bytes::lex_le(from, keys::data_key(key, c)),
    ensures
        forall|c: u64| #[trigger]
            committed_at(v.merged().write, key, start_ts, c) ==> v.commit_from(
                key,
                start_ts,
                from,
            ) == Ok::<Option<u64>, ErrorView>(Some(c)),
        never_committed(v.merged().write, key, start_ts) ==> v.commit_from(key, start_ts, from)
            == Ok::<Option<u64>, ErrorView>(None),
    decreases finite::keys_behind(v, Cf::Write, from).len(),
{
    let w = v.merged().write;
    finite::lemma_seek_advances(v, Cf::Write, from);
    merged::law_seek(v, Cf::Write, from);
    merged::lemma_merged_finite(v);
    merged::lemma_seek_finite(w, from);
    if let Some((k, e)) = memtable::seek_in(w, from) {
        assert(memtable::is_least(w, from, k));
        let (u, c) = keys::split_data_key(k).unwrap();
        keys::lemma_split_data_key_inverse(k);
        if u == key && mvcc::points_at(e, start_ts) {
            assert forall|d: u64| #[trigger] committed_at(w, key, start_ts, d) implies d == c by {
                lemma_place(key, c, d);
                bytes::lemma_lex_facts(k, keys::data_key(key, d), k);
                if d < c {
                    assert(w.contains_key(keys::data_key(key, c)));
                }
            }
        } else if bytes::lex_lt(keys::data_key(key, 0), k) {
            assert forall|d: u64| #[trigger] committed_at(w, key, start_ts, d) implies false by {
                lemma_place(key, d, 0);
                bytes::lemma_lex_facts(keys::data_key(key, d), keys::data_key(key, 0), k);
                bytes::lemma_lex_facts(k, keys::data_key(key, d), k);
            }
        } else {
            assert forall|d: u64| #[trigger]
                w.contains_key(keys::data_key(key, d)) && mvcc::points_at(
                    w[keys::data_key(key, d)],
                    start_ts,
                ) implies bytes::lex_le(k.push(0u8), keys::data_key(key, d)) by {
                let x = keys::data_key(key, d);
                lemma_place(key, d, d);
                bytes::lemma_lex_successor(k, x);
                bytes::lemma_lex_facts(k, x, k);
            }
            lemma_commit_search(v, key, start_ts, k.push(0u8));
        }
    }
}

/// The fate of a transaction is read off its primary: the newest commit of exactly that key which
/// points at the transaction, whatever other keys there are.
pub proof fn law_fate(v: EngineView, primary: Seq<u8>, start_ts: u64)
    requires
        v.sound(),
        split_keys(v.merged().write),
    ensures
        forall|c: u64| #[trigger]
            committed_at(v.merged().write, primary, start_ts, c) ==> v.find_commit_ts(
                primary,
                start_ts,
            ) == Ok::<Option<u64>, ErrorView>(Some(c)),
        never_committed(v.merged().write, primary, start_ts) ==> v.find_commit_ts(
            primary,
            start_ts,
        ) == Ok::<Option<u64>, ErrorView>(None),
{
    assert forall|c: u64| #[trigger]
        v.merged().write.contains_key(keys::data_key(primary, c)) && mvcc::points_at(
            v.merged().write[keys::data_key(primary, c)],
            start_ts,
        ) implies bytes::lex_le(keys::data_key(primary, u64::MAX), keys::data_key(primary, c)) by {
        lemma_place(primary, u64::MAX, c);
    }
    lemma_commit_search(v, primary, start_ts, keys::data_key(primary, u64::MAX));
}

/// A lock resolution touches only the lock it was meant for: where the key is not locked by that
/// transaction, it succeeds and changes nothing that a read could see.
pub proof fn law_resolve_conditional(
    v: EngineView,
    key: Seq<u8>,
    start_ts: u64,
    action: ResolveAction,
)
    requires
        v.sound(),
        v.full() ==> v.roomy(),
        v.lock_on(key) matches Ok(l) && !(l matches Some(x) && x.start_ts == start_ts),
    ensures
        v.resolve(key, start_ts, action).1 is Ok,
        v.resolve(key, start_ts, action).0.merged() == v.merged(),
{
    merged::law_submit(v, mvcc::resolve_request(key, start_ts, action));
}

/// The lock on a key, from the merged tables.
pub proof fn lemma_lock_on(v: EngineView, key: Seq<u8>)
    requires
        v.sound(),
    ensures
        v.lock_on(key) == match merged::present(v.merged().lock, key) {
            None => Ok::<Option<LockView>, ErrorView>(None),
            Some(b) => match keys::lock_of(b) {
                Some(l) => Ok(Some(l)),
                None => Err(ErrorView::Corruption("lock decode"@)),
            },
        },
{
    merged::law_get(v, Cf::Lock, key);
}

/// A read that meets no lock from before its snapshot leaves the engine alone.
pub proof fn law_read_unlocked(v: EngineView, key: Seq<u8>, ts: u64)
    requires
        v.lock_on(key) matches Ok(l) && (l matches Some(x) ==> x.start_ts > ts),
    ensures
        v.mvcc_get(key, ts) == (v, v.read_committed(key, ts)),
{
}

/// A lock heals forward: a reader that meets the lock of a transaction whose primary committed
/// completes the commit on the key and reads with it.
pub proof fn law_roll_forward(v: EngineView, key: Seq<u8>, ts: u64, lock: LockView, commit_ts: u64)
    requires
        v.sound(),
        v.lock_on(key) == Ok::<Option<LockView>, ErrorView>(Some(lock)),
        lock.start_ts <= ts,
        v.primary_lock(lock.primary) matches Ok(p) && !(p matches Some(x) && x.start_ts
            == lock.start_ts),
        split_keys(v.merged().write),
        committed_at(v.merged().write, lock.primary, lock.start_ts, commit_ts),
        fits(
            v,
            mvcc::resolve_request(key, lock.start_ts, ResolveAction::Commit(commit_ts)),
        ),
    ensures
        ({
            let t = v.merged().apply_all(db::commit_ops(key, lock.start_ts, commit_ts));
            &&& v.mvcc_get(key, ts).1 == read_in(t, key, ts)
            &&& v.mvcc_get(key, ts).0.merged() == t
            &&& v.mvcc_get(key, ts).0.sound()
        }),
{
    let req = mvcc::resolve_request(key, lock.start_ts, ResolveAction::Commit(commit_ts));
    law_fate(v, lock.primary, lock.start_ts);
    merged::law_submit(v, req);
    let e = v.submit(req).0;
    lemma_commit_tables(v.merged(), key, lock.start_ts, commit_ts);
    keys::law_data_key_roundtrip(key, commit_ts);
    lemma_one_round(v, key, ts, req);
    law_reads_merged(e, key, ts);
}

pub proof fn lemma_one_round(v: EngineView, key: Seq<u8>, ts: u64, req: RequestView)
    requires
        v.lock_step(key, ts) == Ok::<Option<Seq<RequestView>>, ErrorView>(Some(seq![req])),
        v.submit(req).1 is Ok,
        v.submit(req).0.sound(),
        merged::present(v.submit(req).0.merged().lock, key) is None,
    ensures
        v.mvcc_get(key, ts) == (
            v.submit(req).0,
            v.submit(req).0.read_committed(key, ts),
        ),
{
    let e = v.submit(req).0;
    let reqs = seq![req];
    assert(reqs.drop_last() =~= Seq::<RequestView>::empty());
    assert(v.submit_all(reqs.drop_last()) == (v, Ok::<(), ErrorView>(())));
    assert(v.submit_all(reqs).0 == e);
    lemma_lock_on(e, key);
    assert(e.settle_locks(key, ts, 7) == (e, Ok::<(), ErrorView>(())));
    assert(v.settle_locks(key, ts, 8) == (e, Ok::<(), ErrorView>(())));
}

/// A lock heals back: a reader that meets the lock of a transaction that never committed and
/// whose primary is no longer locked rolls the key back and reads without it.
pub proof fn law_roll_back(v: EngineView, key: Seq<u8>, ts: u64, lock: LockView)
    requires
        v.sound(),
        v.lock_on(key) == Ok::<Option<LockView>, ErrorView>(Some(lock)),
        lock.start_ts <= ts,
        v.primary_lock(lock.primary) matches Ok(p) && !(p matches Some(x) && x.start_ts
            == lock.start_ts),
        split_keys(v.merged().write),
        never_committed(v.merged().write, lock.primary, lock.start_ts),
        fits(v, mvcc::resolve_request(key, lock.start_ts, ResolveAction::Rollback)),
    ensures
        ({
            let t = v.merged().apply_all(db::rollback_ops(key, lock.start_ts));
            &&& v.mvcc_get(key, ts).1 == read_in(t, key, ts)
            &&& v.mvcc_get(key, ts).0.merged() == t
            &&& v.mvcc_get(key, ts).0.sound()
        }),
{
    let req = mvcc::resolve_request(key, lock.start_ts, ResolveAction::Rollback);
    law_fate(v, lock.primary, lock.start_ts);
    merged::law_submit(v, req);
    let e = v.submit(req).0;
    lemma_rollback_tables(v.merged(), key, lock.start_ts);
    lemma_one_round(v, key, ts, req);
    law_reads_merged(e, key, ts);
}

/// A dead transaction's locks go: a reader past the primary lock's expiry rolls back the primary
/// and the key that it met.
pub proof fn law_expired(v: EngineView, key: Seq<u8>, ts: u64, lock: LockView, primary: LockView)
    requires
        v.sound(),
        v.lock_on(key) == Ok::<Option<LockView>, ErrorView>(Some(lock)),
        lock.start_ts <= ts,
        key != lock.primary,
        split_keys(v.merged().write),
        v.primary_lock(lock.primary) == Ok::<Option<LockView>, ErrorView>(Some(primary)),
        primary.start_ts == lock.start_ts,
        ts > primary.ttl,
        fits(v, mvcc::resolve_request(lock.primary, lock.start_ts, ResolveAction::Rollback)),
        fits(
            v.submit(
                mvcc::resolve_request(lock.primary, lock.start_ts, ResolveAction::Rollback),
            ).0,
            mvcc::resolve_request(key, lock.start_ts, ResolveAction::Rollback),
        ),
    ensures
        ({
            let t = v.merged().apply_all(
                db::rollback_ops(lock.primary, lock.start_ts),
            ).apply_all(db::rollback_ops(key, lock.start_ts));
            &&& v.mvcc_get(key, ts).1 == read_in(t, key, ts)
            &&& v.mvcc_get(key, ts).0.merged() == t
            &&& v.mvcc_get(key, ts).0.sound()
        }),
{
    let r1 = mvcc::resolve_request(lock.primary, lock.start_ts, ResolveAction::Rollback);
    let r2 = mvcc::resolve_request(key, lock.start_ts, ResolveAction::Rollback);
    assert(v.lock_on(lock.primary) == Ok::<Option<LockView>, ErrorView>(Some(primary)));
    lemma_rollback_step(v, lock.primary, primary, key);
    let e1 = v.submit(r1).0;
    lemma_rollback_step(e1, key, lock, key);
    let e2 = e1.submit(r2).0;
    lemma_two_rollbacks(v, key, ts, r1, r2);
    lemma_rollback_tables(v.merged(), lock.primary, lock.start_ts);
    lemma_rollback_tables(e1.merged(), key, lock.start_ts);
    law_reads_merged(e2, key, ts);
}

/// A rollback of a lock that is there: the lock and the value go, and the lock on another key
/// stays.
proof fn lemma_rollback_step(v: EngineView, key: Seq<u8>, lock: LockView, other: Seq<u8>)
    requires
        v.sound(),
        v.lock_on(key) == Ok::<Option<LockView>, ErrorView>(Some(lock)),
        fits(v, mvcc::resolve_request(key, lock.start_ts, ResolveAction::Rollback)),
    ensures
        ({
            let r = mvcc::resolve_request(key, lock.start_ts, ResolveAction::Rollback);
            let e = v.submit(r).0;
            &&& v.submit(r).1 is Ok
            &&& e.sound()
            &&& e.merged() == v.merged().apply_all(db::rollback_ops(key, lock.start_ts))
            &&& e.lock_on(key) == Ok::<Option<LockView>, ErrorView>(None)
            &&& other != key ==> e.lock_on(other) == v.lock_on(other)
        }),
{
    let r = mvcc::resolve_request(key, lock.start_ts, ResolveAction::Rollback);
    merged::law_submit(v, r);
    let e = v.submit(r).0;
    lemma_rollback_tables(v.merged(), key, lock.start_ts);
    lemma_lock_on(e, key);
    lemma_lock_on(e, other);
    lemma_lock_on(v, other);
}

proof fn lemma_two_rollbacks(
    v: EngineView,
    key: Seq<u8>,
    ts: u64,
    r1: RequestView,
    r2: RequestView,
)
    requires
        v.lock_step(key, ts) == Ok::<Option<Seq<RequestView>>, ErrorView>(Some(seq![r1, r2])),
        v.submit(r1).1 is Ok,
        v.submit(r1).0.submit(r2).1 is Ok,
        v.submit(r1).0.submit(r2).0.lock_on(key) == Ok::<Option<LockView>, ErrorView>(None),
    ensures
        ({
            let e = v.submit(r1).0.submit(r2).0;
            v.mvcc_get(key, ts) == (e, e.read_committed(key, ts))
        }),
{
    let e1 = v.submit(r1).0;
    let e2 = e1.submit(r2).0;
    let reqs = seq![r1, r2];
    assert(reqs.drop_last() =~= seq![r1]);
    assert(seq![r1].drop_last() =~= Seq::<RequestView>::empty());
    assert(v.submit_all(Seq::<RequestView>::empty()) == (v, Ok::<(), ErrorView>(())));
    assert(v.submit_all(seq![r1]) == (e1, Ok::<(), ErrorView>(())));
    assert(v.submit_all(reqs) == (e2, Ok::<(), ErrorView>(())));
    assert(e2.settle_locks(key, ts, 7) == (e2, Ok::<(), ErrorView>(())));
    assert(v.settle_locks(key, ts, 8) == (e2, Ok::<(), ErrorView>(())));
}

/// A living transaction is waited for: a reader within the primary lock's time to live is told
/// that the key is locked, and changes nothing.
pub proof fn law_alive(v: EngineView, key: Seq<u8>, ts: u64, lock: LockView, primary: LockView)
    requires
        v.lock_on(key) == Ok::<Option<LockView>, ErrorView>(Some(lock)),
        lock.start_ts <= ts,
        v.primary_lock(lock.primary) == Ok::<Option<LockView>, ErrorView>(Some(primary)),
        primary.start_ts == lock.start_ts,
        ts <= primary.ttl,
    ensures
        v.mvcc_get(key, ts).0 == v,
        v.mvcc_get(key, ts).1 matches Err(ErrorView::KeyIsLocked(_)),
{
    assert(v.settle_locks(key, ts, 8).0 == v);
}

} // verus!
