//! What a crash costs: nothing that was answered.
//!
//! The files hold the engine's state as stored tables plus a log of batches. Every step of a group of
//! requests keeps the two in step, whichever file operations fail on the way, so opening the files at
//! any point in between gives the state back. An operation that fails is taken to leave its file as
//! it was.

use vstd::prelude::*;
use crate::engine::batch;
use crate::engine::batch::OpView;
use crate::engine::db;
use crate::engine::db::{
    DecisionView, EffectView, EngineView, GroupIoView, RequestView,
};
use crate::engine::error::ErrorView;
use crate::engine::keys::Cf;
use crate::engine::manifest;
use crate::engine::manifest::ManifestView;
use crate::engine::memtable::{MemtableView, Tables};
use crate::engine::merged;
use crate::engine::options::Options;
use crate::engine::recovery;
use crate::engine::recovery::{DiskView, File};
use crate::engine::sstable::reader;
use crate::engine::sstable::reader::TableView;
use crate::engine::sstable::table;
use crate::engine::wal;
use crate::engine::wal::Record;

verus! {

/// A logged batch: its sequence number and its mutations.
pub type Logged = (u64, Seq<OpView>);

/// The log records of batches.
pub open spec fn as_records(log: Seq<Logged>) -> Seq<Record> {
    Seq::new(log.len(), |i: int| (log[i].0, batch::batch_bytes(log[i].1)))
}

/// A fresh memtable after batches.
pub open spec fn replayed(log: Seq<Logged>) -> MemtableView
    decreases log.len(),
{
    if log.len() == 0 {
        MemtableView::fresh()
    } else {
        replayed(log.drop_last()).apply(log.last().0, log.last().1)
    }
}

/// The records of all segments.
pub open spec fn all_records(segs: Seq<File>) -> Seq<Record>
    decreases segs.len(),
{
    if segs.len() == 0 {
        Seq::empty()
    } else {
        all_records(segs.drop_last()) + recovery::segment_records(segs.last())
    }
}

/// The records above the watermark.
pub open spec fn live(rs: Seq<Record>, last: u64) -> Seq<Record>
    decreases rs.len(),
{
    if rs.len() == 0 {
        Seq::empty()
    } else if rs.last().0 > last {
        live(rs.drop_last(), last).push(rs.last())
    } else {
        live(rs.drop_last(), last)
    }
}

/// Batches that went to several memtables, one behind the other.
pub open spec fn flat(parts: Seq<Seq<Logged>>) -> Seq<Logged>
    decreases parts.len(),
{
    if parts.len() == 0 {
        Seq::empty()
    } else {
        flat(parts.drop_last()) + parts.last()
    }
}

/// What the files hold.
pub struct History {
    /// The watermark of the stored manifest.
    pub last: u64,
    /// The tables that it lists.
    pub tables: Seq<TableView>,
    /// The batches above the watermark, by the memtable that took them, oldest first.
    pub parts: Seq<Seq<Logged>>,
    /// The records of the last segment.
    pub tail: Seq<Record>,
}

impl History {
    /// The batches above the watermark.
    pub open spec fn log(self) -> Seq<Logged> {
        flat(self.parts)
    }

    /// The stored manifest.
    pub open spec fn manifest(self) -> ManifestView {
        ManifestView {
            last_flushed_seq: self.last,
            sstables: Seq::new(self.tables.len(), |i: int| self.tables[i].file_no),
        }
    }

    /// The highest sequence number in the files.
    pub open spec fn top(self) -> u64 {
        if self.log().len() > 0 {
            self.log().last().0
        } else {
            self.last
        }
    }
}

/// Whether the numbers of files ascend strictly.
pub open spec fn ascending(fs: Seq<File>) -> bool {
    forall|i: int, j: int| 0 <= i < j < fs.len() ==> (#[trigger] fs[i]).0 < (#[trigger] fs[j]).0
}

/// Whether a live table's file is in place.
pub open spec fn table_stored(d: DiskView, t: TableView) -> bool {
    recovery::file_of(d.tables, t.file_no) == Some(t.data) && reader::table_of(t.data, t.file_no)
        == Ok::<TableView, ErrorView>(t)
}

/// Whether batches have rising sequence numbers above one and up to another, and fit the log.
pub open spec fn climbing(log: Seq<Logged>, last: u64, top: u64) -> bool {
    &&& forall|i: int|
        0 <= i < log.len() ==> last < (#[trigger] log[i]).0 <= top && batch::batch_fits(log[i].1)
    &&& forall|i: int, j: int|
        0 <= i < j < log.len() ==> (#[trigger] log[i]).0 < (#[trigger] log[j]).0
}

/// Whether the files hold this: the manifest, its tables, and the batches above its watermark.
pub open spec fn stored(d: DiskView, h: History) -> bool {
    &&& recovery::stored_manifest(d) == Ok::<ManifestView, ErrorView>(h.manifest())
    &&& forall|i: int|
        0 <= i < h.tables.len() ==> table_stored(d, #[trigger] h.tables[i]) && merged::intact(
            h.tables[i],
        )
    &&& ascending(d.segments)
    &&& live(all_records(d.segments), h.last) == as_records(h.log())
}

/// The memtables, oldest first.
pub open spec fn memtables(v: EngineView) -> Seq<MemtableView> {
    v.immutable.push(v.active)
}

/// Whether memtables are what their batches make of them.
pub open spec fn held(ms: Seq<MemtableView>, parts: Seq<Seq<Logged>>) -> bool {
    &&& ms.len() == parts.len()
    &&& forall|i: int| 0 <= i < ms.len() ==> (#[trigger] ms[i]) == replayed(parts[i])
}

/// Whether the live tables hold what the stored ones do, and the oldest frozen memtable at most.
pub open spec fn tables_ahead(v: EngineView, h: History) -> bool {
    let base = merged::merged_tables(h.tables);
    ||| merged::merged_tables(v.tables) == base
    ||| v.immutable.len() > 0 && merged::merged_tables(v.tables) == v.immutable[0].tables.over(base)
}

/// Whether the watermark is the stored one, or counts the oldest frozen memtable at most.
pub open spec fn watermark_ahead(v: EngineView, h: History) -> bool {
    ||| v.last_flushed == h.last
    ||| v.immutable.len() > 0 && v.last_flushed == db::larger(h.last, v.immutable[0].max_seq)
}

/// Whether the files hold the engine's state.
#[verifier::opaque]
pub open spec fn durable(v: EngineView, d: DiskView, h: History) -> bool {
    &&& v.sound()
    &&& stored(d, h)
    &&& climbing(h.log(), h.last, v.seq)
    &&& h.last <= v.seq
    &&& forall|i: int| 0 <= i < h.tables.len() ==> (#[trigger] h.tables[i]).file_no < v.next_sst
    &&& forall|i: int|
        0 <= i < v.tables.len() ==> table_stored(d, #[trigger] v.tables[i])
            && v.tables[i].file_no < v.next_sst
    &&& held(memtables(v), h.parts)
    &&& tables_ahead(v, h)
    &&& watermark_ahead(v, h)
}

/// Whether the files hold the engine's state and the last segment takes records.
pub open spec fn in_sync(v: EngineView, d: DiskView, h: History) -> bool {
    &&& durable(v, d, h)
    &&& d.segments.len() > 0
    &&& d.segments.last() == (v.segment, wal::log_bytes(h.tail))
    &&& forall|i: int| 0 <= i < h.tail.len() ==> wal::record_fits(#[trigger] h.tail[i])
    &&& v.segment < v.next_seg
}

proof fn lemma_replay_concat(m: MemtableView, last: u64, a: Seq<Record>, b: Seq<Record>)
    ensures
        recovery::replay(m, last, a + b) == match recovery::replay(m, last, a) {
            Ok(n) => recovery::replay(n, last, b),
            Err(e) => Err(e),
        },
    decreases b.len(),
{
    if b.len() == 0 {
        assert(a + b =~= a);
    } else {
        assert((a + b).drop_last() =~= a + b.drop_last());
        lemma_replay_concat(m, last, a, b.drop_last());
    }
}

proof fn lemma_replay_flat(segs: Seq<File>, last: u64)
    ensures
        recovery::replay_all(segs, last) == recovery::replay(
            MemtableView::fresh(),
            last,
            all_records(segs),
        ),
    decreases segs.len(),
{
    if segs.len() > 0 {
        lemma_replay_flat(segs.drop_last(), last);
        lemma_replay_concat(
            MemtableView::fresh(),
            last,
            all_records(segs.drop_last()),
            recovery::segment_records(segs.last()),
        );
    }
}

proof fn lemma_replay_live(m: MemtableView, last: u64, rs: Seq<Record>)
    ensures
        recovery::replay(m, last, rs) == recovery::replay(m, last, live(rs, last)),
        recovery::max_seq(last, rs) == recovery::max_seq(last, live(rs, last)),
        last <= recovery::max_seq(last, rs),
    decreases rs.len(),
{
    if rs.len() > 0 {
        lemma_replay_live(m, last, rs.drop_last());
        if rs.last().0 > last {
            assert(live(rs, last).drop_last() =~= live(rs.drop_last(), last));
        }
    }
}

proof fn lemma_live_concat(a: Seq<Record>, b: Seq<Record>, last: u64)
    ensures
        live(a + b, last) == live(a, last) + live(b, last),
    decreases b.len(),
{
    if b.len() == 0 {
        assert(a + b =~= a);
        assert(live(a, last) + live(b, last) =~= live(a, last));
    } else {
        assert((a + b).drop_last() =~= a + b.drop_last());
        lemma_live_concat(a, b.drop_last(), last);
        assert(live(a + b, last) =~= live(a, last) + live(b, last));
    }
}

proof fn lemma_live_none(rs: Seq<Record>, last: u64, top: u64)
    requires
        last <= top,
        forall|i: int| 0 <= i < live(rs, last).len() ==> (#[trigger] live(rs, last)[i]).0 <= top,
    ensures
        live(rs, top) == Seq::<Record>::empty(),
    decreases rs.len(),
{
    if rs.len() > 0 {
        let d = rs.drop_last();
        let l = live(rs, last);
        assert forall|i: int| 0 <= i < live(d, last).len() implies (#[trigger] live(d, last)[i]).0
            <= top by {
            assert(l[i] == live(d, last)[i]);
        }
        lemma_live_none(d, last, top);
        if rs.last().0 > last {
            assert(l[l.len() - 1] == rs.last());
        }
    }
}

proof fn lemma_replay_log(last: u64, log: Seq<Logged>)
    requires
        forall|i: int|
            0 <= i < log.len() ==> (#[trigger] log[i]).0 > last && batch::batch_fits(log[i].1),
    ensures
        recovery::replay(MemtableView::fresh(), last, as_records(log)) == Ok::<
            MemtableView,
            ErrorView,
        >(replayed(log)),
    decreases log.len(),
{
    if log.len() > 0 {
        assert(log.last() == log[log.len() - 1]);
        let d = log.drop_last();
        assert forall|i: int| 0 <= i < d.len() implies (#[trigger] d[i]).0 > last
            && batch::batch_fits(d[i].1) by {
            assert(d[i] == log[i]);
        }
        lemma_replay_log(last, d);
        assert(as_records(log).drop_last() =~= as_records(d));
        batch::law_batch_roundtrip(log.last().1);
    }
}

proof fn lemma_max_concat(start: u64, a: Seq<Record>, b: Seq<Record>)
    ensures
        recovery::max_seq(start, a + b) == recovery::max_seq(recovery::max_seq(start, a), b),
    decreases b.len(),
{
    if b.len() == 0 {
        assert(a + b =~= a);
    } else {
        assert((a + b).drop_last() =~= a + b.drop_last());
        lemma_max_concat(start, a, b.drop_last());
    }
}

proof fn lemma_max_flat(start: u64, segs: Seq<File>)
    ensures
        recovery::max_seq_all(start, segs) == recovery::max_seq(start, all_records(segs)),
    decreases segs.len(),
{
    if segs.len() > 0 {
        lemma_max_flat(start, segs.drop_last());
        lemma_max_concat(
            start,
            all_records(segs.drop_last()),
            recovery::segment_records(segs.last()),
        );
    }
}

proof fn lemma_max_bounds(start: u64, rs: Seq<Record>, top: u64)
    requires
        start <= top,
        forall|i: int| 0 <= i < rs.len() ==> (#[trigger] rs[i]).0 <= top,
    ensures
        start <= recovery::max_seq(start, rs) <= top,
        rs.len() > 0 ==> rs.last().0 <= recovery::max_seq(start, rs),
    decreases rs.len(),
{
    if rs.len() > 0 {
        assert(rs.last() == rs[rs.len() - 1]);
        lemma_max_bounds(start, rs.drop_last(), top);
    }
}

proof fn lemma_open_tables(d: DiskView, ts: Seq<TableView>)
    requires
        forall|i: int| 0 <= i < ts.len() ==> table_stored(d, #[trigger] ts[i]),
    ensures
        recovery::open_tables(d.tables, Seq::new(ts.len(), |i: int| ts[i].file_no)) == Ok::<
            Seq<TableView>,
            ErrorView,
        >(ts),
    decreases ts.len(),
{
    let nos = Seq::new(ts.len(), |i: int| ts[i].file_no);
    if ts.len() == 0 {
        assert(nos =~= Seq::<u64>::empty());
        assert(ts =~= Seq::<TableView>::empty());
    } else {
        let dts = ts.drop_last();
        assert forall|i: int| 0 <= i < dts.len() implies table_stored(d, #[trigger] dts[i]) by {
            assert(dts[i] == ts[i]);
        }
        lemma_open_tables(d, dts);
        assert(nos.drop_last() =~= Seq::new(dts.len(), |i: int| dts[i].file_no));
        assert(table_stored(d, ts[ts.len() - 1]));
        assert(dts.push(ts.last()) =~= ts);
    }
}

/// What batches make of a memtable counts what it holds.
proof fn lemma_replayed_sound(log: Seq<Logged>)
    ensures
        merged::mem_sound(replayed(log)),
    decreases log.len(),
{
    if log.len() > 0 {
        lemma_replayed_sound(log.drop_last());
        merged::lemma_mem_sound(replayed(log.drop_last()), log.last().0, log.last().1);
    }
}

/// Mutations on top of something are mutations of the whole.
proof fn lemma_replayed_both(a: Seq<Logged>, b: Seq<Logged>)
    ensures
        replayed(a + b).tables == replayed(b).tables.over(replayed(a).tables),
    decreases b.len(),
{
    let t = replayed(a).tables;
    if b.len() == 0 {
        assert(a + b =~= a);
        assert(Tables::empty().over(t) =~= t);
    } else {
        assert((a + b).drop_last() =~= a + b.drop_last());
        lemma_replayed_both(a, b.drop_last());
        merged::lemma_apply_over(replayed(b.drop_last()).tables, t, b.last().1);
    }
}

/// Memtables one over the other hold what all of their batches make of one.
proof fn lemma_stacked(ms: Seq<MemtableView>, parts: Seq<Seq<Logged>>, base: Tables)
    requires
        held(ms, parts),
    ensures
        merged::stacked(ms, base) == replayed(flat(parts)).tables.over(base),
    decreases ms.len(),
{
    if ms.len() == 0 {
        assert(Tables::empty().over(base) =~= base);
    } else {
        let (a, b) = (flat(parts.drop_last()), parts.last());
        assert forall|i: int| 0 <= i < ms.len() - 1 implies (#[trigger] ms.drop_last()[i]) == replayed(
            parts.drop_last()[i],
        ) by {
            assert(ms[i] == replayed(parts[i]));
        }
        lemma_stacked(ms.drop_last(), parts.drop_last(), base);
        lemma_replayed_both(a, b);
        assert(ms[ms.len() - 1] == replayed(b));
        let (x, y) = (replayed(b).tables, replayed(a).tables);
        assert(x.over(y.over(base)) =~= x.over(y).over(base));
    }
}

/// What an engine holds is what its files do.
proof fn lemma_held(v: EngineView, h: History)
    requires
        held(memtables(v), h.parts),
        tables_ahead(v, h),
    ensures
        v.merged() == replayed(h.log()).tables.over(merged::merged_tables(h.tables)),
{
    let ms = memtables(v);
    let base = merged::merged_tables(h.tables);
    assert(ms.drop_last() =~= v.immutable);
    if merged::merged_tables(v.tables) != base {
        assert(ms[0] == v.immutable[0]);
        merged::lemma_stack_again(ms, base);
    }
    lemma_stacked(ms, h.parts, base);
}

/// What files open as.
proof fn lemma_opened(opts: Options, d: DiskView, h: History, top: u64)
    requires
        stored(d, h),
        climbing(h.log(), h.last, top),
    ensures
        recovery::opened(opts, d) matches Ok(w) && {
            &&& w.active == replayed(h.log())
            &&& w.tables == h.tables
            &&& w.immutable.len() == 0
            &&& w.seq == h.top()
            &&& w.last_flushed == h.last
            &&& w.opts == opts
            &&& w.sound()
            &&& w.merged() == replayed(h.log()).tables.over(merged::merged_tables(h.tables))
        },
{
    let last = h.last;
    let log = h.log();
    let rs = as_records(log);
    let all = all_records(d.segments);
    lemma_open_tables(d, h.tables);
    lemma_replay_flat(d.segments, last);
    lemma_replay_live(MemtableView::fresh(), last, all);
    lemma_replay_log(last, log);
    lemma_max_flat(last, d.segments);
    assert forall|i: int| 0 <= i < rs.len() implies (#[trigger] rs[i]).0 <= h.top() by {
        if i < log.len() - 1 {
            assert(log[i].0 < log[log.len() - 1].0);
        }
    }
    if log.len() > 0 {
        assert(last < log[log.len() - 1].0);
    }
    lemma_max_bounds(last, rs, h.top());
    lemma_replayed_sound(log);
    let w = recovery::opened(opts, d)->Ok_0;
    assert(w.tables =~= h.tables);
}

/// Opening files that hold an engine's state gives that state back: the same answer to every read,
/// and the highest sequence number that is in them. No write that is in the log or in a table is
/// lost, and none is there twice, whatever flushes have failed.
pub proof fn law_recovery(v: EngineView, d: DiskView, h: History)
    requires
        durable(v, d, h),
    ensures
        recovery::opened(v.opts, d) matches Ok(w) && {
            &&& w.sound()
            &&& w.immutable.len() == 0
            &&& w.merged() == v.merged()
            &&& forall|cf: Cf, key: Seq<u8>| #[trigger] w.get(cf, key) == v.get(cf, key)
            &&& w.seq == h.top()
            &&& w.seq <= v.seq
            &&& w.opts == v.opts
        },
{
    reveal(durable);
    lemma_opened(v.opts, d, h, v.seq);
    lemma_held(v, h);
    if h.log().len() > 0 {
        assert(h.log()[h.log().len() - 1].0 <= v.seq);
    }
    let w = recovery::opened(v.opts, d)->Ok_0;
    assert forall|cf: Cf, key: Seq<u8>| #[trigger] w.get(cf, key) == v.get(cf, key) by {
        merged::law_get(w, cf, key);
        merged::law_get(v, cf, key);
    }
}

/// The segments after one more record.
proof fn lemma_append_records(segs: Seq<File>, n: u64, tail: Seq<Record>, r: Record)
    requires
        segs.len() > 0,
        segs.last() == (n, wal::log_bytes(tail)),
        forall|i: int| 0 <= i < tail.len() ==> wal::record_fits(#[trigger] tail[i]),
        wal::record_fits(r),
    ensures
        ({
            let e = EffectView::Append(n, wal::frame(r));
            let after = recovery::put_file(segs, n, wal::log_bytes(tail) + wal::frame(r));
            &&& recovery::file_of(segs, n) == Some(wal::log_bytes(tail))
            &&& after.len() == segs.len()
            &&& after.last() == (n, wal::log_bytes(tail.push(r)))
            &&& ascending(segs) ==> ascending(after)
            &&& all_records(after) == all_records(segs).push(r)
        }),
{
    let after = recovery::put_file(segs, n, wal::log_bytes(tail) + wal::frame(r));
    let next = tail.push(r);
    assert(next.drop_last() =~= tail);
    assert(wal::log_bytes(next) == wal::log_bytes(tail) + wal::frame(r));
    assert(after.drop_last() =~= segs.drop_last());
    assert forall|i: int| 0 <= i < next.len() implies wal::record_fits(#[trigger] next[i]) by {
        if i < tail.len() {
            assert(next[i] == tail[i]);
        }
    }
    wal::law_log_roundtrip(tail);
    wal::law_log_roundtrip(next);
    assert(all_records(after) =~= all_records(segs).push(r));
}

/// A state that was reached from another, with the changes on disk since then performed: the files
/// hold it.
#[verifier::opaque]
pub open spec fn follows(v: EngineView, d: DiskView, s: EngineView, h: History) -> bool {
    &&& v.effects.len() <= s.effects.len()
    &&& s.effects.take(v.effects.len() as int) == v.effects
    &&& in_sync(s, d.perform_all(s.effects.skip(v.effects.len() as int)), h)
    &&& s.opts == v.opts
}

/// Every state follows from itself.
proof fn lemma_follows_start(v: EngineView, d: DiskView, h: History)
    requires
        in_sync(v, d, h),
    ensures
        follows(v, d, v, h),
{
    reveal(follows);
    assert(v.effects.take(v.effects.len() as int) =~= v.effects);
    assert(v.effects.skip(v.effects.len() as int) =~= Seq::<EffectView>::empty());
}

/// One more change on disk.
proof fn lemma_more(d: DiskView, v: EngineView, es: Seq<EffectView>, x: EffectView)
    requires
        v.effects.len() <= es.len(),
        es.take(v.effects.len() as int) == v.effects,
    ensures
        ({
            let n = v.effects.len() as int;
            &&& d.perform_all(es.push(x).skip(n)) == d.perform_all(es.skip(n)).perform(x)
            &&& es.push(x).take(n) == v.effects
        }),
{
    let n = v.effects.len() as int;
    assert(es.push(x).take(n) =~= es.take(n));
    assert(es.push(x).skip(n).drop_last() =~= es.skip(n));
    assert(es.push(x).skip(n).last() == x);
}

/// Batches of one memtable more.
proof fn lemma_flat_push(parts: Seq<Seq<Logged>>, x: Logged)
    requires
        parts.len() > 0,
    ensures
        flat(parts.drop_last().push(parts.last().push(x))) == flat(parts).push(x),
        flat(parts.push(Seq::empty())) == flat(parts),
{
    let p = parts.drop_last().push(parts.last().push(x));
    assert(p.drop_last() =~= parts.drop_last());
    assert(flat(p) =~= flat(parts).push(x));
    let q = parts.push(Seq::<Logged>::empty());
    assert(q.drop_last() =~= parts);
    assert(flat(q) =~= flat(parts));
}

/// The batches of the oldest memtable come first.
proof fn lemma_flat_first(parts: Seq<Seq<Logged>>)
    requires
        parts.len() > 0,
    ensures
        flat(parts) == parts[0] + flat(parts.skip(1)),
    decreases parts.len(),
{
    if parts.len() == 1 {
        assert(parts.drop_last() =~= Seq::<Seq<Logged>>::empty());
        assert(parts.skip(1) =~= Seq::<Seq<Logged>>::empty());
        assert(flat(parts) =~= parts[0] + flat(parts.skip(1)));
    } else {
        lemma_flat_first(parts.drop_last());
        assert(parts.skip(1).drop_last() =~= parts.drop_last().skip(1));
        assert(parts.skip(1).last() == parts.last());
        assert(flat(parts) =~= parts[0] + flat(parts.skip(1)));
    }
}

/// A sequence number that is taken and not used changes nothing.
proof fn lemma_sync_number(v: EngineView, d: DiskView, h: History)
    requires
        in_sync(v, d, h),
        v.seq < u64::MAX,
    ensures
        in_sync(v.numbered(), d, h),
        v.numbered().merged() == v.merged(),
{
    reveal(durable);
    let w = v.numbered();
    assert(memtables(w) =~= memtables(v));
    assert(climbing(h.log(), h.last, w.seq)) by {
        assert forall|i: int| 0 <= i < h.log().len() implies h.last < (#[trigger] h.log()[i]).0
            <= w.seq && batch::batch_fits(h.log()[i].1) by {
            assert(h.log()[i].0 <= v.seq);
        }
    }
}

/// A batch that is appended to the log is part of the state.
#[verifier::spinoff_prover]
#[verifier::rlimit(60)]
proof fn lemma_sync_append(v: EngineView, d: DiskView, h: History, ops: Seq<OpView>) -> (h2:
    History)
    requires
        in_sync(v, d, h),
        v.seq < u64::MAX,
        batch::batch_fits(ops),
        wal::record_fits((db::succ(v.seq), batch::batch_bytes(ops))),
    ensures
        in_sync(
            v.numbered().logged(ops),
            d.perform(
                EffectView::Append(
                    v.segment,
                    wal::frame((db::succ(v.seq), batch::batch_bytes(ops))),
                ),
            ),
            h2,
        ),
        h2.top() == db::succ(v.seq),
{
    reveal(durable);
    let n = v.numbered();
    let x = (n.seq, ops);
    let r = (n.seq, batch::batch_bytes(ops));
    let parts = h.parts.drop_last().push(h.parts.last().push(x));
    let h2 = History { parts, tail: h.tail.push(r), ..h };
    let d2 = d.perform(EffectView::Append(v.segment, wal::frame(r)));
    let w = n.logged(ops);
    lemma_append_records(d.segments, v.segment, h.tail, r);
    merged::law_logged(n, ops);
    lemma_flat_push(h.parts, x);
    let (log, more) = (h.log(), h2.log());
    assert(as_records(more) =~= as_records(log).push(r));
    assert(all_records(d.segments).push(r).drop_last() =~= all_records(d.segments));
    assert(live(all_records(d2.segments), h.last) =~= as_records(more));
    assert(h2.manifest() == h.manifest());
    assert(stored(d2, h2)) by {
        assert forall|i: int| 0 <= i < h.tables.len() implies table_stored(
            d2,
            #[trigger] h.tables[i],
        ) && merged::intact(h.tables[i]) by {
            assert(table_stored(d, h.tables[i]));
        }
    }
    assert(climbing(more, h.last, w.seq)) by {
        assert forall|i: int| 0 <= i < more.len() implies h.last < (#[trigger] more[i]).0 <= w.seq
            && batch::batch_fits(more[i].1) by {
            if i < log.len() {
                assert(more[i] == log[i]);
            }
        }
        assert forall|i: int, j: int| 0 <= i < j < more.len() implies (#[trigger] more[i]).0 < (
        #[trigger] more[j]).0 by {
            assert(more[i] == log[i]);
            if j < log.len() {
                assert(more[j] == log[j]);
            }
        }
    }
    assert(held(memtables(w), parts)) by {
        let ms = memtables(v);
        assert(ms[ms.len() - 1] == replayed(h.parts.last()));
        assert(h.parts.last().push(x).drop_last() =~= h.parts.last());
        assert forall|i: int| 0 <= i < memtables(w).len() implies (#[trigger] memtables(w)[i])
            == replayed(parts[i]) by {
            if i < v.immutable.len() {
                assert(memtables(w)[i] == ms[i]);
            }
        }
    }
    assert forall|i: int| 0 <= i < w.tables.len() implies table_stored(d2, #[trigger] w.tables[i])
        && w.tables[i].file_no < w.next_sst by {
        assert(table_stored(d, v.tables[i]));
    }
    assert forall|i: int| 0 <= i < h2.tail.len() implies wal::record_fits(
        #[trigger] h2.tail[i],
    ) by {
        if i < h.tail.len() {
            assert(h2.tail[i] == h.tail[i]);
        }
    }
    h2
}

/// The active memtable is frozen.
proof fn lemma_sync_frozen(v: EngineView, d: DiskView, h: History) -> (h2: History)
    requires
        in_sync(v, d, h),
        v.next_seg < u64::MAX,
    ensures
        in_sync(v.frozen(), d, h2),
        h2.top() == h.top(),
        v.frozen().merged() == v.merged(),
{
    reveal(durable);
    let w = v.frozen();
    let h2 = History { parts: h.parts.push(Seq::empty()), ..h };
    merged::lemma_frozen(v);
    lemma_flat_push(h.parts, arbitrary());
    assert(h2.manifest() == h.manifest());
    assert forall|i: int| 0 <= i < memtables(w).len() implies (#[trigger] memtables(w)[i])
        == replayed(h2.parts[i]) by {
        if i < memtables(v).len() {
            assert(memtables(w)[i] == memtables(v)[i]);
        }
    }
    if v.immutable.len() > 0 {
        assert(w.immutable[0] == v.immutable[0]);
    }
    h2
}

/// A new segment takes the log.
proof fn lemma_sync_segment(v: EngineView, d: DiskView, h: History, n: u64) -> (h2: History)
    requires
        in_sync(v, d, h),
        v.segment < n < v.next_seg,
    ensures
        in_sync(v.rotated(n), d.perform(EffectView::CreateSegment(n)), h2),
        h2.top() == h.top(),
        v.rotated(n).merged() == v.merged(),
{
    reveal(durable);
    let w = v.rotated(n);
    let d2 = d.perform(EffectView::CreateSegment(n));
    let h2 = History { tail: Seq::empty(), ..h };
    let f = (n, Seq::<u8>::empty());
    assert(d2.segments == d.segments.push(f));
    assert(d2.segments.drop_last() =~= d.segments);
    assert(recovery::segment_records(f) =~= Seq::<Record>::empty());
    assert(all_records(d2.segments) =~= all_records(d.segments));
    assert(h2.manifest() == h.manifest());
    assert(stored(d2, h2)) by {
        assert forall|i: int| 0 <= i < h.tables.len() implies table_stored(
            d2,
            #[trigger] h.tables[i],
        ) && merged::intact(h.tables[i]) by {
            assert(table_stored(d, h.tables[i]));
        }
        assert(ascending(d2.segments)) by {
            let last = d.segments.len() - 1;
            assert forall|i: int, j: int| 0 <= i < j < d2.segments.len() implies (
            #[trigger] d2.segments[i]).0 < (#[trigger] d2.segments[j]).0 by {
                assert(d2.segments[i] == d.segments[i]);
                if j <= last {
                    assert(d2.segments[j] == d.segments[j]);
                } else if i < last {
                    assert(d.segments[i].0 < d.segments[last].0);
                }
            }
        }
    }
    assert(memtables(w) =~= memtables(v));
    assert(wal::log_bytes(h2.tail) =~= Seq::<u8>::empty());
    assert forall|i: int| 0 <= i < w.tables.len() implies table_stored(d2, #[trigger] w.tables[i])
        && w.tables[i].file_no < w.next_sst by {
        assert(table_stored(d, v.tables[i]));
    }
    h2
}

proof fn lemma_other_file(fs: Seq<File>, n: u64, data: Seq<u8>, m: u64)
    ensures
        m != n ==> recovery::file_of(recovery::put_file(fs, n, data), m) == recovery::file_of(
            fs,
            m,
        ),
        recovery::file_of(recovery::put_file(fs, n, data), n) == Some(data),
    decreases fs.len(),
{
    let p = recovery::put_file(fs, n, data);
    if fs.len() == 0 || fs.last().0 < n {
        assert(p.drop_last() =~= fs);
    } else if fs.last().0 == n {
        assert(p.drop_last() =~= fs.drop_last());
    } else {
        lemma_other_file(fs.drop_last(), n, data, m);
        assert(p.drop_last() =~= recovery::put_file(fs.drop_last(), n, data));
    }
}

/// A table number that is taken and not used changes nothing.
proof fn lemma_sync_unwritten(v: EngineView, d: DiskView, h: History)
    requires
        in_sync(v, d, h),
        v.next_sst < u64::MAX,
    ensures
        in_sync(v.table_numbered(), d, h),
        v.table_numbered().merged() == v.merged(),
{
    reveal(durable);
    let w = v.table_numbered();
    assert(memtables(w) =~= memtables(v));
}

/// Whether the live tables hold what the stored ones do, and the oldest frozen memtable.
pub open spec fn copied(v: EngineView, h: History) -> bool {
    v.immutable.len() > 0 && merged::merged_tables(v.tables) == v.immutable[0].tables.over(
        merged::merged_tables(h.tables),
    )
}

/// A file with a new number leaves the others.
proof fn lemma_new_table(d: DiskView, h: History, ts: Seq<TableView>, n: u64, data: Seq<u8>)
    requires
        stored(d, h),
        forall|i: int| 0 <= i < h.tables.len() ==> (#[trigger] h.tables[i]).file_no < n,
        forall|i: int|
            0 <= i < ts.len() ==> table_stored(d, #[trigger] ts[i]) && ts[i].file_no < n,
    ensures
        ({
            let d2 = d.perform(EffectView::WriteTable(n, data));
            &&& stored(d2, h)
            &&& forall|i: int| 0 <= i < ts.len() ==> table_stored(d2, #[trigger] ts[i])
            &&& recovery::file_of(d2.tables, n) == Some(data)
            &&& d2.segments == d.segments
        }),
{
    let d2 = d.perform(EffectView::WriteTable(n, data));
    lemma_other_file(d.tables, n, data, n);
    assert forall|i: int| 0 <= i < h.tables.len() implies table_stored(d2, #[trigger] h.tables[i])
        && merged::intact(h.tables[i]) by {
        assert(table_stored(d, h.tables[i]));
        lemma_other_file(d.tables, n, data, h.tables[i].file_no);
    }
    assert forall|i: int| 0 <= i < ts.len() implies table_stored(d2, #[trigger] ts[i]) by {
        assert(table_stored(d, ts[i]));
        lemma_other_file(d.tables, n, data, ts[i].file_no);
    }
}

/// The table of the oldest frozen memtable is written and live. The manifest does not list it yet.
#[verifier::spinoff_prover]
#[verifier::rlimit(60)]
proof fn lemma_sync_table(v: EngineView, d: DiskView, h: History)
    requires
        in_sync(v, d, h),
        v.next_sst < u64::MAX,
        v.immutable.len() > 0,
        v.immutable[0].size > 0,
        table::table_fits(table::entries_of(v.immutable[0].tables)),
    ensures
        ({
            let w = v.flush_data(None).0;
            let x = EffectView::WriteTable(v.next_sst, v.table_image());
            &&& v.flush_data(None).1 is Ok
            &&& w.effects == v.effects.push(x)
            &&& in_sync(w, d.perform(x), h)
            &&& copied(w, h)
            &&& w.merged() == v.merged()
            &&& w.immutable == v.immutable
        }),
{
    reveal(durable);
    let w = v.flush_data(None).0;
    let data = v.table_image();
    let n = v.next_sst;
    let d2 = d.perform(EffectView::WriteTable(n, data));
    let t = merged::flushed_table(v);
    let base = merged::merged_tables(h.tables);
    let m = v.immutable[0].tables;
    merged::lemma_installed(v);
    lemma_new_table(d, h, v.tables, n, data);
    assert(memtables(w) =~= memtables(v));
    assert(m.over(m.over(base)) =~= m.over(base));
    assert(t.data == data && t.file_no == n);
    assert forall|i: int| 0 <= i < w.tables.len() implies table_stored(d2, #[trigger] w.tables[i])
        && w.tables[i].file_no < w.next_sst by {
        if i < v.tables.len() {
            assert(w.tables[i] == v.tables[i]);
            assert(table_stored(d2, v.tables[i]));
        }
    }
}

proof fn lemma_replayed_seq(log: Seq<Logged>, last: u64, top: u64)
    requires
        forall|i: int| 0 <= i < log.len() ==> last < (#[trigger] log[i]).0 <= top,
    ensures
        log.len() == 0 ==> replayed(log).max_seq == 0,
        log.len() > 0 ==> log.last().0 <= replayed(log).max_seq <= top,
        log.len() == 0 ==> replayed(log).size == 0,
    decreases log.len(),
{
    if log.len() > 0 {
        assert(log.last() == log[log.len() - 1]);
        lemma_replayed_seq(log.drop_last(), last, top);
    }
}

/// A memtable that holds nothing is in the live tables.
proof fn lemma_sync_nothing(v: EngineView, d: DiskView, h: History)
    requires
        in_sync(v, d, h),
        v.immutable.len() > 0,
        v.immutable[0].size == 0,
    ensures
        copied(v, h),
{
    reveal(durable);
    let base = merged::merged_tables(h.tables);
    assert(merged::mem_sound(v.immutable[0]));
    assert(Tables::empty().over(base) =~= base);
}

/// The watermark counts the oldest frozen memtable.
proof fn lemma_sync_advanced(v: EngineView, d: DiskView, h: History)
    requires
        in_sync(v, d, h),
        copied(v, h),
    ensures
        in_sync(v.advanced(), d, h),
        copied(v.advanced(), h),
        v.advanced().last_flushed == db::larger(h.last, v.immutable[0].max_seq),
        v.advanced().merged() == v.merged(),
{
    reveal(durable);
    let w = v.advanced();
    assert(memtables(w) =~= memtables(v));
}

/// The records above a higher watermark.
proof fn lemma_live_again(rs: Seq<Record>, last: u64, next: u64)
    requires
        last <= next,
    ensures
        live(live(rs, last), next) == live(rs, next),
    decreases rs.len(),
{
    if rs.len() > 0 {
        lemma_live_again(rs.drop_last(), last, next);
        if rs.last().0 > last {
            assert(live(rs, last).drop_last() =~= live(rs.drop_last(), last));
        }
    }
}

/// Records that are all above a watermark.
proof fn lemma_live_all(rs: Seq<Record>, last: u64)
    requires
        forall|i: int| 0 <= i < rs.len() ==> (#[trigger] rs[i]).0 > last,
    ensures
        live(rs, last) == rs,
    decreases rs.len(),
{
    if rs.len() > 0 {
        let d = rs.drop_last();
        assert forall|i: int| 0 <= i < d.len() implies (#[trigger] d[i]).0 > last by {
            assert(d[i] == rs[i]);
        }
        lemma_live_all(d, last);
        assert(rs[rs.len() - 1].0 > last);
        assert(d.push(rs.last()) =~= rs);
    } else {
        assert(rs =~= Seq::<Record>::empty());
    }
}

/// The batches above the watermark once the oldest memtable is counted.
proof fn lemma_live_rest(h: History, top: u64)
    requires
        h.parts.len() > 0,
        climbing(h.log(), h.last, top),
    ensures
        ({
            let next = db::larger(h.last, replayed(h.parts[0]).max_seq);
            let rest = flat(h.parts.skip(1));
            &&& live(as_records(h.log()), next) == as_records(rest)
            &&& climbing(rest, next, top)
            &&& h.last <= next
            &&& next <= top || next == h.last
            &&& (rest.len() == 0 ==> next == h.top())
            &&& (rest.len() > 0 ==> rest.last().0 == h.top())
        }),
{
    let first = h.parts[0];
    let rest = flat(h.parts.skip(1));
    let log = h.log();
    let next = db::larger(h.last, replayed(first).max_seq);
    lemma_flat_first(h.parts);
    let n = first.len() as int;
    assert forall|i: int| 0 <= i < first.len() implies h.last < (#[trigger] first[i]).0 <= top by {
        assert(log[i] == first[i]);
    }
    assert forall|i: int, j: int| 0 <= i < j < first.len() implies (#[trigger] first[i]).0 < (
    #[trigger] first[j]).0 by {
        assert(log[i] == first[i] && log[j] == first[j]);
    }
    lemma_replayed_seq(first, h.last, top);
    lemma_replayed_climbing(first, h.last, top);
    let (a, b) = (as_records(first), as_records(rest));
    assert(as_records(log) =~= a + b);
    assert forall|i: int| 0 <= i < rest.len() implies next < (#[trigger] rest[i]).0 <= top
        && batch::batch_fits(rest[i].1) by {
        assert(log[n + i] == rest[i]);
        if n > 0 {
            assert(log[n - 1] == first[n - 1]);
            assert(log[n - 1].0 < log[n + i].0);
        }
    }
    assert forall|i: int, j: int| 0 <= i < j < rest.len() implies (#[trigger] rest[i]).0 < (
    #[trigger] rest[j]).0 by {
        assert(log[n + i] == rest[i] && log[n + j] == rest[j]);
    }
    lemma_live_concat(a, b, next);
    assert forall|i: int| 0 <= i < b.len() implies (#[trigger] b[i]).0 > next by {
        assert(rest[i].0 > next);
    }
    lemma_live_all(b, next);
    assert forall|i: int| 0 <= i < a.len() implies (#[trigger] a[i]).0 > h.last by {
        assert(first[i].0 > h.last);
    }
    lemma_live_all(a, h.last);
    assert forall|i: int| 0 <= i < live(a, h.last).len() implies (#[trigger] live(a, h.last)[i]).0
        <= next by {
        assert(log[i] == first[i]);
        if i < n - 1 {
            assert(log[n - 1] == first[n - 1]);
            assert(log[i].0 < log[n - 1].0);
        }
    }
    lemma_live_none(a, h.last, next);
    assert(live(a, next) + b =~= b);
    if rest.len() > 0 {
        assert(log.last() == rest.last());
    } else {
        assert(log =~= first);
    }
}

/// The highest sequence number of a memtable is that of its last batch.
proof fn lemma_replayed_climbing(log: Seq<Logged>, last: u64, top: u64)
    requires
        forall|i: int| 0 <= i < log.len() ==> last < (#[trigger] log[i]).0 <= top,
        forall|i: int, j: int|
            0 <= i < j < log.len() ==> (#[trigger] log[i]).0 < (#[trigger] log[j]).0,
    ensures
        log.len() > 0 ==> replayed(log).max_seq == log.last().0,
    decreases log.len(),
{
    if log.len() > 1 {
        let d = log.drop_last();
        assert forall|i: int| 0 <= i < d.len() implies last < (#[trigger] d[i]).0 <= top by {
            assert(d[i] == log[i]);
        }
        assert forall|i: int, j: int| 0 <= i < j < d.len() implies (#[trigger] d[i]).0 < (
        #[trigger] d[j]).0 by {
            assert(d[i] == log[i] && d[j] == log[j]);
        }
        lemma_replayed_climbing(d, last, top);
        assert(log[log.len() - 2].0 < log[log.len() - 1].0);
    } else if log.len() == 1 {
        assert(replayed(log.drop_last()) == MemtableView::fresh());
    }
}

/// The manifest is replaced and the oldest frozen memtable forgotten: its batches are in a table.
#[verifier::spinoff_prover]
#[verifier::rlimit(60)]
proof fn lemma_sync_forgotten(v: EngineView, d: DiskView, h: History) -> (h2: History)
    requires
        in_sync(v, d, h),
        copied(v, h),
        v.last_flushed == db::larger(h.last, v.immutable[0].max_seq),
        v.tables.len() < 0x1_0000_0000,
    ensures
        in_sync(
            v.forgotten(),
            d.perform(EffectView::StoreManifest(manifest::manifest_bytes(v.manifest()))),
            h2,
        ),
        h2.top() == h.top(),
        v.forgotten().merged() == v.merged(),
{
    reveal(durable);
    let w = v.forgotten();
    let d2 = d.perform(EffectView::StoreManifest(manifest::manifest_bytes(v.manifest())));
    let h2 = History {
        last: v.last_flushed,
        tables: v.tables,
        parts: h.parts.skip(1),
        tail: h.tail,
    };
    let m = v.immutable[0].tables;
    let base = merged::merged_tables(h.tables);
    assert(memtables(v)[0] == v.immutable[0]);
    assert(m.over(m.over(base)) =~= m.over(base));
    merged::lemma_forgotten(v);
    manifest::law_manifest_roundtrip(v.manifest());
    assert(h2.manifest() =~= v.manifest());
    lemma_live_rest(h, v.seq);
    lemma_live_again(all_records(d.segments), h.last, h2.last);
    assert(stored(d2, h2)) by {
        assert forall|i: int| 0 <= i < h2.tables.len() implies table_stored(
            d2,
            #[trigger] h2.tables[i],
        ) && merged::intact(h2.tables[i]) by {
            assert(table_stored(d, v.tables[i]));
        }
    }
    assert forall|i: int| 0 <= i < memtables(w).len() implies (#[trigger] memtables(w)[i])
        == replayed(h2.parts[i]) by {
        assert(memtables(w)[i] == memtables(v)[i + 1]);
    }
    assert forall|i: int| 0 <= i < w.tables.len() implies table_stored(d2, #[trigger] w.tables[i])
        && w.tables[i].file_no < w.next_sst by {
        assert(table_stored(d, v.tables[i]));
    }
    h2
}

/// The steps that freeze a full memtable and flush the oldest frozen one: where each of them is
/// done or has failed, the files hold the state that it leaves.
#[verifier::spinoff_prover]
#[verifier::rlimit(60)]
proof fn lemma_settled_path(v: EngineView, d: DiskView, s: EngineView, h: History, io: GroupIoView) -> (r: (
    History,
    History,
    History,
))
    requires
        follows(v, d, s, h),
        s.full(),
        s.roomy(),
        s.next_seg < u64::MAX,
        s.next_sst < u64::MAX,
        s.tables.len() + 1 < 0x1_0000_0000,
    ensures
        ({
            let a = turned(s, io);
            let b = a.flush_data(io.table).0;
            let z = s.settled(io);
            &&& follows(v, d, a, r.0) && r.0.top() == h.top() && a.merged() == s.merged()
            &&& follows(v, d, b, r.1) && r.1.top() == h.top() && b.merged() == s.merged()
            &&& follows(v, d, z, r.2) && r.2.top() == h.top() && z.merged() == s.merged()
            &&& a.seq == s.seq && b.seq == s.seq && z.seq == s.seq
            &&& one_further(s.effects, a.effects)
            &&& one_further(a.effects, b.effects)
            &&& one_further(b.effects, z.effects)
        }),
{
    reveal(follows);
    let n = v.effects.len() as int;
    let d0 = d.perform_all(s.effects.skip(n));
    let f = s.frozen();
    let h1 = lemma_sync_frozen(s, d0, h);
    let a = turned(s, io);
    let ha = if io.segment is None {
        lemma_more(d, v, s.effects, EffectView::CreateSegment(s.next_seg));
        lemma_sync_segment(f, d0, h1, s.next_seg)
    } else {
        h1
    };
    assert(follows(v, d, a, ha));
    let da = d.perform_all(a.effects.skip(n));
    let b = a.flush_data(io.table).0;
    if a.immutable[0].size == 0 {
        lemma_sync_nothing(a, da, ha);
    } else if io.table is None {
        lemma_more(d, v, a.effects, EffectView::WriteTable(a.next_sst, a.table_image()));
        lemma_sync_table(a, da, ha);
    } else {
        lemma_sync_unwritten(a, da, ha);
    }
    assert(follows(v, d, b, ha));
    let z = s.settled(io);
    let db = d.perform_all(b.effects.skip(n));
    let hz = if a.flush_data(io.table).1 is Err {
        ha
    } else {
        lemma_sync_advanced(b, db, ha);
        if io.manifest is None {
            let c = b.advanced();
            lemma_more(
                d,
                v,
                b.effects,
                EffectView::StoreManifest(manifest::manifest_bytes(c.manifest())),
            );
            lemma_sync_forgotten(c, db, ha)
        } else {
            ha
        }
    };
    assert(follows(v, d, z, hz));
    (ha, ha, hz)
}

/// The state once the active memtable is frozen, and the log has moved if it could.
pub open spec fn turned(s: EngineView, io: GroupIoView) -> EngineView {
    if io.segment is None {
        s.frozen().rotated(s.next_seg)
    } else {
        s.frozen()
    }
}

/// Whether a list of changes is another, or that with one more.
spec fn one_further(a: Seq<EffectView>, b: Seq<EffectView>) -> bool {
    b == a || (b.len() == a.len() + 1 && b == a.push(b.last()))
}

/// The end of a group: the state that it leaves follows, and so does one for each part of its
/// changes.
#[verifier::spinoff_prover]
#[verifier::rlimit(60)]
proof fn lemma_settled_cut(
    v: EngineView,
    d: DiskView,
    s: EngineView,
    h: History,
    io: GroupIoView,
    k: int,
) -> (r: (EngineView, History, History))
    requires
        follows(v, d, s, h),
        s.full() ==> s.roomy(),
        s.next_seg < u64::MAX,
        s.next_sst < u64::MAX,
        s.tables.len() + 1 < 0x1_0000_0000,
        s.effects.len() <= k <= s.settled(io).effects.len(),
    ensures
        s.effects.len() <= s.settled(io).effects.len(),
        s.settled(io).effects.take(s.effects.len() as int) == s.effects,
        r.0.effects == s.settled(io).effects.take(k),
        follows(v, d, r.0, r.1),
        r.1.top() == h.top(),
        r.0.merged() == s.merged(),
        r.0.seq == s.seq,
        follows(v, d, s.settled(io), r.2),
        r.2.top() == h.top(),
        s.settled(io).merged() == s.merged(),
        s.settled(io).seq == s.seq,
{
    let z = s.settled(io);
    if !s.full() {
        assert(z.effects.take(k) =~= s.effects);
        (s, h, h)
    } else {
        let (ha, hb, hz) = lemma_settled_path(v, d, s, h, io);
        let a = turned(s, io);
        let b = a.flush_data(io.table).0;
        assert(z.effects.take(s.effects.len() as int) =~= s.effects);
        if k == s.effects.len() {
            (s, h, hz)
        } else if k == a.effects.len() {
            assert(z.effects.take(k) =~= a.effects);
            (a, ha, hz)
        } else if k == b.effects.len() {
            assert(z.effects.take(k) =~= b.effects);
            (b, hb, hz)
        } else {
            assert(z.effects.take(k) =~= z.effects);
            (z, hz, hz)
        }
    }
}

/// Settling only adds changes.
proof fn lemma_settled_longer(s: EngineView, io: GroupIoView)
    ensures
        s.effects.len() <= s.settled(io).effects.len(),
{
}

/// The requests of a group that ran.
pub open spec fn ran(v: EngineView, reqs: Seq<RequestView>, io: GroupIoView) -> EngineView {
    v.run_all(reqs, io).engine
}

/// Whether the batches of a group fit the log, and there are sequence numbers for them.
pub open spec fn logs_fit(v: EngineView, reqs: Seq<RequestView>, io: GroupIoView) -> bool
    decreases reqs.len(),
{
    reqs.len() > 0 ==> {
        let e = ran(v, reqs.drop_last(), io);
        &&& logs_fit(v, reqs.drop_last(), io)
        &&& e.seq < u64::MAX
        &&& e.decide(reqs.last()) matches DecisionView::Apply(ops) ==> batch::batch_fits(ops)
            && wal::record_fits((db::succ(e.seq), batch::batch_bytes(ops)))
    }
}

/// Whether the numbers that a group may take are not at the end of their range, and every length
/// that it writes fits its field.
pub open spec fn room_for(v: EngineView, reqs: Seq<RequestView>, io: GroupIoView) -> bool {
    &&& logs_fit(v, reqs, io)
    &&& v.next_seg < u64::MAX
    &&& v.next_sst < u64::MAX
    &&& v.tables.len() + 1 < 0x1_0000_0000
    &&& ran(v, reqs, io).full() ==> ran(v, reqs, io).roomy()
}

/// Whether every append of a group succeeds.
pub open spec fn appends(reqs: Seq<RequestView>, io: GroupIoView) -> bool {
    forall|i: int| 0 <= i < reqs.len() ==> #[trigger] io.append_at(i) is None
}

/// A front part of a group fits as well.
proof fn lemma_logs_fit(v: EngineView, reqs: Seq<RequestView>, io: GroupIoView, j: int)
    requires
        logs_fit(v, reqs, io),
        0 <= j <= reqs.len(),
    ensures
        logs_fit(v, reqs.take(j), io),
    decreases reqs.len(),
{
    if j < reqs.len() {
        lemma_logs_fit(v, reqs.drop_last(), io, j);
        assert(reqs.drop_last().take(j) =~= reqs.take(j));
    } else {
        assert(reqs.take(j) =~= reqs);
    }
}

/// The files hold what the requests of a group leave.
#[verifier::spinoff_prover]
#[verifier::rlimit(40)]
proof fn lemma_ran(v: EngineView, d: DiskView, h: History, reqs: Seq<RequestView>, io: GroupIoView) -> (h2:
    History)
    requires
        in_sync(v, d, h),
        logs_fit(v, reqs, io),
    ensures
        ({
            let e = ran(v, reqs, io);
            &&& follows(v, d, e, h2)
            &&& e.next_seg == v.next_seg
            &&& e.next_sst == v.next_sst
            &&& e.tables == v.tables
            &&& (v.seq == h.top() && appends(reqs, io) ==> e.seq == h2.top())
        }),
    decreases reqs.len(),
{
    reveal(follows);
    if reqs.len() == 0 {
        lemma_follows_start(v, d, h);
        h
    } else {
        let front = reqs.drop_last();
        let h1 = lemma_ran(v, d, h, front, io);
        let p = ran(v, front, io);
        let n = v.effects.len() as int;
        let d1 = d.perform_all(p.effects.skip(n));
        let i = reqs.len() - 1;
        assert(appends(reqs, io) ==> appends(front, io) && io.append_at(i) is None);
        match p.decide(reqs.last()) {
            DecisionView::Done(_) => h1,
            DecisionView::Apply(ops) => {
                if io.append_at(i) is None {
                    lemma_more(
                        d,
                        v,
                        p.effects,
                        EffectView::Append(
                            p.segment,
                            wal::frame((db::succ(p.seq), batch::batch_bytes(ops))),
                        ),
                    );
                    lemma_sync_append(p, d1, h1, ops)
                } else {
                    lemma_sync_number(p, d1, h1);
                    h1
                }
            },
        }
    }
}

/// A request adds one change at most to those of the requests in front of it.
proof fn lemma_ran_more(v: EngineView, reqs: Seq<RequestView>, io: GroupIoView)
    requires
        reqs.len() > 0,
    ensures
        one_further(ran(v, reqs.drop_last(), io).effects, ran(v, reqs, io).effects),
{
    let p = ran(v, reqs.drop_last(), io);
    let e = ran(v, reqs, io);
    assert(e == p.run_one(reqs.last(), io.append_at(reqs.len() - 1)).0);
    match p.decide(reqs.last()) {
        DecisionView::Done(_) => {},
        DecisionView::Apply(_) => {
            if io.append_at(reqs.len() - 1) is None {
                assert(e.effects == p.effects.push(e.effects.last()));
            }
        },
    }
}

/// Any part of the changes of a group's log is that of its first requests.
#[verifier::spinoff_prover]
#[verifier::rlimit(40)]
proof fn lemma_ran_cut(v: EngineView, reqs: Seq<RequestView>, io: GroupIoView, k: int) -> (j: int)
    requires
        v.effects.len() <= k <= ran(v, reqs, io).effects.len(),
    ensures
        0 <= j <= reqs.len(),
        ran(v, reqs.take(j), io).effects == ran(v, reqs, io).effects.take(k),
        k == ran(v, reqs, io).effects.len() ==> j == reqs.len(),
    decreases reqs.len(),
{
    let e = ran(v, reqs, io);
    if k == e.effects.len() {
        assert(reqs.take(reqs.len() as int) =~= reqs);
        assert(e.effects.take(k) =~= e.effects);
        reqs.len() as int
    } else {
        let front = reqs.drop_last();
        let p = ran(v, front, io);
        lemma_ran_more(v, reqs, io);
        let j = lemma_ran_cut(v, front, io, k);
        assert(front.take(j) =~= reqs.take(j));
        assert(e.effects.take(k) =~= p.effects.take(k));
        j
    }
}

/// A note of the log's flush is no change of the files.
proof fn lemma_follows_synced(v: EngineView, d: DiskView, s: EngineView, h: History)
    requires
        follows(v, d, s, h),
    ensures
        follows(v, d, s.synced(), h),
        s.synced().merged() == s.merged(),
{
    reveal(follows);
    reveal(durable);
    let w = s.synced();
    lemma_more(d, v, s.effects, EffectView::Sync(s.segment));
    assert(memtables(w) =~= memtables(s));
    assert(d.perform_all(s.effects.skip(v.effects.len() as int)).perform(EffectView::Sync(s.segment))
        == d.perform_all(s.effects.skip(v.effects.len() as int)));
}

/// A group: the state that it leaves follows, and so does one for each part of its changes, which
/// is that after the first `j` requests.
#[verifier::spinoff_prover]
#[verifier::rlimit(60)]
proof fn lemma_group(
    v: EngineView,
    d: DiskView,
    h: History,
    reqs: Seq<RequestView>,
    io: GroupIoView,
    k: int,
) -> (r: (int, EngineView, History, History))
    requires
        in_sync(v, d, h),
        room_for(v, reqs, io),
        v.effects.len() <= k <= v.process(reqs, io).0.effects.len(),
    ensures
        ({
            let z = v.process(reqs, io).0;
            let e = ran(v, reqs, io);
            &&& 0 <= r.0 <= reqs.len()
            &&& r.1.effects == z.effects.take(k)
            &&& follows(v, d, r.1, r.2)
            &&& r.1.merged() == ran(v, reqs.take(r.0), io).merged()
            &&& (k >= e.effects.len() ==> r.0 == reqs.len())
            &&& follows(v, d, z, r.3)
            &&& z.merged() == e.merged()
            &&& z.seq == e.seq
            &&& (v.seq == h.top() && appends(reqs, io) ==> z.seq == r.3.top())
        }),
{
    let z = v.process(reqs, io).0;
    let g = v.run_all(reqs, io);
    let e = g.engine;
    let m = e.effects.len() as int;
    let h1 = lemma_ran(v, d, h, reqs, io);
    assert(reqs.take(reqs.len() as int) =~= reqs);
    let (s, whole) = if g.appended && io.sync is Some {
        (e, false)
    } else if g.appended {
        lemma_follows_synced(v, d, e, h1);
        (e.synced(), true)
    } else {
        (e, true)
    };
    let q = s.effects.len() as int;
    let kk = if k < q {
        q
    } else {
        k
    };
    let (x, hx, hz) = if whole {
        lemma_settled_longer(s, io);
        lemma_settled_cut(v, d, s, h1, io, kk)
    } else {
        assert(z.effects.take(kk) =~= z.effects);
        (e, h1, h1)
    };
    assert(z.effects.take(m) =~= e.effects) by {
        if whole {
            assert(z.effects.take(q).take(m) =~= z.effects.take(m));
            assert(s.effects.take(m) =~= e.effects);
        }
    }
    if k >= q {
        (reqs.len() as int, x, hx, hz)
    } else {
        assert(k <= m);
        let j = lemma_ran_cut(v, reqs, io, k);
        lemma_logs_fit(v, reqs, io, j);
        let h2 = lemma_ran(v, d, h, reqs.take(j), io);
        assert(e.effects.take(k) =~= z.effects.take(k)) by {
            assert(z.effects.take(m).take(k) =~= z.effects.take(k));
        }
        (j, ran(v, reqs.take(j), io), h2, hz)
    }
}

/// What a group adds to the changes on disk.
pub open spec fn group_effects(v: EngineView, reqs: Seq<RequestView>, io: GroupIoView) -> Seq<
    EffectView,
> {
    v.process(reqs, io).0.effects.skip(v.effects.len() as int)
}

/// A group only adds changes.
proof fn lemma_group_longer(v: EngineView, d: DiskView, h: History, reqs: Seq<RequestView>, io: GroupIoView)
    requires
        in_sync(v, d, h),
        logs_fit(v, reqs, io),
    ensures
        v.effects.len() <= ran(v, reqs, io).effects.len() <= v.process(reqs, io).0.effects.len(),
{
    reveal(follows);
    let _ = lemma_ran(v, d, h, reqs, io);
}

/// A crash in the middle of a group keeps a front part of it, whichever file operations failed:
/// whatever part of the group's changes reached the disk, opening the files gives the state after
/// its first `j` requests; all of them, once the last record is in the log. So a crash loses no
/// write that was answered: answers are given when the log is flushed.
pub proof fn law_group_crash(
    v: EngineView,
    d: DiskView,
    h: History,
    reqs: Seq<RequestView>,
    io: GroupIoView,
    k: int,
) -> (j: int)
    requires
        in_sync(v, d, h),
        room_for(v, reqs, io),
        0 <= k <= group_effects(v, reqs, io).len(),
    ensures
        0 <= j <= reqs.len(),
        v.effects.len() + k >= ran(v, reqs, io).effects.len() ==> j == reqs.len(),
        recovery::opened(v.opts, d.perform_all(group_effects(v, reqs, io).take(k))) matches Ok(w)
            && {
            &&& w.sound()
            &&& w.immutable.len() == 0
            &&& w.merged() == ran(v, reqs.take(j), io).merged()
        },
{
    reveal(follows);
    let n = v.effects.len() as int;
    let z = v.process(reqs, io).0;
    lemma_group_longer(v, d, h, reqs, io);
    let (j, s, h2, _) = lemma_group(v, d, h, reqs, io, n + k);
    assert(group_effects(v, reqs, io).take(k) =~= s.effects.skip(n));
    law_recovery(s, d.perform_all(s.effects.skip(n)), h2);
    j
}

/// Once a group's changes are on disk, the files hold the new state, so the next group starts from
/// there.
pub proof fn law_group_keeps_sync(
    v: EngineView,
    d: DiskView,
    h: History,
    reqs: Seq<RequestView>,
    io: GroupIoView,
) -> (h2: History)
    requires
        in_sync(v, d, h),
        room_for(v, reqs, io),
    ensures
        in_sync(v.process(reqs, io).0, d.perform_all(group_effects(v, reqs, io)), h2),
        v.process(reqs, io).0.opts == v.opts,
        v.seq == h.top() && appends(reqs, io) ==> v.process(reqs, io).0.seq == h2.top(),
{
    reveal(follows);
    lemma_group_longer(v, d, h, reqs, io);
    let (_, _, _, h2) = lemma_group(v, d, h, reqs, io, v.process(reqs, io).0.effects.len() as int);
    h2
}

pub proof fn lemma_perform_concat(d: DiskView, a: Seq<EffectView>, b: Seq<EffectView>)
    ensures
        d.perform_all(a + b) == d.perform_all(a).perform_all(b),
    decreases b.len(),
{
    if b.len() == 0 {
        assert(a + b =~= a);
    } else {
        assert((a + b).drop_last() =~= a + b.drop_last());
        lemma_perform_concat(d, a, b.drop_last());
    }
}

/// Segments that differ only in a torn tail replay alike.
proof fn lemma_same_records(a: Seq<File>, b: Seq<File>, last: u64)
    requires
        a.len() == b.len(),
        forall|i: int|
            0 <= i < a.len() ==> (#[trigger] a[i]).0 == b[i].0 && recovery::segment_records(a[i])
                == recovery::segment_records(b[i]),
    ensures
        recovery::replay_all(a, last) == recovery::replay_all(b, last),
        recovery::max_seq_all(last, a) == recovery::max_seq_all(last, b),
        recovery::reclaimable(a, last) == recovery::reclaimable(b, last),
        recovery::file_nos(a) == recovery::file_nos(b),
    decreases a.len(),
{
    assert(recovery::file_nos(a) =~= recovery::file_nos(b));
    if a.len() > 0 {
        let (c, d) = (a.drop_last(), b.drop_last());
        assert forall|i: int| 0 <= i < c.len() implies (#[trigger] c[i]).0 == d[i].0
            && recovery::segment_records(c[i]) == recovery::segment_records(d[i]) by {
            assert(c[i] == a[i] && d[i] == b[i]);
        }
        lemma_same_records(c, d, last);
        assert(a[a.len() - 1] == a.last() && b[b.len() - 1] == b.last());
    }
}

/// A record that a crash cut short, however far it got, changes nothing: opening the files gives
/// exactly what it would give without it.
pub proof fn law_torn_append(v: EngineView, d: DiskView, h: History, r: Record, cut: int)
    requires
        in_sync(v, d, h),
        wal::record_fits(r),
        0 <= cut < wal::frame(r).len(),
    ensures
        recovery::opened(
            v.opts,
            d.perform(EffectView::Append(v.segment, wal::frame(r).take(cut))),
        ) == recovery::opened(v.opts, d),
{
    reveal(durable);
    let part = wal::frame(r).take(cut);
    let d2 = d.perform(EffectView::Append(v.segment, part));
    wal::law_torn_tail(h.tail, r, cut);
    wal::law_log_roundtrip(h.tail);
    assert(d2.segments == d.segments.drop_last().push(
        (v.segment, wal::log_bytes(h.tail) + part),
    ));
    assert forall|i: int| 0 <= i < d.segments.len() implies (#[trigger] d2.segments[i]).0
        == d.segments[i].0 && recovery::segment_records(d2.segments[i])
        == recovery::segment_records(d.segments[i]) by {
        if i == d.segments.len() - 1 {
            assert(d.segments[i] == d.segments.last());
        }
    }
    lemma_same_records(d2.segments, d.segments, h.last);
}

/// Whether every file with this number has no record above the watermark.
spec fn quiet(segs: Seq<File>, n: u64, last: u64) -> bool {
    forall|i: int|
        0 <= i < segs.len() && (#[trigger] segs[i]).0 == n ==> live(
            recovery::segment_records(segs[i]),
            last,
        ) == Seq::<Record>::empty()
}

proof fn lemma_drop_member(fs: Seq<File>, n: u64, i: int) -> (j: int)
    requires
        0 <= i < recovery::drop_file(fs, n).len(),
    ensures
        0 <= j < fs.len(),
        fs[j] == recovery::drop_file(fs, n)[i],
    decreases fs.len(),
{
    if fs.last().0 == n {
        lemma_drop_member(fs.drop_last(), n, i)
    } else if i == recovery::drop_file(fs, n).len() - 1 {
        fs.len() - 1
    } else {
        lemma_drop_member(fs.drop_last(), n, i)
    }
}

proof fn lemma_drop_ascending(fs: Seq<File>, n: u64)
    requires
        ascending(fs),
    ensures
        ascending(recovery::drop_file(fs, n)),
    decreases fs.len(),
{
    if fs.len() > 0 {
        let d = fs.drop_last();
        assert(ascending(d)) by {
            assert forall|i: int, j: int| 0 <= i < j < d.len() implies (#[trigger] d[i]).0 < (
            #[trigger] d[j]).0 by {
                assert(fs[i].0 < fs[j].0);
            }
        }
        lemma_drop_ascending(d, n);
        if fs.last().0 != n {
            let r = recovery::drop_file(fs, n);
            assert forall|i: int, j: int| 0 <= i < j < r.len() implies (#[trigger] r[i]).0 < (
            #[trigger] r[j]).0 by {
                if j == r.len() - 1 {
                    let x = lemma_drop_member(d, n, i);
                    assert(fs[x].0 < fs[fs.len() - 1].0);
                }
            }
        }
    }
}

proof fn lemma_drop_quiet(segs: Seq<File>, n: u64, last: u64)
    requires
        quiet(segs, n, last),
    ensures
        live(all_records(recovery::drop_file(segs, n)), last) == live(all_records(segs), last),
    decreases segs.len(),
{
    if segs.len() > 0 {
        let d = segs.drop_last();
        assert(quiet(d, n, last)) by {
            assert forall|i: int| 0 <= i < d.len() && (#[trigger] d[i]).0 == n implies live(
                recovery::segment_records(d[i]),
                last,
            ) == Seq::<Record>::empty() by {
                assert(segs[i] == d[i]);
            }
        }
        lemma_drop_quiet(d, n, last);
        lemma_live_concat(all_records(d), recovery::segment_records(segs.last()), last);
        assert(segs.last() == segs[segs.len() - 1]);
        if segs.last().0 == n {
            assert(live(all_records(segs), last) =~= live(all_records(d), last));
        } else {
            let r = recovery::drop_file(segs, n);
            assert(r.drop_last() =~= recovery::drop_file(d, n));
            lemma_live_concat(
                all_records(recovery::drop_file(d, n)),
                recovery::segment_records(segs.last()),
                last,
            );
        }
    }
}

proof fn lemma_drop_other(fs: Seq<File>, n: u64, m: u64)
    requires
        m != n,
    ensures
        recovery::file_of(recovery::drop_file(fs, n), m) == recovery::file_of(fs, m),
    decreases fs.len(),
{
    if fs.len() > 0 {
        lemma_drop_other(fs.drop_last(), n, m);
        if fs.last().0 != n {
            assert(recovery::drop_file(fs, n).drop_last() =~= recovery::drop_file(
                fs.drop_last(),
                n,
            ));
        }
    }
}

/// Whether a change removes a file that the state does not need: a segment that is quiet and not
/// the last one, or a table that is not live.
spec fn harmless(e: EffectView, segs: Seq<File>, last: u64, nos: Seq<u64>) -> bool {
    match e {
        EffectView::RemoveSegment(n) => segs.len() > 0 && n != segs.last().0 && quiet(
            segs,
            n,
            last,
        ),
        EffectView::RemoveTable(n) => !nos.contains(n),
        _ => false,
    }
}

proof fn lemma_harmless_step(e: EffectView, x: EffectView, segs: Seq<File>, last: u64, nos: Seq<u64>)
    requires
        harmless(e, segs, last, nos),
        x matches EffectView::RemoveSegment(m) ==> segs.len() > 0 && m != segs.last().0,
    ensures
        x matches EffectView::RemoveSegment(m) ==> harmless(
            e,
            recovery::drop_file(segs, m),
            last,
            nos,
        ) && recovery::drop_file(segs, m).last() == segs.last() && recovery::drop_file(
            segs,
            m,
        ).len() > 0,
{
    if let EffectView::RemoveSegment(m) = x {
        let r = recovery::drop_file(segs, m);
        if let EffectView::RemoveSegment(n) = e {
            assert forall|i: int| 0 <= i < r.len() && (#[trigger] r[i]).0 == n implies live(
                recovery::segment_records(r[i]),
                last,
            ) == Seq::<Record>::empty() by {
                let j = lemma_drop_member(segs, m, i);
                assert(segs[j].0 == n);
            }
        }
    }
}

/// Removing files that the state does not need keeps the files in step with it.
#[verifier::spinoff_prover]
#[verifier::rlimit(60)]
proof fn lemma_sync_removed(v: EngineView, d: DiskView, h: History, es: Seq<EffectView>)
    requires
        in_sync(v, d, h),
        v.tables == h.tables,
        forall|i: int|
            0 <= i < es.len() ==> harmless(
                #[trigger] es[i],
                d.segments,
                h.last,
                h.manifest().sstables,
            ),
    ensures
        in_sync(v, d.perform_all(es), h),
    decreases es.len(),
{
    reveal(durable);
    if es.len() > 0 {
        // The first removal, then the rest.
        let x = es[0];
        let rest = es.skip(1);
        let d1 = d.perform(x);
        let last = h.last;
        let nos = h.manifest().sstables;
        assert(harmless(x, d.segments, last, nos));
        match x {
            EffectView::RemoveSegment(n) => {
                lemma_drop_quiet(d.segments, n, last);
                lemma_drop_ascending(d.segments, n);
            },
            _ => {},
        }
        assert forall|i: int| 0 <= i < v.tables.len() implies table_stored(
            d1,
            #[trigger] v.tables[i],
        ) && v.tables[i].file_no < v.next_sst by {
            assert(table_stored(d, v.tables[i]));
            assert(nos[i] == v.tables[i].file_no);
            if let EffectView::RemoveTable(n) = x {
                lemma_drop_other(d.tables, n, v.tables[i].file_no);
            }
        }
        assert(stored(d1, h)) by {
            assert forall|i: int| 0 <= i < h.tables.len() implies table_stored(
                d1,
                #[trigger] h.tables[i],
            ) && merged::intact(h.tables[i]) by {
                assert(table_stored(d1, v.tables[i]));
            }
        }
        assert(in_sync(v, d1, h));
        assert forall|i: int| 0 <= i < rest.len() implies harmless(
            #[trigger] rest[i],
            d1.segments,
            last,
            nos,
        ) by {
            assert(harmless(es[i + 1], d.segments, last, nos));
            lemma_harmless_step(es[i + 1], x, d.segments, last, nos);
        }
        lemma_sync_removed(v, d1, h, rest);
        assert(es =~= seq![x] + rest);
        lemma_perform_concat(d, seq![x], rest);
        assert(seq![x].drop_last() =~= Seq::<EffectView>::empty());
        assert(d.perform_all(Seq::<EffectView>::empty()) == d);
        assert(d.perform_all(seq![x]) == d.perform(x));
    } else {
        assert(es =~= Seq::<EffectView>::empty());
    }
}

proof fn lemma_not_live(rs: Seq<Record>, last: u64)
    requires
        !recovery::has_live(rs, last),
    ensures
        live(rs, last) == Seq::<Record>::empty(),
    decreases rs.len(),
{
    if rs.len() > 0 {
        assert(rs[rs.len() - 1].0 <= last);
        assert(!recovery::has_live(rs.drop_last(), last)) by {
            if recovery::has_live(rs.drop_last(), last) {
                let i = choose|i: int|
                    0 <= i < rs.drop_last().len() && (#[trigger] rs.drop_last()[i]).0 > last;
                assert(rs[i].0 > last);
            }
        }
        lemma_not_live(rs.drop_last(), last);
    }
}

proof fn lemma_reclaimable(segs: Seq<File>, last: u64, i: int) -> (j: int)
    requires
        0 <= i < recovery::reclaimable(segs, last).len(),
    ensures
        0 <= j < segs.len(),
        recovery::reclaimable(segs, last)[i] == EffectView::RemoveSegment(segs[j].0),
        !recovery::has_live(recovery::segment_records(segs[j]), last),
    decreases segs.len(),
{
    let rest = recovery::reclaimable(segs.drop_last(), last);
    if i < rest.len() {
        lemma_reclaimable(segs.drop_last(), last, i)
    } else {
        segs.len() - 1
    }
}

proof fn lemma_orphans(fs: Seq<File>, nos: Seq<u64>, i: int)
    requires
        0 <= i < recovery::orphans(fs, nos).len(),
    ensures
        recovery::orphans(fs, nos)[i] matches EffectView::RemoveTable(n) && !nos.contains(n),
    decreases fs.len(),
{
    let rest = recovery::orphans(fs.drop_last(), nos);
    if i < rest.len() {
        lemma_orphans(fs.drop_last(), nos, i);
    }
}

proof fn lemma_max_no(ns: Seq<u64>, i: int)
    requires
        0 <= i < ns.len(),
    ensures
        ns[i] <= recovery::max_no(ns),
    decreases ns.len(),
{
    if i < ns.len() - 1 {
        lemma_max_no(ns.drop_last(), i);
    }
}

/// Batches go up to the highest of their sequence numbers.
proof fn lemma_climbing_top(h: History, top: u64)
    requires
        climbing(h.log(), h.last, top),
    ensures
        climbing(h.log(), h.last, h.top()),
        h.last <= h.top(),
{
    let log = h.log();
    assert forall|i: int| 0 <= i < log.len() implies h.last < (#[trigger] log[i]).0 <= h.top()
        && batch::batch_fits(log[i].1) by {
        if i < log.len() - 1 {
            assert(log[i].0 < log[log.len() - 1].0);
        }
    }
    if log.len() > 0 {
        assert(h.last < log[log.len() - 1].0);
    }
}

/// Recovery leaves files that the engine can go on with: once its changes are on disk (a fresh
/// segment, and the removal of what is no longer needed), the files hold the opened engine's
/// state.
#[verifier::spinoff_prover]
#[verifier::rlimit(60)]
pub proof fn law_reopened(v: EngineView, d: DiskView, h: History) -> (h2: History)
    requires
        durable(v, d, h),
        recovery::max_no(recovery::file_nos(d.segments)) < u64::MAX - 1,
        v.next_sst < u64::MAX,
    ensures
        recovery::opened(v.opts, d) matches Ok(w) && in_sync(w, d.perform_all(w.effects), h2)
            && w.merged() == v.merged() && w.seq == h.top() && h2.top() == h.top(),
{
    reveal(durable);
    law_recovery(v, d, h);
    lemma_opened(v.opts, d, h, v.seq);
    let w = recovery::opened(v.opts, d)->Ok_0;
    let last = h.last;
    let nos = h.manifest().sstables;
    let seg = w.segment;
    let a = EffectView::CreateSegment(seg);
    let d1 = d.perform(a);
    let h2 = History { parts: seq![h.log()], tail: Seq::empty(), ..h };
    let f = (seg, Seq::<u8>::empty());
    assert forall|i: int| 0 <= i < d.segments.len() implies (#[trigger] d.segments[i]).0 < seg by {
        lemma_max_no(recovery::file_nos(d.segments), i);
        assert(recovery::file_nos(d.segments)[i] == d.segments[i].0);
    }
    assert(d1.segments == d.segments.push(f)) by {
        if d.segments.len() > 0 {
            assert(d.segments.last() == d.segments[d.segments.len() - 1]);
        }
    }
    assert(d1.segments.drop_last() =~= d.segments);
    assert(recovery::segment_records(f) =~= Seq::<Record>::empty());
    assert(all_records(d1.segments) =~= all_records(d.segments));
    assert(flat(h2.parts.drop_last()) =~= Seq::<Logged>::empty());
    assert(h2.log() =~= h.log());
    assert(h2.manifest() == h.manifest());
    assert(in_sync(w, d1, h2)) by {
        lemma_climbing_top(h, v.seq);
        assert(memtables(w)[0] == replayed(h2.parts[0]));
        assert(held(memtables(w), h2.parts));
        assert(stored(d1, h2)) by {
            assert forall|i: int| 0 <= i < h.tables.len() implies table_stored(
                d1,
                #[trigger] h.tables[i],
            ) && merged::intact(h.tables[i]) by {
                assert(table_stored(d, h.tables[i]));
            }
        }
        assert forall|i: int| 0 <= i < w.tables.len() implies table_stored(
            d1,
            #[trigger] w.tables[i],
        ) && w.tables[i].file_no < w.next_sst by {
            assert(table_stored(d, h.tables[i]));
            assert(nos[i] == h.tables[i].file_no);
            lemma_max_no(nos, i);
            lemma_max_below(nos, v.next_sst);
        }
        assert(wal::log_bytes(h2.tail) =~= Seq::<u8>::empty());
    }
    let r = recovery::reclaimable(d.segments, last);
    let o = recovery::orphans(d.tables, nos);
    let rest = r + o;
    assert forall|i: int| 0 <= i < rest.len() implies harmless(
        #[trigger] rest[i],
        d1.segments,
        last,
        nos,
    ) by {
        if i < r.len() {
            let j = lemma_reclaimable(d.segments, last, i);
            let n = d.segments[j].0;
            lemma_not_live(recovery::segment_records(d.segments[j]), last);
            assert forall|x: int|
                0 <= x < d1.segments.len() && (#[trigger] d1.segments[x]).0 == n implies live(
                recovery::segment_records(d1.segments[x]),
                last,
            ) == Seq::<Record>::empty() by {
                if x < d.segments.len() {
                    assert(d1.segments[x] == d.segments[x]);
                    if x != j {
                        assert(x < j ==> d.segments[x].0 < d.segments[j].0);
                        assert(j < x ==> d.segments[j].0 < d.segments[x].0);
                    }
                }
            }
        } else {
            lemma_orphans(d.tables, nos, i - r.len());
        }
    }
    lemma_sync_removed(w, d1, h2, rest);
    assert(w.effects =~= seq![a] + rest);
    lemma_perform_concat(d, seq![a], rest);
    assert(seq![a].drop_last() =~= Seq::<EffectView>::empty());
    assert(d.perform_all(Seq::<EffectView>::empty()) == d);
    assert(d.perform_all(seq![a]) == d.perform(a));
    h2
}

proof fn lemma_max_below(ns: Seq<u64>, top: u64)
    requires
        top > 0,
        forall|i: int| 0 <= i < ns.len() ==> #[trigger] ns[i] < top,
    ensures
        recovery::max_no(ns) < top,
    decreases ns.len(),
{
    if ns.len() > 0 {
        assert(ns.last() == ns[ns.len() - 1]);
        lemma_max_below(ns.drop_last(), top);
    }
}

/// A directory without files opens as an empty engine, in step with the files that it creates.
pub proof fn law_fresh(opts: Options) -> (h: History)
    ensures
        ({
            let d = no_files();
            recovery::opened(opts, d) matches Ok(w) && in_sync(w, d.perform_all(w.effects), h)
                && w.merged() == Tables::empty() && w.seq == 0 && h.top() == 0
        }),
{
    reveal(durable);
    let d = DiskView { manifest: None, tables: Seq::empty(), segments: Seq::empty() };
    let v = EngineView {
        opts,
        active: MemtableView::fresh(),
        immutable: Seq::empty(),
        tables: Seq::empty(),
        seq: 0,
        last_flushed: 0,
        next_seg: 0,
        next_sst: 1,
        segment: 0,
        effects: Seq::empty(),
    };
    let h = History {
        last: 0,
        tables: Seq::empty(),
        parts: seq![Seq::empty()],
        tail: Seq::empty(),
    };
    assert(h.manifest().sstables =~= Seq::<u64>::empty());
    assert(flat(h.parts.drop_last()) =~= Seq::<Logged>::empty());
    assert(h.log() =~= Seq::<Logged>::empty());
    assert(as_records(h.log()) =~= Seq::<Record>::empty());
    assert(memtables(v)[0] == replayed(h.parts[0]));
    assert(merged::mem_sound(MemtableView::fresh()));
    assert(v.merged() =~= Tables::empty());
    assert(recovery::file_nos(d.segments) =~= Seq::<u64>::empty());
    assert(durable(v, d, h));
    law_recovery(v, d, h);
    law_reopened(v, d, h)
}

/// A group of requests, and how its file operations go.
pub type Group = (Seq<RequestView>, GroupIoView);

/// An engine and its disk after a list of groups, each with its changes performed.
pub open spec fn lived(v: EngineView, d: DiskView, gs: Seq<Group>) -> (EngineView, DiskView)
    decreases gs.len(),
{
    if gs.len() == 0 {
        (v, d)
    } else {
        let (w, e) = lived(v, d, gs.drop_last());
        let (reqs, io) = gs.last();
        (w.process(reqs, io).0, e.perform_all(group_effects(w, reqs, io)))
    }
}

/// Whether there is room for each of a list of groups.
pub open spec fn rooms_for(v: EngineView, d: DiskView, gs: Seq<Group>) -> bool
    decreases gs.len(),
{
    gs.len() > 0 ==> {
        &&& rooms_for(v, d, gs.drop_last())
        &&& room_for(lived(v, d, gs.drop_last()).0, gs.last().0, gs.last().1)
    }
}

/// Whether every append of a list of groups succeeds.
pub open spec fn all_appended(gs: Seq<Group>) -> bool {
    forall|i: int| 0 <= i < gs.len() ==> appends((#[trigger] gs[i]).0, gs[i].1)
}

/// Groups keep an engine in step with its disk.
proof fn lemma_lived(v: EngineView, d: DiskView, h: History, gs: Seq<Group>) -> (h2: History)
    requires
        in_sync(v, d, h),
        rooms_for(v, d, gs),
    ensures
        in_sync(lived(v, d, gs).0, lived(v, d, gs).1, h2),
        lived(v, d, gs).0.opts == v.opts,
        v.seq == h.top() && all_appended(gs) ==> lived(v, d, gs).0.seq == h2.top(),
    decreases gs.len(),
{
    if gs.len() == 0 {
        h
    } else {
        let front = gs.drop_last();
        let h1 = lemma_lived(v, d, h, front);
        let (w, e) = lived(v, d, front);
        assert(all_appended(gs) ==> all_appended(front)) by {
            if all_appended(gs) {
                assert forall|i: int| 0 <= i < front.len() implies appends(
                    (#[trigger] front[i]).0,
                    front[i].1,
                ) by {
                    assert(appends(gs[i].0, gs[i].1));
                }
            }
        }
        assert(all_appended(gs) ==> appends(gs[gs.len() - 1].0, gs[gs.len() - 1].1));
        law_group_keeps_sync(w, e, h1, gs.last().0, gs.last().1)
    }
}

/// An empty directory.
pub open spec fn no_files() -> DiskView {
    DiskView { manifest: None, tables: Seq::empty(), segments: Seq::empty() }
}

/// No acknowledged write is lost, and none is applied twice: an engine that is opened on an empty
/// directory, takes any groups of requests and is dropped comes back, when it is opened again, with
/// the same answer to every read, whichever appends, flushes of the log, segments, tables and
/// manifests have failed. Where no append has, the sequence number is the same as well; where one
/// has, the numbers of the appends that failed last are free again.
pub proof fn law_lifetime(opts: Options, gs: Seq<Group>)
    requires
        ({
            let v = recovery::opened(opts, no_files())->Ok_0;
            rooms_for(v, no_files().perform_all(v.effects), gs)
        }),
    ensures
        ({
            let v = recovery::opened(opts, no_files())->Ok_0;
            let (e, disk) = lived(v, no_files().perform_all(v.effects), gs);
            &&& recovery::opened(opts, no_files()) is Ok
            &&& recovery::opened(opts, disk) matches Ok(w) && {
                &&& w.seq <= e.seq
                &&& all_appended(gs) ==> w.seq == e.seq
                &&& w.merged() == e.merged()
                &&& forall|cf: Cf, key: Seq<u8>| #[trigger] w.get(cf, key) == e.get(cf, key)
            }
        }),
{
    let h = law_fresh(opts);
    let v = recovery::opened(opts, no_files())->Ok_0;
    let d0 = no_files().perform_all(v.effects);
    let h2 = lemma_lived(v, d0, h, gs);
    let (e, disk) = lived(v, d0, gs);
    assert(v.opts == opts);
    law_recovery(e, disk, h2);
}

/// A crash at any point of a run of groups, the last of which is cut short: opening the files gives
/// the state after all groups in front of it and its own first `j` requests.
pub proof fn law_lifetime_crash(opts: Options, gs: Seq<Group>, reqs: Seq<RequestView>, io: GroupIoView, k: int) -> (j:
    int)
    requires
        ({
            let v = recovery::opened(opts, no_files())->Ok_0;
            let d = no_files().perform_all(v.effects);
            let e = lived(v, d, gs).0;
            &&& rooms_for(v, d, gs)
            &&& room_for(e, reqs, io)
            &&& 0 <= k <= group_effects(e, reqs, io).len()
        }),
    ensures
        ({
            let v = recovery::opened(opts, no_files())->Ok_0;
            let (e, disk) = lived(v, no_files().perform_all(v.effects), gs);
            &&& 0 <= j <= reqs.len()
            &&& (e.effects.len() + k >= ran(e, reqs, io).effects.len() ==> j == reqs.len())
            &&& recovery::opened(opts, disk.perform_all(group_effects(e, reqs, io).take(k))) matches Ok(
                w,
            ) && w.merged() == ran(e, reqs.take(j), io).merged()
        }),
{
    let h = law_fresh(opts);
    let v = recovery::opened(opts, no_files())->Ok_0;
    let d0 = no_files().perform_all(v.effects);
    let h2 = lemma_lived(v, d0, h, gs);
    let (e, disk) = lived(v, d0, gs);
    assert(e.opts == opts);
    law_group_crash(e, disk, h2, reqs, io, k)
}

} // verus!
