//! What an engine holds is finite: the keys that a seek can still find, and how they run out.

use vstd::prelude::*;
use crate::bytes;
use crate::engine::batch::OpView;
use crate::engine::db;
use crate::engine::db::{DecisionView, EngineView, GroupIoView, RequestView};
use crate::engine::keys::Cf;
use crate::engine::memtable;
use crate::engine::memtable::{KeyMap, MemtableView};
use crate::engine::options::Options;
use crate::engine::recovery;
use crate::engine::recovery::{DiskView, File};
use crate::engine::sstable::block::Entry;
use crate::engine::sstable::reader;
use crate::engine::sstable::reader::TableView;
use crate::engine::wal::Record;

verus! {

impl EngineView {
    /// Whether the memtables hold finitely many entries. That is so of every engine that was
    /// opened, whatever it did since.
    pub open spec fn finite(self) -> bool {
        &&& self.active.tables.finite()
        &&& forall|i: int|
            0 <= i < self.immutable.len() ==> (#[trigger] self.immutable[i]).tables.finite()
    }
}

proof fn lemma_apply_finite(m: MemtableView, seq: u64, ops: Seq<OpView>)
    requires
        m.tables.finite(),
    ensures
        m.apply(seq, ops).tables.finite(),
    decreases ops.len(),
{
    if ops.len() > 0 {
        lemma_apply_finite(m, seq, ops.drop_last());
    }
}

proof fn lemma_settled_finite(v: EngineView, io: GroupIoView)
    requires
        v.finite(),
    ensures
        v.settled(io).finite(),
{
    if v.full() {
        let f = v.frozen();
        assert(f.finite()) by {
            assert forall|i: int| 0 <= i < f.immutable.len() implies (
            #[trigger] f.immutable[i]).tables.finite() by {
                if i < v.immutable.len() {
                    assert(f.immutable[i] == v.immutable[i]);
                }
            }
        }
        let r = if io.segment is None {
            f.rotated(v.next_seg)
        } else {
            f
        };
        let (d, x) = r.flush_data(io.table);
        assert(d.immutable == r.immutable && d.active == r.active);
        assert(d.finite());
        let a = d.advanced();
        assert(a.forgotten().finite()) by {
            assert forall|i: int| 0 <= i < a.forgotten().immutable.len() implies (
            #[trigger] a.forgotten().immutable[i]).tables.finite() by {
                assert(a.forgotten().immutable[i] == d.immutable[i + 1]);
            }
        }
    }
}

/// Requests of a group keep the memtables finite.
pub proof fn lemma_run_finite(v: EngineView, reqs: Seq<RequestView>, io: GroupIoView)
    requires
        v.finite(),
    ensures
        v.run_all(reqs, io).engine.finite(),
    decreases reqs.len(),
{
    if reqs.len() > 0 {
        lemma_run_finite(v, reqs.drop_last(), io);
        let b = v.run_all(reqs.drop_last(), io).engine;
        match b.decide(reqs.last()) {
            DecisionView::Apply(ops) => {
                let n = b.numbered();
                lemma_apply_finite(n.active, n.seq, ops);
            },
            DecisionView::Done(_) => {},
        }
    }
}

/// Groups keep the memtables finite.
pub proof fn lemma_process_finite(v: EngineView, reqs: Seq<RequestView>, io: GroupIoView)
    requires
        v.finite(),
    ensures
        v.process(reqs, io).0.finite(),
{
    lemma_run_finite(v, reqs, io);
    let g = v.run_all(reqs, io);
    if g.appended {
        lemma_settled_finite(g.engine.synced(), io);
    } else {
        lemma_settled_finite(g.engine, io);
    }
}

/// Requests keep the memtables finite.
pub proof fn lemma_submit_finite(v: EngineView, req: RequestView)
    requires
        v.finite(),
    ensures
        v.submit(req).0.finite(),
{
    reveal(EngineView::submit);
    lemma_process_finite(v, seq![req], GroupIoView::clean());
}

proof fn lemma_replay_finite(m: MemtableView, last: u64, rs: Seq<Record>)
    requires
        m.tables.finite(),
    ensures
        recovery::replay(m, last, rs) matches Ok(n) ==> n.tables.finite(),
    decreases rs.len(),
{
    if rs.len() > 0 {
        lemma_replay_finite(m, last, rs.drop_last());
        if let Ok(n) = recovery::replay(m, last, rs.drop_last()) {
            if let Some(ops) = crate::engine::batch::batch_of(rs.last().1) {
                lemma_apply_finite(n, rs.last().0, ops);
            }
        }
    }
}

proof fn lemma_replay_all_finite(segs: Seq<File>, last: u64)
    ensures
        recovery::replay_all(segs, last) matches Ok(n) ==> n.tables.finite(),
    decreases segs.len(),
{
    if segs.len() > 0 {
        lemma_replay_all_finite(segs.drop_last(), last);
        if let Ok(m) = recovery::replay_all(segs.drop_last(), last) {
            lemma_replay_finite(m, last, recovery::segment_records(segs.last()));
        }
    }
}

/// An engine that was opened is finite.
pub proof fn lemma_opened_finite(opts: Options, d: DiskView)
    ensures
        recovery::opened(opts, d) matches Ok(w) ==> w.finite(),
{
    if let Ok(m) = recovery::stored_manifest(d) {
        lemma_replay_all_finite(d.segments, m.last_flushed_seq);
    }
}

/// The keys of a block's entries, without the family's id.
spec fn block_keys(es: Seq<Entry>) -> Set<Seq<u8>> {
    Seq::new(es.len(), |i: int| es[i].0.skip(1)).to_set()
}

/// The keys that a table's first `n` blocks hold.
spec fn table_keys(t: TableView, n: nat) -> Set<Seq<u8>>
    decreases n,
{
    if n == 0 {
        Set::empty()
    } else {
        let rest = table_keys(t, (n - 1) as nat);
        match t.block(n - 1) {
            Ok(es) => rest.union(block_keys(es)),
            Err(_) => rest,
        }
    }
}

spec fn tables_keys(ts: Seq<TableView>) -> Set<Seq<u8>>
    decreases ts.len(),
{
    if ts.len() == 0 {
        Set::empty()
    } else {
        tables_keys(ts.drop_last()).union(table_keys(ts.last(), ts.last().index.len()))
    }
}

spec fn mems_keys(ms: Seq<MemtableView>, cf: Cf) -> Set<Seq<u8>>
    decreases ms.len(),
{
    if ms.len() == 0 {
        Set::empty()
    } else {
        mems_keys(ms.drop_last(), cf).union(ms.last().tables.of(cf).dom())
    }
}

/// Every key that a seek could find.
pub closed spec fn all_keys(v: EngineView, cf: Cf) -> Set<Seq<u8>> {
    v.active.tables.of(cf).dom().union(mems_keys(v.immutable, cf)).union(tables_keys(v.tables))
}

/// Every key at or behind `from` that a seek could find.
pub open spec fn keys_behind(v: EngineView, cf: Cf, from: Seq<u8>) -> Set<Seq<u8>> {
    all_keys(v, cf).filter(|k: Seq<u8>| bytes::lex_le(from, k))
}

proof fn lemma_block_keys_finite(es: Seq<Entry>)
    ensures
        block_keys(es).finite(),
{
    vstd::seq_lib::seq_to_set_is_finite(Seq::new(es.len(), |i: int| es[i].0.skip(1)));
}

proof fn lemma_table_keys_finite(t: TableView, n: nat)
    ensures
        table_keys(t, n).finite(),
    decreases n,
{
    if n > 0 {
        lemma_table_keys_finite(t, (n - 1) as nat);
        if let Ok(es) = t.block(n - 1) {
            lemma_block_keys_finite(es);
        }
    }
}

proof fn lemma_tables_keys_finite(ts: Seq<TableView>)
    ensures
        tables_keys(ts).finite(),
    decreases ts.len(),
{
    if ts.len() > 0 {
        lemma_tables_keys_finite(ts.drop_last());
        lemma_table_keys_finite(ts.last(), ts.last().index.len());
    }
}

proof fn lemma_mems_keys_finite(ms: Seq<MemtableView>, cf: Cf)
    requires
        forall|i: int| 0 <= i < ms.len() ==> (#[trigger] ms[i]).tables.finite(),
    ensures
        mems_keys(ms, cf).finite(),
    decreases ms.len(),
{
    if ms.len() > 0 {
        assert(ms[ms.len() - 1] == ms.last());
        lemma_mems_keys_finite(ms.drop_last(), cf);
    }
}

/// A finite engine has finitely many keys.
pub proof fn lemma_all_keys_finite(v: EngineView, cf: Cf)
    requires
        v.finite(),
    ensures
        all_keys(v, cf).finite(),
{
    lemma_mems_keys_finite(v.immutable, cf);
    lemma_tables_keys_finite(v.tables);
}

proof fn lemma_block_key(t: TableView, n: nat, b: int, es: Seq<Entry>, i: int)
    requires
        0 <= b < n,
        t.block(b) == Ok::<Seq<Entry>, crate::engine::error::ErrorView>(es),
        0 <= i < es.len(),
    ensures
        table_keys(t, n).contains(es[i].0.skip(1)),
    decreases n,
{
    if b == n - 1 {
        let s = Seq::new(es.len(), |j: int| es[j].0.skip(1));
        assert(s[i] == es[i].0.skip(1));
        assert(s.to_set().contains(s[i]));
    } else {
        lemma_block_key(t, (n - 1) as nat, b, es, i);
    }
}

proof fn lemma_first_found(es: Seq<Entry>, sk: Seq<u8>, from: int)
    requires
        0 <= from <= es.len(),
        reader::first_at_least(es, sk, from) < es.len(),
    ensures
        0 <= reader::first_at_least(es, sk, from),
        bytes::lex_le(sk, es[reader::first_at_least(es, sk, from)].0),
    decreases es.len() - from,
{
    if from < es.len() && !bytes::lex_le(sk, es[from].0) {
        lemma_first_found(es, sk, from + 1);
    }
}

proof fn lemma_table_seek(t: TableView, cf: Cf, from: Seq<u8>, bi: int)
    requires
        0 <= bi,
    ensures
        t.seek_from(cf, reader::storage_key(cf, from), bi) matches Ok(Some((k, v)))
            ==> table_keys(t, t.index.len()).contains(k) && bytes::lex_le(from, k),
    decreases t.index.len() - bi,
{
    let sk = reader::storage_key(cf, from);
    if bi < t.index.len() {
        if let Ok(es) = t.block(bi) {
            let i = reader::first_at_least(es, sk, 0);
            if i >= es.len() {
                lemma_table_seek(t, cf, from, bi + 1);
            } else {
                lemma_first_found(es, sk, 0);
                let e = es[i].0;
                if e.len() > 0 && e[0] == cf.id_spec() {
                    lemma_block_key(t, t.index.len(), bi, es, i);
                    assert(reader::storage_key(cf, e.skip(1)) =~= e);
                    crate::engine::sstable::table::lemma_storage_order(cf, from, e.skip(1));
                }
            }
        }
    }
}

proof fn lemma_tables_seek(ts: Seq<TableView>, cf: Cf, from: Seq<u8>)
    ensures
        db::tables_seek(ts, cf, from) matches Ok(Some((k, v))) ==> tables_keys(ts).contains(k)
            && bytes::lex_le(from, k),
    decreases ts.len(),
{
    if ts.len() > 0 {
        lemma_tables_seek(ts.drop_last(), cf, from);
        let t = ts.last();
        let pp = t.split(reader::storage_key(cf, from));
        lemma_split_nonneg(t.index, reader::storage_key(cf, from), 0, t.index.len() as int);
        lemma_table_seek(
            t,
            cf,
            from,
            if pp == 0 {
                0
            } else {
                pp - 1
            },
        );
    }
}

proof fn lemma_split_nonneg(index: Seq<reader::IndexView>, sk: Seq<u8>, lo: int, hi: int)
    requires
        0 <= lo,
    ensures
        reader::split_point(index, sk, lo, hi) >= 0,
    decreases hi - lo,
{
    if lo < hi {
        let mid = lo + (hi - lo) / 2;
        lemma_split_nonneg(index, sk, mid + 1, hi);
        lemma_split_nonneg(index, sk, lo, mid);
    }
}

proof fn lemma_mem_seek(m: KeyMap, from: Seq<u8>)
    ensures
        memtable::seek_in(m, from) matches Some((k, v)) ==> m.contains_key(k) && bytes::lex_le(
            from,
            k,
        ),
{
}

proof fn lemma_mems_seek(ms: Seq<MemtableView>, cf: Cf, from: Seq<u8>)
    ensures
        db::mems_seek(ms, cf, from) matches Some((k, v)) ==> mems_keys(ms, cf).contains(k)
            && bytes::lex_le(from, k),
    decreases ms.len(),
{
    if ms.len() > 0 {
        lemma_mems_seek(ms.drop_last(), cf, from);
        lemma_mem_seek(ms.last().tables.of(cf), from);
    }
}

/// A seek finds a key at or behind where it starts.
pub proof fn lemma_seek_found(v: EngineView, cf: Cf, from: Seq<u8>)
    ensures
        v.seek(cf, from) matches Ok(Some((k, e))) ==> all_keys(v, cf).contains(k)
            && bytes::lex_le(from, k),
{
    lemma_tables_seek(v.tables, cf, from);
    lemma_mems_seek(v.immutable, cf, from);
    lemma_mem_seek(v.active.tables.of(cf), from);
}

/// Going on behind a key that was found leaves fewer keys.
pub proof fn lemma_seek_advances(v: EngineView, cf: Cf, from: Seq<u8>)
    requires
        v.finite(),
    ensures
        v.seek(cf, from) matches Ok(Some((k, e))) ==> keys_behind(v, cf, k.push(0u8)).len()
            < keys_behind(v, cf, from).len(),
{
    lemma_seek_found(v, cf, from);
    lemma_all_keys_finite(v, cf);
    if let Ok(Some((k, e))) = v.seek(cf, from) {
        let a = keys_behind(v, cf, from);
        let b = keys_behind(v, cf, k.push(0u8));
        bytes::lemma_lex_successor(k, k);
        bytes::lemma_lex_irreflexive(k);
        assert(a.contains(k) && !b.contains(k));
        assert forall|x: Seq<u8>| b.contains(x) implies a.contains(x) by {
            bytes::lemma_lex_successor(k, x);
            bytes::lemma_lex_facts(from, k, x);
            bytes::lemma_lex_facts(from, x, k);
        }
        assert(b.subset_of(a.remove(k)));
        vstd::set_lib::lemma_len_subset(b, a.remove(k));
    }
}

} // verus!
