//! The engine as one set of tables: what its levels hold together, and what each step does to
//! that.

use vstd::prelude::*;
use crate::bytes;
use crate::engine::batch::OpView;
use crate::engine::db;
use crate::engine::db::{EngineView, Found, GroupIoView, RequestView};
use crate::engine::error::ErrorView;
use crate::engine::keys::Cf;
use crate::engine::memtable;
use crate::engine::memtable::{KeyMap, MemtableView, Tables};
use crate::engine::sstable::block::Entry;
use crate::engine::sstable::reader::TableView;
use crate::engine::sstable::table;
use crate::engine::sstable::reader;
use crate::engine::sstable::writer;

verus! {

impl Tables {
    /// Whether each family has finitely many entries.
    pub open spec fn finite(self) -> bool {
        self.default.dom().finite() && self.write.dom().finite() && self.lock.dom().finite()
    }
}

/// Whether a table is what the writer made of `t`.
pub open spec fn table_holds(tv: TableView, t: Tables) -> bool {
    exists|es: Seq<Entry>|
        table::describes(es, t) && table::table_fits(es) && tv == #[trigger] table::written(
            es,
            tv.file_no,
        )
}

/// Whether a table is readable as it was written.
pub open spec fn intact(tv: TableView) -> bool {
    exists|t: Tables| t.finite() && #[trigger] table_holds(tv, t)
}

/// What a readable table holds.
pub open spec fn contents(tv: TableView) -> Tables {
    choose|t: Tables| t.finite() && #[trigger] table_holds(tv, t)
}

/// What a run of tables, oldest first, holds together.
pub open spec fn merged_tables(ts: Seq<TableView>) -> Tables
    decreases ts.len(),
{
    if ts.len() == 0 {
        Tables::empty()
    } else {
        contents(ts.last()).over(merged_tables(ts.drop_last()))
    }
}

/// What a run of memtables, oldest first, holds over something older.
pub open spec fn stacked(ms: Seq<MemtableView>, base: Tables) -> Tables
    decreases ms.len(),
{
    if ms.len() == 0 {
        base
    } else {
        ms.last().tables.over(stacked(ms.drop_last(), base))
    }
}

/// A memtable that counts its entries.
pub open spec fn mem_sound(m: MemtableView) -> bool {
    m.tables.finite() && (m.size == 0 ==> m.tables == Tables::empty())
}

impl EngineView {
    /// Whether every level is readable as it was written.
    pub open spec fn sound(self) -> bool {
        &&& mem_sound(self.active)
        &&& forall|i: int| 0 <= i < self.immutable.len() ==> mem_sound(#[trigger] self.immutable[i])
        &&& forall|i: int| 0 <= i < self.tables.len() ==> intact(#[trigger] self.tables[i])
    }

    /// What all levels hold together.
    pub open spec fn merged(self) -> Tables {
        self.active.tables.over(stacked(self.immutable, merged_tables(self.tables)))
    }

    /// Whether the table of the memtable that is flushed next, once the active one is frozen, has
    /// lengths that fit.
    pub open spec fn roomy(self) -> bool {
        table::table_fits(table::entries_of(self.frozen().immutable[0].tables))
    }
}

/// A key's value, a deletion mark counting as absent.
pub open spec fn present(m: KeyMap, key: Seq<u8>) -> Option<Seq<u8>> {
    if m.contains_key(key) {
        m[key]
    } else {
        None
    }
}

proof fn lemma_over_of(a: Tables, b: Tables, cf: Cf)
    ensures
        a.over(b).of(cf) == b.of(cf).union_prefer_right(a.of(cf)),
{
}

proof fn lemma_contents(tv: TableView)
    requires
        intact(tv),
    ensures
        contents(tv).finite(),
        table_holds(tv, contents(tv)),
{
}

proof fn lemma_contents_get(tv: TableView, cf: Cf, key: Seq<u8>)
    requires
        intact(tv),
    ensures
        tv.get(cf, key) == Ok::<Option<Option<Seq<u8>>>, ErrorView>(
            table::entry_of(contents(tv).of(cf), key),
        ),
{
    lemma_contents(tv);
    let t = contents(tv);
    let es = choose|es: Seq<Entry>|
        table::describes(es, t) && table::table_fits(es) && tv == #[trigger] table::written(
            es,
            tv.file_no,
        );
    table::law_table_get(es, t, tv.file_no, cf, key);
}

proof fn lemma_contents_seek(tv: TableView, cf: Cf, from: Seq<u8>)
    requires
        intact(tv),
    ensures
        tv.seek(cf, from) == Ok::<Found, ErrorView>(
            memtable::seek_in(contents(tv).of(cf), from),
        ),
{
    lemma_contents(tv);
    let t = contents(tv);
    let es = choose|es: Seq<Entry>|
        table::describes(es, t) && table::table_fits(es) && tv == #[trigger] table::written(
            es,
            tv.file_no,
        );
    table::law_table_seek(es, t, tv.file_no, cf, from);
}

proof fn lemma_tables_get(ts: Seq<TableView>, cf: Cf, key: Seq<u8>)
    requires
        forall|i: int| 0 <= i < ts.len() ==> intact(#[trigger] ts[i]),
    ensures
        db::tables_get(ts, cf, key) == Ok::<Option<Seq<u8>>, ErrorView>(
            present(merged_tables(ts).of(cf), key),
        ),
    decreases ts.len(),
{
    if ts.len() > 0 {
        assert(ts.last() == ts[ts.len() - 1]);
        lemma_contents_get(ts.last(), cf, key);
        lemma_tables_get(ts.drop_last(), cf, key);
        lemma_over_of(contents(ts.last()), merged_tables(ts.drop_last()), cf);
    }
}

proof fn lemma_mems_get(ms: Seq<MemtableView>, base: Tables, cf: Cf, key: Seq<u8>)
    ensures
        present(stacked(ms, base).of(cf), key) == match db::mems_get(ms, cf, key) {
            Some(v) => v,
            None => present(base.of(cf), key),
        },
    decreases ms.len(),
{
    if ms.len() > 0 {
        lemma_mems_get(ms.drop_last(), base, cf, key);
        lemma_over_of(ms.last().tables, stacked(ms.drop_last(), base), cf);
    }
}

/// Reads see one set of tables: in a sound engine a point read over all levels gives what the
/// merged tables hold.
pub proof fn law_get(v: EngineView, cf: Cf, key: Seq<u8>)
    requires
        v.sound(),
    ensures
        v.get(cf, key) == Ok::<Option<Seq<u8>>, ErrorView>(present(v.merged().of(cf), key)),
{
    lemma_tables_get(v.tables, cf, key);
    lemma_mems_get(v.immutable, merged_tables(v.tables), cf, key);
    lemma_over_of(
        v.active.tables,
        stacked(v.immutable, merged_tables(v.tables)),
        cf,
    );
}

/// The keys of a map at or behind `from`.
spec fn behind(m: KeyMap, from: Seq<u8>) -> Set<Seq<u8>> {
    m.dom().filter(|k: Seq<u8>| bytes::lex_le(from, k))
}

proof fn lemma_least_of(s: Set<Seq<u8>>) -> (k: Seq<u8>)
    requires
        s.finite(),
        s.len() > 0,
    ensures
        s.contains(k),
        forall|o: Seq<u8>| s.contains(o) ==> bytes::lex_le(k, o),
    decreases s.len(),
{
    let c = s.choose();
    let rest = s.remove(c);
    if rest.len() == 0 {
        assert forall|o: Seq<u8>| s.contains(o) implies bytes::lex_le(c, o) by {
            if o != c {
                assert(rest.contains(o));
                assert(rest =~= Set::<Seq<u8>>::empty());
            }
            bytes::lemma_lex_irreflexive(c);
        }
        c
    } else {
        let r = lemma_least_of(rest);
        bytes::lemma_lex_facts(c, r, c);
        bytes::lemma_lex_irreflexive(c);
        if bytes::lex_le(c, r) {
            assert forall|o: Seq<u8>| s.contains(o) implies bytes::lex_le(c, o) by {
                if o != c {
                    assert(rest.contains(o));
                    bytes::lemma_lex_facts(c, r, o);
                }
            }
            c
        } else {
            bytes::lemma_lex_total(c, r);
            assert forall|o: Seq<u8>| s.contains(o) implies bytes::lex_le(r, o) by {
                if o != c {
                    assert(rest.contains(o));
                }
            }
            r
        }
    }
}

/// In a finite map a seek finds the smallest key whenever there is a key at all.
pub proof fn lemma_seek_finite(m: KeyMap, from: Seq<u8>)
    requires
        m.dom().finite(),
    ensures
        match memtable::seek_in(m, from) {
            Some((k, v)) => memtable::is_least(m, from, k) && v == m[k],
            None => forall|k: Seq<u8>| #[trigger] m.contains_key(k) ==> !bytes::lex_le(from, k),
        },
{
    let s = behind(m, from);
    assert(s.finite());
    if s.len() > 0 {
        let k = lemma_least_of(s);
        assert forall|o: Seq<u8>|
            #[trigger] m.contains_key(o) && bytes::lex_le(from, o) implies bytes::lex_le(k, o) by {
            assert(s.contains(o));
        }
        assert(memtable::is_least(m, from, k));
        memtable::lemma_seek_in(m, from, k);
    } else {
        assert forall|k: Seq<u8>| #[trigger] m.contains_key(k) implies !bytes::lex_le(
            from,
            k,
        ) by {
            if bytes::lex_le(from, k) {
                assert(s.contains(k));
                assert(s =~= Set::<Seq<u8>>::empty());
            }
        }
        if exists|k: Seq<u8>| memtable::is_least(m, from, k) {
            let k = choose|k: Seq<u8>| memtable::is_least(m, from, k);
            assert(m.contains_key(k));
        }
    }
}

/// A seek in a map over an older one is the better of the two seeks.
pub proof fn lemma_seek_over(newer: KeyMap, older: KeyMap, from: Seq<u8>)
    requires
        newer.dom().finite(),
        older.dom().finite(),
    ensures
        memtable::seek_in(older.union_prefer_right(newer), from) == db::newer_wins(
            memtable::seek_in(newer, from),
            memtable::seek_in(older, from),
        ),
{
    let m = older.union_prefer_right(newer);
    lemma_seek_finite(newer, from);
    lemma_seek_finite(older, from);
    let a = memtable::seek_in(newer, from);
    let b = memtable::seek_in(older, from);
    match db::newer_wins(a, b) {
        Some((k, v)) => {
            if a is Some && b is Some {
                bytes::lemma_lex_total(a.unwrap().0, b.unwrap().0);
                bytes::lemma_lex_facts(a.unwrap().0, b.unwrap().0, k);
            }
            assert(m.contains_key(k));
            assert forall|o: Seq<u8>|
                #[trigger] m.contains_key(o) && bytes::lex_le(from, o) implies bytes::lex_le(
                k,
                o,
            ) by {
                if newer.contains_key(o) {
                    bytes::lemma_lex_facts(k, a.unwrap().0, o);
                } else {
                    bytes::lemma_lex_facts(k, b.unwrap().0, o);
                }
            }
            if newer.contains_key(k) {
                let x = a.unwrap().0;
                bytes::lemma_lex_facts(x, k, x);
                bytes::lemma_lex_facts(k, x, k);
            }
            memtable::lemma_seek_in(m, from, k);
        },
        None => {
            if exists|k: Seq<u8>| memtable::is_least(m, from, k) {
                let k = choose|k: Seq<u8>| memtable::is_least(m, from, k);
                assert(newer.contains_key(k) || older.contains_key(k));
            }
        },
    }
}

proof fn lemma_over_finite(a: Tables, b: Tables)
    requires
        a.finite(),
        b.finite(),
    ensures
        a.over(b).finite(),
{
    assert(a.over(b).default.dom() =~= a.default.dom().union(b.default.dom()));
    assert(a.over(b).write.dom() =~= a.write.dom().union(b.write.dom()));
    assert(a.over(b).lock.dom() =~= a.lock.dom().union(b.lock.dom()));
}

proof fn lemma_merged_tables_finite(ts: Seq<TableView>)
    requires
        forall|i: int| 0 <= i < ts.len() ==> intact(#[trigger] ts[i]),
    ensures
        merged_tables(ts).finite(),
    decreases ts.len(),
{
    if ts.len() > 0 {
        assert(ts.last() == ts[ts.len() - 1]);
        lemma_contents(ts.last());
        lemma_merged_tables_finite(ts.drop_last());
        lemma_over_finite(contents(ts.last()), merged_tables(ts.drop_last()));
    }
}

proof fn lemma_stacked_finite(ms: Seq<MemtableView>, base: Tables)
    requires
        forall|i: int| 0 <= i < ms.len() ==> mem_sound(#[trigger] ms[i]),
        base.finite(),
    ensures
        stacked(ms, base).finite(),
    decreases ms.len(),
{
    if ms.len() > 0 {
        assert(ms.last() == ms[ms.len() - 1]);
        lemma_stacked_finite(ms.drop_last(), base);
        lemma_over_finite(ms.last().tables, stacked(ms.drop_last(), base));
    }
}

/// What a sound engine holds is finite.
pub proof fn lemma_merged_finite(v: EngineView)
    requires
        v.sound(),
    ensures
        v.merged().finite(),
{
    lemma_merged_tables_finite(v.tables);
    lemma_stacked_finite(v.immutable, merged_tables(v.tables));
    lemma_over_finite(v.active.tables, stacked(v.immutable, merged_tables(v.tables)));
}

proof fn lemma_tables_seek(ts: Seq<TableView>, cf: Cf, from: Seq<u8>)
    requires
        forall|i: int| 0 <= i < ts.len() ==> intact(#[trigger] ts[i]),
    ensures
        db::tables_seek(ts, cf, from) == Ok::<Found, ErrorView>(
            memtable::seek_in(merged_tables(ts).of(cf), from),
        ),
    decreases ts.len(),
{
    if ts.len() > 0 {
        assert(ts.last() == ts[ts.len() - 1]);
        lemma_contents(ts.last());
        lemma_contents_seek(ts.last(), cf, from);
        lemma_tables_seek(ts.drop_last(), cf, from);
        lemma_merged_tables_finite(ts.drop_last());
        lemma_over_of(contents(ts.last()), merged_tables(ts.drop_last()), cf);
        lemma_seek_over(
            contents(ts.last()).of(cf),
            merged_tables(ts.drop_last()).of(cf),
            from,
        );
    } else {
        lemma_seek_finite(Tables::empty().of(cf), from);
    }
}

proof fn lemma_mems_seek(ms: Seq<MemtableView>, base: Tables, cf: Cf, from: Seq<u8>)
    requires
        forall|i: int| 0 <= i < ms.len() ==> mem_sound(#[trigger] ms[i]),
        base.finite(),
    ensures
        memtable::seek_in(stacked(ms, base).of(cf), from) == db::newer_wins(
            db::mems_seek(ms, cf, from),
            memtable::seek_in(base.of(cf), from),
        ),
    decreases ms.len(),
{
    if ms.len() > 0 {
        assert(ms.last() == ms[ms.len() - 1]);
        let d = ms.drop_last();
        lemma_mems_seek(d, base, cf, from);
        lemma_stacked_finite(d, base);
        lemma_over_of(ms.last().tables, stacked(d, base), cf);
        lemma_seek_over(ms.last().tables.of(cf), stacked(d, base).of(cf), from);
        db::lemma_newer_wins_assoc(
            memtable::seek_in(ms.last().tables.of(cf), from),
            db::mems_seek(d, cf, from),
            memtable::seek_in(base.of(cf), from),
        );
    }
}

/// Seeks see one set of tables: in a sound engine a seek over all levels gives what the merged
/// tables hold.
pub proof fn law_seek(v: EngineView, cf: Cf, from: Seq<u8>)
    requires
        v.sound(),
    ensures
        v.seek(cf, from) == Ok::<Found, ErrorView>(memtable::seek_in(v.merged().of(cf), from)),
{
    let base = merged_tables(v.tables);
    lemma_merged_tables_finite(v.tables);
    lemma_tables_seek(v.tables, cf, from);
    lemma_mems_seek(v.immutable, base, cf, from);
    lemma_stacked_finite(v.immutable, base);
    lemma_over_of(v.active.tables, stacked(v.immutable, base), cf);
    lemma_seek_over(v.active.tables.of(cf), stacked(v.immutable, base).of(cf), from);
}

pub proof fn lemma_apply_over(a: Tables, b: Tables, ops: Seq<OpView>)
    ensures
        a.apply_all(ops).over(b) == a.over(b).apply_all(ops),
    decreases ops.len(),
{
    if ops.len() > 0 {
        lemma_apply_over(a, b, ops.drop_last());
        let x = a.apply_all(ops.drop_last());
        let op = ops.last();
        assert(x.apply(op).over(b) =~= x.over(b).apply(op));
    }
}

/// Mutations keep what a memtable counts in step with what it holds.
pub proof fn lemma_mem_sound(m: MemtableView, seq: u64, ops: Seq<OpView>)
    requires
        mem_sound(m),
    ensures
        mem_sound(m.apply(seq, ops)),
    decreases ops.len(),
{
    if ops.len() > 0 {
        lemma_mem_sound(m, seq, ops.drop_last());
    }
}

/// A batch that is logged changes the merged tables by its mutations, in order.
pub proof fn law_logged(v: EngineView, ops: Seq<OpView>)
    requires
        v.sound(),
    ensures
        v.logged(ops).sound(),
        v.logged(ops).merged() == v.merged().apply_all(ops),
{
    lemma_mem_sound(v.active, v.seq, ops);
    lemma_apply_over(
        v.active.tables,
        stacked(v.immutable, merged_tables(v.tables)),
        ops,
    );
}

pub proof fn lemma_sorted_keys(s: Set<Seq<u8>>) -> (r: Seq<Seq<u8>>)
    requires
        s.finite(),
    ensures
        forall|i: int, j: int| 0 <= i < j < r.len() ==> bytes::lex_lt(#[trigger] r[i], #[trigger] r[j]),
        forall|i: int| 0 <= i < r.len() ==> s.contains(#[trigger] r[i]),
        forall|k: Seq<u8>| #[trigger] s.contains(k) ==> r.contains(k),
    decreases s.len(),
{
    if s.len() == 0 {
        assert(s =~= Set::<Seq<u8>>::empty());
        Seq::empty()
    } else {
        let k = lemma_least_of(s);
        let rest = lemma_sorted_keys(s.remove(k));
        let r = seq![k] + rest;
        assert forall|i: int, j: int| 0 <= i < j < r.len() implies bytes::lex_lt(
            #[trigger] r[i],
            #[trigger] r[j],
        ) by {
            assert(r[j] == rest[j - 1]);
            if i == 0 {
                assert(s.remove(k).contains(rest[j - 1]));
                bytes::lemma_lex_facts(k, r[j], k);
            } else {
                assert(r[i] == rest[i - 1]);
            }
        }
        assert forall|i: int| 0 <= i < r.len() implies s.contains(#[trigger] r[i]) by {
            if i > 0 {
                assert(s.remove(k).contains(rest[i - 1]));
            }
        }
        assert forall|o: Seq<u8>| #[trigger] s.contains(o) implies r.contains(o) by {
            if o == k {
                assert(r[0] == o);
            } else {
                assert(s.remove(k).contains(o));
                let i = choose|i: int| 0 <= i < rest.len() && rest[i] == o;
                assert(r[i + 1] == o);
            }
        }
        r
    }
}

spec fn storage_keys(t: Tables, cf: Cf) -> Set<Seq<u8>> {
    t.of(cf).dom().map(|k: Seq<u8>| reader::storage_key(cf, k))
}

/// Finite tables have a list of entries.
pub proof fn lemma_entries_exist(t: Tables)
    requires
        t.finite(),
    ensures
        table::describes(table::entries_of(t), t),
{
    reveal(table::describes);
    let d = storage_keys(t, Cf::Default);
    let w = storage_keys(t, Cf::Write);
    let l = storage_keys(t, Cf::Lock);
    t.default.dom().lemma_map_finite(|k: Seq<u8>| reader::storage_key(Cf::Default, k));
    t.write.dom().lemma_map_finite(|k: Seq<u8>| reader::storage_key(Cf::Write, k));
    t.lock.dom().lemma_map_finite(|k: Seq<u8>| reader::storage_key(Cf::Lock, k));
    let all = d.union(w).union(l);
    let ks = lemma_sorted_keys(all);
    let es: Seq<Entry> = Seq::new(
        ks.len(),
        |i: int|
            (
                ks[i],
                crate::engine::keys::tagged(
                    t.of(Cf::of_u8(ks[i][0]).unwrap())[ks[i].skip(1)],
                ),
            ),
    );
    assert forall|i: int| 0 <= i < es.len() implies ({
        let e = #[trigger] es[i];
        &&& e.0.len() > 0
        &&& Cf::of_u8(e.0[0]) matches Some(cf)
        &&& t.of(cf).contains_key(e.0.skip(1))
        &&& e.1 == crate::engine::keys::tagged(t.of(cf)[e.0.skip(1)])
    }) by {
        assert(all.contains(ks[i]));
        let cf = if d.contains(ks[i]) {
            Cf::Default
        } else if w.contains(ks[i]) {
            Cf::Write
        } else {
            Cf::Lock
        };
        let k = choose|k: Seq<u8>|
            t.of(cf).dom().contains(k) && ks[i] == #[trigger] reader::storage_key(cf, k);
        assert(ks[i].skip(1) =~= k);
        crate::engine::keys::law_cf_roundtrip(cf);
    }
    assert forall|cf: Cf, k: Seq<u8>|
        #![trigger t.of(cf).contains_key(k)]
        t.of(cf).contains_key(k) implies exists|i: int|
        0 <= i < es.len() && #[trigger] es[i].0 == reader::storage_key(cf, k) by {
        let sk = reader::storage_key(cf, k);
        assert(t.of(cf).dom().contains(k));
        assert(storage_keys(t, cf).contains(sk));
        assert(all.contains(sk));
        let i = choose|i: int| 0 <= i < ks.len() && ks[i] == sk;
        assert(es[i].0 == sk);
    }
    assert(table::describes(es, t));
    table::lemma_entries_of(es, t);
}

/// A freshly written table is readable and holds what it was made of.
pub proof fn lemma_fresh_table(t: Tables, n: u64)
    requires
        t.finite(),
        table::table_fits(table::entries_of(t)),
    ensures
        reader::table_of(writer::table_bytes(table::entries_of(t)), n) == Ok::<
            TableView,
            ErrorView,
        >(table::written(table::entries_of(t), n)),
        intact(table::written(table::entries_of(t), n)),
        contents(table::written(table::entries_of(t), n)) == t,
{
    let es = table::entries_of(t);
    let tv = table::written(es, n);
    lemma_entries_exist(t);
    table::lemma_described_sorted(es, t);
    table::law_table_opens(es, n);
    assert(tv == table::written(es, tv.file_no));
    assert(table_holds(tv, t));
    lemma_contents(tv);
    let c = contents(tv);
    let fs = choose|fs: Seq<Entry>|
        table::describes(fs, c) && table::table_fits(fs) && tv == #[trigger] table::written(
            fs,
            tv.file_no,
        );
    lemma_written_same(es, t, fs, c, n);
}

/// Two tables with the same bytes hold the same.
proof fn lemma_written_same(es: Seq<Entry>, t: Tables, fs: Seq<Entry>, c: Tables, n: u64)
    requires
        table::describes(es, t),
        table::table_fits(es),
        table::describes(fs, c),
        table::table_fits(fs),
        table::written(es, n) == table::written(fs, n),
    ensures
        t == c,
{
    assert forall|cf: Cf| #[trigger] t.of(cf) == c.of(cf) by {
        assert forall|k: Seq<u8>| t.of(cf).contains_key(k) == c.of(cf).contains_key(k) by {
            table::law_table_get(es, t, n, cf, k);
            table::law_table_get(fs, c, n, cf, k);
        }
        assert forall|k: Seq<u8>| t.of(cf).contains_key(k) implies t.of(cf)[k] == c.of(cf)[k] by {
            table::law_table_get(es, t, n, cf, k);
            table::law_table_get(fs, c, n, cf, k);
        }
        assert(t.of(cf) =~= c.of(cf));
    }
    assert(t.of(Cf::Default) == c.of(Cf::Default));
    assert(t.of(Cf::Write) == c.of(Cf::Write));
    assert(t.of(Cf::Lock) == c.of(Cf::Lock));
}

/// A memtable that is frozen is read as before.
pub proof fn lemma_frozen(v: EngineView)
    requires
        v.sound(),
    ensures
        v.frozen().sound(),
        v.frozen().merged() == v.merged(),
        v.frozen().immutable.len() > 0,
{
    let f = v.frozen();
    assert(f.immutable.drop_last() =~= v.immutable);
    assert forall|i: int| 0 <= i < f.immutable.len() implies mem_sound(#[trigger] f.immutable[i]) by {
        if i < v.immutable.len() {
            assert(f.immutable[i] == v.immutable[i]);
        }
    }
    assert(mem_sound(MemtableView::fresh()));
    assert(Tables::empty().over(v.merged()) =~= v.merged());
}

/// What the oldest memtable holds may be below it as well.
pub proof fn lemma_stack_again(ms: Seq<MemtableView>, base: Tables)
    requires
        ms.len() > 0,
    ensures
        stacked(ms, ms[0].tables.over(base)) == stacked(ms, base),
    decreases ms.len(),
{
    let t = ms[0].tables;
    if ms.len() == 1 {
        assert(stacked(ms.drop_last(), base) == base);
        assert(stacked(ms.drop_last(), t.over(base)) == t.over(base));
        assert(ms.last() == ms[0]);
        assert(t.over(t.over(base)) =~= t.over(base));
    } else {
        assert(ms.drop_last()[0] == ms[0]);
        lemma_stack_again(ms.drop_last(), base);
    }
}

/// The oldest memtable may as well be a part of what is below.
proof fn lemma_stack_first(ms: Seq<MemtableView>, base: Tables)
    requires
        ms.len() > 0,
    ensures
        stacked(ms.skip(1), ms[0].tables.over(base)) == stacked(ms, base),
    decreases ms.len(),
{
    if ms.len() == 1 {
        assert(stacked(ms.drop_last(), base) == base);
        assert(ms.last() == ms[0]);
        assert(stacked(ms.skip(1), ms[0].tables.over(base)) == ms[0].tables.over(base));
    } else {
        assert(ms.drop_last()[0] == ms[0]);
        lemma_stack_first(ms.drop_last(), base);
        assert(ms.skip(1).drop_last() =~= ms.drop_last().skip(1));
        assert(ms.skip(1).last() == ms.last());
    }
}

/// The table that the oldest frozen memtable becomes.
pub open spec fn flushed_table(v: EngineView) -> TableView {
    table::written(table::entries_of(v.immutable[0].tables), v.next_sst)
}

/// Whether the live tables hold what the oldest frozen memtable does.
pub open spec fn backed(v: EngineView) -> bool {
    v.immutable[0].tables.over(merged_tables(v.tables)) == merged_tables(v.tables)
}

/// The table of the oldest frozen memtable opens as it was written.
proof fn lemma_flush_data(v: EngineView)
    requires
        v.sound(),
        v.immutable.len() > 0,
        v.immutable[0].size > 0,
        table::table_fits(table::entries_of(v.immutable[0].tables)),
    ensures
        ({
            let t = flushed_table(v);
            let w = v.table_numbered().table_written(v.next_sst, v.table_image()).installed(t);
            &&& reader::table_of(v.table_image(), v.next_sst) == Ok::<TableView, ErrorView>(t)
            &&& v.flush_data(None) == (w, Ok::<(), ErrorView>(()))
            &&& intact(t)
            &&& contents(t) == v.immutable[0].tables
        }),
{
    assert(mem_sound(v.immutable[0]));
    lemma_fresh_table(v.immutable[0].tables, v.next_sst);
}

/// The table of the oldest frozen memtable is readable as it was written, and once it is live the
/// engine is read as before.
pub proof fn lemma_installed(v: EngineView)
    requires
        v.sound(),
        v.immutable.len() > 0,
        v.immutable[0].size > 0,
        table::table_fits(table::entries_of(v.immutable[0].tables)),
    ensures
        ({
            let t = flushed_table(v);
            let w = v.table_numbered().table_written(v.next_sst, v.table_image()).installed(t);
            &&& reader::table_of(v.table_image(), v.next_sst) == Ok::<TableView, ErrorView>(t)
            &&& v.flush_data(None) == (w, Ok::<(), ErrorView>(()))
            &&& intact(t)
            &&& w.sound()
            &&& w.merged() == v.merged()
            &&& backed(w)
            &&& merged_tables(w.tables) == v.immutable[0].tables.over(merged_tables(v.tables))
        }),
{
    let m = v.immutable[0].tables;
    let t = flushed_table(v);
    let w = v.table_numbered().table_written(v.next_sst, v.table_image()).installed(t);
    let base = merged_tables(v.tables);
    lemma_flush_data(v);
    assert(w.tables.last() == t);
    assert(w.tables.drop_last() =~= v.tables);
    assert(merged_tables(w.tables) == contents(t).over(merged_tables(w.tables.drop_last())));
    assert forall|i: int| 0 <= i < w.tables.len() implies intact(#[trigger] w.tables[i]) by {
        if i < v.tables.len() {
            assert(w.tables[i] == v.tables[i]);
        }
    }
    lemma_stack_again(v.immutable, base);
    assert(m.over(m.over(base)) =~= m.over(base));
}

/// A memtable whose contents the live tables hold can be forgotten.
pub proof fn lemma_forgotten(v: EngineView)
    requires
        v.sound(),
        v.immutable.len() > 0,
        backed(v),
    ensures
        v.forgotten().sound(),
        v.forgotten().merged() == v.merged(),
{
    let w = v.forgotten();
    lemma_stack_first(v.immutable, merged_tables(v.tables));
    assert forall|i: int| 0 <= i < w.immutable.len() implies mem_sound(#[trigger] w.immutable[i]) by {
        assert(w.immutable[i] == v.immutable[i + 1]);
    }
}

/// A memtable that holds nothing is no loss.
pub proof fn lemma_nothing_backed(v: EngineView)
    requires
        v.sound(),
        v.immutable.len() > 0,
        v.immutable[0].size == 0,
    ensures
        backed(v),
{
    assert(mem_sound(v.immutable[0]));
    let base = merged_tables(v.tables);
    assert(Tables::empty().over(base) =~= base);
}

/// However a flush goes, the engine is read as before.
proof fn lemma_flushed(v: EngineView, io: GroupIoView)
    requires
        v.sound(),
        v.immutable.len() > 0,
        table::table_fits(table::entries_of(v.immutable[0].tables)),
    ensures
        v.flushed(io).0.sound(),
        v.flushed(io).0.merged() == v.merged(),
        v.flushed(io).0.seq == v.seq,
        v.flushed(io).0.opts == v.opts,
{
    if v.immutable[0].size == 0 {
        lemma_nothing_backed(v);
    } else {
        lemma_installed(v);
    }
    let (d, r) = v.flush_data(io.table);
    assert(d.sound() && d.merged() == v.merged());
    if r is Ok {
        let a = d.advanced();
        assert(a.sound() && a.merged() == d.merged());
        assert(backed(a));
        lemma_forgotten(a);
    }
}

/// Freezing a full memtable and flushing the oldest frozen one keeps what the engine holds,
/// whatever becomes of the file operations.
pub proof fn law_settled(v: EngineView, io: GroupIoView)
    requires
        v.sound(),
        v.full() ==> v.roomy(),
    ensures
        v.settled(io).sound(),
        v.settled(io).merged() == v.merged(),
        v.settled(io).seq == v.seq,
        v.settled(io).opts == v.opts,
{
    if v.full() {
        lemma_frozen(v);
        let f = v.frozen();
        let r = if io.segment is None {
            f.rotated(v.next_seg)
        } else {
            f
        };
        assert(r.sound() && r.merged() == f.merged());
        lemma_flushed(r, io);
    }
}

/// One request in a group of its own, with the files in order: a request that is applied changes
/// the merged tables by its mutations and is answered with the next sequence number; any other
/// changes nothing that a read could see.
pub proof fn law_submit(v: EngineView, req: RequestView)
    requires
        v.sound(),
        v.run_one(req, None).0.full() ==> v.run_one(req, None).0.roomy(),
    ensures
        v.submit(req).0.sound(),
        v.submit(req).0.opts == v.opts,
        match v.decide(req) {
            db::DecisionView::Apply(ops) => {
                &&& v.submit(req).0.merged() == v.merged().apply_all(ops)
                &&& v.submit(req).0.seq == db::succ(v.seq)
                &&& v.submit(req).1 == Ok::<u64, ErrorView>(db::succ(v.seq))
            },
            db::DecisionView::Done(r) => {
                &&& v.submit(req).0.merged() == v.merged()
                &&& v.submit(req).0.seq == v.seq
                &&& v.submit(req).1 == r
            },
        },
{
    reveal(EngineView::submit);
    let io = GroupIoView::clean();
    let reqs = seq![req];
    assert(reqs.drop_last() =~= Seq::<RequestView>::empty());
    assert(v.run_all(reqs.drop_last(), io).engine == v);
    let (e, r, a) = v.run_one(req, None);
    assert(io.append_at(0) is None);
    assert(v.run_all(reqs, io).engine == e);
    assert(v.run_all(reqs, io).results =~= seq![r]);
    match v.decide(req) {
        db::DecisionView::Apply(ops) => {
            let n = v.numbered();
            assert(n.merged() == v.merged());
            law_logged(n, ops);
            let w = e.synced();
            assert(w.merged() == e.merged());
            law_settled(w, io);
        },
        db::DecisionView::Done(d) => {
            law_settled(v, io);
        },
    }
}

} // verus!
