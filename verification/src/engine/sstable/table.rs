//! What a written table gives back when it is read.

use vstd::prelude::*;
use crate::bytes;
use crate::engine::checksum;
use crate::engine::encoding;
use crate::engine::error::ErrorView;
use crate::engine::keys;
use crate::engine::keys::Cf;
use crate::engine::memtable;
use crate::engine::memtable::{KeyMap, Tables};
use crate::engine::sstable::block;
use crate::engine::sstable::block::Entry;
use crate::engine::sstable::reader;
use crate::engine::sstable::reader::{IndexView, TableView};
use crate::engine::sstable::writer;

verus! {

/// Whether the keys ascend strictly.
pub open spec fn sorted(es: Seq<Entry>) -> bool {
    forall|i: int, j: int|
        0 <= i < j < es.len() ==> bytes::lex_lt(#[trigger] es[i].0, #[trigger] es[j].0)
}

/// Whether every length of the table fits its field.
pub open spec fn table_fits(es: Seq<Entry>) -> bool {
    let bl = writer::blocks_of(es);
    &&& forall|i: int| 0 <= i < es.len() ==> block::entry_fits(#[trigger] es[i])
    &&& forall|b: int|
        0 <= b < bl.len() ==> writer::disk_block(#[trigger] bl[b]).len() < 0x1_0000_0000
    &&& writer::index_block(bl).len() < 0x1_0000_0000
    &&& writer::data_bytes(bl).len() <= u64::MAX
}

/// Whether the entries are those of the three families: storage keys in ascending order, each
/// with its encoded value, and all of them.
#[verifier::opaque]
pub open spec fn describes(es: Seq<Entry>, t: Tables) -> bool {
    &&& sorted(es)
    &&& forall|i: int|
        0 <= i < es.len() ==> {
            let e = #[trigger] es[i];
            &&& e.0.len() > 0
            &&& Cf::of_u8(e.0[0]) matches Some(cf)
            &&& t.of(cf).contains_key(e.0.skip(1))
            &&& e.1 == keys::tagged(t.of(cf)[e.0.skip(1)])
        }
    &&& forall|cf: Cf, k: Seq<u8>|
        #![trigger t.of(cf).contains_key(k)]
        t.of(cf).contains_key(k) ==> exists|i: int|
            0 <= i < es.len() && #[trigger] es[i].0 == reader::storage_key(cf, k)
}

/// The entries of a family are in storage-key order.
pub proof fn lemma_described_sorted(es: Seq<Entry>, t: Tables)
    requires
        describes(es, t),
    ensures
        sorted(es),
{
    reveal(describes);
}

/// What one of the entries is.
pub proof fn lemma_described(es: Seq<Entry>, t: Tables, i: int)
    requires
        describes(es, t),
        0 <= i < es.len(),
    ensures
        es[i].0.len() > 0,
        Cf::of_u8(es[i].0[0]) matches Some(cf) && t.of(cf).contains_key(es[i].0.skip(1))
            && es[i].1 == keys::tagged(t.of(cf)[es[i].0.skip(1)]),
{
    reveal(describes);
}

/// Where the entry of a key is.
pub proof fn lemma_found(es: Seq<Entry>, t: Tables, cf: Cf, k: Seq<u8>) -> (i: int)
    requires
        describes(es, t),
        t.of(cf).contains_key(k),
    ensures
        0 <= i < es.len(),
        es[i].0 == reader::storage_key(cf, k),
{
    reveal(describes);
    choose|i: int| 0 <= i < es.len() && #[trigger] es[i].0 == reader::storage_key(cf, k)
}

/// The table's view of one key: the outer `None` where the family has no entry.
pub open spec fn entry_of(m: KeyMap, key: Seq<u8>) -> Option<Option<Seq<u8>>> {
    if m.contains_key(key) {
        Some(m[key])
    } else {
        None
    }
}

/// The index that the writer puts down.
pub open spec fn index_of(bl: Seq<Seq<Entry>>) -> Seq<IndexView> {
    Seq::new(
        bl.len(),
        |i: int|
            IndexView {
                first_key: bl[i][0].0,
                offset: writer::offset_of(bl.take(i)) as u64,
                len: encoding::len32(writer::disk_block(bl[i]).len()),
            },
    )
}

/// A table that was written from `es`.
pub open spec fn written(es: Seq<Entry>, file_no: u64) -> TableView {
    TableView {
        data: writer::table_bytes(es),
        index: index_of(writer::blocks_of(es)),
        file_no,
    }
}

proof fn lemma_index_prefix(bl: Seq<Seq<Entry>>, k: int) -> (after: Seq<u8>)
    requires
        0 <= k < bl.len(),
    ensures
        writer::index_bytes(bl) == writer::index_bytes(bl.take(k)) + writer::index_entry(
            index_of(bl)[k].first_key,
            index_of(bl)[k].offset,
            index_of(bl)[k].len,
        ) + after,
        after.len() == writer::index_bytes(bl).len() - writer::index_bytes(bl.take(k + 1)).len(),
    decreases bl.len() - k,
{
    let t = bl.take(k + 1);
    assert(t.drop_last() =~= bl.take(k));
    let e = index_of(bl)[k];
    let eb = writer::index_entry(e.first_key, e.offset, e.len);
    assert(writer::index_bytes(t) =~= writer::index_bytes(bl.take(k)) + eb);
    if k + 1 == bl.len() {
        assert(t =~= bl);
        let after = Seq::<u8>::empty();
        assert(writer::index_bytes(bl) =~= writer::index_bytes(bl.take(k)) + eb + after);
        after
    } else {
        let a = lemma_index_prefix(bl, k + 1);
        let n = index_of(bl)[k + 1];
        let after = writer::index_entry(n.first_key, n.offset, n.len) + a;
        assert(writer::index_bytes(bl) =~= writer::index_bytes(bl.take(k)) + eb + after);
        after
    }
}

proof fn lemma_index_suffix(bl: Seq<Seq<Entry>>, k: int)
    requires
        0 <= k <= bl.len(),
        forall|b: int| 0 <= b < bl.len() ==> (#[trigger] bl[b])[0].0.len() < 0x1_0000_0000,
    ensures
        reader::index_from(
            writer::index_bytes(bl),
            writer::index_bytes(bl.take(k)).len() as int,
        ) == Ok::<Seq<IndexView>, ErrorView>(index_of(bl).skip(k)),
    decreases bl.len() - k,
{
    broadcast use bytes::group_be_len;
    let body = writer::index_bytes(bl);
    if k == bl.len() {
        assert(bl.take(k) =~= bl);
        assert(index_of(bl).skip(k) =~= Seq::<IndexView>::empty());
    } else {
        let after = lemma_index_prefix(bl, k);
        let before = writer::index_bytes(bl.take(k));
        let e = index_of(bl)[k];
        let tail = bytes::be64(e.offset) + bytes::be32(e.len) + after;
        assert(bl[k][0].0.len() < 0x1_0000_0000);
        assert(body =~= before + encoding::length_prefixed(e.first_key) + tail);
        encoding::law_length_prefixed_roundtrip(before, e.first_key, tail);
        let p = (before.len() + encoding::length_prefixed(e.first_key).len()) as int;
        assert(body.subrange(p, p + 8) =~= bytes::be64(e.offset));
        bytes::lemma_u64_at(body, p, e.offset);
        assert(body.subrange(p + 8, p + 12) =~= bytes::be32(e.len));
        bytes::lemma_u32_at(body, p + 8, e.len);
        assert(bl.take(k + 1).drop_last() =~= bl.take(k));
        assert(writer::index_bytes(bl.take(k + 1)).len() == p + 12);
        lemma_index_suffix(bl, k + 1);
        assert(index_of(bl).skip(k) =~= seq![e] + index_of(bl).skip(k + 1));
    }
}

proof fn lemma_offset_exact(bl: Seq<Seq<Entry>>)
    requires
        forall|b: int|
            0 <= b < bl.len() ==> writer::disk_block(#[trigger] bl[b]).len() < 0x1_0000_0000,
    ensures
        writer::offset_of(bl) == writer::data_bytes(bl).len(),
    decreases bl.len(),
{
    if bl.len() > 0 {
        let d = bl.drop_last();
        assert forall|b: int| 0 <= b < d.len() implies writer::disk_block(#[trigger] d[b]).len()
            < 0x1_0000_0000 by {
            assert(d[b] == bl[b]);
        }
        lemma_offset_exact(d);
        assert(bl.last() == bl[bl.len() - 1]);
    }
}

proof fn lemma_data_prefix(bl: Seq<Seq<Entry>>, k: int) -> (after: Seq<u8>)
    requires
        0 <= k < bl.len(),
    ensures
        writer::data_bytes(bl) == writer::data_bytes(bl.take(k)) + writer::disk_block(bl[k])
            + after,
    decreases bl.len() - k,
{
    let t = bl.take(k + 1);
    assert(t.drop_last() =~= bl.take(k));
    if k + 1 == bl.len() {
        assert(t =~= bl);
        assert(writer::data_bytes(bl) =~= writer::data_bytes(bl.take(k)) + writer::disk_block(
            bl[k],
        ) + Seq::<u8>::empty());
        Seq::empty()
    } else {
        let a = lemma_data_prefix(bl, k + 1);
        assert(writer::data_bytes(bl) =~= writer::data_bytes(bl.take(k)) + writer::disk_block(
            bl[k],
        ) + (writer::disk_block(bl[k + 1]) + a));
        writer::disk_block(bl[k + 1]) + a
    }
}

/// How the blocks of sorted entries lie: no block is empty, the keys ascend within a block and
/// from block to block, and the blocks hold the entries.
#[verifier::opaque]
spec fn laid_out(bl: Seq<Seq<Entry>>, es: Seq<Entry>) -> bool {
    &&& forall|b: int| 0 <= b < bl.len() ==> (#[trigger] bl[b]).len() > 0
    &&& forall|b: int, x: int, y: int|
        0 <= b < bl.len() && 0 <= x < y < bl[b].len() ==> bytes::lex_lt(
            #[trigger] bl[b][x].0,
            #[trigger] bl[b][y].0,
        )
    &&& forall|b: int, c: int, x: int, y: int|
        0 <= b < c < bl.len() && 0 <= x < bl[b].len() && 0 <= y < bl[c].len() ==> bytes::lex_lt(
            #[trigger] bl[b][x].0,
            #[trigger] bl[c][y].0,
        )
    &&& forall|b: int, x: int|
        0 <= b < bl.len() && 0 <= x < bl[b].len() ==> es.contains(#[trigger] bl[b][x])
    &&& forall|i: int|
        #![trigger es[i]]
        0 <= i < es.len() ==> exists|b: int, x: int|
            0 <= b < bl.len() && 0 <= x < bl[b].len() && #[trigger] bl[b][x] == es[i]
}

proof fn lemma_in_block(bl: Seq<Seq<Entry>>, es: Seq<Entry>, b: int, x: int) -> (i: int)
    requires
        laid_out(bl, es),
        0 <= b < bl.len(),
        0 <= x < bl[b].len(),
    ensures
        0 <= i < es.len(),
        es[i] == bl[b][x],
{
    reveal(laid_out);
    assert(es.contains(bl[b][x]));
    choose|i: int| 0 <= i < es.len() && es[i] == bl[b][x]
}

proof fn lemma_block_of(bl: Seq<Seq<Entry>>, es: Seq<Entry>, i: int) -> (r: (int, int))
    requires
        laid_out(bl, es),
        0 <= i < es.len(),
    ensures
        0 <= r.0 < bl.len(),
        0 <= r.1 < bl[r.0].len(),
        bl[r.0][r.1] == es[i],
{
    reveal(laid_out);
    choose|b: int, x: int|
        0 <= b < bl.len() && 0 <= x < bl[b].len() && #[trigger] bl[b][x] == es[i]
}

proof fn lemma_nonempty(bl: Seq<Seq<Entry>>, es: Seq<Entry>, b: int)
    requires
        laid_out(bl, es),
        0 <= b < bl.len(),
    ensures
        bl[b].len() > 0,
{
    reveal(laid_out);
}

proof fn lemma_block_order(bl: Seq<Seq<Entry>>, es: Seq<Entry>, b: int, x: int, c: int, y: int)
    requires
        laid_out(bl, es),
        0 <= b < bl.len(),
        0 <= x < bl[b].len(),
        0 <= c < bl.len(),
        0 <= y < bl[c].len(),
        b < c || b == c && x < y,
    ensures
        bytes::lex_lt(bl[b][x].0, bl[c][y].0),
{
    reveal(laid_out);
}

proof fn lemma_block_sorted(bl: Seq<Seq<Entry>>, es: Seq<Entry>, b: int)
    requires
        laid_out(bl, es),
        0 <= b < bl.len(),
    ensures
        sorted(bl[b]),
{
    reveal(laid_out);
}

proof fn lemma_laid_out(es: Seq<Entry>)
    requires
        sorted(es),
    ensures
        laid_out(writer::blocks_of(es), es),
    decreases es.len(),
{
    reveal(laid_out);
    if es.len() > 0 {
        let prev = es.drop_last();
        let e = es.last();
        assert forall|i: int, j: int| 0 <= i < j < prev.len() implies bytes::lex_lt(
            #[trigger] prev[i].0,
            #[trigger] prev[j].0,
        ) by {
            assert(prev[i] == es[i] && prev[j] == es[j]);
        }
        lemma_laid_out(prev);
        let (done, cur) = writer::chunked(prev);
        let old_bl = writer::blocks_of(prev);
        let now = cur.push(e);
        let bl = done.push(now);
        assert(writer::blocks_of(es) =~= bl) by {
            if block::block_bytes(now).len() >= writer::DEFAULT_BLOCK_SIZE {
            } else {
                assert(now.len() > 0);
            }
        }
        assert forall|b: int, x: int|
            0 <= b < bl.len() && 0 <= x < bl[b].len() implies es.contains(#[trigger] bl[b][x]) by {
            if b == done.len() && x == cur.len() {
                assert(es[es.len() - 1] == e);
            } else {
                assert(old_bl[b][x] == bl[b][x]);
                let i = choose|i: int| 0 <= i < prev.len() && prev[i] == bl[b][x];
                assert(es[i] == prev[i]);
            }
        }
        assert forall|b: int, x: int|
            0 <= b < old_bl.len() && 0 <= x < old_bl[b].len() implies bytes::lex_lt(
            (#[trigger] old_bl[b][x]).0,
            e.0,
        ) by {
            let i = choose|i: int| 0 <= i < prev.len() && prev[i] == old_bl[b][x];
            assert(es[i] == prev[i] && es[es.len() - 1] == e);
        }
        assert forall|b: int, x: int, y: int|
            0 <= b < bl.len() && 0 <= x < y < bl[b].len() implies bytes::lex_lt(
            #[trigger] bl[b][x].0,
            #[trigger] bl[b][y].0,
        ) by {
            assert(old_bl[b][x] == bl[b][x]);
            if b == done.len() && y == cur.len() {
            } else {
                assert(old_bl[b][y] == bl[b][y]);
            }
        }
        assert forall|b: int, c: int, x: int, y: int|
            0 <= b < c < bl.len() && 0 <= x < bl[b].len() && 0 <= y
                < bl[c].len() implies bytes::lex_lt(
            #[trigger] bl[b][x].0,
            #[trigger] bl[c][y].0,
        ) by {
            assert(old_bl[b][x] == bl[b][x]);
            if c == done.len() && y == cur.len() {
            } else {
                assert(old_bl[c][y] == bl[c][y]);
            }
        }
        assert forall|i: int| #![trigger es[i]] 0 <= i < es.len() implies exists|b: int, x: int|
            0 <= b < bl.len() && 0 <= x < bl[b].len() && #[trigger] bl[b][x] == es[i] by {
            if i == es.len() - 1 {
                assert(bl[done.len() as int][cur.len() as int] == es[i]);
            } else {
                assert(prev[i] == es[i]);
                let (b, x) = choose|b: int, x: int|
                    0 <= b < old_bl.len() && 0 <= x < old_bl[b].len() && #[trigger] old_bl[b][x]
                        == prev[i];
                assert(bl[b][x] == es[i]);
            }
        }
        assert forall|b: int| 0 <= b < bl.len() implies (#[trigger] bl[b]).len() > 0 by {
            if b < done.len() {
                assert(old_bl[b] == bl[b]);
            }
        }
    }
}

proof fn lemma_checked(body: Seq<u8>, small: Seq<char>, bad: Seq<char>)
    ensures
        reader::checked(body + bytes::be32(checksum::crc_of(body)), small, bad) == Ok::<
            Seq<u8>,
            ErrorView,
        >(body),
{
    let c = checksum::crc_of(body);
    bytes::lemma_be32_len(c);
    let b = body + bytes::be32(c);
    assert(b.take(b.len() - 4) =~= body);
    assert(b.subrange(b.len() - 4, b.len() as int) =~= bytes::be32(c));
    bytes::lemma_u32_at(b, b.len() - 4, c);
}

proof fn lemma_footer(d: Seq<u8>, idx: Seq<u8>, off: u64, ilen: u32, magic: u64)
    requires
        off == d.len(),
        ilen == idx.len(),
    ensures
        ({
            let f = bytes::be64(off) + bytes::be32(ilen) + bytes::be64(magic);
            let data = d + idx + f;
            let p = (d.len() + idx.len()) as int;
            &&& data.len() == p + 20
            &&& bytes::u64_at(data, p) == off
            &&& bytes::u32_at(data, p + 8) == ilen
            &&& bytes::u64_at(data, p + 12) == magic
            &&& reader::read_exact(data, off as nat, ilen as nat) == Ok::<Seq<u8>, ErrorView>(idx)
        }),
{
    bytes::lemma_be64_len(off);
    bytes::lemma_be32_len(ilen);
    bytes::lemma_be64_len(magic);
    let f = bytes::be64(off) + bytes::be32(ilen) + bytes::be64(magic);
    let data = d + idx + f;
    let p = (d.len() + idx.len()) as int;
    assert(data.subrange(p, p + 8) =~= bytes::be64(off));
    bytes::lemma_u64_at(data, p, off);
    assert(data.subrange(p + 8, p + 12) =~= bytes::be32(ilen));
    bytes::lemma_u32_at(data, p + 8, ilen);
    assert(data.subrange(p + 12, p + 20) =~= bytes::be64(magic));
    bytes::lemma_u64_at(data, p + 12, magic);
    assert(data.subrange(off as int, off + ilen) =~= idx);
    if ilen == 0 {
        assert(idx =~= Seq::<u8>::empty());
    }
}

/// A table that was written opens, with the index that was written.
#[verifier::spinoff_prover]
#[verifier::rlimit(60)]
pub proof fn law_table_opens(es: Seq<Entry>, file_no: u64)
    requires
        sorted(es),
        table_fits(es),
    ensures
        reader::table_of(writer::table_bytes(es), file_no) == Ok::<TableView, ErrorView>(
            written(es, file_no),
        ),
{
    lemma_laid_out(es);
    let bl = writer::blocks_of(es);
    let d = writer::data_bytes(bl);
    let idx = writer::index_block(bl);
    lemma_offset_exact(bl);
    let off = writer::offset_of(bl) as u64;
    let ilen = encoding::len32(idx.len());
    lemma_footer(d, idx, off, ilen, writer::FOOTER_MAGIC);
    lemma_checked(
        writer::index_bytes(bl),
        "sstable index too small"@,
        "sstable index crc mismatch"@,
    );
    assert(bl.take(0) =~= Seq::<Seq<Entry>>::empty());
    assert(index_of(bl).skip(0) =~= index_of(bl));
    assert forall|b: int| 0 <= b < bl.len() implies (#[trigger] bl[b])[0].0.len()
        < 0x1_0000_0000 by {
        lemma_nonempty(bl, es, b);
        let i = lemma_in_block(bl, es, b, 0);
        assert(block::entry_fits(es[i]));
    }
    lemma_index_suffix(bl, 0);
}

proof fn lemma_middle(a: Seq<u8>, m: Seq<u8>, z: Seq<u8>, i: Seq<u8>, f: Seq<u8>)
    ensures
        reader::read_exact((a + m + z) + i + f, a.len(), m.len()) == Ok::<Seq<u8>, ErrorView>(m),
{
    let data = (a + m + z) + i + f;
    assert(data.subrange(a.len() as int, (a.len() + m.len()) as int) =~= m);
    if m.len() == 0 {
        assert(m =~= Seq::<u8>::empty());
    }
}

/// Where a block lies in the file.
#[verifier::spinoff_prover]
#[verifier::rlimit(40)]
proof fn lemma_block_section(bl: Seq<Seq<Entry>>, i: Seq<u8>, f: Seq<u8>, b: int)
    requires
        0 <= b < bl.len(),
        forall|j: int|
            0 <= j < bl.len() ==> writer::disk_block(#[trigger] bl[j]).len() < 0x1_0000_0000,
        writer::data_bytes(bl).len() <= u64::MAX,
    ensures
        reader::read_exact(
            writer::data_bytes(bl) + i + f,
            index_of(bl)[b].offset as nat,
            index_of(bl)[b].len as nat,
        ) == Ok::<Seq<u8>, ErrorView>(writer::disk_block(bl[b])),
{
    let t = bl.take(b);
    assert forall|j: int| 0 <= j < t.len() implies writer::disk_block(#[trigger] t[j]).len()
        < 0x1_0000_0000 by {
        assert(t[j] == bl[j]);
    }
    lemma_offset_exact(t);
    let after = lemma_data_prefix(bl, b);
    lemma_middle(writer::data_bytes(t), writer::disk_block(bl[b]), after, i, f);
}

/// What a block holds.
proof fn lemma_block_body(b: Seq<Entry>)
    requires
        forall|x: int| 0 <= x < b.len() ==> block::entry_fits(#[trigger] b[x]),
    ensures
        reader::checked(
            writer::disk_block(b),
            "sstable block too small"@,
            "sstable block crc mismatch"@,
        ) == Ok::<Seq<u8>, ErrorView>(block::block_bytes(b)),
        block::entries_from(block::block_bytes(b), 0) == b,
{
    lemma_checked(
        block::block_bytes(b),
        "sstable block too small"@,
        "sstable block crc mismatch"@,
    );
    block::law_block_roundtrip(b);
}

proof fn lemma_block_reads(es: Seq<Entry>, file_no: u64, b: int)
    requires
        sorted(es),
        table_fits(es),
        0 <= b < writer::blocks_of(es).len(),
    ensures
        written(es, file_no).block(b) == Ok::<Seq<Entry>, ErrorView>(writer::blocks_of(es)[b]),
{
    lemma_laid_out(es);
    let bl = writer::blocks_of(es);
    lemma_block_section(bl, writer::index_block(bl), writer::footer(bl), b);
    assert forall|x: int| 0 <= x < bl[b].len() implies block::entry_fits(
        #[trigger] bl[b][x],
    ) by {
        let i = lemma_in_block(bl, es, b, x);
        assert(block::entry_fits(es[i]));
    }
    lemma_block_body(bl[b]);
}

proof fn lemma_split(index: Seq<IndexView>, sk: Seq<u8>, lo: int, hi: int)
    requires
        0 <= lo <= hi <= index.len(),
        forall|i: int, j: int|
            0 <= i < j < index.len() ==> bytes::lex_lt(
                #[trigger] index[i].first_key,
                #[trigger] index[j].first_key,
            ),
        forall|i: int| 0 <= i < lo ==> bytes::lex_le(#[trigger] index[i].first_key, sk),
        forall|i: int|
            hi <= i < index.len() ==> !bytes::lex_le(#[trigger] index[i].first_key, sk),
    ensures
        0 <= reader::split_point(index, sk, lo, hi) <= index.len(),
        forall|i: int|
            0 <= i < reader::split_point(index, sk, lo, hi) ==> bytes::lex_le(
                #[trigger] index[i].first_key,
                sk,
            ),
        forall|i: int|
            reader::split_point(index, sk, lo, hi) <= i < index.len() ==> !bytes::lex_le(
                #[trigger] index[i].first_key,
                sk,
            ),
    decreases hi - lo,
{
    if lo < hi {
        let mid = lo + (hi - lo) / 2;
        if bytes::lex_le(index[mid].first_key, sk) {
            assert forall|i: int| 0 <= i < mid + 1 implies bytes::lex_le(
                #[trigger] index[i].first_key,
                sk,
            ) by {
                bytes::lemma_lex_facts(index[i].first_key, index[mid].first_key, sk);
            }
            lemma_split(index, sk, mid + 1, hi);
        } else {
            assert forall|i: int| mid <= i < index.len() implies !bytes::lex_le(
                #[trigger] index[i].first_key,
                sk,
            ) by {
                if i > mid {
                    bytes::lemma_lex_facts(index[mid].first_key, index[i].first_key, sk);
                }
            }
            lemma_split(index, sk, lo, mid);
        }
    }
}

proof fn lemma_first_at_least(es: Seq<Entry>, sk: Seq<u8>, from: int)
    requires
        0 <= from <= es.len(),
        sorted(es),
        forall|i: int| 0 <= i < from ==> !bytes::lex_le(sk, #[trigger] es[i].0),
    ensures
        0 <= reader::first_at_least(es, sk, from) <= es.len(),
        forall|i: int|
            0 <= i < reader::first_at_least(es, sk, from) ==> !bytes::lex_le(
                sk,
                #[trigger] es[i].0,
            ),
        forall|i: int|
            reader::first_at_least(es, sk, from) <= i < es.len() ==> bytes::lex_le(
                sk,
                #[trigger] es[i].0,
            ),
    decreases es.len() - from,
{
    if from < es.len() {
        if bytes::lex_le(sk, es[from].0) {
            assert forall|i: int| from <= i < es.len() implies bytes::lex_le(
                sk,
                #[trigger] es[i].0,
            ) by {
                if i > from {
                    assert(bytes::lex_lt(es[from].0, es[i].0));
                    bytes::lemma_lex_facts(sk, es[from].0, es[i].0);
                    bytes::lemma_lex_facts(es[from].0, es[i].0, sk);
                }
            }
        } else {
            lemma_first_at_least(es, sk, from + 1);
        }
    }
}

/// The number of blocks that start at or before `sk` splits the index there.
proof fn lemma_table_split(es: Seq<Entry>, file_no: u64, sk: Seq<u8>)
    requires
        sorted(es),
    ensures
        0 <= written(es, file_no).split(sk) <= writer::blocks_of(es).len(),
        forall|b: int|
            #![trigger writer::blocks_of(es)[b]]
            0 <= b < written(es, file_no).split(sk) ==> bytes::lex_le(
                writer::blocks_of(es)[b][0].0,
                sk,
            ),
        forall|b: int|
            #![trigger writer::blocks_of(es)[b]]
            written(es, file_no).split(sk) <= b < writer::blocks_of(es).len() ==> !bytes::lex_le(
                writer::blocks_of(es)[b][0].0,
                sk,
            ),
{
    lemma_laid_out(es);
    let bl = writer::blocks_of(es);
    let index = index_of(bl);
    assert forall|i: int, j: int| 0 <= i < j < index.len() implies bytes::lex_lt(
        #[trigger] index[i].first_key,
        #[trigger] index[j].first_key,
    ) by {
        lemma_nonempty(bl, es, i);
        lemma_nonempty(bl, es, j);
        lemma_block_order(bl, es, i, 0, j, 0);
    }
    lemma_split(index, sk, 0, index.len() as int);
    let pp = written(es, file_no).split(sk);
    assert forall|b: int| #![trigger bl[b]] 0 <= b < pp implies bytes::lex_le(bl[b][0].0, sk) by {
        assert(index[b].first_key == bl[b][0].0);
    }
    assert forall|b: int| #![trigger bl[b]] pp <= b < bl.len() implies !bytes::lex_le(
        bl[b][0].0,
        sk,
    ) by {
        assert(index[b].first_key == bl[b][0].0);
    }
}

proof fn lemma_entry_value(t: Tables, e: Entry, cf: Cf)
    requires
        e.0.len() > 0,
        e.0[0] == cf.id_spec(),
        Cf::of_u8(e.0[0]) == Some(cf),
        e.1 == keys::tagged(t.of(cf)[e.0.skip(1)]),
    ensures
        reader::entry_value(e.1) == Ok::<Option<Seq<u8>>, ErrorView>(t.of(cf)[e.0.skip(1)]),
{
    keys::law_tagged_roundtrip(t.of(cf)[e.0.skip(1)]);
}

/// A point lookup in a written table finds exactly what was written.
pub proof fn law_table_get(es: Seq<Entry>, t: Tables, file_no: u64, cf: Cf, key: Seq<u8>)
    requires
        describes(es, t),
        table_fits(es),
    ensures
        written(es, file_no).get(cf, key) == Ok::<Option<Option<Seq<u8>>>, ErrorView>(
            entry_of(t.of(cf), key),
        ),
{
    let sk = reader::storage_key(cf, key);
    let bl = writer::blocks_of(es);
    lemma_described_sorted(es, t);
    lemma_laid_out(es);
    lemma_table_split(es, file_no, sk);
    let pp = written(es, file_no).split(sk);
    assert(sk.skip(1) =~= key);
    if t.of(cf).contains_key(key) {
        let i = lemma_found(es, t, cf, key);
        lemma_described(es, t, i);
        let (b, x) = lemma_block_of(bl, es, i);
        lemma_hit_block(es, file_no, sk, b, x);
        lemma_block_reads(es, file_no, b);
        lemma_block_sorted(bl, es, b);
        lemma_first_at_least(bl[b], sk, 0);
        let p = reader::first_at_least(bl[b], sk, 0);
        bytes::lemma_lex_facts(sk, sk, sk);
        if p < x {
            assert(bytes::lex_lt(bl[b][p].0, bl[b][x].0));
            bytes::lemma_lex_facts(bl[b][p].0, sk, sk);
        }
        assert(p == x);
        keys::law_cf_roundtrip(cf);
        assert(es[i].0.skip(1) =~= key);
        lemma_entry_value(t, es[i], cf);
    } else if pp > 0 {
        let b = pp - 1;
        lemma_block_reads(es, file_no, b);
        lemma_block_sorted(bl, es, b);
        lemma_first_at_least(bl[b], sk, 0);
        let p = reader::first_at_least(bl[b], sk, 0);
        if p < bl[b].len() && bl[b][p].0 == sk {
            let i = lemma_in_block(bl, es, b, p);
            lemma_described(es, t, i);
            assert(es[i].0.skip(1) =~= key);
            keys::law_cf_roundtrip(cf);
            assert(false);
        }
    }
}

/// The block that holds a key is the last one that starts at or before it.
proof fn lemma_hit_block(es: Seq<Entry>, file_no: u64, sk: Seq<u8>, b: int, x: int)
    requires
        sorted(es),
        0 <= b < writer::blocks_of(es).len(),
        0 <= x < writer::blocks_of(es)[b].len(),
        writer::blocks_of(es)[b][x].0 == sk,
    ensures
        b == written(es, file_no).split(sk) - 1,
{
    let bl = writer::blocks_of(es);
    lemma_laid_out(es);
    lemma_table_split(es, file_no, sk);
    let pp = written(es, file_no).split(sk);
    if b >= pp {
        bytes::lemma_lex_facts(bl[b][0].0, sk, sk);
        if x > 0 {
            lemma_block_order(bl, es, b, 0, b, x);
        }
    }
    if b < pp - 1 {
        lemma_nonempty(bl, es, pp - 1);
        lemma_block_order(bl, es, b, x, pp - 1, 0);
        bytes::lemma_lex_facts(sk, bl[pp - 1][0].0, sk);
    }
}

/// Storage keys of one family order as the family's keys do.
pub proof fn lemma_storage_order(cf: Cf, a: Seq<u8>, b: Seq<u8>)
    ensures
        bytes::lex_le(reader::storage_key(cf, a), reader::storage_key(cf, b)) <==> bytes::lex_le(
            a,
            b,
        ),
        reader::storage_key(cf, a) == reader::storage_key(cf, b) <==> a == b,
{
    bytes::lemma_lex_common_prefix(seq![cf.id_spec()], a, b);
    assert(reader::storage_key(cf, a).skip(1) =~= a);
    assert(reader::storage_key(cf, b).skip(1) =~= b);
}

/// A storage key of a later family is behind every storage key of an earlier one.
proof fn lemma_family_order(sk: Seq<u8>, e: Seq<u8>)
    requires
        sk.len() > 0,
        e.len() > 0,
        bytes::lex_le(sk, e),
    ensures
        e[0] >= sk[0],
{
}

proof fn lemma_family_before(a: Seq<u8>, b: Seq<u8>)
    requires
        a.len() > 0,
        b.len() > 0,
        a[0] < b[0],
    ensures
        bytes::lex_lt(a, b),
{
}

/// Every key of the family at or behind `from` is at or behind the first entry that the scan
/// meets.
proof fn lemma_scan_least(
    es: Seq<Entry>,
    t: Tables,
    cf: Cf,
    from: Seq<u8>,
    bi: int,
    p: int,
    k: Seq<u8>,
)
    requires
        describes(es, t),
        laid_out(writer::blocks_of(es), es),
        0 <= bi < writer::blocks_of(es).len(),
        0 <= p < writer::blocks_of(es)[bi].len(),
        forall|b: int, x: int|
            0 <= b < bi && 0 <= x < writer::blocks_of(es)[b].len() ==> !bytes::lex_le(
                reader::storage_key(cf, from),
                #[trigger] writer::blocks_of(es)[b][x].0,
            ),
        forall|x: int|
            0 <= x < p ==> !bytes::lex_le(
                reader::storage_key(cf, from),
                #[trigger] writer::blocks_of(es)[bi][x].0,
            ),
        t.of(cf).contains_key(k),
        bytes::lex_le(from, k),
    ensures
        bytes::lex_le(writer::blocks_of(es)[bi][p].0, reader::storage_key(cf, k)),
{
    let bl = writer::blocks_of(es);
    let key = reader::storage_key(cf, k);
    lemma_storage_order(cf, from, k);
    let j = lemma_found(es, t, cf, k);
    let (b, x) = lemma_block_of(bl, es, j);
    assert(bl[b][x].0 == key);
    if b == bi && x == p {
        bytes::lemma_lex_facts(key, key, key);
    } else {
        lemma_block_order(bl, es, bi, p, b, x);
        bytes::lemma_lex_facts(bl[bi][p].0, key, key);
    }
}

#[verifier::spinoff_prover]
#[verifier::rlimit(40)]
proof fn lemma_seek_from(es: Seq<Entry>, t: Tables, file_no: u64, cf: Cf, from: Seq<u8>, bi: int)
    requires
        describes(es, t),
        table_fits(es),
        0 <= bi <= writer::blocks_of(es).len(),
        forall|b: int, x: int|
            0 <= b < bi && 0 <= x < writer::blocks_of(es)[b].len() ==> !bytes::lex_le(
                reader::storage_key(cf, from),
                #[trigger] writer::blocks_of(es)[b][x].0,
            ),
    ensures
        written(es, file_no).seek_from(cf, reader::storage_key(cf, from), bi) == Ok::<
            Option<(Seq<u8>, Option<Seq<u8>>)>,
            ErrorView,
        >(memtable::seek_in(t.of(cf), from)),
    decreases writer::blocks_of(es).len() - bi,
{
    let sk = reader::storage_key(cf, from);
    let bl = writer::blocks_of(es);
    let m = t.of(cf);
    lemma_described_sorted(es, t);
    lemma_laid_out(es);
    if bi >= bl.len() {
        if exists|k: Seq<u8>| memtable::is_least(m, from, k) {
            let k = choose|k: Seq<u8>| memtable::is_least(m, from, k);
            let i = lemma_found(es, t, cf, k);
            let (b, x) = lemma_block_of(bl, es, i);
            lemma_storage_order(cf, from, k);
            assert(!bytes::lex_le(sk, bl[b][x].0));
            assert(false);
        }
    } else {
        lemma_block_reads(es, file_no, bi);
        lemma_block_sorted(bl, es, bi);
        lemma_first_at_least(bl[bi], sk, 0);
        let p = reader::first_at_least(bl[bi], sk, 0);
        if p >= bl[bi].len() {
            lemma_seek_from(es, t, file_no, cf, from, bi + 1);
        } else {
            let e = bl[bi][p];
            let i = lemma_in_block(bl, es, bi, p);
            lemma_described(es, t, i);
            if e.0[0] == cf.id_spec() {
                keys::law_cf_roundtrip(cf);
                let k = e.0.skip(1);
                assert(reader::storage_key(cf, k) =~= e.0);
                lemma_storage_order(cf, from, k);
                assert forall|o: Seq<u8>|
                    #[trigger] m.contains_key(o) && bytes::lex_le(from, o) implies bytes::lex_le(
                    k,
                    o,
                ) by {
                    lemma_scan_least(es, t, cf, from, bi, p, o);
                    lemma_storage_order(cf, k, o);
                }
                memtable::lemma_seek_in(m, from, k);
                lemma_entry_value(t, es[i], cf);
            } else {
                lemma_family_order(sk, e.0);
                if exists|k: Seq<u8>| memtable::is_least(m, from, k) {
                    let k = choose|k: Seq<u8>| memtable::is_least(m, from, k);
                    let key = reader::storage_key(cf, k);
                    lemma_scan_least(es, t, cf, from, bi, p, k);
                    lemma_family_before(key, e.0);
                    assert(false);
                }
            }
        }
    }
}

/// A forward seek in a written table finds exactly the next key that was written.
pub proof fn law_table_seek(es: Seq<Entry>, t: Tables, file_no: u64, cf: Cf, from: Seq<u8>)
    requires
        describes(es, t),
        table_fits(es),
    ensures
        written(es, file_no).seek(cf, from) == Ok::<
            Option<(Seq<u8>, Option<Seq<u8>>)>,
            ErrorView,
        >(memtable::seek_in(t.of(cf), from)),
{
    let sk = reader::storage_key(cf, from);
    let bl = writer::blocks_of(es);
    lemma_described_sorted(es, t);
    lemma_laid_out(es);
    lemma_table_split(es, file_no, sk);
    let pp = written(es, file_no).split(sk);
    let bi = if pp == 0 {
        0
    } else {
        pp - 1
    };
    assert forall|b: int, x: int| 0 <= b < bi && 0 <= x < bl[b].len() implies !bytes::lex_le(
        sk,
        #[trigger] bl[b][x].0,
    ) by {
        lemma_nonempty(bl, es, pp - 1);
        lemma_block_order(bl, es, b, x, pp - 1, 0);
        bytes::lemma_lex_facts(bl[b][x].0, bl[pp - 1][0].0, sk);
    }
    lemma_seek_from(es, t, file_no, cf, from, bi);
}

/// The entries of the three families, in storage-key order.
pub open spec fn entries_of(t: Tables) -> Seq<Entry> {
    choose|es: Seq<Entry>| describes(es, t)
}

proof fn lemma_agree(a: Seq<Entry>, b: Seq<Entry>, t: Tables, i: int)
    requires
        describes(a, t),
        describes(b, t),
        0 <= i < a.len(),
    ensures
        i < b.len(),
        a[i] == b[i],
    decreases i,
{
    lemma_described_sorted(a, t);
    lemma_described_sorted(b, t);
    lemma_listed(a, b, t, i);
    let j = choose|j: int| 0 <= j < b.len() && b[j] == a[i];
    if j < i {
        lemma_agree(a, b, t, j);
        assert(bytes::lex_lt(a[j].0, a[i].0));
        bytes::lemma_lex_irreflexive(a[i].0);
    } else if j > i {
        lemma_listed(b, a, t, i);
        let k = choose|k: int| 0 <= k < a.len() && a[k] == b[i];
        assert(bytes::lex_lt(b[i].0, b[j].0));
        if k < i {
            lemma_agree(a, b, t, k);
            assert(bytes::lex_lt(b[k].0, b[i].0));
            bytes::lemma_lex_irreflexive(b[i].0);
        } else {
            if k > i {
                assert(bytes::lex_lt(a[i].0, a[k].0));
            }
            bytes::lemma_lex_facts(a[i].0, b[i].0, a[i].0);
            bytes::lemma_lex_total(a[i].0, b[i].0);
            bytes::lemma_lex_irreflexive(a[i].0);
        }
    }
}

proof fn lemma_listed(a: Seq<Entry>, b: Seq<Entry>, t: Tables, i: int)
    requires
        describes(a, t),
        describes(b, t),
        0 <= i < a.len(),
    ensures
        exists|j: int| 0 <= j < b.len() && b[j] == a[i],
{
    let e = a[i];
    lemma_described(a, t, i);
    let cf = Cf::of_u8(e.0[0]).unwrap();
    let k = e.0.skip(1);
    assert(reader::storage_key(cf, k) =~= e.0);
    let j = lemma_found(b, t, cf, k);
    lemma_described(b, t, j);
    assert(b[j].0.skip(1) =~= k);
    assert(b[j] == e);
}

/// There is one such list of entries.
pub proof fn lemma_entries_of(es: Seq<Entry>, t: Tables)
    requires
        describes(es, t),
    ensures
        entries_of(t) == es,
        describes(entries_of(t), t),
{
    let c = entries_of(t);
    assert(describes(c, t));
    assert forall|i: int| 0 <= i < es.len() implies i < c.len() && es[i] == c[i] by {
        lemma_agree(es, c, t, i);
    }
    if c.len() > es.len() {
        lemma_agree(c, es, t, es.len() as int);
    }
    if es.len() > 0 {
        lemma_agree(es, c, t, es.len() - 1);
    }
    assert(es =~= c);
}

} // verus!
