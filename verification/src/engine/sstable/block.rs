//! The data-block entry codec.
//!
//! A data block is a run of `[klen:u32][key][vlen:u32][value]` entries in ascending key order.
//! Keys here are *storage keys* (family id, then the family's key) and values are encoded
//! [`crate::engine::memtable::MemValue`]s.

use vstd::prelude::*;
use crate::bytes;
use crate::engine::encoding;

verus! {

/// A key and a value.
pub type Entry = (Seq<u8>, Seq<u8>);

/// One entry's bytes.
pub open spec fn entry_bytes(e: Entry) -> Seq<u8> {
    encoding::length_prefixed(e.0) + encoding::length_prefixed(e.1)
}

/// The bytes of a run of entries.
pub open spec fn block_bytes(es: Seq<Entry>) -> Seq<u8>
    decreases es.len(),
{
    if es.len() == 0 {
        Seq::empty()
    } else {
        block_bytes(es.drop_last()) + entry_bytes(es.last())
    }
}

/// The entry at `pos` and the position behind it.
pub open spec fn entry_at(b: Seq<u8>, pos: int) -> Option<(Entry, int)> {
    match encoding::length_prefixed_at(b, pos) {
        Some((k, p)) => match encoding::length_prefixed_at(b, p) {
            Some((v, q)) => Some(((k, v), q)),
            None => None,
        },
        None => None,
    }
}

/// The entries from `pos` on, up to the first one that is cut short.
pub open spec fn entries_from(b: Seq<u8>, pos: int) -> Seq<Entry>
    decreases b.len() - pos,
{
    match entry_at(b, pos) {
        Some((e, next)) => seq![e] + entries_from(b, next),
        None => Seq::empty(),
    }
}

/// Whether both lengths fit their prefixes.
pub open spec fn entry_fits(e: Entry) -> bool {
    e.0.len() < 0x1_0000_0000 && e.1.len() < 0x1_0000_0000
}

/// Entries with keys and values as sequences.
pub open spec fn entry_views(s: Seq<(Vec<u8>, Vec<u8>)>) -> Seq<Entry> {
    Seq::new(s.len(), |i: int| (s[i].0@, s[i].1@))
}

/// Append one entry to an in-progress block.
pub fn encode_entry(buf: &mut Vec<u8>, key: &[u8], value: &[u8])
    ensures
        final(buf)@ == old(buf)@ + entry_bytes((key@, value@)),
{
    let ghost before = buf@;
    encoding::put_length_prefixed(buf, key);
    encoding::put_length_prefixed(buf, value);
    assert(buf@ =~= before + entry_bytes((key@, value@)));
}

/// Read the entry at `*pos` and advance `*pos` past it.
fn next_entry(block: &[u8], pos: &mut usize) -> (r: Option<(Vec<u8>, Vec<u8>)>)
    requires
        *old(pos) <= block@.len(),
    ensures
        match r {
            Some((k, v)) => entry_at(block@, *old(pos) as int) == Some(
                ((k@, v@), *final(pos) as int),
            ) && *old(pos) < *final(pos) <= block@.len(),
            None => entry_at(block@, *old(pos) as int) is None,
        },
{
    if block.len() - *pos < 4 {
        return None;
    }
    match encoding::get_length_prefixed(block, pos) {
        Some(k) => {
            if block.len() - *pos < 4 {
                return None;
            }
            match encoding::get_length_prefixed(block, pos) {
                Some(v) => Some((bytes::copy(k), bytes::copy(v))),
                None => None,
            }
        },
        None => None,
    }
}

/// The `(key, value)` entries of a data block whose checksum was already stripped.
pub fn entries(block: &[u8]) -> (r: Vec<(Vec<u8>, Vec<u8>)>)
    ensures
        entry_views(r@) == entries_from(block@, 0),
{
    let mut out: Vec<(Vec<u8>, Vec<u8>)> = Vec::new();
    let mut pos: usize = 0;
    assert(entry_views(out@) + entries_from(block@, 0) =~= entries_from(block@, 0));
    loop
        invariant
            pos <= block@.len(),
            entry_views(out@) + entries_from(block@, pos as int) == entries_from(block@, 0),
        decreases block@.len() - pos,
    {
        let ghost start = pos as int;
        let ghost done = entry_views(out@);
        match next_entry(block, &mut pos) {
            Some((k, v)) => {
                out.push((k, v));
                assert(entry_views(out@) =~= done.push((k@, v@)));
                assert(entry_views(out@) + entries_from(block@, pos as int) =~= done + (
                seq![(k@, v@)] + entries_from(block@, pos as int)));
            },
            None => {
                assert(done + entries_from(block@, start) =~= done);
                return out;
            },
        }
    }
}

proof fn lemma_entry_roundtrip(before: Seq<u8>, e: Entry, after: Seq<u8>)
    requires
        entry_fits(e),
    ensures
        entry_at(before + entry_bytes(e) + after, before.len() as int) == Some(
            (e, (before.len() + entry_bytes(e).len()) as int),
        ),
{
    let s = before + entry_bytes(e) + after;
    let rest = encoding::length_prefixed(e.1) + after;
    assert(s =~= before + encoding::length_prefixed(e.0) + rest);
    encoding::law_length_prefixed_roundtrip(before, e.0, rest);
    let head = before + encoding::length_prefixed(e.0);
    assert(s =~= head + encoding::length_prefixed(e.1) + after);
    encoding::law_length_prefixed_roundtrip(head, e.1, after);
}

proof fn lemma_block_prefix(es: Seq<Entry>, k: int) -> (after: Seq<u8>)
    requires
        0 <= k < es.len(),
    ensures
        block_bytes(es) == block_bytes(es.take(k)) + entry_bytes(es[k]) + after,
    decreases es.len() - k,
{
    assert(es.take(k + 1).drop_last() =~= es.take(k));
    if k + 1 == es.len() {
        assert(es.take(k + 1) =~= es);
        assert(block_bytes(es) =~= block_bytes(es.take(k)) + entry_bytes(es[k])
            + Seq::<u8>::empty());
        Seq::empty()
    } else {
        let after = lemma_block_prefix(es, k + 1);
        assert(block_bytes(es) =~= block_bytes(es.take(k)) + entry_bytes(es[k]) + (entry_bytes(
            es[k + 1],
        ) + after));
        entry_bytes(es[k + 1]) + after
    }
}

proof fn lemma_entries_suffix(es: Seq<Entry>, k: int)
    requires
        0 <= k <= es.len(),
        forall|i: int| 0 <= i < es.len() ==> entry_fits(#[trigger] es[i]),
    ensures
        entries_from(block_bytes(es), block_bytes(es.take(k)).len() as int) == es.skip(k),
    decreases es.len() - k,
{
    let b = block_bytes(es);
    if k == es.len() {
        assert(es.take(k) =~= es);
        assert(es.skip(k) =~= Seq::<Entry>::empty());
    } else {
        let after = lemma_block_prefix(es, k);
        lemma_entry_roundtrip(block_bytes(es.take(k)), es[k], after);
        assert(es.take(k + 1).drop_last() =~= es.take(k));
        lemma_entries_suffix(es, k + 1);
        assert(es.skip(k) =~= seq![es[k]] + es.skip(k + 1));
    }
}

/// The entries of a block read back, as long as their lengths fit.
pub proof fn law_block_roundtrip(es: Seq<Entry>)
    requires
        forall|i: int| 0 <= i < es.len() ==> entry_fits(#[trigger] es[i]),
    ensures
        entries_from(block_bytes(es), 0) == es,
{
    assert(es.take(0) =~= Seq::<Entry>::empty());
    assert(es.skip(0) =~= es);
    lemma_entries_suffix(es, 0);
}

} // verus!
