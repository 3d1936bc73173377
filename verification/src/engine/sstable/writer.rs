//! The table writer.
//!
//! Layout:
//!
//! ```text
//! [data block 0][data block 1] ... [data block N][index block][footer]
//! ```
//!
//! * **data block** = the entries, then their checksum.
//! * **index block** = one `[first_key (length-prefixed)][offset:u64][len:u32]` per data block,
//!   then the checksum of all of that. `len` is the data block's length *including* its checksum.
//! * **footer** (20 bytes) = `[index_offset:u64][index_len:u32][magic:u64]`.
//!
//! Keys are to be added in ascending order (the engine feeds Default, Write, Lock, each already
//! sorted, with a one-byte family prefix making the union sorted).

use vstd::prelude::*;
use crate::bytes;
use crate::engine::checksum;
use crate::engine::encoding;
use crate::engine::sstable::block;
use crate::engine::sstable::block::Entry;

verus! {

/// The last eight bytes of a table.
pub const FOOTER_MAGIC: u64 = 0x5353_5442_5f56_3031;

/// The length of the footer.
pub const FOOTER_LEN: usize = 20;

/// A data block is closed once its entries take this many bytes.
pub const DEFAULT_BLOCK_SIZE: usize = 4096;

/// How entries fall into blocks: the closed blocks, and the entries of the open one.
pub open spec fn chunked(es: Seq<Entry>) -> (Seq<Seq<Entry>>, Seq<Entry>)
    decreases es.len(),
{
    if es.len() == 0 {
        (Seq::empty(), Seq::empty())
    } else {
        let (done, cur) = chunked(es.drop_last());
        let now = cur.push(es.last());
        if block::block_bytes(now).len() >= DEFAULT_BLOCK_SIZE {
            (done.push(now), Seq::empty())
        } else {
            (done, now)
        }
    }
}

/// The blocks of a table.
pub open spec fn blocks_of(es: Seq<Entry>) -> Seq<Seq<Entry>> {
    let (done, cur) = chunked(es);
    if cur.len() == 0 {
        done
    } else {
        done.push(cur)
    }
}

/// A block with its checksum.
pub open spec fn disk_block(es: Seq<Entry>) -> Seq<u8> {
    block::block_bytes(es) + bytes::be32(checksum::crc_of(block::block_bytes(es)))
}

/// The data blocks, one after another.
pub open spec fn data_bytes(blocks: Seq<Seq<Entry>>) -> Seq<u8>
    decreases blocks.len(),
{
    if blocks.len() == 0 {
        Seq::empty()
    } else {
        data_bytes(blocks.drop_last()) + disk_block(blocks.last())
    }
}

/// The offset behind the blocks, as the index counts it.
pub open spec fn offset_of(blocks: Seq<Seq<Entry>>) -> nat
    decreases blocks.len(),
{
    if blocks.len() == 0 {
        0
    } else {
        offset_of(blocks.drop_last()) + encoding::len32(disk_block(blocks.last()).len()) as nat
    }
}

/// One index entry.
pub open spec fn index_entry(first_key: Seq<u8>, offset: u64, len: u32) -> Seq<u8> {
    encoding::length_prefixed(first_key) + bytes::be64(offset) + bytes::be32(len)
}

/// The index entries, one after another.
pub open spec fn index_bytes(blocks: Seq<Seq<Entry>>) -> Seq<u8>
    decreases blocks.len(),
{
    if blocks.len() == 0 {
        Seq::empty()
    } else {
        index_bytes(blocks.drop_last()) + index_entry(
            blocks.last()[0].0,
            offset_of(blocks.drop_last()) as u64,
            encoding::len32(disk_block(blocks.last()).len()),
        )
    }
}

/// The index block: its entries and their checksum.
pub open spec fn index_block(blocks: Seq<Seq<Entry>>) -> Seq<u8> {
    index_bytes(blocks) + bytes::be32(checksum::crc_of(index_bytes(blocks)))
}

/// The footer.
pub open spec fn footer(blocks: Seq<Seq<Entry>>) -> Seq<u8> {
    bytes::be64(offset_of(blocks) as u64) + bytes::be32(
        encoding::len32(index_block(blocks).len()),
    ) + bytes::be64(FOOTER_MAGIC)
}

/// A table's bytes.
pub open spec fn table_bytes(es: Seq<Entry>) -> Seq<u8> {
    data_bytes(blocks_of(es)) + index_block(blocks_of(es)) + footer(blocks_of(es))
}

/// Builds a table from entries.
pub struct SstWriter {
    out: Vec<u8>,
    offset: u64,
    block: Vec<u8>,
    cur_first_key: Option<Vec<u8>>,
    index: Vec<u8>,
    added: Ghost<Seq<Entry>>,
}

impl View for SstWriter {
    type V = Seq<Entry>;

    /// The entries added so far.
    closed spec fn view(&self) -> Seq<Entry> {
        self.added@
    }
}

impl SstWriter {
    spec fn holds(&self, done: Seq<Seq<Entry>>, cur: Seq<Entry>) -> bool {
        &&& self.out@ == data_bytes(done)
        &&& self.offset == offset_of(done)
        &&& self.index@ == index_bytes(done)
        &&& self.block@ == block::block_bytes(cur)
        &&& cur.len() > 0 ==> (self.cur_first_key matches Some(k) && k@ == cur[0].0)
    }

    /// The writer holds the blocks of what was added.
    pub closed spec fn wf(&self) -> bool {
        self.holds(chunked(self.added@).0, chunked(self.added@).1)
    }

    /// A table without entries.
    pub fn create() -> (w: SstWriter)
        ensures
            w.wf(),
            w@ == Seq::<Entry>::empty(),
    {
        SstWriter {
            out: Vec::new(),
            offset: 0,
            block: Vec::new(),
            cur_first_key: None,
            index: Vec::new(),
            added: Ghost(Seq::empty()),
        }
    }

    /// Append an entry. The reader finds entries that were added in ascending key order.
    pub fn add(&mut self, key: &[u8], value: &[u8])
        requires
            old(self).wf(),
        ensures
            final(self).wf(),
            final(self)@ == old(self)@.push((key@, value@)),
    {
        let ghost es = self.added@;
        let ghost (done, cur) = chunked(es);
        let ghost now = cur.push((key@, value@));
        proof {
            lemma_block_empty(cur);
            assert(es.push((key@, value@)).drop_last() =~= es);
            assert(now.drop_last() =~= cur);
        }
        if self.block.len() == 0 {
            self.cur_first_key = Some(bytes::copy(key));
        }
        block::encode_entry(&mut self.block, key, value);
        assert(self.holds(done, now));
        if self.block.len() >= DEFAULT_BLOCK_SIZE {
            self.flush_block(Ghost(done), Ghost(now));
        }
        self.added = Ghost(es.push((key@, value@)));
    }

    fn flush_block(&mut self, done: Ghost<Seq<Seq<Entry>>>, cur: Ghost<Seq<Entry>>)
        requires
            old(self).holds(done@, cur@),
        ensures
            final(self).holds(
                if cur@.len() == 0 {
                    done@
                } else {
                    done@.push(cur@)
                },
                Seq::empty(),
            ),
            final(self).added == old(self).added,
    {
        proof {
            lemma_block_empty(cur@);
        }
        if self.block.len() == 0 {
            return ;
        }
        let c: u32 = checksum::crc(self.block.as_slice());
        bytes::put_u32(&mut self.block, c);
        let len: u32 = encoding::low32(self.block.len());
        assert(self.block@ =~= disk_block(cur@));
        bytes::push_all(&mut self.out, self.block.as_slice());
        let total: usize = self.out.len();
        let first = self.cur_first_key.take();
        let ghost blocks = done@.push(cur@);
        proof {
            assert(blocks.drop_last() =~= done@);
            lemma_offset_bound(blocks);
            assert(self.out@ =~= data_bytes(blocks));
            assert(offset_of(blocks) <= total);
        }
        match first {
            Some(k) => {
                encoding::put_length_prefixed(&mut self.index, k.as_slice());
                bytes::put_u64(&mut self.index, self.offset);
                bytes::put_u32(&mut self.index, len);
                assert(self.index@ =~= index_bytes(blocks));
            },
            None => {},
        }
        self.offset = self.offset + len as u64;
        self.block.clear();
    }

    /// Close the last block and append the index and the footer.
    pub fn finish(self) -> (r: Vec<u8>)
        requires
            self.wf(),
        ensures
            r@ == table_bytes(self@),
    {
        let mut w = self;
        let ghost (done, cur) = chunked(w.added@);
        w.flush_block(Ghost(done), Ghost(cur));
        let ghost blocks = blocks_of(self@);
        let mut idx: Vec<u8> = w.index;
        let c: u32 = checksum::crc(idx.as_slice());
        bytes::put_u32(&mut idx, c);
        assert(idx@ =~= index_block(blocks));
        let mut out: Vec<u8> = w.out;
        let index_len: u32 = encoding::low32(idx.len());
        bytes::push_all(&mut out, idx.as_slice());
        bytes::put_u64(&mut out, w.offset);
        bytes::put_u32(&mut out, index_len);
        bytes::put_u64(&mut out, FOOTER_MAGIC);
        assert(out@ =~= table_bytes(self@));
        out
    }
}

proof fn lemma_block_empty(es: Seq<Entry>)
    ensures
        block::block_bytes(es).len() == 0 <==> es.len() == 0,
{
    broadcast use bytes::group_be_len;
}

/// The offsets never run ahead of the data.
pub proof fn lemma_offset_bound(blocks: Seq<Seq<Entry>>)
    ensures
        offset_of(blocks) <= data_bytes(blocks).len(),
    decreases blocks.len(),
{
    if blocks.len() > 0 {
        lemma_offset_bound(blocks.drop_last());
    }
}

} // verus!
