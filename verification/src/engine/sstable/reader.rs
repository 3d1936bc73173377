//! The table reader: footer, index, binary search for the block, scan within the block.

use vstd::prelude::*;
use crate::bytes;
use crate::engine::checksum;
use crate::engine::encoding;
use crate::engine::error::{Error, ErrorView, Result};
use crate::engine::keys;
use crate::engine::keys::Cf;
use crate::engine::memtable::MemValue;
use crate::engine::sstable::block;
use crate::engine::sstable::block::Entry;
use crate::engine::sstable::writer::{FOOTER_LEN, FOOTER_MAGIC};
use crate::text;

verus! {

struct IndexEntry {
    first_key: Vec<u8>,
    offset: u64,
    len: u32,
}

/// An index entry as values: where a block is, and its first key.
pub struct IndexView {
    pub first_key: Seq<u8>,
    pub offset: u64,
    pub len: u32,
}

impl View for IndexEntry {
    type V = IndexView;

    closed spec fn view(&self) -> IndexView {
        IndexView { first_key: self.first_key@, offset: self.offset, len: self.len }
    }
}

/// A table as values: its bytes, its parsed index, its file number.
pub struct TableView {
    pub data: Seq<u8>,
    pub index: Seq<IndexView>,
    pub file_no: u64,
}

/// What a read of a table gives.
pub type ReadResult<T> = core::result::Result<T, ErrorView>;

/// The error of a read past the end of a file.
pub open spec fn short_read() -> ErrorView {
    ErrorView::Io("failed to fill whole buffer"@)
}

/// The `len` bytes of a file at `offset`. A read of nothing succeeds anywhere.
pub open spec fn read_exact(data: Seq<u8>, offset: nat, len: nat) -> ReadResult<Seq<u8>> {
    if len == 0 {
        Ok(Seq::empty())
    } else if offset + len > data.len() {
        Err(short_read())
    } else {
        Ok(data.subrange(offset as int, (offset + len) as int))
    }
}

/// The index entries of `body` from `pos` on.
pub open spec fn index_from(body: Seq<u8>, pos: int) -> ReadResult<Seq<IndexView>>
    decreases body.len() - pos,
{
    if pos >= body.len() {
        Ok(Seq::empty())
    } else {
        match encoding::length_prefixed_at(body, pos) {
            None => Err(ErrorView::Corruption("sstable index entry"@)),
            Some((first_key, p)) => if p + 12 > body.len() {
                Err(ErrorView::Corruption("sstable index truncated"@))
            } else {
                match index_from(body, p + 12) {
                    Ok(rest) => Ok(
                        seq![
                            IndexView {
                                first_key,
                                offset: bytes::u64_at(body, p),
                                len: bytes::u32_at(body, p + 8),
                            },
                        ] + rest,
                    ),
                    Err(e) => Err(e),
                }
            },
        }
    }
}

/// A checksummed section without its checksum, or what is wrong with it.
pub open spec fn checked(b: Seq<u8>, small: Seq<char>, bad: Seq<char>) -> ReadResult<Seq<u8>> {
    if b.len() < 4 {
        Err(ErrorView::Corruption(small))
    } else if checksum::crc_of(b.take(b.len() - 4)) != bytes::u32_at(b, b.len() - 4) {
        Err(ErrorView::Corruption(bad))
    } else {
        Ok(b.take(b.len() - 4))
    }
}

/// The table that `data` holds, or what is wrong with it.
pub open spec fn table_of(data: Seq<u8>, file_no: u64) -> ReadResult<TableView> {
    if data.len() < 20 {
        Err(ErrorView::Corruption("sstable smaller than footer"@))
    } else {
        let f = data.len() - 20;
        if bytes::u64_at(data, f + 12) != FOOTER_MAGIC {
            Err(ErrorView::Corruption("bad sstable magic"@))
        } else {
            match read_exact(
                data,
                bytes::u64_at(data, f) as nat,
                bytes::u32_at(data, f + 8) as nat,
            ) {
                Err(e) => Err(e),
                Ok(idx) => match checked(
                    idx,
                    "sstable index too small"@,
                    "sstable index crc mismatch"@,
                ) {
                    Err(e) => Err(e),
                    Ok(body) => match index_from(body, 0) {
                        Err(e) => Err(e),
                        Ok(index) => Ok(TableView { data, index, file_no }),
                    },
                },
            }
        }
    }
}

/// Where a binary search for the first block that starts behind `sk` ends.
pub open spec fn split_point(index: Seq<IndexView>, sk: Seq<u8>, lo: int, hi: int) -> int
    decreases hi - lo,
{
    if lo >= hi {
        lo
    } else {
        let mid = lo + (hi - lo) / 2;
        if bytes::lex_le(index[mid].first_key, sk) {
            split_point(index, sk, mid + 1, hi)
        } else {
            split_point(index, sk, lo, mid)
        }
    }
}

/// The position of the first entry whose key is at least `sk`; the number of entries where there
/// is none.
pub open spec fn first_at_least(es: Seq<Entry>, sk: Seq<u8>, from: int) -> int
    decreases es.len() - from,
{
    if from >= es.len() {
        es.len() as int
    } else if bytes::lex_le(sk, es[from].0) {
        from
    } else {
        first_at_least(es, sk, from + 1)
    }
}

/// The value that an entry's bytes encode.
pub open spec fn entry_value(b: Seq<u8>) -> ReadResult<Option<Seq<u8>>> {
    match keys::untagged(b) {
        Some(v) => Ok(v),
        None => Err(ErrorView::Corruption("sstable value"@)),
    }
}

/// The storage key: the family's id, then the family's key.
pub open spec fn storage_key(cf: Cf, key: Seq<u8>) -> Seq<u8> {
    seq![cf.id_spec()] + key
}

impl TableView {
    /// The entries of the `i`-th block.
    pub open spec fn block(self, i: int) -> ReadResult<Seq<Entry>> {
        match read_exact(self.data, self.index[i].offset as nat, self.index[i].len as nat) {
            Err(e) => Err(e),
            Ok(b) => match checked(b, "sstable block too small"@, "sstable block crc mismatch"@) {
                Err(e) => Err(e),
                Ok(body) => Ok(block::entries_from(body, 0)),
            },
        }
    }

    /// The number of blocks that start at or before `sk`.
    pub open spec fn split(self, sk: Seq<u8>) -> int {
        split_point(self.index, sk, 0, self.index.len() as int)
    }

    /// The entry of a family's key: the outer `None` where the table has none.
    pub open spec fn get(self, cf: Cf, key: Seq<u8>) -> ReadResult<Option<Option<Seq<u8>>>> {
        let sk = storage_key(cf, key);
        let pp = self.split(sk);
        if pp == 0 {
            Ok(None)
        } else {
            match self.block(pp - 1) {
                Err(e) => Err(e),
                Ok(es) => {
                    let i = first_at_least(es, sk, 0);
                    if i < es.len() && es[i].0 == sk {
                        match entry_value(es[i].1) {
                            Ok(v) => Ok(Some(v)),
                            Err(e) => Err(e),
                        }
                    } else {
                        Ok(None)
                    }
                },
            }
        }
    }

    /// The first entry of the family, from the `bi`-th block on, whose storage key is at least
    /// `sk`.
    pub open spec fn seek_from(self, cf: Cf, sk: Seq<u8>, bi: int) -> ReadResult<
        Option<(Seq<u8>, Option<Seq<u8>>)>,
    >
        decreases self.index.len() - bi,
    {
        if bi >= self.index.len() {
            Ok(None)
        } else {
            match self.block(bi) {
                Err(e) => Err(e),
                Ok(es) => {
                    let i = first_at_least(es, sk, 0);
                    if i >= es.len() {
                        self.seek_from(cf, sk, bi + 1)
                    } else if es[i].0.len() == 0 || es[i].0[0] != cf.id_spec() {
                        Ok(None)
                    } else {
                        match entry_value(es[i].1) {
                            Ok(v) => Ok(Some((es[i].0.skip(1), v))),
                            Err(e) => Err(e),
                        }
                    }
                },
            }
        }
    }

    /// The first entry of the family whose key is at least `from`.
    pub open spec fn seek(self, cf: Cf, from: Seq<u8>) -> ReadResult<
        Option<(Seq<u8>, Option<Seq<u8>>)>,
    > {
        let sk = storage_key(cf, from);
        let pp = self.split(sk);
        self.seek_from(
            cf,
            sk,
            if pp == 0 {
                0
            } else {
                pp - 1
            },
        )
    }
}

/// Reads one table.
pub struct SstReader {
    data: Vec<u8>,
    index: Vec<IndexEntry>,
    file_no: u64,
}

spec fn index_views(s: Seq<IndexEntry>) -> Seq<IndexView> {
    Seq::new(s.len(), |i: int| s[i]@)
}

impl View for SstReader {
    type V = TableView;

    closed spec fn view(&self) -> TableView {
        TableView { data: self.data@, index: index_views(self.index@), file_no: self.file_no }
    }
}

fn io_short() -> (e: Error)
    ensures
        e@ == short_read(),
{
    Error::Io(text::owned("failed to fill whole buffer"))
}

/// The `len` bytes of `data` at `offset`.
fn read_exact_at(data: &Vec<u8>, offset: u64, len: u32) -> (r: Result<&[u8]>)
    ensures
        match r {
            Ok(b) => read_exact(data@, offset as nat, len as nat) == Ok::<Seq<u8>, ErrorView>(b@),
            Err(e) => read_exact(data@, offset as nat, len as nat) == Err::<Seq<u8>, ErrorView>(
                e@,
            ),
        },
{
    if len == 0 {
        let none = bytes::slice(data.as_slice(), 0, 0);
        assert(none@ =~= Seq::<u8>::empty());
        return Ok(none);
    }
    let total: u64 = data.len() as u64;
    if offset > total || len as u64 > total - offset {
        return Err(io_short());
    }
    let from: usize = offset as usize;
    let to: usize = from + len as usize;
    Ok(bytes::slice(data.as_slice(), from, to))
}

/// Strip and check a section's checksum.
fn check_section<'a>(b: &'a [u8], small: &str, bad: &str) -> (r: Result<&'a [u8]>)
    ensures
        match r {
            Ok(body) => checked(b@, small@, bad@) == Ok::<Seq<u8>, ErrorView>(body@),
            Err(e) => checked(b@, small@, bad@) == Err::<Seq<u8>, ErrorView>(e@),
        },
{
    let n: usize = b.len();
    if n < 4 {
        return Err(Error::corruption(small));
    }
    let body = bytes::slice(b, 0, n - 4);
    assert(body@ =~= b@.take(b@.len() - 4));
    if checksum::crc(body) != bytes::read_u32(b, n - 4) {
        return Err(Error::corruption(bad));
    }
    Ok(body)
}

impl SstReader {
    /// Open a table from the bytes of its file: check the footer and load the index.
    pub fn open(data: Vec<u8>, file_no: u64) -> (r: Result<SstReader>)
        ensures
            match r {
                Ok(t) => table_of(data@, file_no) == Ok::<TableView, ErrorView>(t@),
                Err(e) => table_of(data@, file_no) == Err::<TableView, ErrorView>(e@),
            },
    {
        let total: usize = data.len();
        if total < FOOTER_LEN {
            return Err(Error::corruption("sstable smaller than footer"));
        }
        let f: usize = total - FOOTER_LEN;
        let index_offset: u64 = bytes::read_u64(data.as_slice(), f);
        let index_len: u32 = bytes::read_u32(data.as_slice(), f + 8);
        let magic: u64 = bytes::read_u64(data.as_slice(), f + 12);
        if magic != FOOTER_MAGIC {
            return Err(Error::corruption("bad sstable magic"));
        }
        let idx = match read_exact_at(&data, index_offset, index_len) {
            Ok(b) => b,
            Err(e) => {
                return Err(e);
            },
        };
        let body = match check_section(
            idx,
            "sstable index too small",
            "sstable index crc mismatch",
        ) {
            Ok(b) => b,
            Err(e) => {
                return Err(e);
            },
        };
        match parse_index(body) {
            Ok(index) => Ok(SstReader { data, index, file_no }),
            Err(e) => Err(e),
        }
    }

    /// The table's file number.
    pub fn file_no(&self) -> (n: u64)
        ensures
            n == self@.file_no,
    {
        self.file_no
    }

    fn read_block(&self, i: usize) -> (r: Result<Vec<(Vec<u8>, Vec<u8>)>>)
        requires
            i < self@.index.len(),
        ensures
            match r {
                Ok(es) => self@.block(i as int) == Ok::<Seq<Entry>, ErrorView>(
                    block::entry_views(es@),
                ),
                Err(e) => self@.block(i as int) == Err::<Seq<Entry>, ErrorView>(e@),
            },
    {
        let e = &self.index[i];
        assert(self@.index[i as int] == e@);
        let b = match read_exact_at(&self.data, e.offset, e.len) {
            Ok(b) => b,
            Err(e) => {
                return Err(e);
            },
        };
        match check_section(b, "sstable block too small", "sstable block crc mismatch") {
            Ok(body) => Ok(block::entries(body)),
            Err(e) => Err(e),
        }
    }

    /// The number of blocks whose first key is at most `sk`.
    fn split(&self, sk: &[u8]) -> (r: usize)
        ensures
            r == self@.split(sk@),
            r <= self@.index.len(),
    {
        let mut lo: usize = 0;
        let mut hi: usize = self.index.len();
        while lo < hi
            invariant
                0 <= lo <= hi <= self.index@.len(),
                split_point(self@.index, sk@, lo as int, hi as int) == self@.split(sk@),
            decreases hi - lo,
        {
            let mid: usize = lo + (hi - lo) / 2;
            assert(self@.index[mid as int] == self.index@[mid as int]@);
            if bytes::bytes_le(self.index[mid].first_key.as_slice(), sk) {
                lo = mid + 1;
            } else {
                hi = mid;
            }
        }
        lo
    }

    /// Exact point lookup of a family's key. `Some` (a value or a deletion mark) is an
    /// authoritative hit; `None` means absent from this table.
    pub fn get(&self, cf: Cf, key: &[u8]) -> (r: Result<Option<MemValue>>)
        ensures
            match r {
                Ok(Some(v)) => self@.get(cf, key@) == Ok::<Option<Option<Seq<u8>>>, ErrorView>(
                    Some(v@),
                ),
                Ok(None) => self@.get(cf, key@) == Ok::<Option<Option<Seq<u8>>>, ErrorView>(None),
                Err(e) => self@.get(cf, key@) == Err::<Option<Option<Seq<u8>>>, ErrorView>(e@),
            },
    {
        let sk = make_storage_key(cf, key);
        let pp: usize = self.split(sk.as_slice());
        if pp == 0 {
            return Ok(None);
        }
        let es = match self.read_block(pp - 1) {
            Ok(es) => es,
            Err(e) => {
                return Err(e);
            },
        };
        let i: usize = find_at_least(&es, sk.as_slice());
        if i < es.len() && bytes::bytes_eq(es[i].0.as_slice(), sk.as_slice()) {
            match MemValue::decode(es[i].1.as_slice()) {
                Some(v) => Ok(Some(v)),
                None => Err(Error::corruption("sstable value")),
            }
        } else {
            Ok(None)
        }
    }

    /// Forward seek within `cf`: the first `(key, value)` with a key that is at least `from`, or
    /// `None` if the seek runs past the end of the family.
    pub fn seek(&self, cf: Cf, from: &[u8]) -> (r: Result<Option<(Vec<u8>, MemValue)>>)
        ensures
            match r {
                Ok(Some((k, v))) => self@.seek(cf, from@) == Ok::<
                    Option<(Seq<u8>, Option<Seq<u8>>)>,
                    ErrorView,
                >(Some((k@, v@))),
                Ok(None) => self@.seek(cf, from@) == Ok::<
                    Option<(Seq<u8>, Option<Seq<u8>>)>,
                    ErrorView,
                >(None),
                Err(e) => self@.seek(cf, from@) == Err::<
                    Option<(Seq<u8>, Option<Seq<u8>>)>,
                    ErrorView,
                >(e@),
            },
    {
        let sk = make_storage_key(cf, from);
        let pp: usize = self.split(sk.as_slice());
        let mut bi: usize = if pp == 0 {
            0
        } else {
            pp - 1
        };
        while bi < self.index.len()
            invariant
                self@.seek(cf, from@) == self@.seek_from(cf, sk@, bi as int),
                self@.index.len() == self.index@.len(),
            decreases self.index@.len() - bi,
        {
            let es = match self.read_block(bi) {
                Ok(es) => es,
                Err(e) => {
                    return Err(e);
                },
            };
            let i: usize = find_at_least(&es, sk.as_slice());
            if i < es.len() {
                let ek = es[i].0.as_slice();
                if ek.len() == 0 || ek[0] != cf.id() {
                    return Ok(None);
                }
                return match MemValue::decode(es[i].1.as_slice()) {
                    Some(v) => {
                        let tail = bytes::slice(ek, 1, ek.len());
                        assert(tail@ =~= ek@.skip(1));
                        Ok(Some((bytes::copy(tail), v)))
                    },
                    None => Err(Error::corruption("sstable value")),
                };
            }
            bi = bi + 1;
        }
        Ok(None)
    }
}

/// The storage key: the family's id, then the family's key.
pub fn make_storage_key(cf: Cf, key: &[u8]) -> (r: Vec<u8>)
    ensures
        r@ == storage_key(cf, key@),
{
    let mut sk: Vec<u8> = Vec::new();
    sk.push(cf.id());
    bytes::push_all(&mut sk, key);
    assert(sk@ =~= storage_key(cf, key@));
    sk
}

fn find_at_least(es: &Vec<(Vec<u8>, Vec<u8>)>, sk: &[u8]) -> (r: usize)
    ensures
        r == first_at_least(block::entry_views(es@), sk@, 0),
        r <= es@.len(),
{
    let mut i: usize = 0;
    while i < es.len()
        invariant
            0 <= i <= es@.len(),
            first_at_least(block::entry_views(es@), sk@, i as int) == first_at_least(
                block::entry_views(es@),
                sk@,
                0,
            ),
        decreases es@.len() - i,
    {
        if bytes::bytes_le(sk, es[i].0.as_slice()) {
            return i;
        }
        i = i + 1;
    }
    i
}

fn parse_index(body: &[u8]) -> (r: Result<Vec<IndexEntry>>)
    ensures
        match r {
            Ok(ix) => index_from(body@, 0) == Ok::<Seq<IndexView>, ErrorView>(index_views(ix@)),
            Err(e) => index_from(body@, 0) == Err::<Seq<IndexView>, ErrorView>(e@),
        },
{
    let mut index: Vec<IndexEntry> = Vec::new();
    let mut pos: usize = 0;
    proof {
        assert(index_views(index@) =~= Seq::<IndexView>::empty());
        assert forall|s: Seq<IndexView>| #[trigger] (index_views(index@) + s) == s by {
            assert(index_views(index@) + s =~= s);
        }
    }
    while pos < body.len()
        invariant
            pos <= body@.len(),
            index_from(body@, 0) == match index_from(body@, pos as int) {
                Ok(rest) => Ok::<Seq<IndexView>, ErrorView>(index_views(index@) + rest),
                Err(e) => Err::<Seq<IndexView>, ErrorView>(e),
            },
        decreases body@.len() - pos,
    {
        let ghost done = index_views(index@);
        if body.len() - pos < 4 {
            return Err(Error::corruption("sstable index entry"));
        }
        let first_key = match encoding::get_length_prefixed(body, &mut pos) {
            Some(k) => bytes::copy(k),
            None => {
                return Err(Error::corruption("sstable index entry"));
            },
        };
        if body.len() - pos < 12 {
            return Err(Error::corruption("sstable index truncated"));
        }
        let offset: u64 = bytes::read_u64(body, pos);
        let len: u32 = bytes::read_u32(body, pos + 8);
        pos = pos + 12;
        index.push(IndexEntry { first_key, offset, len });
        proof {
            let e = index@.last()@;
            assert(index_views(index@) =~= done.push(e));
            match index_from(body@, pos as int) {
                Ok(rest) => {
                    assert(index_views(index@) + rest =~= done + (seq![e] + rest));
                },
                Err(_) => {},
            }
        }
    }
    assert(index_views(index@) + Seq::<IndexView>::empty() =~= index_views(index@));
    Ok(index)
}

} // verus!
