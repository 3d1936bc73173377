//! The manifest: the durable record of which tables are live and how far the log has been
//! flushed.
//!
//! A single `MANIFEST` image is replaced as a whole on every flush, so it is always either the
//! old or the new one, never torn. Recovery reads it to learn which tables to open and the
//! `last_flushed_seq` watermark below which log records are already durable in tables and can be
//! skipped.

use vstd::prelude::*;
use crate::bytes;
use crate::engine::checksum;
use crate::engine::encoding;
use crate::engine::error::{Error, ErrorView, Result};
use crate::text;

verus! {

/// The file that holds the manifest.
pub const MANIFEST_FILE: &'static str = "MANIFEST";

/// The file that the next manifest is written to before it replaces the current one.
pub const MANIFEST_TMP: &'static str = "MANIFEST.tmp";

/// The first eight bytes of a manifest.
pub const MANIFEST_MAGIC: u64 = 0x4d41_4e49_4630_31;

/// The live tables and the flush watermark.
#[derive(Debug, Clone, PartialEq, Eq)]
pub struct Manifest {
    /// Highest log sequence number whose data is fully captured in some live table.
    pub last_flushed_seq: u64,
    /// Live table file numbers, oldest first.
    pub sstables: Vec<u64>,
}

/// A [`Manifest`] with its tables as a sequence.
#[verifier::ext_equal]
pub struct ManifestView {
    pub last_flushed_seq: u64,
    pub sstables: Seq<u64>,
}

impl View for Manifest {
    type V = ManifestView;

    open spec fn view(&self) -> ManifestView {
        ManifestView { last_flushed_seq: self.last_flushed_seq, sstables: self.sstables@ }
    }
}

/// What the checksum covers: magic, watermark, number of tables, tables.
pub open spec fn manifest_body(m: ManifestView) -> Seq<u8> {
    bytes::be64(MANIFEST_MAGIC) + bytes::be64(m.last_flushed_seq) + bytes::be32(
        encoding::len32(m.sstables.len()),
    ) + bytes::be64_list(m.sstables)
}

/// The manifest image: the body and its checksum.
pub open spec fn manifest_bytes(m: ManifestView) -> Seq<u8> {
    manifest_body(m) + bytes::be32(checksum::crc_of(manifest_body(m)))
}

/// The manifest that `data` holds, or what is wrong with it.
pub open spec fn manifest_of(data: Seq<u8>) -> core::result::Result<ManifestView, ErrorView> {
    let body = data.take(data.len() - 4);
    let count = bytes::u32_at(body, 16);
    if data.len() < 24 {
        Err(ErrorView::Corruption("manifest too small"@))
    } else if checksum::crc_of(body) != bytes::u32_at(data, data.len() - 4) {
        Err(ErrorView::Corruption("manifest crc mismatch"@))
    } else if bytes::u64_at(body, 0) != MANIFEST_MAGIC {
        Err(ErrorView::Corruption("manifest bad magic"@))
    } else if 20 + 8 * count > body.len() {
        Err(ErrorView::Corruption("manifest truncated"@))
    } else {
        Ok(
            ManifestView {
                last_flushed_seq: bytes::u64_at(body, 8),
                sstables: bytes::u64s_at(body, 20, count as nat),
            },
        )
    }
}

impl Default for Manifest {
    fn default() -> (m: Self)
        ensures
            m@ == (ManifestView { last_flushed_seq: 0, sstables: Seq::empty() }),
    {
        Manifest { last_flushed_seq: 0, sstables: Vec::new() }
    }
}

/// Where the manifest of a directory is: a separator stands in between unless the directory is
/// empty or ends in one.
pub open spec fn manifest_path(dir: Seq<char>) -> Seq<char> {
    if dir.len() == 0 || dir.last() == '/' {
        dir + MANIFEST_FILE@
    } else {
        dir + "/"@ + MANIFEST_FILE@
    }
}

impl Manifest {
    /// Where the manifest of the directory `dir` is.
    pub fn path(dir: &str) -> (r: String)
        ensures
            r@ == manifest_path(dir@),
    {
        let mut p: String = text::owned(dir);
        let n: usize = dir.unicode_len();
        if n > 0 && dir.get_char(n - 1) != '/' {
            p.push_str("/");
        }
        p.push_str(MANIFEST_FILE);
        assert(p@ =~= manifest_path(dir@));
        p
    }

    /// The manifest that `data`, the contents of its file, holds; an empty one where there is no
    /// file yet.
    pub fn load(data: Option<&[u8]>) -> (r: Result<Manifest>)
        ensures
            match data {
                Some(d) => match r {
                    Ok(m) => manifest_of(d@) == Ok::<ManifestView, ErrorView>(m@),
                    Err(e) => manifest_of(d@) == Err::<ManifestView, ErrorView>(e@),
                },
                None => r matches Ok(m) && m@ == (ManifestView {
                    last_flushed_seq: 0,
                    sstables: Seq::empty(),
                }),
            },
    {
        match data {
            Some(d) => Manifest::decode(d),
            None => Ok(Manifest::default()),
        }
    }

    /// The image to store: magic, watermark, the tables, and a checksum of all that.
    pub fn encode(&self) -> (buf: Vec<u8>)
        ensures
            buf@ == manifest_bytes(self@),
    {
        let mut buf: Vec<u8> = Vec::new();
        bytes::put_u64(&mut buf, MANIFEST_MAGIC);
        bytes::put_u64(&mut buf, self.last_flushed_seq);
        bytes::put_u32(&mut buf, encoding::low32(self.sstables.len()));
        bytes::put_u64s(&mut buf, self.sstables.as_slice());
        assert(buf@ =~= manifest_body(self@));
        let c: u32 = checksum::crc(buf.as_slice());
        bytes::put_u32(&mut buf, c);
        buf
    }

    /// Inverse of [`Manifest::encode`]. Bytes between the last table and the checksum are not
    /// looked at.
    pub fn decode(data: &[u8]) -> (r: Result<Manifest>)
        ensures
            match r {
                Ok(m) => manifest_of(data@) == Ok::<ManifestView, ErrorView>(m@),
                Err(e) => manifest_of(data@) == Err::<ManifestView, ErrorView>(e@),
            },
    {
        let total: usize = data.len();
        if total < 24 {
            return Err(Error::corruption("manifest too small"));
        }
        let body = bytes::slice(data, 0, total - 4);
        assert(body@ =~= data@.take(data@.len() - 4));
        if checksum::crc(body) != bytes::read_u32(data, total - 4) {
            return Err(Error::corruption("manifest crc mismatch"));
        }
        if bytes::read_u64(body, 0) != MANIFEST_MAGIC {
            return Err(Error::corruption("manifest bad magic"));
        }
        let last_flushed_seq: u64 = bytes::read_u64(body, 8);
        let count: u32 = bytes::read_u32(body, 16);
        match bytes::read_u64s(body, 20, count) {
            Some(sstables) => Ok(Manifest { last_flushed_seq, sstables }),
            None => Err(Error::corruption("manifest truncated")),
        }
    }

    /// A copy of the manifest.
    pub fn dup(&self) -> (m: Manifest)
        ensures
            m@ == self@,
    {
        Manifest { last_flushed_seq: self.last_flushed_seq, sstables: self.sstables.clone() }
    }
}

/// A stored manifest reads back, as long as the number of its tables fits 32 bits.
pub proof fn law_manifest_roundtrip(m: ManifestView)
    requires
        m.sstables.len() < 0x1_0000_0000,
    ensures
        manifest_of(manifest_bytes(m)) == Ok::<ManifestView, ErrorView>(m),
{
    broadcast use {bytes::group_be_len, bytes::lemma_be64_list_len};
    let data = manifest_bytes(m);
    let body = manifest_body(m);
    assert(data.take(data.len() - 4) =~= body);
    let c = checksum::crc_of(body);
    assert(data.subrange(data.len() - 4, data.len() as int) =~= bytes::be32(c));
    bytes::lemma_u32_at(data, data.len() - 4, c);
    assert(body.subrange(0, 8) =~= bytes::be64(MANIFEST_MAGIC));
    bytes::lemma_u64_at(body, 0, MANIFEST_MAGIC);
    assert(body.subrange(8, 16) =~= bytes::be64(m.last_flushed_seq));
    bytes::lemma_u64_at(body, 8, m.last_flushed_seq);
    let n = encoding::len32(m.sstables.len());
    assert(body.subrange(16, 20) =~= bytes::be32(n));
    bytes::lemma_u32_at(body, 16, n);
    let head = bytes::be64(MANIFEST_MAGIC) + bytes::be64(m.last_flushed_seq) + bytes::be32(n);
    assert(body =~= head + bytes::be64_list(m.sstables) + Seq::<u8>::empty());
    bytes::lemma_u64s_at(head, m.sstables, Seq::empty());
}

} // verus!
