//! Opening an engine: file names, what the files hold, and crash recovery.

use vstd::prelude::*;
use vstd::string::*;
use crate::bytes;
use crate::engine::batch;
use crate::engine::batch::WriteBatch;
use crate::engine::db;
use crate::engine::db::{Effect, EffectView, Engine, EngineView};
use crate::engine::error::{Error, ErrorView, Result};
use crate::engine::finite;
use crate::engine::manifest;
use crate::engine::manifest::{Manifest, ManifestView};
use crate::engine::memtable::{Memtable, MemtableView};
use crate::engine::options::Options;
use crate::engine::sstable::reader;
use crate::engine::sstable::reader::{ReadResult, SstReader, TableView};
use crate::engine::wal;
use crate::engine::wal::{Record, WalReader};
use crate::text;

verus! {

/// The name of log segment `n`.
pub fn segment_name(n: u64) -> (r: String)
    ensures
        r@ == text::padded(n as nat, 20) + ".wal"@,
{
    let mut s: String = String::new();
    text::push_padded(&mut s, n, 20);
    s.push_str(".wal");
    assert(s@ =~= text::padded(n as nat, 20) + ".wal"@);
    s
}

/// The name of table `n`'s file.
pub fn sst_name(n: u64) -> (r: String)
    ensures
        r@ == text::padded(n as nat, 20) + ".sst"@,
{
    let mut s: String = String::new();
    text::push_padded(&mut s, n, 20);
    s.push_str(".sst");
    assert(s@ =~= text::padded(n as nat, 20) + ".sst"@);
    s
}

/// The number in a file name that ends in `ext`.
pub open spec fn numbered(name: Seq<char>, ext: Seq<char>) -> Option<u64> {
    let n = name.len() - ext.len();
    if n < 0 || name.skip(n) != ext {
        None
    } else {
        match text::parse_unsigned(name.take(n), u64::MAX as nat) {
            Some(v) => Some(v as u64),
            None => None,
        }
    }
}

/// Parse a numeric file name like `00000000000000000007.wal`.
pub fn parse_numbered(name: &str, ext: &str) -> (r: Option<u64>)
    ensures
        r == numbered(name@, ext@),
{
    let n: usize = name.unicode_len();
    let e: usize = ext.unicode_len();
    if n < e {
        return None;
    }
    let stem = name.substring_char(0, n - e);
    let tail = name.substring_char(n - e, n);
    proof {
        assert(stem@ =~= name@.take(n - e));
        assert(tail@ =~= name@.skip(n - e));
    }
    if !text::str_eq(tail, ext) {
        return None;
    }
    text::parse_u64(stem, u64::MAX)
}

/// A number and a name.
pub type Named = (u64, Seq<char>);

/// `x` behind everything that is not larger.
pub open spec fn insert_named(s: Seq<Named>, x: Named) -> Seq<Named>
    decreases s.len(),
{
    if s.len() == 0 || s.last().0 <= x.0 {
        s.push(x)
    } else {
        insert_named(s.drop_last(), x).push(s.last())
    }
}

/// The names with the extension, in ascending order of their numbers.
pub open spec fn numbered_names(names: Seq<Seq<char>>, ext: Seq<char>) -> Seq<Named>
    decreases names.len(),
{
    if names.len() == 0 {
        Seq::empty()
    } else {
        let rest = numbered_names(names.drop_last(), ext);
        match numbered(names.last(), ext) {
            Some(n) => insert_named(rest, (n, names.last())),
            None => rest,
        }
    }
}

/// Strings as characters.
pub open spec fn texts(s: Seq<String>) -> Seq<Seq<char>> {
    Seq::new(s.len(), |i: int| s[i]@)
}

/// Numbered names as values.
pub open spec fn named_views(s: Seq<(u64, String)>) -> Seq<Named> {
    Seq::new(s.len(), |i: int| (s[i].0, s[i].1@))
}

/// The files of a directory with the given extension, in ascending order of their numbers.
pub fn list_numbered(names: &Vec<String>, ext: &str) -> (r: Vec<(u64, String)>)
    ensures
        named_views(r@) == numbered_names(texts(names@), ext@),
{
    let mut out: Vec<(u64, String)> = Vec::new();
    let ghost all = texts(names@);
    let mut i: usize = 0;
    proof {
        assert(all.take(0) =~= Seq::<Seq<char>>::empty());
        assert(named_views(out@) =~= Seq::<Named>::empty());
    }
    while i < names.len()
        invariant
            0 <= i <= names@.len(),
            all == texts(names@),
            named_views(out@) == numbered_names(all.take(i as int), ext@),
        decreases names@.len() - i,
    {
        proof {
            assert(all.take(i + 1).drop_last() =~= all.take(i as int));
            assert(all.take(i + 1).last() == names@[i as int]@);
        }
        match parse_numbered(names[i].as_str(), ext) {
            Some(n) => {
                insert_by_number(&mut out, n, names[i].clone());
            },
            None => {},
        }
        i = i + 1;
    }
    assert(all.take(i as int) =~= all);
    out
}

proof fn lemma_insert_named(s: Seq<Named>, x: Named, k: int)
    requires
        0 <= k <= s.len(),
        forall|j: int| k <= j < s.len() ==> (#[trigger] s[j]).0 > x.0,
        k == 0 || s[k - 1].0 <= x.0,
    ensures
        insert_named(s, x) == s.insert(k, x),
    decreases s.len() - k,
{
    if k == s.len() {
        assert(s.insert(k, x) =~= s.push(x));
    } else {
        let d = s.drop_last();
        assert(s.last() == s[s.len() - 1]);
        assert forall|j: int| k <= j < d.len() implies (#[trigger] d[j]).0 > x.0 by {
            assert(d[j] == s[j]);
        }
        lemma_insert_named(d, x, k);
        assert(s.insert(k, x) =~= d.insert(k, x).push(s.last()));
    }
}

fn insert_by_number(out: &mut Vec<(u64, String)>, n: u64, name: String)
    ensures
        named_views(final(out)@) == insert_named(named_views(old(out)@), (n, name@)),
{
    let ghost before = named_views(out@);
    let mut k: usize = out.len();
    while k > 0 && out[k - 1].0 > n
        invariant
            0 <= k <= out@.len(),
            before == named_views(out@),
            forall|j: int| k <= j < out@.len() ==> (#[trigger] out@[j]).0 > n,
        decreases k,
    {
        k = k - 1;
    }
    proof {
        assert forall|j: int| k <= j < before.len() implies (#[trigger] before[j]).0 > n by {
            assert(out@[j].0 > n);
        }
        lemma_insert_named(before, (n, name@), k as int);
    }
    out.insert(k, (n, name));
    assert(named_views(out@) =~= before.insert(k as int, (n, name@)));
}

/// The files of an engine's directory: the manifest, the tables and the log segments, each by its
/// number.
#[derive(Debug, Clone, Default)]
pub struct DiskImage {
    pub manifest: Option<Vec<u8>>,
    pub tables: Vec<(u64, Vec<u8>)>,
    pub segments: Vec<(u64, Vec<u8>)>,
}

/// A number and a file's contents.
pub type File = (u64, Seq<u8>);

/// A [`DiskImage`] as values.
#[verifier::ext_equal]
pub struct DiskView {
    pub manifest: Option<Seq<u8>>,
    pub tables: Seq<File>,
    pub segments: Seq<File>,
}

/// Files as values.
pub open spec fn file_views(s: Seq<(u64, Vec<u8>)>) -> Seq<File> {
    Seq::new(s.len(), |i: int| (s[i].0, s[i].1@))
}

impl View for DiskImage {
    type V = DiskView;

    open spec fn view(&self) -> DiskView {
        DiskView {
            manifest: match self.manifest {
                Some(b) => Some(b@),
                None => None,
            },
            tables: file_views(self.tables@),
            segments: file_views(self.segments@),
        }
    }
}

/// The contents of file `n`.
pub open spec fn file_of(fs: Seq<File>, n: u64) -> Option<Seq<u8>>
    decreases fs.len(),
{
    if fs.len() == 0 {
        None
    } else if fs.last().0 == n {
        Some(fs.last().1)
    } else {
        file_of(fs.drop_last(), n)
    }
}

/// The files with file `n` in its place, the numbers ascending.
pub open spec fn put_file(fs: Seq<File>, n: u64, data: Seq<u8>) -> Seq<File>
    decreases fs.len(),
{
    if fs.len() == 0 || fs.last().0 < n {
        fs.push((n, data))
    } else if fs.last().0 == n {
        fs.drop_last().push((n, data))
    } else {
        put_file(fs.drop_last(), n, data).push(fs.last())
    }
}

/// The files without file `n`.
pub open spec fn drop_file(fs: Seq<File>, n: u64) -> Seq<File>
    decreases fs.len(),
{
    if fs.len() == 0 {
        Seq::empty()
    } else if fs.last().0 == n {
        drop_file(fs.drop_last(), n)
    } else {
        drop_file(fs.drop_last(), n).push(fs.last())
    }
}

impl DiskView {
    /// The files after one change.
    pub open spec fn perform(self, e: EffectView) -> DiskView {
        match e {
            EffectView::CreateSegment(n) => DiskView {
                segments: put_file(self.segments, n, Seq::empty()),
                ..self
            },
            EffectView::Append(n, b) => DiskView {
                segments: put_file(
                    self.segments,
                    n,
                    match file_of(self.segments, n) {
                        Some(d) => d + b,
                        None => b,
                    },
                ),
                ..self
            },
            EffectView::Sync(_) => self,
            EffectView::WriteTable(n, b) => DiskView {
                tables: put_file(self.tables, n, b),
                ..self
            },
            EffectView::StoreManifest(b) => DiskView { manifest: Some(b), ..self },
            EffectView::RemoveSegment(n) => DiskView {
                segments: drop_file(self.segments, n),
                ..self
            },
            EffectView::RemoveTable(n) => DiskView { tables: drop_file(self.tables, n), ..self },
        }
    }

    /// The files after a list of changes.
    pub open spec fn perform_all(self, es: Seq<EffectView>) -> DiskView
        decreases es.len(),
    {
        if es.len() == 0 {
            self
        } else {
            self.perform_all(es.drop_last()).perform(es.last())
        }
    }
}

fn find_file<'a>(fs: &'a Vec<(u64, Vec<u8>)>, n: u64) -> (r: Option<&'a Vec<u8>>)
    ensures
        match r {
            Some(d) => file_of(file_views(fs@), n) == Some(d@),
            None => file_of(file_views(fs@), n) is None,
        },
{
    let ghost all = file_views(fs@);
    let mut i: usize = fs.len();
    assert(all.take(i as int) =~= all);
    while i > 0
        invariant
            0 <= i <= fs@.len(),
            all == file_views(fs@),
            file_of(all, n) == file_of(all.take(i as int), n),
        decreases i,
    {
        proof {
            assert(all.take(i as int).drop_last() =~= all.take(i - 1));
        }
        i = i - 1;
        if fs[i].0 == n {
            return Some(&fs[i].1);
        }
    }
    None
}

fn set_file(fs: &mut Vec<(u64, Vec<u8>)>, n: u64, data: Vec<u8>)
    ensures
        file_views(final(fs)@) == put_file(file_views(old(fs)@), n, data@),
{
    let ghost before = file_views(fs@);
    let mut k: usize = fs.len();
    assert(before.take(k as int) =~= before);
    while k > 0 && fs[k - 1].0 > n
        invariant
            0 <= k <= fs@.len(),
            before == file_views(fs@),
            forall|j: int| k <= j < fs@.len() ==> (#[trigger] fs@[j]).0 > n,
        decreases k,
    {
        k = k - 1;
    }
    proof {
        assert forall|j: int| k <= j < before.len() implies (#[trigger] before[j]).0 > n by {
            assert(fs@[j].0 > n);
        }
        lemma_put_file(before, n, data@, k as int);
    }
    if k > 0 && fs[k - 1].0 == n {
        fs.set(k - 1, (n, data));
        assert(file_views(fs@) =~= before.update(k - 1, (n, data@)));
    } else {
        fs.insert(k, (n, data));
        assert(file_views(fs@) =~= before.insert(k as int, (n, data@)));
    }
}

proof fn lemma_put_file(fs: Seq<File>, n: u64, data: Seq<u8>, k: int)
    requires
        0 <= k <= fs.len(),
        forall|j: int| k <= j < fs.len() ==> (#[trigger] fs[j]).0 > n,
        k == 0 || fs[k - 1].0 <= n,
    ensures
        put_file(fs, n, data) == if k > 0 && fs[k - 1].0 == n {
            fs.update(k - 1, (n, data))
        } else {
            fs.insert(k, (n, data))
        },
    decreases fs.len() - k,
{
    let hit = k > 0 && fs[k - 1].0 == n;
    if k == fs.len() {
        if hit {
            assert(fs.update(k - 1, (n, data)) =~= fs.drop_last().push((n, data)));
        } else {
            assert(fs.insert(k, (n, data)) =~= fs.push((n, data)));
        }
    } else {
        let d = fs.drop_last();
        assert(fs.last() == fs[fs.len() - 1]);
        assert forall|j: int| k <= j < d.len() implies (#[trigger] d[j]).0 > n by {
            assert(d[j] == fs[j]);
        }
        lemma_put_file(d, n, data, k);
        if hit {
            assert(fs.update(k - 1, (n, data)) =~= d.update(k - 1, (n, data)).push(fs.last()));
        } else {
            assert(fs.insert(k, (n, data)) =~= d.insert(k, (n, data)).push(fs.last()));
        }
    }
}

fn remove_file(fs: &Vec<(u64, Vec<u8>)>, n: u64) -> (r: Vec<(u64, Vec<u8>)>)
    ensures
        file_views(r@) == drop_file(file_views(fs@), n),
{
    let mut out: Vec<(u64, Vec<u8>)> = Vec::new();
    let ghost all = file_views(fs@);
    let mut i: usize = 0;
    proof {
        assert(all.take(0) =~= Seq::<File>::empty());
        assert(file_views(out@) =~= Seq::<File>::empty());
    }
    while i < fs.len()
        invariant
            0 <= i <= fs@.len(),
            all == file_views(fs@),
            file_views(out@) == drop_file(all.take(i as int), n),
        decreases fs@.len() - i,
    {
        let ghost had = file_views(out@);
        assert(all.take(i + 1).drop_last() =~= all.take(i as int));
        if fs[i].0 != n {
            out.push((fs[i].0, bytes::copy(fs[i].1.as_slice())));
            assert(file_views(out@) =~= had.push(all[i as int]));
        }
        i = i + 1;
    }
    assert(all.take(i as int) =~= all);
    out
}

impl DiskImage {
    /// A directory without files.
    pub fn new() -> (d: DiskImage)
        ensures
            d@ == (DiskView { manifest: None, tables: Seq::empty(), segments: Seq::empty() }),
    {
        let d = DiskImage { manifest: None, tables: Vec::new(), segments: Vec::new() };
        assert(d@.tables =~= Seq::<File>::empty());
        assert(d@.segments =~= Seq::<File>::empty());
        d
    }

    /// Apply one change to the files.
    pub fn perform(&mut self, e: &Effect)
        ensures
            final(self)@ == old(self)@.perform(e@),
    {
        match e {
            Effect::CreateSegment(n) => {
                let none: Vec<u8> = Vec::new();
                assert(none@ =~= Seq::<u8>::empty());
                set_file(&mut self.segments, *n, none);
            },
            Effect::Append(n, b) => {
                let mut data: Vec<u8> = match find_file(&self.segments, *n) {
                    Some(d) => bytes::copy(d.as_slice()),
                    None => Vec::new(),
                };
                let ghost had = data@;
                bytes::push_all(&mut data, b.as_slice());
                assert(had.len() == 0 ==> data@ =~= b@);
                set_file(&mut self.segments, *n, data);
            },
            Effect::Sync(_) => {},
            Effect::WriteTable(n, b) => {
                set_file(&mut self.tables, *n, bytes::copy(b.as_slice()));
            },
            Effect::StoreManifest(b) => {
                self.manifest = Some(bytes::copy(b.as_slice()));
            },
            Effect::RemoveSegment(n) => {
                let rest = remove_file(&self.segments, *n);
                self.segments = rest;
            },
            Effect::RemoveTable(n) => {
                let rest = remove_file(&self.tables, *n);
                self.tables = rest;
            },
        }
    }

    /// Apply a list of changes to the files, in order.
    pub fn perform_all(&mut self, es: &Vec<Effect>)
        ensures
            final(self)@ == old(self)@.perform_all(db::effect_views(es@)),
    {
        let ghost start = self@;
        let ghost all = db::effect_views(es@);
        let mut i: usize = 0;
        assert(all.take(0) =~= Seq::<EffectView>::empty());
        while i < es.len()
            invariant
                0 <= i <= es@.len(),
                all == db::effect_views(es@),
                self@ == start.perform_all(all.take(i as int)),
            decreases es@.len() - i,
        {
            proof {
                assert(all.take(i + 1).drop_last() =~= all.take(i as int));
                assert(all.take(i + 1).last() == es@[i as int]@);
            }
            self.perform(&es[i]);
            i = i + 1;
        }
        assert(all.take(i as int) =~= all);
    }
}

/// The error of a file that is not there.
pub open spec fn missing_file() -> ErrorView {
    ErrorView::Io("No such file or directory (os error 2)"@)
}

/// The live tables, opened.
pub open spec fn open_tables(fs: Seq<File>, nos: Seq<u64>) -> ReadResult<Seq<TableView>>
    decreases nos.len(),
{
    if nos.len() == 0 {
        Ok(Seq::empty())
    } else {
        match open_tables(fs, nos.drop_last()) {
            Err(e) => Err(e),
            Ok(ts) => match file_of(fs, nos.last()) {
                None => Err(missing_file()),
                Some(b) => match reader::table_of(b, nos.last()) {
                    Err(e) => Err(e),
                    Ok(t) => Ok(ts.push(t)),
                },
            },
        }
    }
}

/// A memtable after the records above the watermark.
pub open spec fn replay(m: MemtableView, last: u64, rs: Seq<Record>) -> ReadResult<MemtableView>
    decreases rs.len(),
{
    if rs.len() == 0 {
        Ok(m)
    } else {
        match replay(m, last, rs.drop_last()) {
            Err(e) => Err(e),
            Ok(n) => if rs.last().0 > last {
                match batch::batch_of(rs.last().1) {
                    Some(ops) => Ok(n.apply(rs.last().0, ops)),
                    None => Err(ErrorView::Corruption("WAL batch decode failed"@)),
                }
            } else {
                Ok(n)
            },
        }
    }
}

/// The records of a segment.
pub open spec fn segment_records(f: File) -> Seq<Record> {
    wal::records_from(f.1, 0)
}

/// A fresh memtable after the records of all segments.
pub open spec fn replay_all(segs: Seq<File>, last: u64) -> ReadResult<MemtableView>
    decreases segs.len(),
{
    if segs.len() == 0 {
        Ok(MemtableView::fresh())
    } else {
        match replay_all(segs.drop_last(), last) {
            Err(e) => Err(e),
            Ok(m) => replay(m, last, segment_records(segs.last())),
        }
    }
}

/// The largest of `start` and the records' sequence numbers.
pub open spec fn max_seq(start: u64, rs: Seq<Record>) -> u64
    decreases rs.len(),
{
    if rs.len() == 0 {
        start
    } else {
        db::larger(max_seq(start, rs.drop_last()), rs.last().0)
    }
}

/// The largest of `start` and all sequence numbers.
pub open spec fn max_seq_all(start: u64, segs: Seq<File>) -> u64
    decreases segs.len(),
{
    if segs.len() == 0 {
        start
    } else {
        max_seq(max_seq_all(start, segs.drop_last()), segment_records(segs.last()))
    }
}

/// The largest number, or 0.
pub open spec fn max_no(ns: Seq<u64>) -> u64
    decreases ns.len(),
{
    if ns.len() == 0 {
        0
    } else {
        db::larger(max_no(ns.drop_last()), ns.last())
    }
}

/// The numbers of files.
pub open spec fn file_nos(fs: Seq<File>) -> Seq<u64> {
    Seq::new(fs.len(), |i: int| fs[i].0)
}

/// Whether a record is above the watermark.
pub open spec fn has_live(rs: Seq<Record>, last: u64) -> bool {
    exists|i: int| 0 <= i < rs.len() && (#[trigger] rs[i]).0 > last
}

/// The segments without a record above the watermark.
pub open spec fn reclaimable(segs: Seq<File>, last: u64) -> Seq<EffectView>
    decreases segs.len(),
{
    if segs.len() == 0 {
        Seq::empty()
    } else {
        let rest = reclaimable(segs.drop_last(), last);
        if has_live(segment_records(segs.last()), last) {
            rest
        } else {
            rest.push(EffectView::RemoveSegment(segs.last().0))
        }
    }
}

/// The tables that the manifest does not list.
pub open spec fn orphans(fs: Seq<File>, nos: Seq<u64>) -> Seq<EffectView>
    decreases fs.len(),
{
    if fs.len() == 0 {
        Seq::empty()
    } else {
        let rest = orphans(fs.drop_last(), nos);
        if nos.contains(fs.last().0) {
            rest
        } else {
            rest.push(EffectView::RemoveTable(fs.last().0))
        }
    }
}

/// The stored manifest; an empty one where there is none yet.
pub open spec fn stored_manifest(d: DiskView) -> ReadResult<ManifestView> {
    match d.manifest {
        Some(b) => manifest::manifest_of(b),
        None => Ok(ManifestView { last_flushed_seq: 0, sstables: Seq::empty() }),
    }
}

/// The engine that the files hold.
pub open spec fn opened(opts: Options, d: DiskView) -> ReadResult<EngineView> {
    match stored_manifest(d) {
        Err(e) => Err(e),
        Ok(m) => match open_tables(d.tables, m.sstables) {
            Err(e) => Err(e),
            Ok(tables) => match replay_all(d.segments, m.last_flushed_seq) {
                Err(e) => Err(e),
                Ok(active) => {
                    let segment = db::succ(max_no(file_nos(d.segments)));
                    Ok(
                        EngineView {
                            opts,
                            active,
                            immutable: Seq::empty(),
                            tables,
                            seq: max_seq_all(m.last_flushed_seq, d.segments),
                            last_flushed: m.last_flushed_seq,
                            next_seg: db::succ(segment),
                            next_sst: db::succ(max_no(m.sstables)),
                            segment,
                            effects: seq![EffectView::CreateSegment(segment)] + reclaimable(
                                d.segments,
                                m.last_flushed_seq,
                            ) + orphans(d.tables, m.sstables),
                        },
                    )
                },
            },
        },
    }
}

proof fn lemma_replay_error(m: MemtableView, last: u64, rs: Seq<Record>, k: int)
    requires
        0 <= k <= rs.len(),
        replay(m, last, rs.take(k)) is Err,
    ensures
        replay(m, last, rs) == replay(m, last, rs.take(k)),
    decreases rs.len() - k,
{
    if k < rs.len() {
        assert(rs.take(k + 1).drop_last() =~= rs.take(k));
        lemma_replay_error(m, last, rs, k + 1);
    } else {
        assert(rs.take(k) =~= rs);
    }
}

proof fn lemma_replay_all_error(segs: Seq<File>, last: u64, k: int)
    requires
        0 <= k <= segs.len(),
        replay_all(segs.take(k), last) is Err,
    ensures
        replay_all(segs, last) == replay_all(segs.take(k), last),
    decreases segs.len() - k,
{
    if k < segs.len() {
        assert(segs.take(k + 1).drop_last() =~= segs.take(k));
        lemma_replay_all_error(segs, last, k + 1);
    } else {
        assert(segs.take(k) =~= segs);
    }
}

proof fn lemma_open_tables_error(fs: Seq<File>, nos: Seq<u64>, k: int)
    requires
        0 <= k <= nos.len(),
        open_tables(fs, nos.take(k)) is Err,
    ensures
        open_tables(fs, nos) == open_tables(fs, nos.take(k)),
    decreases nos.len() - k,
{
    if k < nos.len() {
        assert(nos.take(k + 1).drop_last() =~= nos.take(k));
        lemma_open_tables_error(fs, nos, k + 1);
    } else {
        assert(nos.take(k) =~= nos);
    }
}

/// What replay of one segment adds.
struct Replayed {
    max_seq: u64,
    live: bool,
}

fn replay_segment(active: &mut Memtable, data: &Vec<u8>, last: u64, max: u64) -> (r: Result<
    Replayed,
>)
    ensures
        match r {
            Ok(p) => {
                &&& replay(old(active)@, last, wal::records_from(data@, 0)) == Ok::<
                    MemtableView,
                    ErrorView,
                >(final(active)@)
                &&& p.max_seq == max_seq(max, wal::records_from(data@, 0))
                &&& p.live == has_live(wal::records_from(data@, 0), last)
            },
            Err(e) => replay(old(active)@, last, wal::records_from(data@, 0)) == Err::<
                MemtableView,
                ErrorView,
            >(e@),
        },
{
    let ghost start = active@;
    let ghost all = wal::records_from(data@, 0);
    let ghost mut done: Seq<Record> = Seq::empty();
    let mut reader = WalReader::open(bytes::copy(data.as_slice()));
    let mut seen: u64 = max;
    let mut live: bool = false;
    assert(done + wal::records_from(data@, 0) =~= all);
    loop
        invariant
            reader.wf(),
            reader.data() == data@,
            start == old(active)@,
            all == wal::records_from(data@, 0),
            done + wal::records_from(data@, reader.pos() as int) == all,
            replay(start, last, done) == Ok::<MemtableView, ErrorView>(active@),
            seen == max_seq(max, done),
            live == has_live(done, last),
        decreases data@.len() - reader.pos(),
    {
        let ghost pos = reader.pos() as int;
        match reader.next_record() {
            None => {
                assert(done + wal::records_from(data@, pos) =~= done);
                return Ok(Replayed { max_seq: seen, live });
            },
            Some((seq, payload)) => {
                let ghost next = done.push((seq, payload@));
                proof {
                    assert(next.drop_last() =~= done);
                    assert(next + wal::records_from(data@, reader.pos() as int) =~= done + (
                    seq![(seq, payload@)] + wal::records_from(data@, reader.pos() as int)));
                    assert(next =~= all.take(next.len() as int));
                    assert(has_live(next, last) == (has_live(done, last) || seq > last)) by {
                        if has_live(done, last) {
                            let i = choose|i: int|
                                0 <= i < done.len() && (#[trigger] done[i]).0 > last;
                            assert(next[i].0 > last);
                        }
                        if seq > last {
                            assert(next[done.len() as int].0 > last);
                        }
                        if has_live(next, last) {
                            let i = choose|i: int|
                                0 <= i < next.len() && (#[trigger] next[i]).0 > last;
                            if i < done.len() {
                                assert(done[i].0 > last);
                            }
                        }
                    }
                }
                if seq > seen {
                    seen = seq;
                }
                if seq > last {
                    live = true;
                    match WriteBatch::decode(payload.as_slice()) {
                        Some(b) => {
                            active.apply(seq, &b);
                        },
                        None => {
                            proof {
                                lemma_replay_error(start, last, all, next.len() as int);
                            }
                            return Err(Error::corruption("WAL batch decode failed"));
                        },
                    }
                }
                proof {
                    done = next;
                }
            },
        }
    }
}

fn contains_no(nos: &Vec<u64>, n: u64) -> (r: bool)
    ensures
        r == nos@.contains(n),
{
    let mut i: usize = 0;
    while i < nos.len()
        invariant
            0 <= i <= nos@.len(),
            forall|j: int| 0 <= j < i ==> nos@[j] != n,
        decreases nos@.len() - i,
    {
        if nos[i] == n {
            return true;
        }
        i = i + 1;
    }
    false
}

fn open_live(image: &DiskImage, nos: &Vec<u64>) -> (r: Result<(Vec<SstReader>, u64)>)
    ensures
        match r {
            Ok((ts, m)) => open_tables(image@.tables, nos@) == Ok::<Seq<TableView>, ErrorView>(
                Seq::new(ts@.len(), |i: int| ts@[i]@),
            ) && m == max_no(nos@),
            Err(e) => open_tables(image@.tables, nos@) == Err::<Seq<TableView>, ErrorView>(e@),
        },
{
    let mut ts: Vec<SstReader> = Vec::new();
    let mut m: u64 = 0;
    let mut i: usize = 0;
    proof {
        assert(nos@.take(0) =~= Seq::<u64>::empty());
        assert(Seq::new(ts@.len(), |i: int| ts@[i]@) =~= Seq::<TableView>::empty());
    }
    while i < nos.len()
        invariant
            0 <= i <= nos@.len(),
            open_tables(image@.tables, nos@.take(i as int)) == Ok::<Seq<TableView>, ErrorView>(
                Seq::new(ts@.len(), |i: int| ts@[i]@),
            ),
            m == max_no(nos@.take(i as int)),
        decreases nos@.len() - i,
    {
        let n: u64 = nos[i];
        let ghost had = Seq::new(ts@.len(), |i: int| ts@[i]@);
        let ghost t = nos@.take(i + 1);
        proof {
            assert(t.drop_last() =~= nos@.take(i as int));
            assert(t.last() == n);
        }
        let data = match find_file(&image.tables, n) {
            Some(d) => bytes::copy(d.as_slice()),
            None => {
                proof {
                    lemma_open_tables_error(image@.tables, nos@, i + 1);
                }
                return Err(Error::Io(text::owned("No such file or directory (os error 2)")));
            },
        };
        match SstReader::open(data, n) {
            Ok(r) => {
                ts.push(r);
                assert(Seq::new(ts@.len(), |i: int| ts@[i]@) =~= had.push(r@));
            },
            Err(e) => {
                proof {
                    lemma_open_tables_error(image@.tables, nos@, i + 1);
                }
                return Err(e);
            },
        }
        if n > m {
            m = n;
        }
        i = i + 1;
    }
    assert(nos@.take(i as int) =~= nos@);
    Ok((ts, m))
}

impl Engine {
    /// Open an engine from the files of its directory, **recovering** any existing state:
    ///
    /// 1. load the manifest: the set of live tables and the watermark;
    /// 2. open those tables;
    /// 3. replay every log record above the watermark (those at or below it are already in a
    ///    table) into a fresh active memtable, stopping each segment at its torn tail;
    /// 4. reclaim fully flushed log segments and orphan tables (a table written but not yet
    ///    recorded in the manifest before a crash: its data is still in the log and replays in
    ///    step 3).
    ///
    /// A fresh segment takes what comes (nothing is ever appended to a torn tail). The new
    /// segment and the reclaimed files are among the effects.
    pub fn open(opts: Options, image: &DiskImage) -> (r: Result<Engine>)
        ensures
            match r {
                Ok(e) => opened(opts, image@) == Ok::<EngineView, ErrorView>(e@) && e@.finite(),
                Err(e) => opened(opts, image@) == Err::<EngineView, ErrorView>(e@),
            },
    {
        let manifest = match &image.manifest {
            Some(b) => match Manifest::load(Some(b.as_slice())) {
                Ok(m) => m,
                Err(e) => {
                    return Err(e);
                },
            },
            None => Manifest::default(),
        };
        let last: u64 = manifest.last_flushed_seq;
        let (tables, max_sst_no) = match open_live(image, &manifest.sstables) {
            Ok(p) => p,
            Err(e) => {
                return Err(e);
            },
        };
        let mut active = Memtable::new();
        let mut max_seq: u64 = last;
        let mut max_seg_no: u64 = 0;
        let mut reclaim: Vec<Effect> = Vec::new();
        let ghost segs = image@.segments;
        let mut i: usize = 0;
        proof {
            assert(segs.take(0) =~= Seq::<File>::empty());
            assert(file_nos(segs.take(0)) =~= Seq::<u64>::empty());
            assert(db::effect_views(reclaim@) =~= Seq::<EffectView>::empty());
        }
        while i < image.segments.len()
            invariant
                0 <= i <= image.segments@.len(),
                segs == image@.segments,
                replay_all(segs.take(i as int), last) == Ok::<MemtableView, ErrorView>(active@),
                max_seq == max_seq_all(last, segs.take(i as int)),
                max_seg_no == max_no(file_nos(segs.take(i as int))),
                db::effect_views(reclaim@) == reclaimable(segs.take(i as int), last),
                stored_manifest(image@) == Ok::<ManifestView, ErrorView>(manifest@),
                last == manifest@.last_flushed_seq,
                open_tables(image@.tables, manifest@.sstables) is Ok,
            decreases image.segments@.len() - i,
        {
            let ghost t = segs.take(i + 1);
            let ghost had = db::effect_views(reclaim@);
            proof {
                assert(t.drop_last() =~= segs.take(i as int));
                assert(t.last() == segs[i as int]);
                assert(file_nos(t).drop_last() =~= file_nos(segs.take(i as int)));
            }
            let segno: u64 = image.segments[i].0;
            if segno > max_seg_no {
                max_seg_no = segno;
            }
            match replay_segment(&mut active, &image.segments[i].1, last, max_seq) {
                Ok(p) => {
                    max_seq = p.max_seq;
                    if !p.live {
                        reclaim.push(Effect::RemoveSegment(segno));
                        assert(db::effect_views(reclaim@) =~= had.push(
                            EffectView::RemoveSegment(segno),
                        ));
                    }
                },
                Err(e) => {
                    proof {
                        lemma_replay_all_error(segs, last, i + 1);
                    }
                    return Err(e);
                },
            }
            i = i + 1;
        }
        assert(segs.take(i as int) =~= segs);
        let new_seg: u64 = max_seg_no.wrapping_add(1);
        let mut effects: Vec<Effect> = Vec::new();
        effects.push(Effect::CreateSegment(new_seg));
        effects.append(&mut reclaim);
        let ghost head = seq![EffectView::CreateSegment(new_seg)] + reclaimable(segs, last);
        assert(db::effect_views(effects@) =~= head);
        let mut j: usize = 0;
        let ghost fs = image@.tables;
        proof {
            assert(fs.take(0) =~= Seq::<File>::empty());
            assert(head + orphans(fs.take(0), manifest@.sstables) =~= head);
        }
        while j < image.tables.len()
            invariant
                0 <= j <= image.tables@.len(),
                fs == image@.tables,
                db::effect_views(effects@) == head + orphans(
                    fs.take(j as int),
                    manifest@.sstables,
                ),
            decreases image.tables@.len() - j,
        {
            let ghost had = db::effect_views(effects@);
            let ghost before = orphans(fs.take(j as int), manifest@.sstables);
            proof {
                assert(fs.take(j + 1).drop_last() =~= fs.take(j as int));
                assert(fs.take(j + 1).last() == fs[j as int]);
            }
            let n: u64 = image.tables[j].0;
            if !contains_no(&manifest.sstables, n) {
                effects.push(Effect::RemoveTable(n));
                assert(db::effect_views(effects@) =~= had.push(EffectView::RemoveTable(n)));
                assert(db::effect_views(effects@) =~= head + before.push(
                    EffectView::RemoveTable(n),
                ));
            }
            j = j + 1;
        }
        assert(fs.take(j as int) =~= fs);
        let e = Engine::assemble(
            opts,
            active,
            tables,
            max_seq,
            last,
            new_seg,
            max_sst_no.wrapping_add(1),
            effects,
        );
        proof {
            let w = opened(opts, image@);
            assert(w is Ok);
            assert(e@ =~= w->Ok_0);
            finite::lemma_opened_finite(opts, image@);
        }
        Ok(e)
    }
}

/// A file's number reads back from its name.
pub proof fn law_name_roundtrip(n: u64, width: nat, ext: Seq<char>)
    requires
        width > 0,
    ensures
        numbered(text::padded(n as nat, width) + ext, ext) == Some(n),
{
    let stem = text::padded(n as nat, width);
    let name = stem + ext;
    text::law_padded_roundtrip(n as nat, width, u64::MAX as nat);
    assert(name.skip(name.len() - ext.len()) =~= ext);
    assert(name.take(name.len() - ext.len()) =~= stem);
}

/// The files that are listed are those of the directory whose name is a number and the extension,
/// each as often as it stands there, with ascending numbers.
pub proof fn law_listed(names: Seq<Seq<char>>, ext: Seq<char>)
    ensures
        ({
            let r = numbered_names(names, ext);
            &&& forall|i: int, j: int|
                0 <= i < j < r.len() ==> (#[trigger] r[i]).0 <= (#[trigger] r[j]).0
            &&& forall|i: int|
                0 <= i < r.len() ==> names.contains((#[trigger] r[i]).1) && numbered(r[i].1, ext)
                    == Some(r[i].0)
            &&& forall|k: int|
                0 <= k < names.len() && numbered(#[trigger] names[k], ext) is Some ==> r.contains(
                    (numbered(names[k], ext)->0, names[k]),
                )
            &&& r.len() == names.filter(has_number(ext)).len()
        }),
    decreases names.len(),
{
    reveal(Seq::filter);
    if names.len() > 0 {
        let d = names.drop_last();
        let rest = numbered_names(d, ext);
        let r = numbered_names(names, ext);
        law_listed(d, ext);
        let last = names.last();
        assert(names[names.len() - 1] == last);
        if let Some(n) = numbered(last, ext) {
            lemma_inserted(rest, (n, last));
        }
        assert forall|i: int| 0 <= i < r.len() implies names.contains((#[trigger] r[i]).1)
            && numbered(r[i].1, ext) == Some(r[i].0) by {
            if rest.contains(r[i]) {
                let j = choose|j: int| 0 <= j < rest.len() && rest[j] == r[i];
                assert(d.contains(rest[j].1));
                let k = choose|k: int| 0 <= k < d.len() && d[k] == rest[j].1;
                assert(names[k] == d[k]);
            }
        }
        assert forall|k: int|
            0 <= k < names.len() && numbered(#[trigger] names[k], ext) is Some implies r.contains(
            (numbered(names[k], ext)->0, names[k]),
        ) by {
            if k < d.len() {
                assert(names[k] == d[k]);
                assert(rest.contains((numbered(d[k], ext)->0, d[k])));
            }
        }
    }
}

/// Whether a name is a number and the extension.
pub open spec fn has_number(ext: Seq<char>) -> spec_fn(Seq<char>) -> bool {
    |name: Seq<char>| numbered(name, ext) is Some
}

proof fn lemma_inserted(s: Seq<Named>, x: Named)
    requires
        forall|i: int, j: int| 0 <= i < j < s.len() ==> (#[trigger] s[i]).0 <= (#[trigger] s[j]).0,
    ensures
        ({
            let r = insert_named(s, x);
            &&& r.len() == s.len() + 1
            &&& r.contains(x)
            &&& forall|i: int, j: int|
                0 <= i < j < r.len() ==> (#[trigger] r[i]).0 <= (#[trigger] r[j]).0
            &&& forall|i: int| 0 <= i < r.len() ==> (#[trigger] r[i]) == x || s.contains(r[i])
            &&& forall|y: Named| #[trigger] s.contains(y) ==> r.contains(y)
        }),
    decreases s.len(),
{
    let r = insert_named(s, x);
    if s.len() == 0 || s.last().0 <= x.0 {
        assert(r[r.len() - 1] == x);
        assert forall|y: Named| #[trigger] s.contains(y) implies r.contains(y) by {
            let j = choose|j: int| 0 <= j < s.len() && s[j] == y;
            assert(r[j] == y);
        }
        assert forall|i: int| 0 <= i < r.len() implies (#[trigger] r[i]) == x || s.contains(
            r[i],
        ) by {
            if i < s.len() {
                assert(s[i] == r[i]);
            }
        }
        assert forall|i: int, j: int| 0 <= i < j < r.len() implies (#[trigger] r[i]).0 <= (
        #[trigger] r[j]).0 by {
            assert(r[i] == s[i]);
            assert(s[s.len() - 1] == s.last());
            if j < s.len() {
                assert(r[j] == s[j]);
            }
        }
    } else {
        let d = s.drop_last();
        lemma_inserted(d, x);
        let q = insert_named(d, x);
        assert(r == q.push(s.last()));
        assert(s[s.len() - 1] == s.last());
        assert(q.contains(x));
        let k = choose|k: int| 0 <= k < q.len() && q[k] == x;
        assert(r[k] == x);
        assert(r[r.len() - 1] == s.last());
        assert forall|y: Named| #[trigger] s.contains(y) implies r.contains(y) by {
            let j = choose|j: int| 0 <= j < s.len() && s[j] == y;
            if j < d.len() {
                assert(d[j] == y);
                assert(d.contains(y));
                assert(q.contains(y));
                let m = choose|m: int| 0 <= m < q.len() && q[m] == y;
                assert(r[m] == y);
            }
        }
        assert forall|i: int| 0 <= i < r.len() implies (#[trigger] r[i]) == x || s.contains(
            r[i],
        ) by {
            if i < q.len() && q[i] != x {
                assert(r[i] == q[i]);
                assert(d.contains(q[i]));
                let m = choose|m: int| 0 <= m < d.len() && d[m] == q[i];
                assert(s[m] == r[i]);
            }
        }
        assert forall|i: int, j: int| 0 <= i < j < r.len() implies (#[trigger] r[i]).0 <= (
        #[trigger] r[j]).0 by {
            assert(r[i] == q[i]);
            if j < q.len() {
                assert(r[j] == q[j]);
            } else if q[i] != x {
                assert(d.contains(q[i]));
                let m = choose|m: int| 0 <= m < d.len() && d[m] == q[i];
                assert(s[m] == d[m]);
            }
        }
    }
}

} // verus!
