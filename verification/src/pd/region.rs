//! Regions: the unit of range-sharding, and the registry that owns them.
//!
//! A **region** owns a half-open key range `[start, end)` of the keyspace (an empty `start` is
//! the beginning, an empty `end` is the end), identified by a stable `id` and carrying an `epoch`
//! (a version, bumped whenever the range changes). A fresh cluster is one region that covers the
//! whole keyspace; [`RegionRegistry::split`] cuts a region in two and bumps the epoch of both
//! halves.
//!
//! The `epoch` is what makes stale routing detectable: a client caches a region's `(id, epoch)`
//! and stamps it on every request; once a split bumps the epoch, the holder rejects the old one.

use vstd::prelude::*;
use crate::bytes;
use crate::engine::encoding;
use crate::pd::codec;
use crate::pd::order;
use crate::pd::order::Keyed;

verus! {

broadcast use bytes::group_be_len;

/// The name of the file that a persistent registry lives in.
pub const REGIONS_FILE: &'static str = "regions";

/// A table's id.
pub type TableId = u32;

/// The id of the table that an omitted name stands for.
pub const DEFAULT_TABLE_ID: TableId = 0;

/// The name of the table that an omitted name stands for.
pub const DEFAULT_TABLE_NAME: &'static str = "default";

/// How many bytes of a stored key name its table.
pub const TABLE_PREFIX_LEN: usize = 4;

/// The prefix of a table's keys.
pub fn table_prefix(id: TableId) -> (r: [u8; 4])
    ensures
        r@ == bytes::be32(id),
{
    let mut v: Vec<u8> = Vec::new();
    bytes::put_u32(&mut v, id);
    assert(v@ =~= bytes::be32(id));
    let r: [u8; 4] = [v[0], v[1], v[2], v[3]];
    assert(r@ =~= bytes::be32(id));
    r
}

/// A key as it is stored: its table's prefix, then the key.
pub fn table_key(id: TableId, key: &[u8]) -> (r: Vec<u8>)
    ensures
        r@ == bytes::be32(id) + key@,
{
    let mut v: Vec<u8> = Vec::new();
    bytes::put_u32(&mut v, id);
    bytes::push_all(&mut v, key);
    assert(v@ =~= bytes::be32(id) + key@);
    v
}

/// The table that a stored key belongs to: what its prefix says, or the default table where it is
/// too short to have one.
pub open spec fn table_of(key: Seq<u8>) -> TableId {
    if key.len() < 4 {
        0
    } else {
        bytes::u32_at(key, 0)
    }
}

/// The table that a stored key belongs to.
pub fn table_id_of(key: &[u8]) -> (r: TableId)
    ensures
        r == table_of(key@),
{
    if key.len() < TABLE_PREFIX_LEN {
        DEFAULT_TABLE_ID
    } else {
        bytes::read_u32(key, 0)
    }
}

/// A stored key belongs to the table that it was stored for.
pub proof fn law_table_key(id: TableId, key: Seq<u8>)
    ensures
        table_of(bytes::be32(id) + key) == id,
{
    let k = bytes::be32(id) + key;
    assert(k.subrange(0, 4) =~= bytes::be32(id));
    bytes::lemma_u32_at(k, 0, id);
}

/// A contiguous, epoch-versioned shard of the keyspace.
#[derive(Debug, Clone, PartialEq, Eq)]
pub struct Region {
    pub id: u64,
    /// Inclusive lower bound; empty is the start of the keyspace.
    pub start: Vec<u8>,
    /// Exclusive upper bound; empty is the end of the keyspace.
    pub end: Vec<u8>,
    /// Version, bumped on every range change.
    pub epoch: u64,
}

/// A [`Region`] as values.
#[verifier::ext_equal]
pub struct RegionView {
    pub id: u64,
    pub start: Seq<u8>,
    pub end: Seq<u8>,
    pub epoch: u64,
}

impl View for Region {
    type V = RegionView;

    open spec fn view(&self) -> RegionView {
        RegionView { id: self.id, start: self.start@, end: self.end@, epoch: self.epoch }
    }
}

impl RegionView {
    /// Whether a key falls in the range.
    pub open spec fn contains(self, key: Seq<u8>) -> bool {
        bytes::lex_le(self.start, key) && (self.end.len() == 0 || bytes::lex_lt(key, self.end))
    }

    /// A region over the whole keyspace.
    pub open spec fn whole(id: u64) -> RegionView {
        RegionView { id, start: Seq::empty(), end: Seq::empty(), epoch: 1 }
    }

    /// The region in bytes.
    pub open spec fn bytes(self) -> Seq<u8> {
        bytes::be64(self.id) + bytes::be64(self.epoch) + encoding::length_prefixed(self.start)
            + encoding::length_prefixed(self.end)
    }

    /// The bounds fit their length fields.
    pub open spec fn fits(self) -> bool {
        self.start.len() < 0x1_0000_0000 && self.end.len() < 0x1_0000_0000
    }
}

/// The region at a position, and the position behind it.
pub open spec fn region_from(b: Seq<u8>, pos: int) -> Option<(RegionView, int)> {
    match codec::u64_from(b, pos) {
        Some((id, p)) => match codec::u64_from(b, p) {
            Some((epoch, q)) => match codec::bytes_from(b, q) {
                Some((start, r)) => match codec::bytes_from(b, r) {
                    Some((end, e)) => Some((RegionView { id, start, end, epoch }, e)),
                    None => None,
                },
                None => None,
            },
            None => None,
        },
        None => None,
    }
}

/// How a region of a list is read.
pub open spec fn region_parser() -> spec_fn(Seq<u8>, int) -> Option<(RegionView, int)> {
    |b: Seq<u8>, pos: int| region_from(b, pos)
}

/// How a region of a list is written.
pub open spec fn region_writer() -> spec_fn(RegionView) -> Seq<u8> {
    |r: RegionView| r.bytes()
}

/// A region is read back from its bytes.
pub proof fn lemma_region_codes(r: RegionView, before: Seq<u8>, after: Seq<u8>)
    requires
        r.fits(),
    ensures
        region_from(before + r.bytes() + after, before.len() as int) == Some(
            (r, (before.len() + r.bytes().len()) as int),
        ),
{
    let a = bytes::be64(r.id);
    let b = bytes::be64(r.epoch);
    let c = encoding::length_prefixed(r.start);
    let d = encoding::length_prefixed(r.end);
    let whole = before + r.bytes() + after;
    codec::lemma_u64_codes(r.id, before, b + c + d + after);
    assert(whole =~= before + a + (b + c + d + after));
    codec::lemma_u64_codes(r.epoch, before + a, c + d + after);
    assert(whole =~= (before + a) + b + (c + d + after));
    codec::lemma_bytes_codes(r.start, before + a + b, d + after);
    assert(whole =~= (before + a + b) + c + (d + after));
    codec::lemma_bytes_codes(r.end, before + a + b + c, after);
    assert(whole =~= (before + a + b + c) + d + after);
}

/// Regions are read exactly.
pub proof fn lemma_region_exact(b: Seq<u8>, pos: int, cut: int)
    requires
        0 <= pos,
        0 <= cut <= b.len(),
    ensures
        match region_from(b, pos) {
            Some((x, end)) => {
                &&& pos <= end <= b.len()
                &&& cut >= end ==> region_from(b.take(cut), pos) == Some((x, end))
                &&& cut < end ==> region_from(b.take(cut), pos) is None
            },
            None => region_from(b.take(cut), pos) is None,
        },
{
    codec::lemma_cut(b, pos, cut);
    codec::lemma_cut(b, pos + 8, cut);
    codec::lemma_bytes_exact(b, pos + 16, cut);
    if let Some((start, r)) = codec::bytes_from(b, pos + 16) {
        codec::lemma_bytes_exact(b, r, cut);
    }
}

/// Read a region.
pub fn get_region(buf: &[u8], pos: usize) -> (r: Option<(Region, usize)>)
    ensures
        match region_from(buf@, pos as int) {
            Some((x, end)) => r matches Some((y, p)) && y@ == x && p == end,
            None => r is None,
        },
{
    let (id, p) = match codec::get_u64(buf, pos) {
        Some(x) => x,
        None => {
            return None;
        },
    };
    let (epoch, p) = match codec::get_u64(buf, p) {
        Some(x) => x,
        None => {
            return None;
        },
    };
    let (start, p) = match codec::get_bytes(buf, p) {
        Some(x) => x,
        None => {
            return None;
        },
    };
    let (end, p) = match codec::get_bytes(buf, p) {
        Some(x) => x,
        None => {
            return None;
        },
    };
    Some((Region { id, start, end, epoch }, p))
}

/// Append a region.
pub fn put_region(out: &mut Vec<u8>, r: &Region)
    ensures
        final(out)@ == old(out)@ + r@.bytes(),
{
    let ghost before = out@;
    bytes::put_u64(out, r.id);
    bytes::put_u64(out, r.epoch);
    encoding::put_length_prefixed(out, r.start.as_slice());
    encoding::put_length_prefixed(out, r.end.as_slice());
    assert(out@ =~= before + r@.bytes());
}

impl Region {
    /// Whether `key` falls in this region's half-open range.
    pub fn contains(&self, key: &[u8]) -> (r: bool)
        ensures
            r == self@.contains(key@),
    {
        bytes::bytes_le(self.start.as_slice(), key) && (self.end.len() == 0 || bytes::bytes_lt(
            key,
            self.end.as_slice(),
        ))
    }

    /// A copy of the region.
    pub fn dup(&self) -> (r: Region)
        ensures
            r@ == self@,
    {
        Region {
            id: self.id,
            start: bytes::copy(self.start.as_slice()),
            end: bytes::copy(self.end.as_slice()),
            epoch: self.epoch,
        }
    }

    /// A region over the whole keyspace.
    pub fn whole(id: u64) -> (r: Region)
        ensures
            r@ == RegionView::whole(id),
    {
        let r = Region { id, start: Vec::new(), end: Vec::new(), epoch: 1 };
        assert(r@ =~= RegionView::whole(id));
        r
    }
}

impl Keyed for Region {
    open spec fn key(v: RegionView) -> Seq<u8> {
        v.start
    }

    fn before(&self, other: &Self) -> (r: bool) {
        bytes::bytes_lt(self.start.as_slice(), other.start.as_slice())
    }
}

/// Copies of a list of regions.
pub fn dup_regions(s: &Vec<Region>) -> (r: Vec<Region>)
    ensures
        order::views(r@) == order::views(s@),
{
    let mut out: Vec<Region> = Vec::new();
    let mut i: usize = 0;
    while i < s.len()
        invariant
            0 <= i <= s@.len(),
            out@.len() == i,
            forall|j: int| 0 <= j < i ==> (#[trigger] out@[j])@ == s@[j]@,
        decreases s@.len() - i,
    {
        out.push(s[i].dup());
        i = i + 1;
    }
    assert(order::views(out@) =~= order::views(s@));
    out
}

/// Why a registry refused something.
#[derive(Debug, Clone, Copy, PartialEq, Eq, Structural)]
pub enum RegionError {
    /// The saved table cannot be read.
    Corrupt,
    /// No region covers the split key.
    Outside,
    /// The split key is where its region starts.
    AtStart,
    /// No id or epoch is left.
    Exhausted,
}

impl RegionError {
    /// What to tell an operator.
    pub fn message(&self) -> (r: &'static str)
        ensures
            r@ == match *self {
                RegionError::Corrupt => "region table corrupt"@,
                RegionError::Outside => "split_key is outside every region"@,
                RegionError::AtStart => "split_key must be strictly greater than the region start"@,
                RegionError::Exhausted => "no region id or epoch left"@,
            },
    {
        match self {
            RegionError::Corrupt => "region table corrupt",
            RegionError::Outside => "split_key is outside every region",
            RegionError::AtStart => "split_key must be strictly greater than the region start",
            RegionError::Exhausted => "no region id or epoch left",
        }
    }
}

/// The position of the first region that covers a key; the number of regions where none does.
pub open spec fn covering(s: Seq<RegionView>, key: Seq<u8>, i: int) -> int
    decreases s.len() - i,
{
    if i >= s.len() {
        s.len() as int
    } else if s[i].contains(key) {
        i
    } else {
        covering(s, key, i + 1)
    }
}

/// The position of the first region with an id; the number of regions where there is none.
pub open spec fn with_id(s: Seq<RegionView>, id: u64, i: int) -> int
    decreases s.len() - i,
{
    if i >= s.len() {
        s.len() as int
    } else if s[i].id == id {
        i
    } else {
        with_id(s, id, i + 1)
    }
}

/// The region at a position, where there is one.
pub open spec fn region_at(s: Seq<RegionView>, i: int) -> Option<RegionView> {
    if 0 <= i < s.len() {
        Some(s[i])
    } else {
        None
    }
}

/// An optional region as values.
pub open spec fn opt_region(r: Option<Region>) -> Option<RegionView> {
    match r {
        Some(x) => Some(x@),
        None => None,
    }
}

/// One past the highest id of a list, and at least 1.
pub open spec fn past_ids(s: Seq<RegionView>) -> int
    decreases s.len(),
{
    if s.len() == 0 {
        1
    } else {
        let m = past_ids(s.drop_last());
        if s.last().id + 1 > m {
            s.last().id + 1
        } else {
            m
        }
    }
}

/// A registry as values.
#[verifier::ext_equal]
pub struct RegistryView {
    pub regions: Seq<RegionView>,
    pub next_id: u64,
}

impl RegistryView {
    /// One region over the whole keyspace.
    pub open spec fn fresh() -> RegistryView {
        RegistryView { regions: seq![RegionView::whole(1)], next_id: 2 }
    }

    /// The region that owns a key.
    pub open spec fn route(self, key: Seq<u8>) -> Option<RegionView> {
        region_at(self.regions, covering(self.regions, key, 0))
    }

    /// The two halves of a region that is split, and the registry with them in its place.
    pub open spec fn split(self, key: Seq<u8>) -> (
        RegistryView,
        Result<(RegionView, RegionView), RegionError>,
    ) {
        let i = covering(self.regions, key, 0);
        if i >= self.regions.len() {
            (self, Err(RegionError::Outside))
        } else {
            let target = self.regions[i];
            if bytes::lex_le(key, target.start) {
                (self, Err(RegionError::AtStart))
            } else if target.epoch == u64::MAX || self.next_id == u64::MAX {
                (self, Err(RegionError::Exhausted))
            } else {
                let epoch = (target.epoch + 1) as u64;
                let left = RegionView { end: key, epoch, ..target };
                let right = RegionView { id: self.next_id, start: key, end: target.end, epoch };
                (
                    RegistryView {
                        regions: self.regions.update(i, left).insert(i + 1, right),
                        next_id: (self.next_id + 1) as u64,
                    },
                    Ok((left, right)),
                )
            }
        }
    }

    /// The registry with another set of regions.
    pub open spec fn replace(self, regions: Seq<RegionView>) -> RegistryView {
        let past = past_ids(order::sorted(order::key_of::<Region>(), regions));
        RegistryView {
            regions: order::sorted(order::key_of::<Region>(), regions),
            next_id: if past > self.next_id {
                past as u64
            } else {
                self.next_id
            },
        }
    }

    /// The registry in bytes.
    pub open spec fn bytes(self) -> Seq<u8> {
        bytes::be64(self.next_id) + codec::counted_bytes(region_writer(), self.regions)
    }

    /// The regions fit their length fields.
    pub open spec fn fits(self) -> bool {
        &&& self.regions.len() < 0x1_0000_0000
        &&& forall|i: int| 0 <= i < self.regions.len() ==> (#[trigger] self.regions[i]).fits()
    }

    /// The regions follow one another without gap or overlap, from the start of the keyspace to
    /// its end.
    pub open spec fn tiled(self) -> bool {
        let s = self.regions;
        &&& s.len() > 0
        &&& s[0].start.len() == 0
        &&& s[s.len() - 1].end.len() == 0
        &&& forall|i: int|
            0 <= i < s.len() - 1 ==> (#[trigger] s[i]).end == s[i + 1].start && s[i].end.len() > 0
                && bytes::lex_lt(s[i].start, s[i].end)
    }
}

/// The registry that bytes hold.
pub open spec fn registry_of(b: Seq<u8>) -> Option<RegistryView> {
    match codec::u64_from(b, 0) {
        Some((next_id, p)) => match codec::counted_from(region_parser(), b, p) {
            Some((regions, _)) => Some(RegistryView { regions, next_id }),
            None => None,
        },
        None => None,
    }
}

/// The owner of a set of regions: a data node's authoritative table, or the placement driver's.
pub struct RegionRegistry {
    /// Regions, kept sorted by `start`.
    regions: Vec<Region>,
    /// Next region id to assign.
    next_id: u64,
}

impl View for RegionRegistry {
    type V = RegistryView;

    closed spec fn view(&self) -> RegistryView {
        RegistryView { regions: order::views(self.regions@), next_id: self.next_id }
    }
}

impl RegionRegistry {
    /// A registry with a single region that covers the whole keyspace.
    pub fn in_memory() -> (r: RegionRegistry)
        ensures
            r@ == RegistryView::fresh(),
            r@.tiled(),
    {
        let mut regions: Vec<Region> = Vec::new();
        regions.push(Region::whole(1));
        let r = RegionRegistry { regions, next_id: 2 };
        assert(r@ =~= RegistryView::fresh());
        r
    }

    /// An empty registry (before any node has reported in).
    pub fn empty() -> (r: RegionRegistry)
        ensures
            r@ == (RegistryView { regions: Seq::empty(), next_id: 1 }),
    {
        let r = RegionRegistry { regions: Vec::new(), next_id: 1 };
        assert(r@ =~= RegistryView { regions: Seq::empty(), next_id: 1 });
        r
    }

    /// Open a persistent registry from what its file holds: the saved table, or, on first start,
    /// a single region over the whole keyspace. The caller saves [`RegionRegistry::encode`] now
    /// and after each split.
    pub fn open(saved: Option<&[u8]>) -> (r: Result<RegionRegistry, RegionError>)
        ensures
            match saved {
                Some(b) => match registry_of(b@) {
                    Some(v) => r matches Ok(reg) && reg@ == v,
                    None => r matches Err(e) && e == RegionError::Corrupt,
                },
                None => r matches Ok(reg) && reg@ == RegistryView::fresh(),
            },
    {
        match saved {
            Some(b) => match RegionRegistry::decode(b) {
                Some(reg) => Ok(reg),
                None => Err(RegionError::Corrupt),
            },
            None => Ok(RegionRegistry::in_memory()),
        }
    }

    /// The region that owns `key`, if the keyspace is covered here.
    pub fn route(&self, key: &[u8]) -> (r: Option<Region>)
        ensures
            opt_region(r) == self@.route(key@),
    {
        let i: usize = self.position(key);
        if i < self.regions.len() {
            Some(self.regions[i].dup())
        } else {
            None
        }
    }

    fn position(&self, key: &[u8]) -> (r: usize)
        ensures
            r == covering(self@.regions, key@, 0),
            r <= self@.regions.len(),
    {
        let mut i: usize = 0;
        while i < self.regions.len()
            invariant
                0 <= i <= self.regions@.len(),
                covering(self@.regions, key@, 0) == covering(self@.regions, key@, i as int),
            decreases self.regions@.len() - i,
        {
            if self.regions[i].contains(key) {
                return i;
            }
            i = i + 1;
        }
        i
    }

    /// Look up a region by id (used by the authoritative epoch check).
    pub fn by_id(&self, id: u64) -> (r: Option<Region>)
        ensures
            opt_region(r) == region_at(self@.regions, with_id(self@.regions, id, 0)),
    {
        let mut i: usize = 0;
        while i < self.regions.len()
            invariant
                0 <= i <= self.regions@.len(),
                with_id(self@.regions, id, 0) == with_id(self@.regions, id, i as int),
            decreases self.regions@.len() - i,
        {
            if self.regions[i].id == id {
                return Some(self.regions[i].dup());
            }
            i = i + 1;
        }
        None
    }

    /// All regions, sorted by start key.
    pub fn list(&self) -> (r: Vec<Region>)
        ensures
            order::views(r@) == self@.regions,
    {
        dup_regions(&self.regions)
    }

    /// Split the region that contains `split_key` at that key, bumping the epoch of both halves
    /// and assigning a fresh id to the right half. Errors if `split_key` is not strictly inside
    /// some region.
    pub fn split(&mut self, split_key: &[u8]) -> (r: Result<(Region, Region), RegionError>)
        ensures
            final(self)@ == old(self)@.split(split_key@).0,
            match r {
                Ok((left, right)) => old(self)@.split(split_key@).1 == Ok::<
                    (RegionView, RegionView),
                    RegionError,
                >((left@, right@)),
                Err(e) => old(self)@.split(split_key@).1 == Err::<
                    (RegionView, RegionView),
                    RegionError,
                >(e),
            },
    {
        let i: usize = self.position(split_key);
        if i >= self.regions.len() {
            return Err(RegionError::Outside);
        }
        if bytes::bytes_le(split_key, self.regions[i].start.as_slice()) {
            return Err(RegionError::AtStart);
        }
        if self.regions[i].epoch == u64::MAX || self.next_id == u64::MAX {
            return Err(RegionError::Exhausted);
        }
        let ghost before = self@;
        let target = self.regions[i].dup();
        let epoch: u64 = target.epoch + 1;
        let right_id: u64 = self.next_id;
        self.next_id = self.next_id + 1;
        let left = Region {
            id: target.id,
            start: bytes::copy(target.start.as_slice()),
            end: bytes::copy(split_key),
            epoch,
        };
        let right = Region {
            id: right_id,
            start: bytes::copy(split_key),
            end: bytes::copy(target.end.as_slice()),
            epoch,
        };
        let left_copy = left.dup();
        let right_copy = right.dup();
        self.regions.set(i, left_copy);
        self.regions.insert(i + 1, right_copy);
        assert(self@.regions =~= before.regions.update(i as int, left@).insert(i + 1, right@));
        Ok((left, right))
    }

    /// Replace the entire view with `regions`. Keeps the table sorted and advances the next id
    /// past every id seen, so that a later split never collides.
    pub fn replace(&mut self, regions: Vec<Region>)
        requires
            forall|i: int| 0 <= i < regions@.len() ==> (#[trigger] regions@[i]).id < u64::MAX,
        ensures
            final(self)@ == old(self)@.replace(order::views(regions@)),
    {
        let ghost given = order::views(regions@);
        let sorted = order::sort(regions);
        let ghost vs = order::views(sorted@);
        proof {
            order::lemma_sorted(order::key_of::<Region>(), given);
            assert forall|j: int| 0 <= j < vs.len() implies (#[trigger] vs[j]).id < u64::MAX by {
                assert(vs.to_multiset().contains(vs[j])) by {
                    vs.to_multiset_ensures();
                    assert(vs.contains(vs[j]));
                }
                given.to_multiset_ensures();
                assert(given.contains(vs[j]));
            }
        }
        let mut past: u64 = 1;
        let mut i: usize = 0;
        assert(vs.take(0) =~= Seq::<RegionView>::empty());
        while i < sorted.len()
            invariant
                0 <= i <= sorted@.len(),
                vs == order::views(sorted@),
                forall|j: int| 0 <= j < vs.len() ==> (#[trigger] vs[j]).id < u64::MAX,
                past == past_ids(vs.take(i as int)),
            decreases sorted@.len() - i,
        {
            proof {
                assert(vs.take(i + 1).drop_last() =~= vs.take(i as int));
                assert(vs[i as int] == sorted@[i as int]@);
            }
            if sorted[i].id + 1 > past {
                past = sorted[i].id + 1;
            }
            i = i + 1;
        }
        assert(vs.take(i as int) =~= vs);
        if past > self.next_id {
            self.next_id = past;
        }
        self.regions = sorted;
    }

    /// Append the registry in bytes.
    pub fn encode_into(&self, out: &mut Vec<u8>)
        ensures
            final(out)@ == old(out)@ + self@.bytes(),
    {
        let ghost before = out@;
        let ghost all = self@.regions;
        bytes::put_u64(out, self.next_id);
        bytes::put_u32(out, encoding::low32(self.regions.len()));
        let ghost head = out@;
        let mut i: usize = 0;
        assert(all.take(0) =~= Seq::<RegionView>::empty());
        assert(out@ =~= head + codec::list_bytes(region_writer(), all.take(0)));
        while i < self.regions.len()
            invariant
                0 <= i <= self.regions@.len(),
                all == self@.regions,
                out@ == head + codec::list_bytes(region_writer(), all.take(i as int)),
            decreases self.regions@.len() - i,
        {
            proof {
                assert(all.take(i + 1).drop_last() =~= all.take(i as int));
                assert(all.take(i + 1).last() == self.regions@[i as int]@);
            }
            put_region(out, &self.regions[i]);
            assert(out@ =~= head + codec::list_bytes(region_writer(), all.take(i + 1)));
            i = i + 1;
        }
        assert(all.take(i as int) =~= all);
        assert(out@ =~= before + self@.bytes());
    }

    /// The registry in bytes: what a persistent one saves.
    pub fn encode(&self) -> (r: Vec<u8>)
        ensures
            r@ == self@.bytes(),
    {
        let mut out: Vec<u8> = Vec::new();
        self.encode_into(&mut out);
        assert(out@ =~= self@.bytes());
        out
    }

    /// The registry that bytes hold; `None` where they are cut short.
    pub fn decode(buf: &[u8]) -> (r: Option<RegionRegistry>)
        ensures
            match registry_of(buf@) {
                Some(v) => r matches Some(reg) && reg@ == v,
                None => r is None,
            },
    {
        let (next_id, p) = match codec::get_u64(buf, 0) {
            Some(x) => x,
            None => {
                return None;
            },
        };
        let (n, start) = match codec::get_u32(buf, p) {
            Some(x) => x,
            None => {
                return None;
            },
        };
        let ghost f = region_parser();
        let mut out: Vec<Region> = Vec::new();
        let mut q: usize = start;
        let mut i: u32 = 0;
        assert(order::views(out@) =~= Seq::<RegionView>::empty());
        while i < n
            invariant
                0 <= i <= n,
                f == region_parser(),
                codec::u64_from(buf@, 0) == Some((next_id, p as int)),
                codec::u32_from(buf@, p as int) == Some((n, start as int)),
                codec::list_from(f, buf@, start as int, i as nat) == Some(
                    (order::views(out@), q as int),
                ),
            decreases n - i,
        {
            match get_region(buf, q) {
                Some((x, end)) => {
                    let ghost before = order::views(out@);
                    let ghost xv = x@;
                    out.push(x);
                    q = end;
                    assert(order::views(out@) =~= before.push(xv));
                },
                None => {
                    proof {
                        assert(codec::list_from(f, buf@, start as int, (i + 1) as nat) is None);
                        codec::lemma_list_none(
                            f,
                            buf@,
                            start as int,
                            (i + 1) as nat,
                            n as nat,
                        );
                    }
                    return None;
                },
            }
            i = i + 1;
        }
        Some(RegionRegistry { regions: out, next_id })
    }

    /// Replace the registry by what bytes hold; untouched, and false, where they are cut short.
    pub fn decode_from(&mut self, buf: &[u8]) -> (ok: bool)
        ensures
            match registry_of(buf@) {
                Some(v) => ok && final(self)@ == v,
                None => !ok && final(self)@ == old(self)@,
            },
    {
        match RegionRegistry::decode(buf) {
            Some(reg) => {
                *self = reg;
                true
            },
            None => false,
        }
    }
}

/// A registry is read back from its bytes.
pub proof fn law_registry_roundtrip(v: RegistryView)
    requires
        v.fits(),
    ensures
        registry_of(v.bytes()) == Some(v),
{
    lemma_regions_code(v.regions);
    let a = bytes::be64(v.next_id);
    let b = codec::counted_bytes(region_writer(), v.regions);
    let none = Seq::<u8>::empty();
    codec::lemma_u64_codes(v.next_id, none, b);
    assert(none + a + b =~= v.bytes());
    codec::lemma_counted_codes(region_parser(), region_writer(), v.regions, a, none);
    assert(a + b + none =~= v.bytes());
}

/// Each region of a list is read back from its bytes.
pub proof fn lemma_regions_code(s: Seq<RegionView>)
    requires
        forall|i: int| 0 <= i < s.len() ==> (#[trigger] s[i]).fits(),
    ensures
        forall|k: int|
            0 <= k < s.len() ==> codec::codes(region_parser(), #[trigger] region_writer()(s[k]), s[k]),
{
    assert forall|k: int| 0 <= k < s.len() implies codec::codes(
        region_parser(),
        #[trigger] region_writer()(s[k]),
        s[k],
    ) by {
        let f = region_parser();
        let enc = region_writer()(s[k]);
        assert forall|before: Seq<u8>, after: Seq<u8>| #[trigger]
            f(before + enc + after, before.len() as int) == Some(
                (s[k], (before.len() + enc.len()) as int),
            ) by {
            lemma_region_codes(s[k], before, after);
        }
    }
}

/// What the search for a covering region finds.
pub proof fn lemma_covering(s: Seq<RegionView>, key: Seq<u8>, i: int)
    requires
        0 <= i <= s.len(),
    ensures
        i <= covering(s, key, i) <= s.len(),
        covering(s, key, i) < s.len() ==> s[covering(s, key, i)].contains(key),
        forall|j: int| i <= j < covering(s, key, i) ==> !(#[trigger] s[j]).contains(key),
    decreases s.len() - i,
{
    if i < s.len() && !s[i].contains(key) {
        lemma_covering(s, key, i + 1);
    }
}

/// What the search for an id finds.
pub proof fn lemma_with_id(s: Seq<RegionView>, id: u64, i: int)
    requires
        0 <= i <= s.len(),
    ensures
        i <= with_id(s, id, i) <= s.len(),
        with_id(s, id, i) < s.len() ==> s[with_id(s, id, i)].id == id,
        forall|j: int| i <= j < with_id(s, id, i) ==> (#[trigger] s[j]).id != id,
    decreases s.len() - i,
{
    if i < s.len() && s[i].id != id {
        lemma_with_id(s, id, i + 1);
    }
}

/// In a tiled registry the starts go up.
proof fn lemma_tiled_order(v: RegistryView, i: int, j: int)
    requires
        v.tiled(),
        0 <= i < j < v.regions.len(),
    ensures
        bytes::lex_lt(v.regions[i].start, v.regions[j].start),
        bytes::lex_le(v.regions[i].end, v.regions[j].start),
    decreases j - i,
{
    let s = v.regions;
    assert(s[i].end == s[i + 1].start && bytes::lex_lt(s[i].start, s[i].end));
    bytes::lemma_lex_facts(s[i].end, s[i].end, s[i].end);
    if i + 1 < j {
        lemma_tiled_order(v, i + 1, j);
        bytes::lemma_lex_facts(s[i].start, s[i + 1].start, s[j].start);
        bytes::lemma_lex_facts(s[i].end, s[j].start, s[j].start);
    }
}

/// In a tiled registry every key belongs to exactly one region.
pub proof fn law_tiled_routes(v: RegistryView, key: Seq<u8>)
    requires
        v.tiled(),
    ensures
        v.route(key) is Some,
        v.route(key)->0.contains(key),
        forall|i: int, j: int|
            #![trigger v.regions[i], v.regions[j]]
            0 <= i < v.regions.len() && 0 <= j < v.regions.len() && v.regions[i].contains(key)
                && v.regions[j].contains(key) ==> i == j,
{
    let s = v.regions;
    lemma_covering(s, key, 0);
    let found = lemma_some_region(v, key, s.len() - 1);
    assert(covering(s, key, 0) <= found);
    assert forall|i: int, j: int| #![trigger v.regions[i], v.regions[j]]
        0 <= i < v.regions.len() && 0 <= j < v.regions.len() && v.regions[i].contains(key)
            && v.regions[j].contains(key) implies i == j by {
        if i < j {
            lemma_apart(v, key, i, j);
        }
        if j < i {
            lemma_apart(v, key, j, i);
        }
    }
}

/// Two regions of a tiled registry have no key in common.
proof fn lemma_apart(v: RegistryView, key: Seq<u8>, i: int, j: int)
    requires
        v.tiled(),
        0 <= i < j < v.regions.len(),
        v.regions[i].contains(key),
    ensures
        !v.regions[j].contains(key),
{
    let s = v.regions;
    lemma_tiled_order(v, i, j);
    assert(s[i].end == s[i + 1].start && s[i].end.len() > 0);
    bytes::lemma_lex_facts(s[i].end, s[j].start, key);
    bytes::lemma_lex_facts(s[i].end, key, s[i].end);
    bytes::lemma_lex_total(key, s[i].end);
    bytes::lemma_lex_irreflexive(key);
}

/// A key in front of the end of region `i` is in it or in one before.
proof fn lemma_some_region(v: RegistryView, key: Seq<u8>, i: int) -> (j: int)
    requires
        v.tiled(),
        0 <= i < v.regions.len(),
        i < v.regions.len() - 1 ==> bytes::lex_lt(key, v.regions[i].end),
    ensures
        0 <= j <= i,
        v.regions[j].contains(key),
    decreases i,
{
    let s = v.regions;
    if s[i].contains(key) {
        i
    } else {
        bytes::lemma_lex_facts(s[i].start, key, key);
        assert(bytes::lex_lt(key, s[i].start));
        if i == 0 {
            assert(!bytes::lex_lt(key, s[0].start));
            0
        } else {
            assert(s[i - 1].end == s[i].start);
            lemma_some_region(v, key, i - 1)
        }
    }
}

/// A split keeps the registry tiled.
pub proof fn law_split_tiled(v: RegistryView, key: Seq<u8>)
    requires
        v.tiled(),
    ensures
        v.split(key).0.tiled(),
{
    let s = v.regions;
    let i = covering(s, key, 0);
    lemma_covering(s, key, 0);
    if v.split(key).1 is Ok {
        let w = v.split(key).0;
        let t = w.regions;
        bytes::lemma_lex_facts(s[i].start, key, key);
        bytes::lemma_lex_facts(key, s[i].start, key);
        bytes::lemma_lex_total(key, s[i].start);
        assert(bytes::lex_lt(s[i].start, key));
        assert(key.len() > 0) by {
            if key.len() == 0 {
                assert(!bytes::lex_lt(s[i].start, key));
            }
        }
        assert forall|j: int| 0 <= j < t.len() - 1 implies (#[trigger] t[j]).end == t[j + 1].start
            && t[j].end.len() > 0 && bytes::lex_lt(t[j].start, t[j].end) by {
            if j < i {
                assert(t[j] == s[j]);
                assert(s[j].end == s[j + 1].start);
                assert(t[j + 1].start == s[j + 1].start);
            } else if j == i {
            } else if j == i + 1 {
                assert(t[j + 1] == s[i + 1]);
                assert(s[i].end == s[i + 1].start);
            } else {
                assert(t[j] == s[j - 1]);
                assert(t[j + 1] == s[j]);
            }
        }
        assert(t[t.len() - 1].end.len() == 0) by {
            if i == s.len() - 1 {
                assert(t[t.len() - 1].end == s[i].end);
            } else {
                assert(t[t.len() - 1] == s[s.len() - 1]);
            }
        }
    }
}

/// A split bumps the epoch of both halves, gives the right one a fresh id, and leaves every other
/// region as it is.
pub proof fn law_split_epochs(v: RegistryView, key: Seq<u8>)
    requires
        v.split(key).1 is Ok,
    ensures
        ({
            let i = covering(v.regions, key, 0);
            let (left, right) = v.split(key).1->Ok_0;
            let t = v.split(key).0.regions;
            &&& 0 <= i < v.regions.len()
            &&& left.epoch == v.regions[i].epoch + 1
            &&& right.epoch == v.regions[i].epoch + 1
            &&& left.id == v.regions[i].id
            &&& right.id == v.next_id
            &&& left.start == v.regions[i].start
            &&& left.end == key
            &&& right.start == key
            &&& right.end == v.regions[i].end
            &&& v.split(key).0.next_id == v.next_id + 1
            &&& t.len() == v.regions.len() + 1
            &&& t[i] == left && t[i + 1] == right
            &&& forall|j: int| 0 <= j < i ==> #[trigger] t[j] == v.regions[j]
            &&& forall|j: int| i + 1 < j < t.len() ==> #[trigger] t[j] == v.regions[j - 1]
        }),
{
    lemma_covering(v.regions, key, 0);
}

/// A split of a tiled registry succeeds at every key at which no region starts yet, while there
/// are ids and epochs left; at the start of a region it is refused, and a refusal changes nothing.
pub proof fn law_split_owed(v: RegistryView, key: Seq<u8>)
    requires
        v.tiled(),
        v.next_id < u64::MAX,
        forall|i: int| 0 <= i < v.regions.len() ==> (#[trigger] v.regions[i]).epoch < u64::MAX,
    ensures
        v.split(key).1 is Ok <==> forall|i: int|
            0 <= i < v.regions.len() ==> (#[trigger] v.regions[i]).start != key,
        v.split(key).1 is Err ==> v.split(key).0 == v && v.split(key).1->Err_0
            == RegionError::AtStart,
{
    let s = v.regions;
    let i = covering(s, key, 0);
    law_tiled_routes(v, key);
    lemma_covering(s, key, 0);
    bytes::lemma_lex_irreflexive(key);
    bytes::lemma_lex_total(key, s[i].start);
    bytes::lemma_lex_facts(s[i].start, key, s[i].start);
    if exists|j: int| 0 <= j < s.len() && (#[trigger] s[j]).start == key {
        let j = choose|j: int| 0 <= j < s.len() && (#[trigger] s[j]).start == key;
        assert(s[j].contains(key)) by {
            if j < s.len() - 1 {
                assert(s[j].end.len() > 0 && bytes::lex_lt(s[j].start, s[j].end));
            }
        }
        assert(v.regions[i].contains(key) && v.regions[j].contains(key));
    }
}

/// A region is found by its id exactly where there is one.
pub proof fn law_by_id(s: Seq<RegionView>, id: u64)
    ensures
        ({
            let r = region_at(s, with_id(s, id, 0));
            &&& r is None <==> forall|i: int| 0 <= i < s.len() ==> (#[trigger] s[i]).id != id
            &&& r is Some ==> s.contains(r->0) && r->0.id == id
        }),
{
    lemma_with_id(s, id, 0);
}

/// A key is routed to the first region that covers it, and to none exactly where none does.
pub proof fn law_route(v: RegistryView, key: Seq<u8>)
    ensures
        v.route(key) is None <==> forall|i: int|
            0 <= i < v.regions.len() ==> !(#[trigger] v.regions[i]).contains(key),
        v.route(key) is Some ==> v.regions.contains(v.route(key)->0) && v.route(key)->0.contains(
            key,
        ),
        forall|i: int|
            0 <= i < v.regions.len() && (#[trigger] v.regions[i]).contains(key) && (forall|k: int|
                0 <= k < i ==> !(#[trigger] v.regions[k]).contains(key)) ==> v.route(key) == Some(
                v.regions[i],
            ),
{
    let s = v.regions;
    lemma_covering(s, key, 0);
    let c = covering(s, key, 0);
    assert forall|i: int|
        0 <= i < s.len() && (#[trigger] s[i]).contains(key) && (forall|k: int|
            0 <= k < i ==> !(#[trigger] s[k]).contains(key)) implies v.route(key) == Some(s[i]) by {
        if c < i {
            assert(s[c].contains(key));
        } else if i < c {
            assert(!s[i].contains(key));
        }
    }
}

/// A whole new set of regions is kept in order of the start keys; the ids that it uses are never
/// handed out again, nor those that were handed out before.
pub proof fn law_replaced(v: RegistryView, regions: Seq<RegionView>)
    requires
        forall|i: int| 0 <= i < regions.len() ==> (#[trigger] regions[i]).id < u64::MAX,
    ensures
        ({
            let w = v.replace(regions);
            &&& w.regions.to_multiset() == regions.to_multiset()
            &&& w.next_id >= v.next_id
            &&& forall|i: int| 0 <= i < regions.len() ==> (#[trigger] regions[i]).id < w.next_id
            &&& forall|i: int, j: int|
                #![trigger w.regions[i], w.regions[j]]
                0 <= i < j < w.regions.len() ==> bytes::lex_le(
                    w.regions[i].start,
                    w.regions[j].start,
                )
        }),
{
    let key = order::key_of::<Region>();
    let s = order::sorted(key, regions);
    order::lemma_sorted(key, regions);
    let w = v.replace(regions);
    assert forall|i: int, j: int|
        #![trigger w.regions[i], w.regions[j]]
        0 <= i < j < w.regions.len() implies bytes::lex_le(w.regions[i].start, w.regions[j].start) by {
        assert(bytes::lex_le(key(s[i]), key(s[j])));
    }
    assert forall|i: int| 0 <= i < s.len() implies (#[trigger] s[i]).id < u64::MAX by {
        order::lemma_from(key, regions, i);
        let k = choose|k: int| 0 <= k < regions.len() && regions[k] == s[i];
        assert(regions[k].id < u64::MAX);
    }
    lemma_past_ids(s);
    assert forall|i: int| 0 <= i < regions.len() implies (#[trigger] regions[i]).id < w.next_id by {
        order::lemma_from(key, regions, i);
        let k = choose|k: int| 0 <= k < s.len() && s[k] == regions[i];
        assert(s[k].id < past_ids(s));
    }
}

proof fn lemma_past_ids(s: Seq<RegionView>)
    requires
        forall|i: int| 0 <= i < s.len() ==> (#[trigger] s[i]).id < u64::MAX,
    ensures
        0 <= past_ids(s) <= u64::MAX,
        forall|i: int| 0 <= i < s.len() ==> (#[trigger] s[i]).id < past_ids(s),
    decreases s.len(),
{
    if s.len() > 0 {
        let t = s.drop_last();
        assert forall|i: int| 0 <= i < t.len() implies (#[trigger] t[i]).id < u64::MAX by {
            assert(s[i] == t[i]);
        }
        lemma_past_ids(t);
        assert(s[s.len() - 1].id < u64::MAX);
        assert forall|i: int| 0 <= i < s.len() implies (#[trigger] s[i]).id < past_ids(s) by {
            if i < t.len() {
                assert(t[i] == s[i]);
            }
        }
    }
}

} // verus!
