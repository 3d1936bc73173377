//! The cache of routes of a region-aware client: regions that do not overlap, in order of their
//! start keys, so that a lookup is a binary search.

use vstd::prelude::*;
use crate::bytes;
use crate::pd::order;
use crate::text;

verus! {

/// A cached region, with the address of the node that owns it.
#[derive(Clone, Debug, PartialEq, Eq)]
pub struct CachedRegion {
    pub id: u64,
    /// Inclusive lower bound.
    pub start: Vec<u8>,
    /// Exclusive upper bound; empty is the end of the keyspace.
    pub end: Vec<u8>,
    pub epoch: u64,
    pub address: String,
}

/// A [`CachedRegion`] as values.
#[verifier::ext_equal]
pub struct CachedView {
    pub id: u64,
    pub start: Seq<u8>,
    pub end: Seq<u8>,
    pub epoch: u64,
    pub address: Seq<char>,
}

impl View for CachedRegion {
    type V = CachedView;

    open spec fn view(&self) -> CachedView {
        CachedView {
            id: self.id,
            start: self.start@,
            end: self.end@,
            epoch: self.epoch,
            address: self.address@,
        }
    }
}

impl CachedView {
    /// Whether a key falls in the range.
    pub open spec fn contains(self, key: Seq<u8>) -> bool {
        bytes::lex_le(self.start, key) && (self.end.len() == 0 || bytes::lex_lt(key, self.end))
    }

    /// Whether the range ends before another one starts.
    pub open spec fn before(self, other: CachedView) -> bool {
        self.end.len() > 0 && bytes::lex_le(self.end, other.start)
    }

    /// Whether the range holds any key.
    pub open spec fn proper(self) -> bool {
        self.end.len() == 0 || bytes::lex_lt(self.start, self.end)
    }
}

/// Whether two ranges intersect.
pub open spec fn overlap(a: CachedView, b: CachedView) -> bool {
    !(a.before(b) || b.before(a))
}

/// The cached regions are in order, and no two overlap.
pub open spec fn tidy(s: Seq<CachedView>) -> bool {
    &&& forall|i: int, j: int|
        0 <= i < j < s.len() ==> bytes::lex_le((#[trigger] s[i]).start, (#[trigger] s[j]).start)
    &&& forall|i: int, j: int|
        0 <= i < j < s.len() ==> !overlap(#[trigger] s[i], #[trigger] s[j])
}

/// How many of the regions start at or below a key.
pub open spec fn up_to(s: Seq<CachedView>, key: Seq<u8>) -> int
    decreases s.len(),
{
    if s.len() == 0 {
        0
    } else if bytes::lex_le(s.last().start, key) {
        s.len() as int
    } else {
        up_to(s.drop_last(), key)
    }
}

/// How many of the regions start below a key.
pub open spec fn below(s: Seq<CachedView>, key: Seq<u8>) -> int
    decreases s.len(),
{
    if s.len() == 0 {
        0
    } else if bytes::lex_lt(s.last().start, key) {
        s.len() as int
    } else {
        below(s.drop_last(), key)
    }
}

/// The cached region that a key falls in: the last one that starts at or below it, if it reaches
/// that far.
pub open spec fn cached(s: Seq<CachedView>, key: Seq<u8>) -> Option<CachedView> {
    let n = up_to(s, key);
    if n > 0 && s[n - 1].contains(key) {
        Some(s[n - 1])
    } else {
        None
    }
}

/// Whether a region is apart from another one.
pub open spec fn apart_from(r: CachedView) -> spec_fn(CachedView) -> bool {
    |x: CachedView| !overlap(x, r)
}

/// Whether a region does not hold a key.
pub open spec fn free_of(key: Seq<u8>) -> spec_fn(CachedView) -> bool {
    |x: CachedView| !x.contains(key)
}

/// The cache with a region in place of all that it supersedes.
pub open spec fn renewed(s: Seq<CachedView>, r: CachedView) -> Seq<CachedView> {
    let kept = s.filter(apart_from(r));
    kept.insert(below(kept, r.start), r)
}

/// The cache without the regions that hold a key.
pub open spec fn forgotten(s: Seq<CachedView>, key: Seq<u8>) -> Seq<CachedView> {
    s.filter(free_of(key))
}

/// Filtering keeps the cache tidy.
pub proof fn lemma_filter(s: Seq<CachedView>, p: spec_fn(CachedView) -> bool)
    requires
        tidy(s),
    ensures
        tidy(s.filter(p)),
        forall|i: int|
            0 <= i < s.filter(p).len() ==> p(#[trigger] s.filter(p)[i]) && s.contains(
                s.filter(p)[i],
            ),
        forall|i: int| 0 <= i < s.len() && p(#[trigger] s[i]) ==> s.filter(p).contains(s[i]),
    decreases s.len(),
{
    reveal(Seq::filter);
    if s.len() > 0 {
        let init = s.drop_last();
        assert(tidy(init)) by {
            assert forall|i: int, j: int| 0 <= i < j < init.len() implies bytes::lex_le(
                (#[trigger] init[i]).start,
                (#[trigger] init[j]).start,
            ) && !overlap(init[i], init[j]) by {
                assert(init[i] == s[i] && init[j] == s[j]);
            }
        }
        lemma_filter(init, p);
        let t = init.filter(p);
        let f = s.filter(p);
        let n = t.len();
        assert forall|i: int| 0 <= i < n implies f[i] == t[i] && bytes::lex_le(
            (#[trigger] t[i]).start,
            s.last().start,
        ) && !overlap(t[i], s.last()) && s.contains(t[i]) by {
            let k = choose|k: int| 0 <= k < init.len() && init[k] == t[i];
            assert(s[k] == t[i]);
            assert(s[s.len() - 1] == s.last());
        }
        assert forall|i: int| 0 <= i < f.len() implies p(#[trigger] f[i]) && s.contains(f[i]) by {
            if i < n {
                assert(f[i] == t[i]);
            } else {
                assert(f[i] == s[s.len() - 1]);
            }
        }
        assert forall|i: int, j: int| 0 <= i < j < f.len() implies bytes::lex_le(
            (#[trigger] f[i]).start,
            (#[trigger] f[j]).start,
        ) && !overlap(f[i], f[j]) by {
            assert(f[i] == t[i]);
            if j < n {
                assert(f[j] == t[j]);
            }
        }
        assert forall|i: int| 0 <= i < s.len() && p(#[trigger] s[i]) implies f.contains(s[i]) by {
            if i < init.len() {
                assert(init[i] == s[i]);
                assert(t.contains(s[i]));
                let k = choose|k: int| 0 <= k < t.len() && t[k] == s[i];
                assert(f[k] == s[i]);
            } else {
                assert(f[f.len() - 1] == s[i]);
            }
        }
    }
}

/// What [`below`] and [`up_to`] count, in a tidy cache.
pub proof fn lemma_counts(s: Seq<CachedView>, key: Seq<u8>)
    requires
        tidy(s),
    ensures
        0 <= below(s, key) <= up_to(s, key) <= s.len(),
        forall|i: int| 0 <= i < below(s, key) ==> bytes::lex_lt((#[trigger] s[i]).start, key),
        forall|i: int| below(s, key) <= i < s.len() ==> bytes::lex_le(key, (#[trigger] s[i]).start),
        forall|i: int| 0 <= i < up_to(s, key) ==> bytes::lex_le((#[trigger] s[i]).start, key),
        forall|i: int| up_to(s, key) <= i < s.len() ==> bytes::lex_lt(key, (#[trigger] s[i]).start),
    decreases s.len(),
{
    if s.len() > 0 {
        let init = s.drop_last();
        let last = s.last();
        assert(tidy(init)) by {
            assert forall|i: int, j: int| 0 <= i < j < init.len() implies bytes::lex_le(
                (#[trigger] init[i]).start,
                (#[trigger] init[j]).start,
            ) && !overlap(init[i], init[j]) by {
                assert(init[i] == s[i] && init[j] == s[j]);
            }
        }
        lemma_counts(init, key);
        assert forall|i: int| 0 <= i < s.len() implies bytes::lex_le(
            (#[trigger] s[i]).start,
            last.start,
        ) && (i < init.len() ==> init[i] == s[i]) by {
            bytes::lemma_lex_facts(last.start, last.start, last.start);
            if i < s.len() - 1 {
                assert(s[s.len() - 1] == last);
            }
        }
        bytes::lemma_lex_facts(last.start, key, key);
        assert forall|i: int| 0 <= i < s.len() implies (bytes::lex_lt(last.start, key)
            ==> bytes::lex_lt((#[trigger] s[i]).start, key)) && (bytes::lex_le(last.start, key)
            ==> bytes::lex_le(s[i].start, key)) by {
            bytes::lemma_lex_facts(s[i].start, last.start, key);
        }
    }
}

/// In a tidy cache of proper regions, a key is found exactly where some region holds it, and that
/// is the only one.
pub proof fn law_lookup(s: Seq<CachedView>, key: Seq<u8>)
    requires
        tidy(s),
        forall|i: int| 0 <= i < s.len() ==> (#[trigger] s[i]).proper(),
    ensures
        forall|i: int|
            0 <= i < s.len() && (#[trigger] s[i]).contains(key) ==> cached(s, key) == Some(s[i]),
        cached(s, key) matches Some(r) ==> s.contains(r) && r.contains(key),
{
    lemma_counts(s, key);
    let n = up_to(s, key);
    assert forall|i: int| 0 <= i < s.len() && (#[trigger] s[i]).contains(key) implies cached(
        s,
        key,
    ) == Some(s[i]) by {
        bytes::lemma_lex_facts(s[i].start, key, s[i].start);
        assert(i < n);
        let j = n - 1;
        if i < j {
            assert(bytes::lex_le(s[j].start, key));
            assert(!overlap(s[i], s[j]));
            bytes::lemma_lex_facts(s[i].end, s[j].start, key);
            bytes::lemma_lex_facts(key, s[i].end, key);
            bytes::lemma_lex_facts(s[j].end, s[i].start, s[j].start);
            bytes::lemma_lex_facts(s[j].start, s[j].end, s[i].start);
        }
    }
}

/// A region that was learned is found for every key that it holds.
pub proof fn law_renewed(s: Seq<CachedView>, r: CachedView, key: Seq<u8>)
    requires
        tidy(s),
        forall|i: int| 0 <= i < s.len() ==> (#[trigger] s[i]).proper(),
        r.proper(),
        r.contains(key),
    ensures
        cached(renewed(s, r), key) == Some(r),
{
    lemma_renewed(s, r);
    let t = renewed(s, r);
    let kept = s.filter(apart_from(r));
    lemma_filter(s, apart_from(r));
    lemma_counts(kept, r.start);
    let p = below(kept, r.start);
    assert forall|i: int| 0 <= i < t.len() implies (#[trigger] t[i]).proper() by {
        if i < p {
            assert(t[i] == kept[i]);
        } else if i > p {
            assert(t[i] == kept[i - 1]);
        }
        if i != p {
            let x = t[i];
            assert(s.contains(x));
            let k = choose|k: int| 0 <= k < s.len() && s[k] == x;
            assert(s[k].proper());
        }
    }
    assert(t[p] == r);
    law_lookup(t, key);
}

/// A key whose routes were dropped is not found.
pub proof fn law_forgotten(s: Seq<CachedView>, key: Seq<u8>)
    requires
        tidy(s),
    ensures
        cached(forgotten(s, key), key) is None,
{
    lemma_filter(s, free_of(key));
    lemma_counts(forgotten(s, key), key);
}

/// Learning a region keeps the cache tidy.
pub proof fn lemma_renewed(s: Seq<CachedView>, r: CachedView)
    requires
        tidy(s),
    ensures
        tidy(renewed(s, r)),
{
    lemma_filter(s, apart_from(r));
    let kept = s.filter(apart_from(r));
    lemma_counts(kept, r.start);
    let p = below(kept, r.start);
    let t = renewed(s, r);
    assert forall|i: int, j: int| 0 <= i < j < t.len() implies bytes::lex_le(
        (#[trigger] t[i]).start,
        (#[trigger] t[j]).start,
    ) && !overlap(t[i], t[j]) by {
        let a = if i < p {
            i
        } else {
            i - 1
        };
        let b = if j < p {
            j
        } else {
            j - 1
        };
        if i == p {
            assert(t[j] == kept[b]);
        } else if j == p {
            assert(t[i] == kept[a]);
            bytes::lemma_lex_facts(kept[a].start, r.start, r.start);
        } else {
            assert(t[i] == kept[a] && t[j] == kept[b]);
        }
    }
}

impl CachedRegion {
    /// Whether a key falls in the range.
    pub fn contains(&self, key: &[u8]) -> (r: bool)
        ensures
            r == self@.contains(key@),
    {
        bytes::bytes_le(self.start.as_slice(), key) && (self.end.len() == 0 || bytes::bytes_lt(
            key,
            self.end.as_slice(),
        ))
    }

    /// A copy of the region.
    pub fn dup(&self) -> (r: CachedRegion)
        ensures
            r@ == self@,
    {
        CachedRegion {
            id: self.id,
            start: bytes::copy(self.start.as_slice()),
            end: bytes::copy(self.end.as_slice()),
            epoch: self.epoch,
            address: text::owned(self.address.as_str()),
        }
    }
}

/// Whether two half-open ranges intersect.
pub fn ranges_overlap(a: &CachedRegion, b: &CachedRegion) -> (r: bool)
    ensures
        r == overlap(a@, b@),
{
    let a_before_b: bool = a.end.len() > 0 && bytes::bytes_le(
        a.end.as_slice(),
        b.start.as_slice(),
    );
    let b_before_a: bool = b.end.len() > 0 && bytes::bytes_le(
        b.end.as_slice(),
        a.start.as_slice(),
    );
    !(a_before_b || b_before_a)
}

/// The cache.
pub struct RegionCache {
    regions: Vec<CachedRegion>,
}

impl View for RegionCache {
    type V = Seq<CachedView>;

    closed spec fn view(&self) -> Seq<CachedView> {
        order::views(self.regions@)
    }
}

impl RegionCache {
    /// An empty cache.
    pub fn new() -> (c: RegionCache)
        ensures
            c@ == Seq::<CachedView>::empty(),
            tidy(c@),
    {
        let c = RegionCache { regions: Vec::new() };
        assert(c@ =~= Seq::<CachedView>::empty());
        c
    }

    /// How many regions start at or below a key.
    fn partition(&self, key: &[u8]) -> (r: usize)
        requires
            tidy(self@),
        ensures
            r == up_to(self@, key@),
            r <= self@.len(),
    {
        proof {
            lemma_counts(self@, key@);
        }
        let ghost s = self@;
        let mut lo: usize = 0;
        let mut hi: usize = self.regions.len();
        while lo < hi
            invariant
                0 <= lo <= up_to(s, key@) <= hi <= s.len(),
                s == self@,
                s.len() == self.regions@.len(),
                forall|i: int|
                    0 <= i < up_to(s, key@) ==> bytes::lex_le((#[trigger] s[i]).start, key@),
                forall|i: int|
                    up_to(s, key@) <= i < s.len() ==> bytes::lex_lt(key@, (#[trigger] s[i]).start),
            decreases hi - lo,
        {
            let mid: usize = lo + (hi - lo) / 2;
            assert(s[mid as int] == self.regions@[mid as int]@);
            if bytes::bytes_le(self.regions[mid].start.as_slice(), key) {
                lo = mid + 1;
            } else {
                hi = mid;
            }
        }
        lo
    }

    /// Binary-search the cache for the region that holds a key. A gap forces the caller to ask
    /// again.
    pub fn lookup(&self, key: &[u8]) -> (r: Option<CachedRegion>)
        requires
            tidy(self@),
        ensures
            match cached(self@, key@) {
                Some(v) => r matches Some(x) && x@ == v,
                None => r is None,
            },
    {
        let idx: usize = self.partition(key);
        if idx == 0 {
            return None;
        }
        assert(self@[idx - 1] == self.regions@[idx - 1]@);
        if self.regions[idx - 1].contains(key) {
            Some(self.regions[idx - 1].dup())
        } else {
            None
        }
    }

    /// Insert a freshly resolved region, dropping every range that it supersedes and keeping the
    /// order.
    pub fn insert(&mut self, region: CachedRegion)
        requires
            tidy(old(self)@),
        ensures
            final(self)@ == renewed(old(self)@, region@),
            tidy(final(self)@),
    {
        let ghost s = self@;
        let ghost rv = region@;
        let ghost p = apart_from(rv);
        let mut kept: Vec<CachedRegion> = Vec::new();
        let mut i: usize = 0;
        proof {
            reveal(Seq::filter);
            assert(s.take(0).filter(p) =~= Seq::empty());
            assert(order::views(kept@) =~= Seq::empty());
        }
        while i < self.regions.len()
            invariant
                0 <= i <= self.regions@.len(),
                s == order::views(self.regions@),
                rv == region@,
                p == apart_from(rv),
                order::views(kept@) == s.take(i as int).filter(p),
            decreases self.regions@.len() - i,
        {
            let ghost before = order::views(kept@);
            proof {
                reveal(Seq::filter);
                assert(s.take(i + 1).drop_last() =~= s.take(i as int));
                assert(s.take(i + 1).last() == self.regions@[i as int]@);
            }
            if !ranges_overlap(&self.regions[i], &region) {
                kept.push(self.regions[i].dup());
                assert(order::views(kept@) =~= before.push(self.regions@[i as int]@));
            }
            i = i + 1;
        }
        assert(s.take(i as int) =~= s);
        let ghost k = order::views(kept@);
        proof {
            lemma_filter(s, p);
            lemma_renewed(s, rv);
        }
        let mut at: usize = kept.len();
        assert(k.take(at as int) =~= k);
        while at > 0 && !bytes::bytes_lt(
            kept[at - 1].start.as_slice(),
            region.start.as_slice(),
        )
            invariant
                0 <= at <= kept@.len(),
                k == order::views(kept@),
                below(k, region@.start) == below(k.take(at as int), region@.start),
            decreases at,
        {
            assert(k.take(at as int).last() == kept@[at - 1]@);
            assert(k.take(at as int).drop_last() =~= k.take(at - 1));
            at = at - 1;
        }
        proof {
            if at > 0 {
                assert(k.take(at as int).last() == kept@[at - 1]@);
            }
            assert(below(k, rv.start) == at);
        }
        kept.insert(at, region);
        assert(order::views(kept@) =~= k.insert(at as int, rv));
        self.regions = kept;
    }

    /// Forget every region that holds a key.
    pub fn invalidate(&mut self, key: &[u8])
        requires
            tidy(old(self)@),
        ensures
            final(self)@ == forgotten(old(self)@, key@),
            tidy(final(self)@),
    {
        let ghost s = self@;
        let ghost p = free_of(key@);
        let mut kept: Vec<CachedRegion> = Vec::new();
        let mut i: usize = 0;
        proof {
            reveal(Seq::filter);
            assert(s.take(0).filter(p) =~= Seq::empty());
            assert(order::views(kept@) =~= Seq::empty());
            lemma_filter(s, p);
        }
        while i < self.regions.len()
            invariant
                0 <= i <= self.regions@.len(),
                s == order::views(self.regions@),
                p == free_of(key@),
                order::views(kept@) == s.take(i as int).filter(p),
            decreases self.regions@.len() - i,
        {
            let ghost before = order::views(kept@);
            proof {
                reveal(Seq::filter);
                assert(s.take(i + 1).drop_last() =~= s.take(i as int));
                assert(s.take(i + 1).last() == self.regions@[i as int]@);
            }
            if !self.regions[i].contains(key) {
                kept.push(self.regions[i].dup());
                assert(order::views(kept@) =~= before.push(self.regions@[i as int]@));
            }
            i = i + 1;
        }
        assert(s.take(i as int) =~= s);
        self.regions = kept;
    }
}

} // verus!
