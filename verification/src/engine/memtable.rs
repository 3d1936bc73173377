//! The in-memory write buffer: one ordered map per column family.

use vstd::prelude::*;
use crossbeam_skiplist::SkipMap;
use crate::bytes;
use crate::engine::batch::{OpView, WriteBatch, WriteOp};
use crate::engine::keys;
use crate::engine::keys::Cf;

verus! {

/// A stored memtable value. `Delete` is a deletion mark that *shadows* older entries in lower
/// memtables and tables (it is not the same as simply being absent).
#[derive(Debug, Clone, PartialEq, Eq)]
pub enum MemValue {
    Put(Vec<u8>),
    Delete,
}

impl View for MemValue {
    type V = Option<Seq<u8>>;

    open spec fn view(&self) -> Option<Seq<u8>> {
        match self {
            MemValue::Put(v) => Some(v@),
            MemValue::Delete => None,
        }
    }
}

impl MemValue {
    /// Collapse to an optional value, treating a deletion mark as "absent".
    pub fn into_present(self) -> (r: Option<Vec<u8>>)
        ensures
            match r {
                Some(v) => self@ == Some(v@),
                None => self@ is None,
            },
    {
        match self {
            MemValue::Put(v) => Some(v),
            MemValue::Delete => None,
        }
    }

    /// Tagged encoding stored as the value bytes inside a table entry.
    pub fn encode(&self) -> (r: Vec<u8>)
        ensures
            r@ == keys::tagged(self@),
    {
        let mut out: Vec<u8> = Vec::new();
        match self {
            MemValue::Put(v) => {
                out.push(0);
                bytes::push_all(&mut out, v.as_slice());
            },
            MemValue::Delete => {
                out.push(1);
            },
        }
        assert(out@ =~= keys::tagged(self@));
        out
    }

    /// Inverse of [`MemValue::encode`]; `None` where the tag is missing or unknown.
    pub fn decode(b: &[u8]) -> (r: Option<MemValue>)
        ensures
            match r {
                Some(v) => keys::untagged(b@) == Some(v@),
                None => keys::untagged(b@) is None,
            },
    {
        if b.len() == 0 {
            return None;
        }
        if b[0] == 0 {
            let rest = bytes::slice(b, 1, b.len());
            assert(rest@ =~= b@.skip(1));
            Some(MemValue::Put(bytes::copy(rest)))
        } else if b[0] == 1 {
            Some(MemValue::Delete)
        } else {
            None
        }
    }

    fn of(v: Option<Vec<u8>>) -> (r: MemValue)
        ensures
            r@ == opt_view(v),
    {
        match v {
            Some(b) => MemValue::Put(b),
            None => MemValue::Delete,
        }
    }
}

/// One family's entries: a value, or a deletion mark (`None`), per key.
pub type KeyMap = Map<Seq<u8>, Option<Seq<u8>>>;

/// An optional byte string as values.
pub open spec fn opt_view(v: Option<Vec<u8>>) -> Option<Seq<u8>> {
    match v {
        Some(b) => Some(b@),
        None => None,
    }
}

/// Whether `k` is the smallest key of `m` that is at least `from`.
pub open spec fn is_least(m: KeyMap, from: Seq<u8>, k: Seq<u8>) -> bool {
    &&& m.contains_key(k)
    &&& bytes::lex_le(from, k)
    &&& forall|o: Seq<u8>| #[trigger] m.contains_key(o) && bytes::lex_le(from, o)
        ==> bytes::lex_le(k, o)
}

/// The smallest key of `m` that is at least `from`, with its entry.
pub open spec fn seek_in(m: KeyMap, from: Seq<u8>) -> Option<(Seq<u8>, Option<Seq<u8>>)> {
    if exists|k: Seq<u8>| is_least(m, from, k) {
        let k = choose|k: Seq<u8>| is_least(m, from, k);
        Some((k, m[k]))
    } else {
        None
    }
}

/// There is one smallest key, and [`seek_in`] gives it.
pub proof fn lemma_seek_in(m: KeyMap, from: Seq<u8>, k: Seq<u8>)
    requires
        is_least(m, from, k),
    ensures
        seek_in(m, from) == Some((k, m[k])),
{
    let c = choose|c: Seq<u8>| is_least(m, from, c);
    assert(is_least(m, from, c));
    bytes::lemma_lex_facts(c, k, c);
}

/// The entries of the three families.
#[verifier::ext_equal]
pub struct Tables {
    pub default: KeyMap,
    pub write: KeyMap,
    pub lock: KeyMap,
}

impl Tables {
    /// No entries.
    pub open spec fn empty() -> Tables {
        Tables { default: Map::empty(), write: Map::empty(), lock: Map::empty() }
    }

    /// One family's entries.
    pub open spec fn of(self, cf: Cf) -> KeyMap {
        match cf {
            Cf::Default => self.default,
            Cf::Write => self.write,
            Cf::Lock => self.lock,
        }
    }

    /// The tables with one family replaced.
    pub open spec fn with(self, cf: Cf, m: KeyMap) -> Tables {
        match cf {
            Cf::Default => Tables { default: m, ..self },
            Cf::Write => Tables { write: m, ..self },
            Cf::Lock => Tables { lock: m, ..self },
        }
    }

    /// The tables after one mutation.
    pub open spec fn apply(self, op: OpView) -> Tables {
        self.with(op.cf, self.of(op.cf).insert(op.key, op.value))
    }

    /// The tables after a list of mutations, in order.
    pub open spec fn apply_all(self, ops: Seq<OpView>) -> Tables
        decreases ops.len(),
    {
        if ops.len() == 0 {
            self
        } else {
            self.apply_all(ops.drop_last()).apply(ops.last())
        }
    }

    /// These tables over older ones: where both have a key, the entry here counts.
    pub open spec fn over(self, older: Tables) -> Tables {
        Tables {
            default: older.default.union_prefer_right(self.default),
            write: older.write.union_prefer_right(self.write),
            lock: older.lock.union_prefer_right(self.lock),
        }
    }
}

/// What the memtable counts for one mutation.
pub open spec fn footprint(op: OpView) -> nat {
    match op.value {
        Some(v) => op.key.len() + v.len() + 24,
        None => op.key.len() + 24,
    }
}

/// A byte count that stays at the top of its range once it gets there.
pub open spec fn sat(n: nat) -> nat {
    if n > usize::MAX {
        usize::MAX as nat
    } else {
        n
    }
}

/// A [`Memtable`] as values.
#[verifier::ext_equal]
pub struct MemtableView {
    pub tables: Tables,
    pub size: nat,
    pub max_seq: u64,
}

/// The count after a list of mutations.
pub open spec fn size_after(size: nat, ops: Seq<OpView>) -> nat
    decreases ops.len(),
{
    if ops.len() == 0 {
        size
    } else {
        sat(size_after(size, ops.drop_last()) + footprint(ops.last()))
    }
}

impl MemtableView {
    /// An empty memtable.
    pub open spec fn fresh() -> MemtableView {
        MemtableView { tables: Tables::empty(), size: 0, max_seq: 0 }
    }

    /// The memtable after a batch with log sequence number `seq`.
    pub open spec fn apply(self, seq: u64, ops: Seq<OpView>) -> MemtableView {
        MemtableView {
            tables: self.tables.apply_all(ops),
            size: size_after(self.size, ops),
            max_seq: if seq > self.max_seq {
                seq
            } else {
                self.max_seq
            },
        }
    }
}

#[verifier::external_type_specification]
#[verifier::external_body]
#[verifier::reject_recursive_types(K)]
#[verifier::reject_recursive_types(V)]
pub struct ExSkipMap<K, V>(SkipMap<K, V>);

/// What a skip map holds: a value, or a deletion mark, per key.
pub uninterp spec fn skip_entries(m: SkipMap<Vec<u8>, Option<Vec<u8>>>) -> KeyMap;

/// `SkipMap::new`: a map without entries.
#[verifier::external_body]
fn skip_new() -> (m: SkipMap<Vec<u8>, Option<Vec<u8>>>)
    ensures
        skip_entries(m) == KeyMap::empty(),
{
    SkipMap::new()
}

/// `SkipMap::insert`: the key gets the value; an entry that it had is replaced, and all others
/// stay.
#[verifier::external_body]
fn skip_insert(m: &mut SkipMap<Vec<u8>, Option<Vec<u8>>>, key: Vec<u8>, value: Option<Vec<u8>>)
    ensures
        skip_entries(*final(m)) == skip_entries(*old(m)).insert(key@, opt_view(value)),
{
    m.insert(key, value);
}

/// `SkipMap::get`: a copy of the key's value, or `None` where the key has no entry.
#[verifier::external_body]
fn skip_get(m: &SkipMap<Vec<u8>, Option<Vec<u8>>>, key: &[u8]) -> (r: Option<Option<Vec<u8>>>)
    ensures
        match r {
            Some(v) => skip_entries(*m).contains_key(key@) && skip_entries(*m)[key@] == opt_view(v),
            None => !skip_entries(*m).contains_key(key@),
        },
{
    m.get(key).map(|e| e.value().clone())
}

/// `SkipMap::lower_bound` with an included bound: the entry with the smallest key that is at
/// least `from` in lexicographic byte order, or `None` where no key is.
#[verifier::external_body]
fn skip_lower_bound(m: &SkipMap<Vec<u8>, Option<Vec<u8>>>, from: &[u8]) -> (r: Option<
    (Vec<u8>, Option<Vec<u8>>),
>)
    ensures
        match r {
            Some((k, v)) => is_least(skip_entries(*m), from@, k@) && skip_entries(*m)[k@]
                == opt_view(v),
            None => forall|k: Seq<u8>| #[trigger]
                skip_entries(*m).contains_key(k) ==> !bytes::lex_le(from@, k),
        },
{
    m.lower_bound(std::ops::Bound::Included(from)).map(|e| (e.key().clone(), e.value().clone()))
}

/// `SkipMap::iter`: copies of all entries, each key once, in ascending lexicographic byte order.
#[verifier::external_body]
fn skip_iter(m: &SkipMap<Vec<u8>, Option<Vec<u8>>>) -> (r: Vec<(Vec<u8>, Option<Vec<u8>>)>)
    ensures
        forall|i: int, j: int| 0 <= i < j < r@.len() ==> bytes::lex_lt(#[trigger] r@[i].0@, #[trigger] r@[j].0@),
        forall|i: int|
            0 <= i < r@.len() ==> skip_entries(*m).contains_key(#[trigger] r@[i].0@)
                && skip_entries(*m)[r@[i].0@] == opt_view(r@[i].1),
        forall|k: Seq<u8>| #[trigger]
            skip_entries(*m).contains_key(k) ==> exists|i: int|
                0 <= i < r@.len() && #[trigger] r@[i].0@ == k,
{
    m.iter().map(|e| (e.key().clone(), e.value().clone())).collect()
}

/// The write buffer: one ordered map per column family.
pub struct Memtable {
    default: SkipMap<Vec<u8>, Option<Vec<u8>>>,
    write: SkipMap<Vec<u8>, Option<Vec<u8>>>,
    lock: SkipMap<Vec<u8>, Option<Vec<u8>>>,
    size: usize,
    max_seq: u64,
}

impl View for Memtable {
    type V = MemtableView;

    closed spec fn view(&self) -> MemtableView {
        MemtableView {
            tables: Tables {
                default: skip_entries(self.default),
                write: skip_entries(self.write),
                lock: skip_entries(self.lock),
            },
            size: self.size as nat,
            max_seq: self.max_seq,
        }
    }
}

/// The entries that `s` lists for the family map `m`: all of them, in ascending key order.
pub open spec fn lists(s: Seq<(Seq<u8>, Option<Seq<u8>>)>, m: KeyMap) -> bool {
    &&& forall|i: int, j: int|
        0 <= i < j < s.len() ==> bytes::lex_lt(#[trigger] s[i].0, #[trigger] s[j].0)
    &&& forall|i: int| 0 <= i < s.len() ==> m.contains_key(#[trigger] s[i].0) && m[s[i].0] == s[i].1
    &&& forall|k: Seq<u8>| #[trigger]
        m.contains_key(k) ==> exists|i: int| 0 <= i < s.len() && #[trigger] s[i].0 == k
}

/// Entries with their keys and values as sequences.
pub open spec fn pair_views(s: Seq<(Vec<u8>, MemValue)>) -> Seq<(Seq<u8>, Option<Seq<u8>>)> {
    Seq::new(s.len(), |i: int| (s[i].0@, s[i].1@))
}

impl Memtable {
    /// An empty memtable.
    pub fn new() -> (m: Memtable)
        ensures
            m@ == MemtableView::fresh(),
    {
        Memtable {
            default: skip_new(),
            write: skip_new(),
            lock: skip_new(),
            size: 0,
            max_seq: 0,
        }
    }

    fn cf(&self, cf: Cf) -> (m: &SkipMap<Vec<u8>, Option<Vec<u8>>>)
        ensures
            skip_entries(*m) == self@.tables.of(cf),
    {
        match cf {
            Cf::Default => &self.default,
            Cf::Write => &self.write,
            Cf::Lock => &self.lock,
        }
    }

    fn insert(&mut self, cf: Cf, key: Vec<u8>, value: Option<Vec<u8>>)
        ensures
            final(self)@ == (MemtableView {
                tables: old(self)@.tables.apply(
                    OpView { cf, key: key@, value: opt_view(value) },
                ),
                ..old(self)@
            }),
    {
        match cf {
            Cf::Default => skip_insert(&mut self.default, key, value),
            Cf::Write => skip_insert(&mut self.write, key, value),
            Cf::Lock => skip_insert(&mut self.lock, key, value),
        }
    }

    /// Apply an atomic batch at log sequence number `seq`.
    pub fn apply(&mut self, seq: u64, batch: &WriteBatch)
        ensures
            final(self)@ == old(self)@.apply(seq, batch@),
    {
        let ghost before = self@;
        let mut i: usize = 0;
        assert(batch@.take(0) =~= Seq::<OpView>::empty());
        while i < batch.ops.len()
            invariant
                0 <= i <= batch.ops@.len(),
                batch@.len() == batch.ops@.len(),
                self@.tables == before.tables.apply_all(batch@.take(i as int)),
                self@.size == size_after(before.size, batch@.take(i as int)),
                self@.max_seq == before.max_seq,
            decreases batch.ops@.len() - i,
        {
            let op = &batch.ops[i];
            let ghost so_far = self@;
            proof {
                assert(batch@.take(i + 1).drop_last() =~= batch@.take(i as int));
                assert(batch@.take(i + 1).last() == op@);
            }
            match op {
                WriteOp::Put { cf, key, value } => {
                    self.size = self.size.saturating_add(key.len()).saturating_add(
                        value.len(),
                    ).saturating_add(24);
                    self.insert(*cf, bytes::copy(key.as_slice()), Some(bytes::copy(value.as_slice())));
                },
                WriteOp::Delete { cf, key } => {
                    self.size = self.size.saturating_add(key.len()).saturating_add(24);
                    self.insert(*cf, bytes::copy(key.as_slice()), None);
                },
            }
            assert(self@.tables == so_far.tables.apply(op@));
            i = i + 1;
        }
        assert(batch@.take(i as int) =~= batch@);
        if seq > self.max_seq {
            self.max_seq = seq;
        }
    }

    /// Exact point lookup. `Some(Delete)` is a deletion mark (authoritative, shadows lower
    /// levels); `None` means not in this memtable at all.
    pub fn get_cf(&self, cf: Cf, key: &[u8]) -> (r: Option<MemValue>)
        ensures
            match r {
                Some(v) => self@.tables.of(cf).contains_key(key@) && self@.tables.of(cf)[key@]
                    == v@,
                None => !self@.tables.of(cf).contains_key(key@),
            },
    {
        match skip_get(self.cf(cf), key) {
            Some(v) => Some(MemValue::of(v)),
            None => None,
        }
    }

    /// Forward seek: the entry with the smallest key that is at least `from`. Because data keys
    /// embed a *descending* timestamp, seeking to `encode_data_key(user, read_ts)` lands on the
    /// newest version at or before `read_ts`.
    pub fn seek_cf(&self, cf: Cf, from: &[u8]) -> (r: Option<(Vec<u8>, MemValue)>)
        ensures
            match r {
                Some((k, v)) => is_least(self@.tables.of(cf), from@, k@) && seek_in(
                    self@.tables.of(cf),
                    from@,
                ) == Some((k@, v@)),
                None => seek_in(self@.tables.of(cf), from@) is None && forall|k: Seq<u8>| #[trigger]
                    self@.tables.of(cf).contains_key(k) ==> !bytes::lex_le(from@, k),
            },
    {
        match skip_lower_bound(self.cf(cf), from) {
            Some((k, v)) => {
                proof {
                    lemma_seek_in(self@.tables.of(cf), from@, k@);
                }
                Some((k, MemValue::of(v)))
            },
            None => None,
        }
    }

    /// Every entry of `cf` in key order (used when flushing to a table).
    pub fn iter_cf(&self, cf: Cf) -> (r: Vec<(Vec<u8>, MemValue)>)
        ensures
            lists(pair_views(r@), self@.tables.of(cf)),
    {
        let all = skip_iter(self.cf(cf));
        let mut out: Vec<(Vec<u8>, MemValue)> = Vec::new();
        let mut i: usize = 0;
        while i < all.len()
            invariant
                0 <= i <= all@.len(),
                out@.len() == i,
                forall|j: int|
                    0 <= j < i ==> (#[trigger] out@[j]).0@ == all@[j].0@ && out@[j].1@ == opt_view(
                        all@[j].1,
                    ),
            decreases all@.len() - i,
        {
            let v = match &all[i].1 {
                Some(b) => MemValue::Put(bytes::copy(b.as_slice())),
                None => MemValue::Delete,
            };
            out.push((bytes::copy(all[i].0.as_slice()), v));
            i = i + 1;
        }
        proof {
            let s = pair_views(out@);
            let m = self@.tables.of(cf);
            assert forall|k: Seq<u8>| #[trigger] m.contains_key(k) implies exists|i: int|
                0 <= i < s.len() && #[trigger] s[i].0 == k by {
                let w = choose|w: int| 0 <= w < all@.len() && #[trigger] all@[w].0@ == k;
                assert(s[w].0 == k);
            }
        }
        out
    }

    /// The estimated byte size.
    pub fn approx_size(&self) -> (r: usize)
        ensures
            r == self@.size,
    {
        self.size
    }

    /// The highest log sequence number applied.
    pub fn max_seq(&self) -> (r: u64)
        ensures
            r == self@.max_seq,
    {
        self.max_seq
    }

    /// Whether nothing was applied.
    pub fn is_empty(&self) -> (r: bool)
        ensures
            r == (self@.size == 0),
    {
        self.size == 0
    }
}

impl Default for Memtable {
    fn default() -> (m: Self)
        ensures
            m@ == MemtableView::fresh(),
    {
        Memtable::new()
    }
}

} // verus!
