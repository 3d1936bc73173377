//! Column families and the multi-version key and value codecs (Percolator layout).
//!
//! | family  | key                              | value                  |
//! |---------|----------------------------------|------------------------|
//! | Default | `user_key ‖ encode_ts(start_ts)` | [`Value`] (put/delete) |
//! | Write   | `user_key ‖ encode_ts(commit_ts)`| `start_ts` (u64)       |
//! | Lock    | `user_key`                       | [`Lock`]               |

use vstd::prelude::*;
use crate::bytes;
use crate::engine::encoding;

verus! {

/// The three column families.
#[derive(Debug, Clone, Copy, PartialEq, Eq, Hash, Structural)]
pub enum Cf {
    /// `(user_key, start_ts) -> value`
    Default,
    /// `(user_key, commit_ts) -> start_ts`
    Write,
    /// `user_key -> Lock`
    Lock,
}

impl Cf {
    /// All column families, in id order.
    pub const ALL: [Cf; 3] = [Cf::Default, Cf::Write, Cf::Lock];

    /// The family's id.
    pub open spec fn id_spec(self) -> u8 {
        match self {
            Cf::Default => 0,
            Cf::Write => 1,
            Cf::Lock => 2,
        }
    }

    /// The family's id.
    pub fn id(self) -> (r: u8)
        ensures
            r == self.id_spec(),
    {
        match self {
            Cf::Default => 0,
            Cf::Write => 1,
            Cf::Lock => 2,
        }
    }

    /// The family with this id.
    pub open spec fn of_u8(v: u8) -> Option<Cf> {
        if v == 0 {
            Some(Cf::Default)
        } else if v == 1 {
            Some(Cf::Write)
        } else if v == 2 {
            Some(Cf::Lock)
        } else {
            None
        }
    }

    /// The family with this id.
    pub fn from_u8(v: u8) -> (r: Option<Cf>)
        ensures
            r == Cf::of_u8(v),
    {
        match v {
            0 => Some(Cf::Default),
            1 => Some(Cf::Write),
            2 => Some(Cf::Lock),
            _ => None,
        }
    }
}

/// A family's id names it.
pub proof fn law_cf_roundtrip(cf: Cf)
    ensures
        Cf::of_u8(cf.id_spec()) == Some(cf),
{
}

/// A Default/Write storage key: the user key, then the encoded timestamp.
pub open spec fn data_key(user_key: Seq<u8>, ts: u64) -> Seq<u8> {
    user_key + encoding::ts_bytes(ts)
}

/// The user key and timestamp of a storage key; `None` where it is too short to hold one.
pub open spec fn split_data_key(key: Seq<u8>) -> Option<(Seq<u8>, u64)> {
    if key.len() < 8 {
        None
    } else {
        Some(
            (
                key.take(key.len() - 8),
                (u64::MAX - bytes::u64_at(key.skip(key.len() - 8), 0)) as u64,
            ),
        )
    }
}

/// Build a Default/Write storage key: `user_key ‖ encode_ts(ts)`.
pub fn encode_data_key(user_key: &[u8], ts: u64) -> (k: Vec<u8>)
    ensures
        k@ == data_key(user_key@, ts),
{
    let mut k: Vec<u8> = Vec::new();
    bytes::push_all(&mut k, user_key);
    bytes::put_u64(&mut k, u64::MAX - ts);
    assert(k@ =~= data_key(user_key@, ts));
    k
}

/// Split a Default/Write storage key back into `(user_key, ts)`.
pub fn decode_data_key(key: &[u8]) -> (r: Option<(&[u8], u64)>)
    ensures
        match r {
            Some((uk, ts)) => split_data_key(key@) == Some((uk@, ts)),
            None => split_data_key(key@) is None,
        },
{
    if key.len() < encoding::TS_LEN {
        return None;
    }
    let split: usize = key.len() - encoding::TS_LEN;
    let uk = bytes::slice(key, 0, split);
    let ts_bytes = bytes::slice(key, split, key.len());
    assert(uk@ =~= key@.take(key@.len() - 8));
    assert(ts_bytes@ =~= key@.skip(key@.len() - 8));
    Some((uk, encoding::decode_ts(ts_bytes)))
}

/// A storage key splits into the user key and timestamp that it was made of.
pub proof fn law_data_key_roundtrip(user_key: Seq<u8>, ts: u64)
    ensures
        split_data_key(data_key(user_key, ts)) == Some((user_key, ts)),
{
    let k = data_key(user_key, ts);
    encoding::law_ts_roundtrip(ts);
    assert(k.take(k.len() - 8) =~= user_key);
    assert(k.skip(k.len() - 8) =~= encoding::ts_bytes(ts));
}

/// For a fixed user key, a newer timestamp sorts strictly before an older one.
pub proof fn law_data_key_version_order(user_key: Seq<u8>, a: u64, b: u64)
    ensures
        bytes::lex_lt(data_key(user_key, a), data_key(user_key, b)) <==> a > b,
        data_key(user_key, a) == data_key(user_key, b) <==> a == b,
{
    bytes::lemma_lex_common_prefix(user_key, encoding::ts_bytes(a), encoding::ts_bytes(b));
    encoding::law_ts_descending(a, b);
    law_data_key_roundtrip(user_key, a);
    law_data_key_roundtrip(user_key, b);
}

/// A storage key is the data key of the parts it splits into.
pub proof fn lemma_split_data_key_inverse(key: Seq<u8>)
    requires
        split_data_key(key) is Some,
    ensures
        data_key(split_data_key(key).unwrap().0, split_data_key(key).unwrap().1) == key,
{
    let (uk, ts) = split_data_key(key).unwrap();
    let tail = key.skip(key.len() - 8);
    assert(tail.subrange(0, 8) =~= tail);
    bytes::lemma_be_value_bound(tail);
    bytes::lemma_pow256_values();
    bytes::lemma_be_value_inverse(tail);
    assert(encoding::ts_bytes(ts) =~= tail);
    assert(uk + tail =~= key);
}

/// The Write record's value: the `start_ts` that points into the Default family.
pub fn encode_write_value(start_ts: u64) -> (r: [u8; 8])
    ensures
        r@ == bytes::be64(start_ts),
{
    encoding::be64_array(start_ts)
}

/// The `start_ts` of a Write record's value.
pub open spec fn write_value_of(b: Seq<u8>) -> Option<u64> {
    if b.len() == 8 {
        Some(bytes::u64_at(b, 0))
    } else {
        None
    }
}

/// The `start_ts` of a Write record's value; `None` unless it is exactly eight bytes.
pub fn decode_write_value(b: &[u8]) -> (r: Option<u64>)
    ensures
        r == write_value_of(b@),
{
    if b.len() == 8 {
        Some(bytes::read_u64(b, 0))
    } else {
        None
    }
}

/// A Write record's value reads back.
pub proof fn law_write_value_roundtrip(start_ts: u64)
    ensures
        write_value_of(bytes::be64(start_ts)) == Some(start_ts),
{
    bytes::lemma_be64_len(start_ts);
    let b = bytes::be64(start_ts);
    assert(b.subrange(0, 8) =~= b);
    bytes::lemma_u64_at(b, 0, start_ts);
}

/// A stored Default value: a real value or a deletion mark.
#[derive(Debug, Clone, PartialEq, Eq)]
pub enum Value {
    Put(Vec<u8>),
    Delete,
}

/// The encoding of an optional value: tag 0 and the bytes, or tag 1.
pub open spec fn tagged(v: Option<Seq<u8>>) -> Seq<u8> {
    match v {
        Some(b) => seq![0u8] + b,
        None => seq![1u8],
    }
}

/// The optional value that `b` encodes; the outer `None` where the tag is missing or unknown.
pub open spec fn untagged(b: Seq<u8>) -> Option<Option<Seq<u8>>> {
    if b.len() == 0 {
        None
    } else if b[0] == 0 {
        Some(Some(b.skip(1)))
    } else if b[0] == 1 {
        Some(None)
    } else {
        None
    }
}

/// A tagged value reads back.
pub proof fn law_tagged_roundtrip(v: Option<Seq<u8>>)
    ensures
        untagged(tagged(v)) == Some(v),
{
    match v {
        Some(b) => {
            assert((seq![0u8] + b).skip(1) =~= b);
        },
        None => {},
    }
}

impl View for Value {
    type V = Option<Seq<u8>>;

    open spec fn view(&self) -> Option<Seq<u8>> {
        match self {
            Value::Put(v) => Some(v@),
            Value::Delete => None,
        }
    }
}

impl Value {
    /// Tag byte, then the value.
    pub fn encode(&self) -> (r: Vec<u8>)
        ensures
            r@ == tagged(self@),
    {
        let mut out: Vec<u8> = Vec::new();
        match self {
            Value::Put(v) => {
                out.push(0);
                bytes::push_all(&mut out, v.as_slice());
            },
            Value::Delete => {
                out.push(1);
            },
        }
        assert(out@ =~= tagged(self@));
        out
    }

    /// Inverse of [`Value::encode`]; `None` where the tag is missing or unknown.
    pub fn decode(b: &[u8]) -> (r: Option<Value>)
        ensures
            match r {
                Some(v) => untagged(b@) == Some(v@),
                None => untagged(b@) is None,
            },
    {
        if b.len() == 0 {
            return None;
        }
        if b[0] == 0 {
            let rest = bytes::slice(b, 1, b.len());
            assert(rest@ =~= b@.skip(1));
            Some(Value::Put(bytes::copy(rest)))
        } else if b[0] == 1 {
            Some(Value::Delete)
        } else {
            None
        }
    }

    /// Whether this is a deletion mark.
    pub fn is_delete(&self) -> (r: bool)
        ensures
            r == (self@ is None),
    {
        match self {
            Value::Delete => true,
            Value::Put(_) => false,
        }
    }

    /// Collapse to an optional value, treating a deletion mark as "absent".
    pub fn into_option(self) -> (r: Option<Vec<u8>>)
        ensures
            match r {
                Some(v) => self@ == Some(v@),
                None => self@ is None,
            },
    {
        match self {
            Value::Put(v) => Some(v),
            Value::Delete => None,
        }
    }

    /// A copy of the value.
    pub fn dup(&self) -> (r: Value)
        ensures
            r@ == self@,
    {
        match self {
            Value::Put(v) => Value::Put(bytes::copy(v.as_slice())),
            Value::Delete => Value::Delete,
        }
    }
}

/// What a lock announces: a write or a deletion.
#[derive(Debug, Clone, Copy, PartialEq, Eq, Structural)]
pub enum LockKind {
    Put,
    Delete,
}

/// A Percolator lock, living in the Lock family under the user key.
///
/// Secondary locks point at the transaction's `primary` key; the primary lock points at itself.
/// `ttl` is an absolute expiry in the same timestamp domain as `start_ts`; a reader past it may
/// roll the lock back.
#[derive(Debug, Clone, PartialEq, Eq)]
pub struct Lock {
    pub primary: Vec<u8>,
    pub start_ts: u64,
    pub ttl: u64,
    pub kind: LockKind,
}

/// A [`Lock`] with its primary key as a byte sequence.
pub struct LockView {
    pub primary: Seq<u8>,
    pub start_ts: u64,
    pub ttl: u64,
    pub kind: LockKind,
}

impl LockKind {
    /// The kind's tag.
    pub open spec fn tag_spec(self) -> u8 {
        match self {
            LockKind::Put => 0,
            LockKind::Delete => 1,
        }
    }

    /// The kind's tag.
    pub fn tag(self) -> (r: u8)
        ensures
            r == self.tag_spec(),
    {
        match self {
            LockKind::Put => 0,
            LockKind::Delete => 1,
        }
    }
}

/// The kind with this tag.
pub open spec fn lock_kind_of(tag: u8) -> Option<LockKind> {
    if tag == 0 {
        Some(LockKind::Put)
    } else if tag == 1 {
        Some(LockKind::Delete)
    } else {
        None
    }
}

/// A lock's encoding: kind, start timestamp, expiry, length-prefixed primary.
pub open spec fn lock_bytes(l: LockView) -> Seq<u8> {
    seq![l.kind.tag_spec()] + bytes::be64(l.start_ts) + bytes::be64(l.ttl)
        + encoding::length_prefixed(l.primary)
}

/// The lock that `b` encodes.
pub open spec fn lock_of(b: Seq<u8>) -> Option<LockView> {
    if b.len() < 17 {
        None
    } else {
        match (lock_kind_of(b[0]), encoding::length_prefixed_at(b, 17)) {
            (Some(kind), Some((primary, _))) => Some(
                LockView {
                    primary,
                    start_ts: bytes::u64_at(b, 1),
                    ttl: bytes::u64_at(b, 9),
                    kind,
                },
            ),
            _ => None,
        }
    }
}

impl View for Lock {
    type V = LockView;

    open spec fn view(&self) -> LockView {
        LockView {
            primary: self.primary@,
            start_ts: self.start_ts,
            ttl: self.ttl,
            kind: self.kind,
        }
    }
}

impl Lock {
    /// Serialize the lock.
    pub fn encode(&self) -> (r: Vec<u8>)
        ensures
            r@ == lock_bytes(self@),
    {
        let mut out: Vec<u8> = Vec::new();
        out.push(self.kind.tag());
        bytes::put_u64(&mut out, self.start_ts);
        bytes::put_u64(&mut out, self.ttl);
        encoding::put_length_prefixed(&mut out, self.primary.as_slice());
        assert(out@ =~= lock_bytes(self@));
        out
    }

    /// Inverse of [`Lock::encode`]; `None` on a malformed lock.
    pub fn decode(b: &[u8]) -> (r: Option<Lock>)
        ensures
            match r {
                Some(l) => lock_of(b@) == Some(l@),
                None => lock_of(b@) is None,
            },
    {
        if b.len() < 17 {
            return None;
        }
        let kind = match b[0] {
            0 => LockKind::Put,
            1 => LockKind::Delete,
            _ => {
                return None;
            },
        };
        let start_ts: u64 = bytes::read_u64(b, 1);
        let ttl: u64 = bytes::read_u64(b, 9);
        let mut pos: usize = 17;
        match encoding::get_length_prefixed(b, &mut pos) {
            Some(p) => Some(Lock { primary: bytes::copy(p), start_ts, ttl, kind }),
            None => None,
        }
    }

    /// Whether this lock belongs to its own transaction's primary key.
    pub fn is_primary(&self, this_key: &[u8]) -> (r: bool)
        ensures
            r == (self@.primary == this_key@),
    {
        bytes::bytes_eq(self.primary.as_slice(), this_key)
    }
}

/// A lock whose primary key fits the length prefix reads back.
pub proof fn law_lock_roundtrip(l: LockView)
    requires
        l.primary.len() < 0x1_0000_0000,
    ensures
        lock_of(lock_bytes(l)) == Some(l),
{
    broadcast use bytes::group_be_len;
    let b = lock_bytes(l);
    let head = seq![l.kind.tag_spec()] + bytes::be64(l.start_ts) + bytes::be64(l.ttl);
    assert(b =~= head + encoding::length_prefixed(l.primary) + Seq::<u8>::empty());
    encoding::law_length_prefixed_roundtrip(head, l.primary, Seq::empty());
    assert(b.subrange(1, 9) =~= bytes::be64(l.start_ts));
    assert(b.subrange(9, 17) =~= bytes::be64(l.ttl));
    bytes::lemma_u64_at(b, 1, l.start_ts);
    bytes::lemma_u64_at(b, 9, l.ttl);
}

} // verus!
