//! [`WriteBatch`]: an atomic group of mutations across column families.
//!
//! A batch is the unit of atomicity in the engine: it is written to the log as a single framed
//! record and applied to the memtable all-or-nothing.

use vstd::prelude::*;
use crate::bytes;
use crate::engine::encoding;
use crate::engine::keys::Cf;

verus! {

/// One mutation.
#[derive(Debug, Clone, PartialEq, Eq)]
pub enum WriteOp {
    Put { cf: Cf, key: Vec<u8>, value: Vec<u8> },
    Delete { cf: Cf, key: Vec<u8> },
}

/// One mutation as values: a key of a family gets a value, or a deletion mark (`None`).
pub struct OpView {
    pub cf: Cf,
    pub key: Seq<u8>,
    pub value: Option<Seq<u8>>,
}

impl View for WriteOp {
    type V = OpView;

    open spec fn view(&self) -> OpView {
        match self {
            WriteOp::Put { cf, key, value } => OpView { cf: *cf, key: key@, value: Some(value@) },
            WriteOp::Delete { cf, key } => OpView { cf: *cf, key: key@, value: None },
        }
    }
}

impl OpView {
    /// `[op][cf][key]`, and `[value]` for a put; strings are length-prefixed.
    pub open spec fn encoded(self) -> Seq<u8> {
        match self.value {
            Some(v) => seq![0u8, self.cf.id_spec()] + encoding::length_prefixed(self.key)
                + encoding::length_prefixed(v),
            None => seq![1u8, self.cf.id_spec()] + encoding::length_prefixed(self.key),
        }
    }

    /// The estimated footprint.
    pub open spec fn size(self) -> nat {
        match self.value {
            Some(v) => self.key.len() + v.len() + 16,
            None => self.key.len() + 16,
        }
    }

    /// Whether its strings fit their length prefixes.
    pub open spec fn fits(self) -> bool {
        &&& self.key.len() < 0x1_0000_0000
        &&& (self.value matches Some(v) ==> v.len() < 0x1_0000_0000)
    }
}

impl WriteOp {
    /// The family that the mutation touches.
    pub fn cf(&self) -> (r: Cf)
        ensures
            r == self@.cf,
    {
        match self {
            WriteOp::Put { cf, .. } => *cf,
            WriteOp::Delete { cf, .. } => *cf,
        }
    }

    /// The key that the mutation touches.
    pub fn key(&self) -> (r: &[u8])
        ensures
            r@ == self@.key,
    {
        match self {
            WriteOp::Put { key, .. } => key.as_slice(),
            WriteOp::Delete { key, .. } => key.as_slice(),
        }
    }

    fn approx_size(&self) -> (r: usize)
        requires
            self@.size() <= usize::MAX,
        ensures
            r == self@.size(),
    {
        match self {
            WriteOp::Put { key, value, .. } => key.len() + value.len() + 16,
            WriteOp::Delete { key, .. } => key.len() + 16,
        }
    }

    /// A copy of the mutation.
    pub fn dup(&self) -> (r: WriteOp)
        ensures
            r@ == self@,
    {
        match self {
            WriteOp::Put { cf, key, value } => WriteOp::Put {
                cf: *cf,
                key: bytes::copy(key.as_slice()),
                value: bytes::copy(value.as_slice()),
            },
            WriteOp::Delete { cf, key } => WriteOp::Delete {
                cf: *cf,
                key: bytes::copy(key.as_slice()),
            },
        }
    }
}

/// A group of mutations that applies as a whole, in order.
#[derive(Debug, Clone, Default, PartialEq, Eq)]
pub struct WriteBatch {
    pub ops: Vec<WriteOp>,
}

/// The views of a list of mutations.
pub open spec fn op_views(ops: Seq<WriteOp>) -> Seq<OpView> {
    Seq::new(ops.len(), |i: int| ops[i]@)
}

/// The estimated footprint of a list of mutations.
pub open spec fn total_size(ops: Seq<OpView>) -> nat
    decreases ops.len(),
{
    if ops.len() == 0 {
        0
    } else {
        total_size(ops.drop_last()) + ops.last().size()
    }
}

/// The encodings of a list of mutations, one after another.
pub open spec fn encoded_ops(ops: Seq<OpView>) -> Seq<u8>
    decreases ops.len(),
{
    if ops.len() == 0 {
        Seq::empty()
    } else {
        encoded_ops(ops.drop_last()) + ops.last().encoded()
    }
}

/// A batch body: the number of mutations, then each of them.
pub open spec fn batch_bytes(ops: Seq<OpView>) -> Seq<u8> {
    bytes::be32(encoding::len32(ops.len())) + encoded_ops(ops)
}

/// The mutation at `pos` and the position behind it.
pub open spec fn op_at(buf: Seq<u8>, pos: int) -> Option<(OpView, int)> {
    if pos + 2 > buf.len() {
        None
    } else {
        match (Cf::of_u8(buf[pos + 1]), encoding::length_prefixed_at(buf, pos + 2)) {
            (Some(cf), Some((key, p1))) => if buf[pos] == 0 {
                match encoding::length_prefixed_at(buf, p1) {
                    Some((value, p2)) => Some((OpView { cf, key, value: Some(value) }, p2)),
                    None => None,
                }
            } else if buf[pos] == 1 {
                Some((OpView { cf, key, value: None }, p1))
            } else {
                None
            },
            _ => None,
        }
    }
}

/// The `count` mutations from `pos` on.
pub open spec fn ops_at(buf: Seq<u8>, pos: int, count: nat) -> Option<Seq<OpView>>
    decreases count,
{
    if count == 0 {
        Some(Seq::empty())
    } else {
        match op_at(buf, pos) {
            Some((op, next)) => match ops_at(buf, next, (count - 1) as nat) {
                Some(rest) => Some(seq![op] + rest),
                None => None,
            },
            None => None,
        }
    }
}

/// The mutations that a batch body encodes.
pub open spec fn batch_of(buf: Seq<u8>) -> Option<Seq<OpView>> {
    if buf.len() < 4 {
        None
    } else {
        ops_at(buf, 4, bytes::u32_at(buf, 0) as nat)
    }
}

/// Read the mutation at `*pos` and advance `*pos` past it.
fn decode_op(buf: &[u8], pos: &mut usize) -> (r: Option<WriteOp>)
    requires
        *old(pos) <= buf@.len(),
    ensures
        match r {
            Some(op) => op_at(buf@, *old(pos) as int) == Some((op@, *final(pos) as int))
                && *final(pos) <= buf@.len(),
            None => op_at(buf@, *old(pos) as int) is None,
        },
{
    if buf.len() - *pos < 6 {
        return None;
    }
    let tag: u8 = buf[*pos];
    let cf = match Cf::from_u8(buf[*pos + 1]) {
        Some(cf) => cf,
        None => {
            return None;
        },
    };
    *pos = *pos + 2;
    let key = match encoding::get_length_prefixed(buf, pos) {
        Some(k) => bytes::copy(k),
        None => {
            return None;
        },
    };
    if tag == 0 {
        if buf.len() - *pos < 4 {
            return None;
        }
        match encoding::get_length_prefixed(buf, pos) {
            Some(v) => Some(WriteOp::Put { cf, key, value: bytes::copy(v) }),
            None => None,
        }
    } else if tag == 1 {
        Some(WriteOp::Delete { cf, key })
    } else {
        None
    }
}

impl View for WriteBatch {
    type V = Seq<OpView>;

    open spec fn view(&self) -> Seq<OpView> {
        op_views(self.ops@)
    }
}

impl WriteBatch {
    /// An empty batch.
    pub fn new() -> (b: WriteBatch)
        ensures
            b@ == Seq::<OpView>::empty(),
    {
        let b = WriteBatch { ops: Vec::new() };
        assert(b@ =~= Seq::<OpView>::empty());
        b
    }

    /// Add a put.
    pub fn put(&mut self, cf: Cf, key: Vec<u8>, value: Vec<u8>)
        ensures
            final(self)@ == old(self)@.push(OpView { cf, key: key@, value: Some(value@) }),
    {
        let ghost before = self@;
        self.ops.push(WriteOp::Put { cf, key, value });
        assert(self@ =~= before.push(OpView { cf, key: key@, value: Some(value@) }));
    }

    /// Add a deletion.
    pub fn delete(&mut self, cf: Cf, key: Vec<u8>)
        ensures
            final(self)@ == old(self)@.push(OpView { cf, key: key@, value: None }),
    {
        let ghost before = self@;
        self.ops.push(WriteOp::Delete { cf, key });
        assert(self@ =~= before.push(OpView { cf, key: key@, value: None }));
    }

    /// Whether there are no mutations.
    pub fn is_empty(&self) -> (r: bool)
        ensures
            r == (self@.len() == 0),
    {
        self.ops.len() == 0
    }

    /// The number of mutations.
    pub fn len(&self) -> (r: usize)
        ensures
            r == self@.len(),
    {
        self.ops.len()
    }

    /// Rough in-memory footprint.
    pub fn approx_size(&self) -> (r: usize)
        requires
            total_size(self@) <= usize::MAX,
        ensures
            r == total_size(self@),
    {
        let mut total: usize = 0;
        let mut i: usize = 0;
        assert(self@.take(0) =~= Seq::<OpView>::empty());
        while i < self.ops.len()
            invariant
                0 <= i <= self.ops@.len(),
                self@ == op_views(self.ops@),
                total_size(self@) <= usize::MAX,
                total == total_size(self@.take(i as int)),
            decreases self.ops@.len() - i,
        {
            proof {
                lemma_total_size_prefix(self@, i + 1);
                assert(self@.take(i + 1).drop_last() =~= self@.take(i as int));
                assert(self@.take(i + 1).last() == self.ops@[i as int]@);
            }
            total = total + self.ops[i].approx_size();
            i = i + 1;
        }
        assert(self@.take(i as int) =~= self@);
        total
    }

    /// Serialize the batch body: `[count:u32]`, then per mutation `[op:u8][cf:u8][klen:u32][key]`
    /// and, for a put, `[vlen:u32][value]`.
    pub fn encode(&self) -> (buf: Vec<u8>)
        ensures
            buf@ == batch_bytes(self@),
    {
        let mut buf: Vec<u8> = Vec::new();
        bytes::put_u32(&mut buf, encoding::low32(self.ops.len()));
        let ghost head = buf@;
        let mut i: usize = 0;
        assert(self@.take(0) =~= Seq::<OpView>::empty());
        assert(buf@ =~= head + encoded_ops(self@.take(0)));
        while i < self.ops.len()
            invariant
                0 <= i <= self.ops@.len(),
                self@ == op_views(self.ops@),
                buf@ == head + encoded_ops(self@.take(i as int)),
            decreases self.ops@.len() - i,
        {
            let ghost before = buf@;
            match &self.ops[i] {
                WriteOp::Put { cf, key, value } => {
                    buf.push(0);
                    buf.push(cf.id());
                    encoding::put_length_prefixed(&mut buf, key.as_slice());
                    encoding::put_length_prefixed(&mut buf, value.as_slice());
                },
                WriteOp::Delete { cf, key } => {
                    buf.push(1);
                    buf.push(cf.id());
                    encoding::put_length_prefixed(&mut buf, key.as_slice());
                },
            }
            proof {
                assert(self@.take(i + 1).drop_last() =~= self@.take(i as int));
                assert(self@.take(i + 1).last() == self.ops@[i as int]@);
                assert(buf@ =~= before + self.ops@[i as int]@.encoded());
                assert(buf@ =~= head + encoded_ops(self@.take(i + 1)));
            }
            i = i + 1;
        }
        assert(self@.take(i as int) =~= self@);
        assert(buf@ =~= batch_bytes(self@));
        buf
    }

    /// Inverse of [`WriteBatch::encode`]; `None` on malformed input. Bytes behind the last
    /// mutation are not looked at.
    pub fn decode(buf: &[u8]) -> (r: Option<WriteBatch>)
        ensures
            match r {
                Some(b) => batch_of(buf@) == Some(b@),
                None => batch_of(buf@) is None,
            },
    {
        if buf.len() < 4 {
            return None;
        }
        let count: u32 = bytes::read_u32(buf, 0);
        let mut pos: usize = 4;
        let mut ops: Vec<WriteOp> = Vec::new();
        let mut i: u32 = 0;
        proof {
            assert(op_views(ops@) =~= Seq::<OpView>::empty());
            assert forall|s: Seq<OpView>| #[trigger] (op_views(ops@) + s) == s by {
                assert(op_views(ops@) + s =~= s);
            }
        }
        while i < count
            invariant
                0 <= i <= count,
                4 <= pos <= buf@.len(),
                count == bytes::u32_at(buf@, 0),
                ops_at(buf@, 4, count as nat) == match ops_at(
                    buf@,
                    pos as int,
                    (count - i) as nat,
                ) {
                    Some(rest) => Some(op_views(ops@) + rest),
                    None => None,
                },
            decreases count - i,
        {
            let ghost done = op_views(ops@);
            let ghost start = pos as int;
            match decode_op(buf, &mut pos) {
                Some(op) => {
                    ops.push(op);
                    proof {
                        assert(op_views(ops@) =~= done.push(op@));
                        match ops_at(buf@, pos as int, (count - i - 1) as nat) {
                            Some(rest) => {
                                assert(op_views(ops@) + rest =~= done + (seq![op@] + rest));
                            },
                            None => {},
                        }
                    }
                },
                None => {
                    assert(ops_at(buf@, start, (count - i) as nat) is None);
                    return None;
                },
            }
            i = i + 1;
        }
        proof {
            assert(op_views(ops@) + Seq::<OpView>::empty() =~= op_views(ops@));
        }
        Some(WriteBatch { ops })
    }

    /// A copy of the batch.
    pub fn dup(&self) -> (r: WriteBatch)
        ensures
            r@ == self@,
    {
        let mut ops: Vec<WriteOp> = Vec::new();
        let mut i: usize = 0;
        while i < self.ops.len()
            invariant
                0 <= i <= self.ops@.len(),
                ops@.len() == i,
                forall|j: int| 0 <= j < i ==> (#[trigger] ops@[j])@ == self.ops@[j]@,
            decreases self.ops@.len() - i,
        {
            ops.push(self.ops[i].dup());
            i = i + 1;
        }
        assert(op_views(ops@) =~= op_views(self.ops@));
        WriteBatch { ops }
    }
}

proof fn lemma_total_size_prefix(ops: Seq<OpView>, k: int)
    requires
        0 <= k <= ops.len(),
    ensures
        total_size(ops.take(k)) <= total_size(ops),
    decreases ops.len() - k,
{
    if k < ops.len() {
        lemma_total_size_prefix(ops, k + 1);
        assert(ops.take(k + 1).drop_last() =~= ops.take(k));
    } else {
        assert(ops.take(k) =~= ops);
    }
}

/// Whether every length in the batch fits its prefix.
pub open spec fn batch_fits(ops: Seq<OpView>) -> bool {
    &&& ops.len() < 0x1_0000_0000
    &&& forall|i: int| 0 <= i < ops.len() ==> (#[trigger] ops[i]).fits()
}

proof fn lemma_op_roundtrip(before: Seq<u8>, op: OpView, after: Seq<u8>)
    requires
        op.fits(),
    ensures
        op_at(before + op.encoded() + after, before.len() as int) == Some(
            (op, (before.len() + op.encoded().len()) as int),
        ),
{
    broadcast use bytes::group_be_len;
    let s = before + op.encoded() + after;
    match op.value {
        Some(v) => {
            let head = before + seq![0u8, op.cf.id_spec()];
            let rest = encoding::length_prefixed(v) + after;
            assert(s =~= head + encoding::length_prefixed(op.key) + rest);
            encoding::law_length_prefixed_roundtrip(head, op.key, rest);
            let head2 = head + encoding::length_prefixed(op.key);
            assert(s =~= head2 + encoding::length_prefixed(v) + after);
            encoding::law_length_prefixed_roundtrip(head2, v, after);
        },
        None => {
            let head = before + seq![1u8, op.cf.id_spec()];
            assert(s =~= head + encoding::length_prefixed(op.key) + after);
            encoding::law_length_prefixed_roundtrip(head, op.key, after);
        },
    }
}

proof fn lemma_ops_roundtrip(buf: Seq<u8>, ops: Seq<OpView>, k: int)
    requires
        0 <= k <= ops.len(),
        batch_fits(ops),
        buf == batch_bytes(ops),
    ensures
        ops_at(buf, (4 + encoded_ops(ops.take(k)).len()) as int, (ops.len() - k) as nat) == Some(
            ops.skip(k),
        ),
    decreases ops.len() - k,
{
    broadcast use bytes::group_be_len;
    if k < ops.len() {
        lemma_ops_roundtrip(buf, ops, k + 1);
        assert(ops.take(k + 1).drop_last() =~= ops.take(k));
        assert(ops.take(k + 1).last() == ops[k]);
        lemma_encoded_split(ops, k + 1);
        let before = bytes::be32(encoding::len32(ops.len())) + encoded_ops(ops.take(k));
        let after = encoded_suffix(ops, k + 1);
        assert(buf =~= before + ops[k].encoded() + after);
        lemma_op_roundtrip(before, ops[k], after);
        assert(ops.skip(k) =~= seq![ops[k]] + ops.skip(k + 1));
    } else {
        assert(ops.skip(k) =~= Seq::<OpView>::empty());
    }
}

/// What the encoding holds behind the first `k` mutations.
spec fn encoded_suffix(ops: Seq<OpView>, k: int) -> Seq<u8> {
    encoded_ops(ops).skip(encoded_ops(ops.take(k)).len() as int)
}

proof fn lemma_encoded_split(ops: Seq<OpView>, k: int)
    requires
        0 <= k <= ops.len(),
    ensures
        encoded_ops(ops) == encoded_ops(ops.take(k)) + encoded_suffix(ops, k),
        encoded_ops(ops.take(k)).len() <= encoded_ops(ops).len(),
    decreases ops.len() - k,
{
    if k < ops.len() {
        lemma_encoded_split(ops, k + 1);
        assert(ops.take(k + 1).drop_last() =~= ops.take(k));
        assert(encoded_ops(ops) =~= encoded_ops(ops.take(k)) + encoded_suffix(ops, k));
    } else {
        assert(ops.take(k) =~= ops);
        assert(encoded_ops(ops) =~= encoded_ops(ops.take(k)) + encoded_suffix(ops, k));
    }
}

/// A batch whose lengths fit their prefixes reads back.
pub proof fn law_batch_roundtrip(ops: Seq<OpView>)
    requires
        batch_fits(ops),
    ensures
        batch_of(batch_bytes(ops)) == Some(ops),
{
    broadcast use bytes::group_be_len;
    let buf = batch_bytes(ops);
    assert(ops.take(0) =~= Seq::<OpView>::empty());
    assert(ops.skip(0) =~= ops);
    lemma_ops_roundtrip(buf, ops, 0);
    assert(buf.subrange(0, 4) =~= bytes::be32(encoding::len32(ops.len())));
    bytes::lemma_u32_at(buf, 0, encoding::len32(ops.len()));
}

} // verus!
