//! The commands of the placement driver's replicated log.

use vstd::prelude::*;
use crate::bytes;
use crate::pd::cluster;
use crate::pd::cluster::{Regime, ReplicaSet, ReplicaSetView};
use crate::pd::codec;
use crate::pd::order;

verus! {

broadcast use bytes::group_be_len;

/// A command in the replicated log. Encoded into an entry's opaque data; every replica decodes
/// and applies the identical sequence.
#[derive(Clone, Debug, PartialEq, Eq)]
pub enum PdCmd {
    /// Raise the replicated timestamp high-water to `upper`. The leader commits this **before**
    /// it serves any timestamp below `upper`, so a new leader that resumes from the committed
    /// watermark never regresses.
    ReserveTs { upper: u64 },
    /// Declare a table cluster-wide. A name that is already declared is a no-op.
    DeclareTable { name: String, regime: Regime },
    /// Record a data node's heartbeat: its serving address, the regions that it owns, and the
    /// wall-clock time in ms.
    Heartbeat { node_id: u64, address: String, regions: Vec<ReplicaSet>, now: u64 },
}

/// A [`PdCmd`] as values.
pub enum CmdView {
    ReserveTs { upper: u64 },
    DeclareTable { name: Seq<char>, regime: Regime },
    Heartbeat { node_id: u64, address: Seq<char>, regions: Seq<ReplicaSetView>, now: u64 },
}

impl View for PdCmd {
    type V = CmdView;

    open spec fn view(&self) -> CmdView {
        match self {
            PdCmd::ReserveTs { upper } => CmdView::ReserveTs { upper: *upper },
            PdCmd::DeclareTable { name, regime } => CmdView::DeclareTable {
                name: name@,
                regime: *regime,
            },
            PdCmd::Heartbeat { node_id, address, regions, now } => CmdView::Heartbeat {
                node_id: *node_id,
                address: address@,
                regions: order::views(regions@),
                now: *now,
            },
        }
    }
}

impl CmdView {
    /// The command in bytes: a tag, then its fields.
    pub open spec fn bytes(self) -> Seq<u8> {
        match self {
            CmdView::ReserveTs { upper } => seq![1u8] + bytes::be64(upper),
            CmdView::DeclareTable { name, regime } => seq![3u8] + codec::text_bytes(name) + seq![
                regime.tag_byte(),
            ],
            CmdView::Heartbeat { node_id, address, regions, now } => seq![2u8] + bytes::be64(
                node_id,
            ) + bytes::be64(now) + codec::text_bytes(address) + codec::counted_bytes(
                cluster::set_writer(),
                regions,
            ),
        }
    }

    /// Everything fits its length field.
    pub open spec fn fits(self) -> bool {
        match self {
            CmdView::ReserveTs { .. } => true,
            CmdView::DeclareTable { name, .. } => cluster::text_fits(name),
            CmdView::Heartbeat { address, regions, .. } => {
                &&& cluster::text_fits(address)
                &&& regions.len() < 0x1_0000_0000
                &&& forall|i: int| 0 <= i < regions.len() ==> (#[trigger] regions[i]).fits()
            },
        }
    }
}

/// The heartbeat that stands behind a tag.
pub open spec fn heartbeat_of(b: Seq<u8>) -> Option<CmdView> {
    match codec::u64_from(b, 1) {
        Some((node_id, p)) => match codec::u64_from(b, p) {
            Some((now, q)) => match codec::text_from(b, q) {
                Some((address, r)) => match codec::counted_from(cluster::set_parser(), b, r) {
                    Some((regions, _)) => Some(
                        CmdView::Heartbeat { node_id, address, regions, now },
                    ),
                    None => None,
                },
                None => None,
            },
            None => None,
        },
        None => None,
    }
}

/// The command that bytes hold.
pub open spec fn cmd_of(b: Seq<u8>) -> Option<CmdView> {
    match codec::byte_from(b, 0) {
        Some((tag, p)) => if tag == 1 {
            match codec::u64_from(b, p) {
                Some((upper, _)) => Some(CmdView::ReserveTs { upper }),
                None => None,
            }
        } else if tag == 3 {
            match cluster::decl_from(b, p) {
                Some(((name, regime), _)) => Some(CmdView::DeclareTable { name, regime }),
                None => None,
            }
        } else if tag == 2 {
            heartbeat_of(b)
        } else {
            None
        },
        None => None,
    }
}

/// An optional command as values.
pub open spec fn opt_cmd(c: Option<PdCmd>) -> Option<CmdView> {
    match c {
        Some(x) => Some(x@),
        None => None,
    }
}

impl PdCmd {
    /// The command as a log entry's payload.
    pub fn encode(&self) -> (r: Vec<u8>)
        ensures
            r@ == self@.bytes(),
    {
        let mut out: Vec<u8> = Vec::new();
        match self {
            PdCmd::ReserveTs { upper } => {
                out.push(1);
                bytes::put_u64(&mut out, *upper);
            },
            PdCmd::DeclareTable { name, regime } => {
                out.push(3);
                codec::put_text(&mut out, name.as_str());
                out.push(regime.tag());
            },
            PdCmd::Heartbeat { node_id, address, regions, now } => {
                out.push(2);
                bytes::put_u64(&mut out, *node_id);
                bytes::put_u64(&mut out, *now);
                codec::put_text(&mut out, address.as_str());
                cluster::put_replica_sets(&mut out, regions);
            },
        }
        assert(out@ =~= self@.bytes());
        out
    }

    /// The command that a payload holds; `None` where it is malformed.
    pub fn decode(bytes: &[u8]) -> (r: Option<PdCmd>)
        ensures
            opt_cmd(r) == cmd_of(bytes@),
    {
        let (tag, p) = match codec::get_byte(bytes, 0) {
            Some(x) => x,
            None => {
                return None;
            },
        };
        match tag {
            1 => match codec::get_u64(bytes, p) {
                Some((upper, _)) => Some(PdCmd::ReserveTs { upper }),
                None => None,
            },
            3 => match codec::get_text(bytes, p) {
                Some((name, q)) => match cluster::get_regime(bytes, q) {
                    Some((regime, _)) => Some(PdCmd::DeclareTable { name, regime }),
                    None => None,
                },
                None => None,
            },
            2 => PdCmd::decode_heartbeat(bytes),
            _ => None,
        }
    }

    fn decode_heartbeat(bytes: &[u8]) -> (r: Option<PdCmd>)
        ensures
            opt_cmd(r) == heartbeat_of(bytes@),
    {
        let (node_id, p) = match codec::get_u64(bytes, 1) {
            Some(x) => x,
            None => {
                return None;
            },
        };
        let (now, p) = match codec::get_u64(bytes, p) {
            Some(x) => x,
            None => {
                return None;
            },
        };
        let (address, p) = match codec::get_text(bytes, p) {
            Some(x) => x,
            None => {
                return None;
            },
        };
        match cluster::get_replica_sets(bytes, p) {
            Some((regions, _)) => Some(PdCmd::Heartbeat { node_id, address, regions, now }),
            None => None,
        }
    }
}

/// A command is read back from its bytes.
pub proof fn law_cmd_roundtrip(c: CmdView)
    requires
        c.fits(),
    ensures
        cmd_of(c.bytes()) == Some(c),
{
    let b = c.bytes();
    let none = Seq::<u8>::empty();
    match c {
        CmdView::ReserveTs { upper } => {
            codec::lemma_u64_codes(upper, seq![1u8], none);
            assert(seq![1u8] + bytes::be64(upper) + none =~= b);
        },
        CmdView::DeclareTable { name, regime } => {
            cluster::lemma_decl_codes((name, regime), seq![3u8], none);
            assert(seq![3u8] + cluster::decl_bytes((name, regime)) + none =~= b);
        },
        CmdView::Heartbeat { node_id, address, regions, now } => {
            let t = seq![2u8];
            let n = bytes::be64(node_id);
            let w = bytes::be64(now);
            let a = codec::text_bytes(address);
            let r = codec::counted_bytes(cluster::set_writer(), regions);
            assert(codec::u64_from(b, 1) == Some((node_id, 9int))) by {
                codec::lemma_u64_codes(node_id, t, w + a + r);
                assert(t + n + (w + a + r) =~= b);
            }
            assert(codec::u64_from(b, 9) == Some((now, 17int))) by {
                codec::lemma_u64_codes(now, t + n, a + r);
                assert((t + n) + w + (a + r) =~= b);
            }
            assert(codec::text_from(b, 17) == Some((address, (17 + a.len()) as int))) by {
                codec::lemma_text_codes(address, t + n + w, r);
                assert((t + n + w) + a + r =~= b);
            }
            assert(codec::counted_from(cluster::set_parser(), b, (17 + a.len()) as int) == Some(
                (regions, b.len() as int),
            )) by {
                cluster::lemma_sets_code(regions);
                codec::lemma_counted_codes(
                    cluster::set_parser(),
                    cluster::set_writer(),
                    regions,
                    t + n + w + a,
                    none,
                );
                assert((t + n + w + a) + r + none =~= b);
            }
            assert(b[0] == 2);
        },
    }
}

/// A command in the log: its kind, then its numbers from the highest byte down, its text with its
/// length in front, and the regime as one byte.
pub proof fn law_cmd_layout(
    upper: u64,
    node_id: u64,
    now: u64,
    address: Seq<char>,
    regions: Seq<ReplicaSetView>,
    name: Seq<char>,
    regime: Regime,
)
    requires
        vstd::utf8::encode_utf8(name).len() < 0x1_0000_0000,
    ensures
        ({
            let b = (CmdView::ReserveTs { upper }).bytes();
            b.len() == 9 && b[0] == 1 && bytes::u64_at(b, 1) == upper
        }),
        ({
            let b = (CmdView::Heartbeat { node_id, address, regions, now }).bytes();
            b[0] == 2 && bytes::u64_at(b, 1) == node_id && bytes::u64_at(b, 9) == now
        }),
        ({
            let b = (CmdView::DeclareTable { name, regime }).bytes();
            let n = vstd::utf8::encode_utf8(name);
            &&& b.len() == n.len() + 6
            &&& b[0] == 3
            &&& bytes::u32_at(b, 1) == n.len()
            &&& b.subrange(5, 5 + n.len() as int) == n
            &&& b.last() == (if regime == Regime::Ap {
                1u8
            } else {
                0u8
            })
        }),
{
    broadcast use bytes::group_be_len;
    let a = (CmdView::ReserveTs { upper }).bytes();
    assert(a.subrange(1, 9) =~= bytes::be64(upper));
    bytes::lemma_u64_at(a, 1, upper);
    let h = (CmdView::Heartbeat { node_id, address, regions, now }).bytes();
    assert(h.subrange(1, 9) =~= bytes::be64(node_id));
    bytes::lemma_u64_at(h, 1, node_id);
    assert(h.subrange(9, 17) =~= bytes::be64(now));
    bytes::lemma_u64_at(h, 9, now);
    let d = (CmdView::DeclareTable { name, regime }).bytes();
    let n = vstd::utf8::encode_utf8(name);
    assert(d.subrange(1, 5) =~= bytes::be32(n.len() as u32));
    bytes::lemma_u32_at(d, 1, n.len() as u32);
    assert(d.subrange(5, 5 + n.len() as int) =~= n);
}

} // verus!
