//! The addresses of a placement-driver group: a derived local one, or one given peer by peer.

use std::collections::HashMap;
use vstd::prelude::*;
use crate::pd::group;
use crate::pd::group::{GroupView, PdGroup, PdGroupOptions};
use crate::pd::order;
use crate::pd::replica::ReplicaView;
use crate::raft::storage::{MemStorage, StorageView};
use crate::text;

verus! {

/// The port of the first node of a local group: node `i` listens on `PD_BASE_PORT + i - 1`.
pub const PD_BASE_PORT: u16 = 2379;

/// Why there is no topology.
#[derive(Clone, Copy, Debug, PartialEq, Eq, Structural)]
pub enum TopologyError {
    /// The node is not one of the group's.
    NodeId { id: u64, nodes: u64 },
    /// A group that is given peer by peer needs this node's own address.
    NoListen,
}

impl TopologyError {
    /// What the operator is told.
    pub open spec fn text(self) -> Seq<char> {
        match self {
            TopologyError::NodeId { id, nodes } => "--node-id "@ + text::decimal(id as nat)
                + " must be in 1..="@ + text::decimal(nodes as nat),
            TopologyError::NoListen => "explicit replicated mode needs --listen"@,
        }
    }

    /// What the operator is told.
    pub fn message(&self) -> (r: String)
        ensures
            r@ == self.text(),
    {
        match self {
            TopologyError::NodeId { id, nodes } => {
                let mut s = text::owned("--node-id ");
                text::push_decimal(&mut s, *id);
                s.push_str(" must be in 1..=");
                text::push_decimal(&mut s, *nodes);
                s
            },
            TopologyError::NoListen => text::owned("explicit replicated mode needs --listen"),
        }
    }
}

/// An address with a scheme: a bare one is a plain one.
pub open spec fn uri(addr: Seq<char>) -> Seq<char> {
    if text::begins(addr, "http://"@) || text::begins(addr, "https://"@) {
        addr
    } else {
        "http://"@ + addr
    }
}

/// Prepend `http://` to a bare `host:port`.
pub fn as_uri(addr: &str) -> (r: String)
    ensures
        r@ == uri(addr@),
{
    if text::starts_with(addr, "http://") || text::starts_with(addr, "https://") {
        text::owned(addr)
    } else {
        let mut s = text::owned("http://");
        s.push_str(addr);
        s
    }
}

/// The local address of a node.
pub open spec fn local(i: int) -> Seq<char> {
    "127.0.0.1:"@ + text::decimal((2379 + i - 1) as nat)
}

/// The addresses of a local group of `n` nodes.
pub open spec fn local_addrs(n: int) -> Map<u64, Seq<char>> {
    Map::new(|k: u64| 1 <= k <= n, |k: u64| "http://"@ + local(k as int))
}

/// Addresses given peer by peer; the last one given for a peer counts.
pub open spec fn with_peers(m: Map<u64, Seq<char>>, peers: Seq<(u64, String)>) -> Map<
    u64,
    Seq<char>,
>
    decreases peers.len(),
{
    if peers.len() == 0 {
        m
    } else {
        with_peers(m, peers.drop_last()).insert(peers.last().0, peers.last().1@)
    }
}

/// The addresses of a group and where this node listens.
pub open spec fn arranged(
    id: u64,
    cluster: Option<u64>,
    listen: Option<Seq<char>>,
    peers: Seq<(u64, String)>,
) -> Result<(Map<u64, Seq<char>>, Seq<char>), TopologyError> {
    match cluster {
        Some(n) => if 1 <= id <= n {
            Ok((local_addrs(n as int), local(id as int)))
        } else {
            Err(TopologyError::NodeId { id, nodes: n })
        },
        None => match listen {
            Some(l) => Ok((with_peers(Map::empty().insert(id, uri(l)), peers), l)),
            None => Err(TopologyError::NoListen),
        },
    }
}

fn local_addr(i: u64) -> (r: String)
    requires
        1 <= i <= 63157,
    ensures
        r@ == local(i as int),
{
    let port: u64 = PD_BASE_PORT as u64 + i - 1;
    let mut s = text::owned("127.0.0.1:");
    text::push_decimal(&mut s, port);
    s
}

/// Build the `{id -> address}` topology and this node's listening address. With `cluster`, a local
/// group of ids `1..=N` is derived; otherwise `peers` and this node's own `listen` address are
/// used.
pub fn topology(
    id: u64,
    cluster: Option<u64>,
    listen: Option<String>,
    peers: Vec<(u64, String)>,
) -> (r: Result<(HashMap<u64, String>, String), TopologyError>)
    requires
        cluster matches Some(n) ==> 1 <= id <= n ==> n <= 63157,
    ensures
        match arranged(id, cluster, text::opt_text(listen), peers@) {
            Ok((addrs, bind)) => r matches Ok((m, b)) && group::texts(m@) == addrs && b@ == bind,
            Err(e) => r == Err::<(HashMap<u64, String>, String), TopologyError>(e),
        },
{
    broadcast use vstd::std_specs::hash::group_hash_axioms;

    let mut addrs: HashMap<u64, String> = HashMap::new();
    match cluster {
        Some(n) => {
            if id < 1 || id > n {
                return Err(TopologyError::NodeId { id, nodes: n });
            }
            let mut i: u64 = 0;
            assert(group::texts(addrs@) =~= local_addrs(0));
            while i < n
                invariant
                    0 <= i <= n <= 63157,
                    group::texts(addrs@) == local_addrs(i as int),
                decreases n - i,
            {
                let ghost before = group::texts(addrs@);
                i = i + 1;
                let mut s = text::owned("http://");
                s.push_str(local_addr(i).as_str());
                let ghost added = s@;
                addrs.insert(i, s);
                proof {
                    assert(group::texts(addrs@) =~= before.insert(i, added));
                    assert(before.insert(i, added) =~= local_addrs(i as int));
                }
            }
            Ok((addrs, local_addr(id)))
        },
        None => {
            let own = match listen {
                Some(l) => l,
                None => {
                    return Err(TopologyError::NoListen);
                },
            };
            addrs.insert(id, as_uri(own.as_str()));
            let ghost base = Map::<u64, Seq<char>>::empty().insert(id, uri(own@));
            assert(group::texts(addrs@) =~= base);
            let mut i: usize = 0;
            assert(peers@.take(0) =~= Seq::<(u64, String)>::empty());
            while i < peers.len()
                invariant
                    0 <= i <= peers@.len(),
                    group::texts(addrs@) == with_peers(base, peers@.take(i as int)),
                decreases peers@.len() - i,
            {
                assert(peers@.take(i + 1).drop_last() =~= peers@.take(i as int));
                let ghost before = group::texts(addrs@);
                let pid: u64 = peers[i].0;
                addrs.insert(pid, text::owned(peers[i].1.as_str()));
                assert(group::texts(addrs@) =~= before.insert(pid, peers@[i as int].1@));
                i = i + 1;
            }
            assert(peers@.take(i as int) =~= peers@);
            Ok((addrs, own))
        },
    }
}

/// Numbers that go up.
pub open spec fn rising(s: Seq<u64>) -> bool {
    forall|i: int, j: int| 0 <= i < j < s.len() ==> s[i] < s[j]
}

/// Sorting numbers that occur once each gives numbers that go up.
proof fn lemma_rising(s: Seq<u64>)
    requires
        s.no_duplicates(),
    ensures
        rising(order::ascending_numbers(s)),
    decreases s.len(),
{
    if s.len() > 0 {
        let init = s.drop_last();
        let t = order::ascending_numbers(init);
        let y = s.last();
        lemma_rising(init);
        order::lemma_ascending_numbers(init);
        lemma_between(t, y);
        assert forall|i: int| 0 <= i < t.len() implies t[i] != y by {
            assert(t.contains(t[i]));
            assert(init.contains(t[i]));
            let k = choose|k: int| 0 <= k < init.len() && init[k] == t[i];
            assert(s[k] == t[i]);
            assert(s[s.len() - 1] == y);
        }
        let p = order::number_slot(t, y);
        let r = t.insert(p, y);
        assert forall|i: int, j: int| 0 <= i < j < r.len() implies r[i] < r[j] by {
            let a = if i < p {
                i
            } else {
                i - 1
            };
            let b = if j < p {
                j
            } else {
                j - 1
            };
            if i != p && j != p {
                assert(t[a] < t[b]);
            }
        }
    }
}

/// A number goes behind what is not larger, and before what is.
proof fn lemma_between(t: Seq<u64>, y: u64)
    requires
        rising(t),
    ensures
        0 <= order::number_slot(t, y) <= t.len(),
        forall|i: int| 0 <= i < order::number_slot(t, y) ==> #[trigger] t[i] <= y,
        forall|i: int| order::number_slot(t, y) <= i < t.len() ==> y < #[trigger] t[i],
    decreases t.len(),
{
    if t.len() > 0 {
        if y < t.last() {
            let init = t.drop_last();
            lemma_between(init, y);
            assert forall|i: int| 0 <= i < order::number_slot(t, y) implies #[trigger] t[i] <= y by {
                assert(init[i] == t[i]);
            }
            assert forall|i: int| order::number_slot(t, y) <= i < t.len() implies y
                < #[trigger] t[i] by {
                if i < init.len() {
                    assert(init[i] == t[i]);
                }
            }
        } else {
            assert forall|i: int| 0 <= i < t.len() implies #[trigger] t[i] <= y by {
                if i < t.len() - 1 {
                    assert(t[i] < t[t.len() - 1]);
                }
            }
        }
    }
}

/// The ids of a topology, in order.
fn ids(addrs: &HashMap<u64, String>) -> (r: Vec<u64>)
    ensures
        rising(r@),
        r@.to_set() == addrs@.dom(),
{
    broadcast use vstd::std_specs::hash::group_hash_axioms;

    let mut found: Vec<u64> = Vec::new();
    for k in it: addrs.keys()
        invariant
            found@.len() == it.index(),
            forall|i: int| 0 <= i < it.index() ==> (#[trigger] found@[i]) == *it.seq()[i],
            it.seq() == vstd::std_specs::iter::IteratorSpec::remaining(
                &vstd::std_specs::hash::spec_keys_iter(addrs),
            ),
    {
        found.push(*k);
    }
    let ghost keys = vstd::std_specs::iter::IteratorSpec::remaining(
                &vstd::std_specs::hash::spec_keys_iter(addrs),
            );
    proof {
        assert(found@ =~= keys.unref());
        assert(keys.unref().no_duplicates()) by {
            assert forall|i: int, j: int|
                0 <= i < keys.unref().len() && 0 <= j < keys.unref().len() && i
                    != j implies keys.unref()[i] != keys.unref()[j] by {
                assert(keys[i] != keys[j]);
            }
        }
        lemma_rising(found@);
        order::lemma_ascending_numbers(found@);
    }
    let r = order::sort_numbers(&found);
    proof {
        assert forall|x: u64| #[trigger] r@.to_set().contains(x) <==> addrs@.dom().contains(x) by {
            assert(r@.contains(x) <==> found@.contains(x));
            assert(keys.unref().to_set().contains(x) <==> addrs@.dom().contains(x));
        }
        assert(r@.to_set() =~= addrs@.dom());
    }
    r
}

/// Start a node of the group that `addrs` describes: its voters are all of the ids, in order.
pub fn start_group(node_id: u64, addrs: HashMap<u64, String>) -> (g: PdGroup<MemStorage>)
    ensures
        exists|voters: Seq<u64>|
            #![trigger ReplicaView::start(node_id, voters, StorageView::fresh())]
            {
                &&& rising(voters)
                &&& voters.to_set() == addrs@.dom()
                &&& g@ == GroupView::start(
                    ReplicaView::start(node_id, voters, StorageView::fresh()),
                    group::texts(addrs@),
                )
            },
        g@.replica.wf(),
{
    let voters = ids(&addrs);
    group::start(PdGroupOptions { id: node_id, voters, addrs })
}

/// An address with a scheme stays as it is, and a bare one becomes a plain one; making an address
/// again changes nothing.
pub proof fn law_uri(addr: Seq<char>)
    ensures
        text::begins(addr, "http://"@) || text::begins(addr, "https://"@) ==> uri(addr) == addr,
        !(text::begins(addr, "http://"@) || text::begins(addr, "https://"@)) ==> uri(addr)
            == "http://"@ + addr,
        uri(uri(addr)) == uri(addr),
{
    reveal_strlit("http://");
    let p = "http://"@;
    assert((p + addr).take(p.len() as int) =~= p);
}

/// Whether the last address that is given for a node is this one.
pub open spec fn given_last(peers: Seq<(u64, String)>, id: u64, k: int) -> bool {
    &&& 0 <= k < peers.len()
    &&& peers[k].0 == id
    &&& forall|i: int| k < i < peers.len() ==> (#[trigger] peers[i]).0 != id
}

/// A local group has one port after another for its nodes, each of which knows all of them; a node
/// that is not one of them is refused. A group that is given peer by peer knows the peers by the
/// last address given for each, and this node by its own where no peer has its id; without an own
/// address it is refused.
pub proof fn law_arranged(
    id: u64,
    n: u64,
    listen: Option<Seq<char>>,
    peers: Seq<(u64, String)>,
    node: u64,
)
    ensures
        1 <= id <= n ==> (arranged(id, Some(n), listen, peers) matches Ok((m, l)) && {
            &&& l == "127.0.0.1:"@ + text::decimal((2378 + id) as nat)
            &&& m.contains_key(node) <==> 1 <= node <= n
            &&& 1 <= node <= n ==> m[node] == "http://127.0.0.1:"@ + text::decimal(
                (2378 + node) as nat,
            )
        }),
        !(1 <= id <= n) ==> arranged(id, Some(n), listen, peers) is Err,
        listen is None ==> arranged(id, None, listen, peers) is Err,
        listen matches Some(own) ==> (arranged(id, None, listen, peers) matches Ok((m, l)) && {
            &&& l == own
            &&& forall|k: int| #[trigger]
                given_last(peers, node, k) ==> m.contains_key(node) && m[node] == peers[k].1@
            &&& (forall|i: int| 0 <= i < peers.len() ==> (#[trigger] peers[i]).0 != node) ==> (
            m.contains_key(node) <==> node == id) && (node == id ==> m[node] == uri(own))
        }),
{
    reveal_strlit("127.0.0.1:");
    reveal_strlit("http://");
    reveal_strlit("http://127.0.0.1:");
    if 1 <= id <= n {
        assert("http://"@ + "127.0.0.1:"@ =~= "http://127.0.0.1:"@);
        assert(("http://"@ + "127.0.0.1:"@) + text::decimal((2378 + node) as nat) =~= "http://"@ + (
        "127.0.0.1:"@ + text::decimal((2378 + node) as nat)));
    }
    if let Some(own) = listen {
        lemma_peers(Map::empty().insert(id, uri(own)), peers, node);
    }
}

proof fn lemma_peers(m: Map<u64, Seq<char>>, peers: Seq<(u64, String)>, node: u64)
    ensures
        forall|k: int| #[trigger]
            given_last(peers, node, k) ==> with_peers(m, peers).contains_key(node) && with_peers(
                m,
                peers,
            )[node] == peers[k].1@,
        (forall|i: int| 0 <= i < peers.len() ==> (#[trigger] peers[i]).0 != node) ==> with_peers(
            m,
            peers,
        ).contains_key(node) == m.contains_key(node) && (m.contains_key(node) ==> with_peers(
            m,
            peers,
        )[node] == m[node]),
    decreases peers.len(),
{
    if peers.len() > 0 {
        let d = peers.drop_last();
        let last = peers.len() - 1;
        lemma_peers(m, d, node);
        assert(peers[last] == peers.last());
        assert forall|k: int| #[trigger] given_last(peers, node, k) implies with_peers(
            m,
            peers,
        ).contains_key(node) && with_peers(m, peers)[node] == peers[k].1@ by {
            if k < last {
                assert(peers[last].0 != node);
                assert forall|i: int| k < i < d.len() implies (#[trigger] d[i]).0 != node by {
                    assert(peers[i] == d[i]);
                }
                assert(given_last(d, node, k));
            }
        }
        if forall|i: int| 0 <= i < peers.len() ==> (#[trigger] peers[i]).0 != node {
            assert forall|i: int| 0 <= i < d.len() implies (#[trigger] d[i]).0 != node by {
                assert(peers[i] == d[i]);
            }
        }
    }
}

} // verus!
