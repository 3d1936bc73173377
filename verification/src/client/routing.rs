//! Where a client's requests go: what its cache knows, what a redirect or a failure makes of it,
//! and what the caller is told.

use vstd::prelude::*;
use crate::bytes;
use crate::client::cache;
use crate::client::cache::CachedView;
use crate::client::calls;
use crate::client::calls::{
    Call, ClientView, ModeView, OutcomeView, Policy, RegionContext, TargetView, VerdictView,
};
use crate::client::endpoint;
use crate::client::error;
use crate::client::error::{ClientErrorView, FailureView, KeyErrorView};
use crate::client::requests;
use crate::client::requests::BodyView;
use crate::pd::region;
use crate::pd::region::TableId;
use crate::text;

verus! {

/// Whether two regions have a key in common.
pub open spec fn meet(a: CachedView, b: CachedView) -> bool {
    exists|key: Seq<u8>| #[trigger] a.contains(key) && b.contains(key)
}

/// Two regions that hold any key overlap exactly where they have one in common.
pub proof fn law_overlap(a: CachedView, b: CachedView)
    requires
        a.proper(),
        b.proper(),
    ensures
        cache::overlap(a, b) <==> meet(a, b),
{
    if cache::overlap(a, b) {
        bytes::lemma_lex_total(a.start, b.start);
        bytes::lemma_lex_irreflexive(a.start);
        bytes::lemma_lex_irreflexive(b.start);
        if bytes::lex_le(a.start, b.start) {
            if a.end.len() > 0 {
                bytes::lemma_lex_total(a.end, b.start);
            }
            assert(a.contains(b.start) && b.contains(b.start));
        } else {
            if b.end.len() > 0 {
                bytes::lemma_lex_total(b.end, a.start);
            }
            assert(a.contains(a.start) && b.contains(a.start));
        }
    }
    if meet(a, b) {
        let key = choose|key: Seq<u8>| #[trigger] a.contains(key) && b.contains(key);
        if a.before(b) {
            bytes::lemma_lex_facts(a.end, b.start, key);
            bytes::lemma_lex_facts(key, a.end, key);
            bytes::lemma_lex_facts(a.end, key, a.end);
        }
        if b.before(a) {
            bytes::lemma_lex_facts(b.end, a.start, key);
            bytes::lemma_lex_facts(key, b.end, key);
            bytes::lemma_lex_facts(b.end, key, b.end);
        }
    }
}

/// Whether every region of a cache holds any key.
pub open spec fn all_proper(s: Seq<CachedView>) -> bool {
    forall|i: int| 0 <= i < s.len() ==> (#[trigger] s[i]).proper()
}

/// A cache finds a key exactly where one of its regions holds it.
proof fn lemma_cached(s: Seq<CachedView>, key: Seq<u8>, x: CachedView)
    requires
        cache::tidy(s),
        all_proper(s),
        s.contains(x),
        x.contains(key),
    ensures
        cache::cached(s, key) == Some(x),
{
    cache::law_lookup(s, key);
    let i = choose|i: int| 0 <= i < s.len() && s[i] == x;
    assert(s[i].contains(key));
}

proof fn lemma_filtered(s: Seq<CachedView>, p: spec_fn(CachedView) -> bool)
    requires
        cache::tidy(s),
        all_proper(s),
    ensures
        cache::tidy(s.filter(p)),
        all_proper(s.filter(p)),
        forall|x: CachedView| #[trigger] s.filter(p).contains(x) <==> s.contains(x) && p(x),
{
    cache::lemma_filter(s, p);
    let t = s.filter(p);
    assert forall|x: CachedView| #[trigger] t.contains(x) <==> s.contains(x) && p(x) by {
        if t.contains(x) {
            let i = choose|i: int| 0 <= i < t.len() && t[i] == x;
            assert(p(t[i]) && s.contains(t[i]));
        }
        if s.contains(x) && p(x) {
            let i = choose|i: int| 0 <= i < s.len() && s[i] == x;
            assert(p(s[i]));
        }
    }
    assert forall|i: int| 0 <= i < t.len() implies (#[trigger] t[i]).proper() by {
        assert(t.contains(t[i]));
        let k = choose|k: int| 0 <= k < s.len() && s[k] == t[i];
        assert(s[k].proper());
    }
}

/// A region that is learned takes the place of exactly those that have a key in common with it:
/// every other region is still found, and a key that only a superseded one held is not found.
pub proof fn law_learned(s: Seq<CachedView>, r: CachedView, key: Seq<u8>)
    requires
        cache::tidy(s),
        all_proper(s),
        r.proper(),
    ensures
        ({
            let t = cache::renewed(s, r);
            &&& cache::tidy(t)
            &&& all_proper(t)
            &&& r.contains(key) ==> cache::cached(t, key) == Some(r)
            &&& !r.contains(key) ==> cache::cached(t, key) == match cache::cached(s, key) {
                Some(x) => if meet(x, r) {
                    None
                } else {
                    Some(x)
                },
                None => None,
            }
        }),
{
    let p = cache::apart_from(r);
    let kept = s.filter(p);
    let t = cache::renewed(s, r);
    lemma_filtered(s, p);
    cache::lemma_renewed(s, r);
    let b = cache::below(kept, r.start);
    cache::lemma_counts(kept, r.start);
    assert forall|i: int| 0 <= i < t.len() implies (#[trigger] t[i]).proper() && (t[i] == r
        || kept.contains(t[i])) by {
        if i < b {
            assert(t[i] == kept[i]);
        } else if i > b {
            assert(t[i] == kept[i - 1]);
        }
    }
    if r.contains(key) {
        cache::law_renewed(s, r, key);
    } else {
        cache::law_lookup(s, key);
        cache::law_lookup(t, key);
        if cache::cached(t, key) is Some {
            let y = cache::cached(t, key)->0;
            let i = choose|i: int| 0 <= i < t.len() && t[i] == y;
            assert(kept.contains(t[i]));
            assert(s.contains(y) && p(y));
            lemma_cached(s, key, y);
            let k = choose|k: int| 0 <= k < s.len() && s[k] == y;
            assert(s[k].proper());
            law_overlap(y, r);
        } else if cache::cached(s, key) is Some {
            let x = cache::cached(s, key)->0;
            let k = choose|k: int| 0 <= k < s.len() && s[k] == x;
            assert(s[k].proper());
            law_overlap(x, r);
            if !meet(x, r) {
                assert(p(x));
                assert(kept.contains(x));
                let i = choose|i: int| 0 <= i < kept.len() && kept[i] == x;
                let j = if i < b {
                    i
                } else {
                    i + 1
                };
                assert(t[j] == x);
                lemma_cached(t, key, x);
            }
        }
    }
}

/// Dropping the route of a key drops exactly the regions that hold it.
pub proof fn law_dropped(s: Seq<CachedView>, key: Seq<u8>, other: Seq<u8>)
    requires
        cache::tidy(s),
        all_proper(s),
    ensures
        cache::cached(cache::forgotten(s, key), other) == match cache::cached(s, other) {
            Some(x) => if x.contains(key) {
                None
            } else {
                Some(x)
            },
            None => None,
        },
{
    let p = cache::free_of(key);
    let t = cache::forgotten(s, key);
    lemma_filtered(s, p);
    cache::law_lookup(s, other);
    cache::law_lookup(t, other);
    if cache::cached(t, other) is Some {
        let y = cache::cached(t, other)->0;
        assert(s.contains(y) && p(y));
        lemma_cached(s, other, y);
    } else if cache::cached(s, other) is Some {
        let x = cache::cached(s, other)->0;
        if !x.contains(key) {
            assert(p(x));
            lemma_cached(t, other, x);
        }
    }
}

/// Where a request goes: with a direct client to its node, with a cluster client to the node that
/// is presumed to lead, and with a region-aware one to the node of the cached region that holds
/// the key, with that region's id and epoch, or to the fallback where the region has no address;
/// where no cached region holds the key, the placement driver is asked.
pub proof fn law_aimed(c: ClientView, key: Seq<u8>)
    requires
        c.wf(),
        c.mode matches ModeView::Routed { cache, .. } ==> all_proper(cache),
    ensures
        match c.mode {
            ModeView::Direct(u) => c.aimed(key) == Ok::<TargetView, ClientErrorView>(
                TargetView::Send { endpoint: u, context: None },
            ),
            ModeView::Cluster { endpoints, leader } => c.aimed(key) == Ok::<
                TargetView,
                ClientErrorView,
            >(TargetView::Send { endpoint: endpoints[leader as int], context: None }),
            ModeView::Routed { cache, fallback, .. } => {
                &&& (forall|i: int|
                    0 <= i < cache.len() ==> !(#[trigger] cache[i]).contains(key)) ==> c.aimed(key)
                    == Ok::<TargetView, ClientErrorView>(TargetView::AskPd)
                &&& forall|i: int|
                    0 <= i < cache.len() && (#[trigger] cache[i]).contains(key) && (
                    cache[i].address.len() > 0 || fallback is Some) ==> c.aimed(key) == Ok::<
                        TargetView,
                        ClientErrorView,
                    >(
                        TargetView::Send {
                            endpoint: if cache[i].address.len() > 0 {
                                cache[i].address
                            } else {
                                fallback->0
                            },
                            context: Some(
                                RegionContext {
                                    region_id: cache[i].id,
                                    region_epoch: cache[i].epoch,
                                },
                            ),
                        },
                    )
            },
        },
{
    if let ModeView::Routed { cache, .. } = c.mode {
        cache::law_lookup(cache, key);
        if cache::cached(cache, key) is Some {
            let x = cache::cached(cache, key)->0;
            let i = choose|i: int| 0 <= i < cache.len() && cache[i] == x;
            assert(cache[i].contains(key));
        }
    }
}

/// Whether a client has gone on to the next route for a key and changed nothing else: a cluster
/// client to the next node in turn, a region-aware one to a cache without the regions of the key.
pub open spec fn goes_on(c: ClientView, d: ClientView, key: Seq<u8>) -> bool {
    &&& d.tables == c.tables
    &&& match c.mode {
        ModeView::Direct(_) => d.mode == c.mode,
        ModeView::Cluster { endpoints, leader } => d.mode == (ModeView::Cluster {
            endpoints,
            leader: if leader + 1 < endpoints.len() {
                (leader + 1) as usize
            } else {
                0
            },
        }),
        ModeView::Routed { pd, cache, fallback } => d.mode matches ModeView::Routed {
            pd: pd2,
            cache: cache2,
            fallback: fallback2,
        } && pd2 == pd && fallback2 == fallback && forall|x: CachedView| #[trigger]
            cache2.contains(x) <==> cache.contains(x) && !x.contains(key),
    }
}

proof fn lemma_goes_on(c: ClientView, key: Seq<u8>)
    requires
        c.wf(),
    ensures
        goes_on(c, c.moved_on(key), key),
{
    match c.mode {
        ModeView::Cluster { endpoints, leader } => {
            let n = endpoints.len() as int;
            if leader + 1 < n {
                vstd::arithmetic::div_mod::lemma_small_mod((leader + 1) as nat, n as nat);
            } else {
                vstd::arithmetic::div_mod::lemma_mod_self_0(n);
            }
        },
        ModeView::Routed { cache, .. } => {
            cache::lemma_filter(cache, cache::free_of(key));
            let t = cache::forgotten(cache, key);
            assert forall|x: CachedView| #[trigger] t.contains(x) <==> cache.contains(x)
                && !x.contains(key) by {
                if t.contains(x) {
                    let i = choose|i: int| 0 <= i < t.len() && t[i] == x;
                    assert(cache::free_of(key)(t[i]) && cache.contains(t[i]));
                }
                if cache.contains(x) && !x.contains(key) {
                    let i = choose|i: int| 0 <= i < cache.len() && cache[i] == x;
                    assert(cache::free_of(key)(cache[i]));
                }
            }
        },
        _ => {},
    }
}

/// **Redirects are followed.** A request for a key that meets a node which does not lead, or a
/// region that has changed, goes on to the next route and is tried again, as long as tries are
/// left; then the caller is told that nobody leads. Only a direct client, whose one node does not
/// hold the region, gives up at once and says so.
pub proof fn law_redirected(c: ClientView, call: Call, key: Seq<u8>, ke: KeyErrorView)
    requires
        c.wf(),
        call.left > 0,
        call.policy == Policy::Keyed || call.policy == Policy::Transaction,
        ke is NotLeader || ke is RegionStale,
    ensures
        ({
            let (d, next, v) = c.settled(call, key, OutcomeView::Refused(ke));
            if c.mode is Direct && ke is RegionStale {
                d == c && v == VerdictView::Fail(ClientErrorView::NotHosted)
            } else {
                &&& goes_on(c, d, key)
                &&& next.left == call.left - 1
                &&& v == (if call.left > 1 {
                    VerdictView::Again
                } else {
                    VerdictView::Fail(ClientErrorView::NoLeader)
                })
            }
        }),
{
    lemma_goes_on(c, key);
}

/// **Dead nodes are passed over.** A call of a cluster client that never reached its node, ran out
/// of time, or was told that the range is not there goes on to the next node, as long as tries are
/// left; then the caller is told whether any node had answered at all. A step of a transaction is
/// not sent again, and neither is anything by another client: the failure is the answer.
pub proof fn law_failed_over(c: ClientView, call: Call, key: Seq<u8>, f: FailureView)
    requires
        c.wf(),
        call.left > 0,
    ensures
        ({
            let (d, next, v) = c.settled(call, key, OutcomeView::Failed(f));
            let on = f.unsent || f.late || text::begins(f.message, "not the region leader"@)
                || text::begins(f.message, "region not hosted"@) || text::begins(
                f.message,
                "region stale"@,
            );
            if c.mode is Cluster && call.policy != Policy::Transaction && on {
                &&& goes_on(c, d, key)
                &&& next.left == call.left - 1
                &&& v == (if call.left > 1 {
                    VerdictView::Again
                } else if call.reached {
                    VerdictView::Fail(ClientErrorView::NoLeader)
                } else {
                    VerdictView::Fail(ClientErrorView::Unreachable)
                })
            } else {
                d == c && v == VerdictView::Fail(ClientErrorView::Rpc(f))
            }
        }),
{
    lemma_goes_on(c, key);
}

/// An answer ends a call, and so does a refusal that is no redirect, or that comes to a call which
/// any node can answer: the client stays as it is, and the caller is told what the server said.
pub proof fn law_told(c: ClientView, call: Call, key: Seq<u8>, ke: KeyErrorView)
    ensures
        c.settled(call, key, OutcomeView::Answered).0 == c,
        c.settled(call, key, OutcomeView::Answered).2 == VerdictView::Done,
        call.policy == Policy::AnyNode || !(ke is NotLeader || ke is RegionStale) ==> c.settled(
            call,
            key,
            OutcomeView::Refused(ke),
        ).0 == c && c.settled(call, key, OutcomeView::Refused(ke)).2 == VerdictView::Fail(
            error::told(ke),
        ),
{
}

/// A call starts with as many tries as there are nodes, where any of them can answer, and with a
/// fixed number otherwise; nobody has answered yet.
pub proof fn law_started(c: ClientView, policy: Policy)
    requires
        c.wf(),
    ensures
        ({
            let call = c.call(policy);
            &&& call.policy == policy
            &&& !call.reached
            &&& policy != Policy::AnyNode ==> call.left == 5
            &&& policy == Policy::AnyNode ==> call.left == (match c.mode {
                ModeView::Cluster { endpoints, .. } => endpoints.len() as int,
                _ => 1,
            })
        }),
{
}

/// A request for a key of a table is routed on a key that belongs to that table and ends with the
/// key; for a table that the client does not know, there is none.
pub proof fn law_request_route(
    id: Option<TableId>,
    table: Seq<char>,
    key: Seq<u8>,
    body: BodyView,
    policy: Policy,
)
    ensures
        match requests::tabled(id, table, key, body, policy) {
            Ok(r) => {
                &&& id == Some(region::table_of(r.route))
                &&& r.route.len() == key.len() + 4
                &&& r.route.skip(4) == key
                &&& r.body == body
                &&& r.policy == policy
            },
            Err(e) => id is None && e == ClientErrorView::UnknownTable(table),
        },
{
    broadcast use bytes::group_be_len;
    if let Some(i) = id {
        region::law_table_key(i, key);
        assert((bytes::be32(i) + key).skip(4) =~= key);
    }
}

/// A region that was learned is used: the next request for a key that it holds goes to its node,
/// where that one can be reached.
pub proof fn law_learned_used(c: ClientView, r: CachedView, key: Seq<u8>)
    requires
        c.wf(),
        c.mode matches ModeView::Routed { cache, .. } && all_proper(cache),
        r.proper(),
        r.contains(key),
        r.address.len() > 0,
    ensures
        ({
            let d = c.after_learning(r);
            &&& d.tables == c.tables
            &&& d == c || d.prepared(key) == Ok::<TargetView, ClientErrorView>(
                TargetView::Send {
                    endpoint: r.address,
                    context: Some(RegionContext { region_id: r.id, region_epoch: r.epoch }),
                },
            )
            &&& endpoint::endpoint_fault(r.address) is None ==> d.aimed(key) == Ok::<
                TargetView,
                ClientErrorView,
            >(
                TargetView::Send {
                    endpoint: r.address,
                    context: Some(RegionContext { region_id: r.id, region_epoch: r.epoch }),
                },
            )
        }),
{
    if let ModeView::Routed { cache, .. } = c.mode {
        law_learned(cache, r, key);
    }
}

/// After a failure the next node is tried: in a list of endpoints the one behind, the first after
/// the last, and where routes are cached the one for the key is forgotten, so that it is asked for
/// again; the routes of other regions stay.
pub proof fn law_moved_on(c: ClientView, key: Seq<u8>, other: Seq<u8>)
    requires
        c.wf(),
    ensures
        ({
            let d = c.moved_on(key);
            &&& d.tables == c.tables
            &&& c.mode is Direct ==> d == c
            &&& c.mode matches ModeView::Cluster { endpoints, leader } ==> d.mode == (
            ModeView::Cluster {
                endpoints,
                leader: if leader + 1 < endpoints.len() {
                    (leader + 1) as usize
                } else {
                    0
                },
            })
            &&& c.mode matches ModeView::Routed { pd, cache, fallback } ==> (d.mode matches
                ModeView::Routed { pd: p, cache: s, fallback: f } && p == pd && f == fallback && (
            all_proper(cache) ==> cache::cached(s, key) is None && (cache::cached(cache, other)
                matches Some(x) && !x.contains(key) ==> cache::cached(s, other)
                == cache::cached(cache, other))))
        }),
{
    if let ModeView::Routed { cache, .. } = c.mode {
        if all_proper(cache) {
            law_dropped(cache, key, key);
            law_dropped(cache, key, other);
            cache::law_lookup(cache, key);
        }
    }
    if let ModeView::Cluster { endpoints, leader } = c.mode {
        let n = endpoints.len() as int;
        if leader + 1 < n {
            vstd::arithmetic::div_mod::lemma_small_mod((leader + 1) as nat, n as nat);
        } else {
            vstd::arithmetic::div_mod::lemma_mod_self_0(n);
        }
    }
}

/// A transaction's locks expire after it started, the lease of two to the thirty-second later, and
/// at the end of time at the latest.
pub proof fn law_expiry(start_ts: u64)
    ensures
        calls::expiry(start_ts) >= start_ts,
        start_ts + 0x1_0000_0000 <= u64::MAX ==> calls::expiry(start_ts) == start_ts
            + 0x1_0000_0000,
        start_ts + 0x1_0000_0000 > u64::MAX ==> calls::expiry(start_ts) == u64::MAX,
{
}

} // verus!
