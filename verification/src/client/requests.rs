//! What each operation sends, on which key it is routed, and what its answer means.
//!
//! A request goes out as [`crate::client::calls`] says: prepared, sent, and settled until it is
//! answered or given up. Keys of single operations travel as the caller wrote them, next to the
//! table's name; they are routed as they are stored.

use vstd::prelude::*;
use crate::bytes;
use crate::client::calls;
use crate::client::calls::{Client, Mutation, MutationView, Outcome, OutcomeView, Policy};
use crate::client::error::{ClientError, ClientErrorView, KeyError};
use crate::pd::cluster::Regime;
use crate::pd::region::TableId;
use crate::text;

verus! {

/// What is asked of a node.
#[derive(Clone, Debug, PartialEq, Eq)]
pub enum Body {
    /// A start timestamp.
    Begin,
    ListTables,
    CreateTable { name: String, regime: Regime },
    /// A read; at timestamp 0 the server picks "now".
    Get { table: String, key: Vec<u8>, read_ts: u64 },
    Put { table: String, key: Vec<u8>, value: Vec<u8> },
    Delete { table: String, key: Vec<u8> },
    /// A range; two empty bounds are the whole table, and limit 0 is no limit.
    Scan { table: String, start_key: Vec<u8>, end_key: Vec<u8>, limit: u32, read_ts: u64 },
    Prewrite { start_ts: u64, primary: Vec<u8>, mutations: Vec<Mutation>, ttl: u64 },
    Commit { start_ts: u64, primary: Vec<u8>, keys: Vec<Vec<u8>> },
    SplitRegion { split_key: Vec<u8> },
    MergeRegion { boundary_key: Vec<u8> },
}

/// A [`Body`] as values.
pub enum BodyView {
    Begin,
    ListTables,
    CreateTable { name: Seq<char>, regime: Regime },
    Get { table: Seq<char>, key: Seq<u8>, read_ts: u64 },
    Put { table: Seq<char>, key: Seq<u8>, value: Seq<u8> },
    Delete { table: Seq<char>, key: Seq<u8> },
    Scan { table: Seq<char>, start_key: Seq<u8>, end_key: Seq<u8>, limit: u32, read_ts: u64 },
    Prewrite { start_ts: u64, primary: Seq<u8>, mutations: Seq<MutationView>, ttl: u64 },
    Commit { start_ts: u64, primary: Seq<u8>, keys: Seq<Seq<u8>> },
    SplitRegion { split_key: Seq<u8> },
    MergeRegion { boundary_key: Seq<u8> },
}

/// Mutations as values.
pub open spec fn mutation_views(s: Seq<Mutation>) -> Seq<MutationView> {
    Seq::new(s.len(), |i: int| s[i]@)
}

/// Keys as values.
pub open spec fn key_views(s: Seq<Vec<u8>>) -> Seq<Seq<u8>> {
    Seq::new(s.len(), |i: int| s[i]@)
}

impl View for Body {
    type V = BodyView;

    open spec fn view(&self) -> BodyView {
        match self {
            Body::Begin => BodyView::Begin,
            Body::ListTables => BodyView::ListTables,
            Body::CreateTable { name, regime } => BodyView::CreateTable {
                name: name@,
                regime: *regime,
            },
            Body::Get { table, key, read_ts } => BodyView::Get {
                table: table@,
                key: key@,
                read_ts: *read_ts,
            },
            Body::Put { table, key, value } => BodyView::Put {
                table: table@,
                key: key@,
                value: value@,
            },
            Body::Delete { table, key } => BodyView::Delete { table: table@, key: key@ },
            Body::Scan { table, start_key, end_key, limit, read_ts } => BodyView::Scan {
                table: table@,
                start_key: start_key@,
                end_key: end_key@,
                limit: *limit,
                read_ts: *read_ts,
            },
            Body::Prewrite { start_ts, primary, mutations, ttl } => BodyView::Prewrite {
                start_ts: *start_ts,
                primary: primary@,
                mutations: mutation_views(mutations@),
                ttl: *ttl,
            },
            Body::Commit { start_ts, primary, keys } => BodyView::Commit {
                start_ts: *start_ts,
                primary: primary@,
                keys: key_views(keys@),
            },
            Body::SplitRegion { split_key } => BodyView::SplitRegion { split_key: split_key@ },
            Body::MergeRegion { boundary_key } => BodyView::MergeRegion {
                boundary_key: boundary_key@,
            },
        }
    }
}

/// A request: what is asked, the key that it is routed on, and how its call is handled.
#[derive(Clone, Debug, PartialEq, Eq)]
pub struct Request {
    pub body: Body,
    pub route: Vec<u8>,
    pub policy: Policy,
}

/// A [`Request`] as values.
pub struct RequestView {
    pub body: BodyView,
    pub route: Seq<u8>,
    pub policy: Policy,
}

impl View for Request {
    type V = RequestView;

    open spec fn view(&self) -> RequestView {
        RequestView { body: self.body@, route: self.route@, policy: self.policy }
    }
}

/// A request or an error as values.
pub open spec fn request_result(r: Result<Request, ClientError>) -> Result<
    RequestView,
    ClientErrorView,
> {
    match r {
        Ok(x) => Ok(x@),
        Err(e) => Err(e@),
    }
}

/// A request for a key of a table: routed on the key as it is stored, if the table is known.
pub open spec fn tabled(
    id: Option<TableId>,
    table: Seq<char>,
    key: Seq<u8>,
    body: BodyView,
    policy: Policy,
) -> Result<RequestView, ClientErrorView> {
    match id {
        Some(i) => Ok(RequestView { body, route: bytes::be32(i) + key, policy }),
        None => Err(ClientErrorView::UnknownTable(table)),
    }
}

/// A request that any node can answer.
fn anywhere(body: Body) -> (r: Request)
    ensures
        r@ == (RequestView { body: body@, route: Seq::empty(), policy: Policy::AnyNode }),
{
    let r = Request { body, route: Vec::new(), policy: Policy::AnyNode };
    assert(r@.route =~= Seq::<u8>::empty());
    r
}

impl Client {
    fn for_table(&self, table: &str, key: &[u8], body: Body, policy: Policy) -> (r: Result<
        Request,
        ClientError,
    >)
        ensures
            request_result(r) == tabled(
                calls::id_in(self@.tables, table@),
                table@,
                key@,
                body@,
                policy,
            ),
    {
        match self.table_id(table) {
            Ok(id) => Ok(Request { body, route: calls::stored_key(id, key), policy }),
            Err(e) => Err(e),
        }
    }

    /// Allocate a transaction's start timestamp. Any node can.
    pub fn begin(&self) -> (r: Request)
        ensures
            r@ == (RequestView {
                body: BodyView::Begin,
                route: Seq::empty(),
                policy: Policy::AnyNode,
            }),
    {
        anywhere(Body::Begin)
    }

    /// List the tables. Any node can.
    pub fn list_tables(&self) -> (r: Request)
        ensures
            r@ == (RequestView {
                body: BodyView::ListTables,
                route: Seq::empty(),
                policy: Policy::AnyNode,
            }),
    {
        anywhere(Body::ListTables)
    }

    /// Create a table. Any node can, and creating one again with the regime that it has is
    /// answered with that table.
    pub fn create_table(&self, name: String, regime: Regime) -> (r: Request)
        ensures
            r@ == (RequestView {
                body: BodyView::CreateTable { name: name@, regime },
                route: Seq::empty(),
                policy: Policy::AnyNode,
            }),
    {
        anywhere(Body::CreateTable { name, regime })
    }

    /// A read at a timestamp; 0 lets the server pick "now".
    pub fn get_at(&self, table: &str, key: &[u8], read_ts: u64) -> (r: Result<
        Request,
        ClientError,
    >)
        ensures
            request_result(r) == tabled(
                calls::id_in(self@.tables, table@),
                table@,
                key@,
                BodyView::Get { table: table@, key: key@, read_ts },
                Policy::Keyed,
            ),
    {
        let body = Body::Get { table: text::owned(table), key: bytes::copy(key), read_ts };
        self.for_table(table, key, body, Policy::Keyed)
    }

    /// A read at "now".
    pub fn get(&self, table: &str, key: &[u8]) -> (r: Result<Request, ClientError>)
        ensures
            request_result(r) == tabled(
                calls::id_in(self@.tables, table@),
                table@,
                key@,
                BodyView::Get { table: table@, key: key@, read_ts: 0 },
                Policy::Keyed,
            ),
    {
        self.get_at(table, key, 0)
    }

    /// An autocommit put.
    pub fn put(&self, table: &str, key: &[u8], value: Vec<u8>) -> (r: Result<Request, ClientError>)
        ensures
            request_result(r) == tabled(
                calls::id_in(self@.tables, table@),
                table@,
                key@,
                BodyView::Put { table: table@, key: key@, value: value@ },
                Policy::Keyed,
            ),
    {
        let body = Body::Put { table: text::owned(table), key: bytes::copy(key), value };
        self.for_table(table, key, body, Policy::Keyed)
    }

    /// An autocommit delete.
    pub fn delete(&self, table: &str, key: &[u8]) -> (r: Result<Request, ClientError>)
        ensures
            request_result(r) == tabled(
                calls::id_in(self@.tables, table@),
                table@,
                key@,
                BodyView::Delete { table: table@, key: key@ },
                Policy::Keyed,
            ),
    {
        let body = Body::Delete { table: text::owned(table), key: bytes::copy(key) };
        self.for_table(table, key, body, Policy::Keyed)
    }

    /// A range scan within a table, routed on its start, so that the scan of a whole table goes to
    /// that table's region.
    pub fn scan(&self, table: &str, start_key: &[u8], end_key: &[u8], limit: u32) -> (r: Result<
        Request,
        ClientError,
    >)
        ensures
            request_result(r) == tabled(
                calls::id_in(self@.tables, table@),
                table@,
                start_key@,
                BodyView::Scan {
                    table: table@,
                    start_key: start_key@,
                    end_key: end_key@,
                    limit,
                    read_ts: 0,
                },
                Policy::Scan,
            ),
    {
        let body = Body::Scan {
            table: text::owned(table),
            start_key: bytes::copy(start_key),
            end_key: bytes::copy(end_key),
            limit,
            read_ts: 0,
        };
        self.for_table(table, start_key, body, Policy::Scan)
    }

    /// The first phase of a transaction, routed on its primary key.
    pub fn prewrite(&self, start_ts: u64, primary: Vec<u8>, mutations: Vec<Mutation>, ttl: u64) -> (r:
        Request)
        ensures
            r@ == (RequestView {
                body: BodyView::Prewrite {
                    start_ts,
                    primary: primary@,
                    mutations: mutation_views(mutations@),
                    ttl,
                },
                route: primary@,
                policy: Policy::Transaction,
            }),
    {
        let route = bytes::copy(primary.as_slice());
        let body = Body::Prewrite { start_ts, primary, mutations, ttl };
        Request { body, route, policy: Policy::Transaction }
    }

    /// The second phase of a transaction, routed on its primary key.
    pub fn commit(&self, start_ts: u64, primary: Vec<u8>, keys: Vec<Vec<u8>>) -> (r: Request)
        ensures
            r@ == (RequestView {
                body: BodyView::Commit { start_ts, primary: primary@, keys: key_views(keys@) },
                route: primary@,
                policy: Policy::Transaction,
            }),
    {
        let route = bytes::copy(primary.as_slice());
        let body = Body::Commit { start_ts, primary, keys };
        Request { body, route, policy: Policy::Transaction }
    }

    /// Split the region that owns a key at that key.
    pub fn split_region(&self, split_key: Vec<u8>) -> (r: Request)
        ensures
            r@ == (RequestView {
                body: BodyView::SplitRegion { split_key: split_key@ },
                route: split_key@,
                policy: Policy::Transaction,
            }),
    {
        let route = bytes::copy(split_key.as_slice());
        Request { body: Body::SplitRegion { split_key }, route, policy: Policy::Transaction }
    }

    /// Merge the region that starts at a key into its left neighbour.
    pub fn merge_region(&self, boundary_key: Vec<u8>) -> (r: Request)
        ensures
            r@ == (RequestView {
                body: BodyView::MergeRegion { boundary_key: boundary_key@ },
                route: boundary_key@,
                policy: Policy::Transaction,
            }),
    {
        let route = bytes::copy(boundary_key.as_slice());
        Request { body: Body::MergeRegion { boundary_key }, route, policy: Policy::Transaction }
    }

    /// A region was split: its cached route goes, and the two regions are named; 0 stands for one
    /// that the answer does not name.
    pub fn region_split(&mut self, key: &[u8], left: Option<u64>, right: Option<u64>) -> (r: (
        u64,
        u64,
    ))
        requires
            old(self)@.wf(),
        ensures
            r == (or_zero(left), or_zero(right)),
            final(self)@ == old(self)@.moved_on(key@),
            final(self)@.wf(),
    {
        self.invalidate(key);
        (id_or_zero(left), id_or_zero(right))
    }

    /// Regions were merged: the cached route goes, and the merged region is named; 0 where the
    /// answer names none.
    pub fn region_merged(&mut self, key: &[u8], merged: Option<u64>) -> (r: u64)
        requires
            old(self)@.wf(),
        ensures
            r == or_zero(merged),
            final(self)@ == old(self)@.moved_on(key@),
            final(self)@.wf(),
    {
        self.invalidate(key);
        id_or_zero(merged)
    }

    /// A whole transaction: the primary is the first mutation's key. One without mutations is
    /// refused.
    pub fn transact(&self, mutations: Vec<Mutation>) -> (r: Result<Transact, ClientError>)
        ensures
            if mutations@.len() == 0 {
                r matches Err(e) && e@ == ClientErrorView::Key("empty transaction"@)
            } else {
                r matches Ok(t) && t@ == (TransactView {
                    primary: mutations@[0].key@,
                    mutations: mutation_views(mutations@),
                })
            },
    {
        match calls::plan_transaction(&mutations) {
            Ok((primary, keys)) => {
                assert(key_views(keys@) =~= keys_in(mutation_views(mutations@))) by {
                    assert(key_views(keys@) =~= calls::keys_of(mutations@));
                }
                Ok(Transact { primary, keys, mutations })
            },
            Err(e) => Err(e),
        }
    }
}

/// An id, or 0.
pub open spec fn or_zero(id: Option<u64>) -> u64 {
    match id {
        Some(x) => x,
        None => 0,
    }
}

fn id_or_zero(id: Option<u64>) -> (r: u64)
    ensures
        r == or_zero(id),
{
    match id {
        Some(x) => x,
        None => 0,
    }
}

/// A transaction that is ready to run: a start timestamp is asked for first ([`Client::begin`]),
/// then all of its mutations are prewritten, and then all of its keys are committed.
pub struct Transact {
    primary: Vec<u8>,
    keys: Vec<Vec<u8>>,
    mutations: Vec<Mutation>,
}

/// A [`Transact`] as values.
pub struct TransactView {
    pub primary: Seq<u8>,
    pub mutations: Seq<MutationView>,
}

/// A transaction that was prewritten.
pub struct Prewritten {
    start_ts: u64,
    primary: Vec<u8>,
    keys: Vec<Vec<u8>>,
}

/// A [`Prewritten`] as values.
pub struct PrewrittenView {
    pub start_ts: u64,
    pub primary: Seq<u8>,
    pub keys: Seq<Seq<u8>>,
}

/// The keys of mutations.
pub open spec fn keys_in(s: Seq<MutationView>) -> Seq<Seq<u8>> {
    Seq::new(s.len(), |i: int| s[i].key)
}

impl View for Transact {
    type V = TransactView;

    closed spec fn view(&self) -> TransactView {
        TransactView { primary: self.primary@, mutations: mutation_views(self.mutations@) }
    }
}

impl View for Prewritten {
    type V = PrewrittenView;

    closed spec fn view(&self) -> PrewrittenView {
        PrewrittenView {
            start_ts: self.start_ts,
            primary: self.primary@,
            keys: key_views(self.keys@),
        }
    }
}

impl Transact {
    #[verifier::type_invariant]
    spec fn lists_its_keys(self) -> bool {
        key_views(self.keys@) == keys_in(mutation_views(self.mutations@))
    }

    /// The start timestamp is there: prewrite all mutations, with locks that do not look expired
    /// while the transaction runs.
    pub fn begun(self, start_ts: u64) -> (r: (Request, Prewritten))
        ensures
            r.0@ == (RequestView {
                body: BodyView::Prewrite {
                    start_ts,
                    primary: self@.primary,
                    mutations: self@.mutations,
                    ttl: calls::expiry(start_ts),
                },
                route: self@.primary,
                policy: Policy::Transaction,
            }),
            r.1@ == (PrewrittenView {
                start_ts,
                primary: self@.primary,
                keys: keys_in(self@.mutations),
            }),
    {
        proof {
            use_type_invariant(&self);
        }
        let ttl: u64 = calls::lock_expiry(start_ts);
        let route = bytes::copy(self.primary.as_slice());
        let primary = bytes::copy(self.primary.as_slice());
        let next = Prewritten { start_ts, primary: self.primary, keys: self.keys };
        let body = Body::Prewrite { start_ts, primary, mutations: self.mutations, ttl };
        (Request { body, route, policy: Policy::Transaction }, next)
    }
}

impl Prewritten {
    /// The prewrite was answered without an error: commit all keys.
    pub fn committed(self) -> (r: Request)
        ensures
            r@ == (RequestView {
                body: BodyView::Commit {
                    start_ts: self@.start_ts,
                    primary: self@.primary,
                    keys: self@.keys,
                },
                route: self@.primary,
                policy: Policy::Transaction,
            }),
    {
        let route = bytes::copy(self.primary.as_slice());
        let body = Body::Commit {
            start_ts: self.start_ts,
            primary: self.primary,
            keys: self.keys,
        };
        Request { body, route, policy: Policy::Transaction }
    }
}

/// What came of a request whose answer carries an error or none.
pub fn answered(error: Option<KeyError>) -> (r: Outcome)
    ensures
        r@ == match error {
            Some(e) => OutcomeView::Refused(e@),
            None => OutcomeView::Answered,
        },
{
    match error {
        Some(e) => Outcome::Refused(e),
        None => Outcome::Answered,
    }
}

/// What came of a prewrite: its answer carries an error per key, of which the first counts.
pub fn prewrite_answered(errors: Vec<KeyError>) -> (r: Outcome)
    ensures
        r@ == if errors@.len() > 0 {
            OutcomeView::Refused(errors@[0]@)
        } else {
            OutcomeView::Answered
        },
{
    let mut errors = errors;
    if errors.len() > 0 {
        Outcome::Refused(errors.remove(0))
    } else {
        Outcome::Answered
    }
}

/// What a read found.
pub fn found_value(found: bool, value: Vec<u8>) -> (r: Option<Vec<u8>>)
    ensures
        r == if found {
            Some(value)
        } else {
            None
        },
{
    if found {
        Some(value)
    } else {
        None
    }
}

} // verus!
