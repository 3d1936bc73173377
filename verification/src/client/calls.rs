//! Where a request goes and what is done with the answer, in each of the three modes.

use vstd::prelude::*;
use crate::bytes;
use crate::client::cache;
use crate::client::cache::{CachedRegion, CachedView, RegionCache};
use crate::client::endpoint;
use crate::client::error;
use crate::client::error::{ClientError, ClientErrorView, Failure, FailureView, KeyError, KeyErrorView};
use crate::pd::region;
use crate::pd::region::{TableId, DEFAULT_TABLE_ID, DEFAULT_TABLE_NAME};
use crate::text;

verus! {

/// A lease (in ticks of the timestamp oracle) that keeps a transaction's locks from ever looking
/// expired while it runs.
pub const DEFAULT_LEASE: u64 = 0x1_0000_0000;

/// How many times a call is tried before it is given up. A handful is plenty: each follows a real
/// change of the topology.
pub const MAX_ROUTING_ATTEMPTS: usize = 5;

/// What a mutation does.
#[derive(Clone, Copy, Debug, PartialEq, Eq, Structural)]
pub enum MutationOp {
    Put,
    Delete,
}

/// A change of one stored key.
#[derive(Clone, Debug, PartialEq, Eq)]
pub struct Mutation {
    pub op: MutationOp,
    pub key: Vec<u8>,
    pub value: Vec<u8>,
}

/// A [`Mutation`] as values.
#[verifier::ext_equal]
pub struct MutationView {
    pub op: MutationOp,
    pub key: Seq<u8>,
    pub value: Seq<u8>,
}

impl View for Mutation {
    type V = MutationView;

    open spec fn view(&self) -> MutationView {
        MutationView { op: self.op, key: self.key@, value: self.value@ }
    }
}

/// The region that a request is meant for, and its version.
#[derive(Clone, Copy, Debug, PartialEq, Eq, Structural)]
pub struct RegionContext {
    pub region_id: u64,
    pub region_epoch: u64,
}

/// What is to be done to send a request.
#[derive(Clone, Debug, PartialEq, Eq)]
pub enum Target {
    /// Send it to an endpoint.
    Send { endpoint: String, context: Option<RegionContext> },
    /// Ask the placement driver for the key's region first.
    AskPd,
}

/// A [`Target`] as values.
pub enum TargetView {
    Send { endpoint: Seq<char>, context: Option<RegionContext> },
    AskPd,
}

impl View for Target {
    type V = TargetView;

    open spec fn view(&self) -> TargetView {
        match self {
            Target::Send { endpoint, context } => TargetView::Send {
                endpoint: endpoint@,
                context: *context,
            },
            Target::AskPd => TargetView::AskPd,
        }
    }
}

/// A target or an error as values.
pub open spec fn target_result(r: Result<Target, ClientError>) -> Result<
    TargetView,
    ClientErrorView,
> {
    match r {
        Ok(t) => Ok(t@),
        Err(e) => Err(e@),
    }
}

/// How a call is handled.
#[derive(Clone, Copy, Debug, PartialEq, Eq, Structural)]
pub enum Policy {
    /// A single-key read or write.
    Keyed,
    /// A step of a transaction: a failed call is not sent anywhere else.
    Transaction,
    /// A range scan.
    Scan,
    /// A call that any node can answer: every node gets one chance.
    AnyNode,
}

/// A call: how it is handled, how often it may still be tried, and whether a node has answered.
#[derive(Clone, Copy, Debug, PartialEq, Eq, Structural)]
pub struct Call {
    pub policy: Policy,
    pub left: usize,
    pub reached: bool,
}

/// What came of sending a request.
#[derive(Clone, Debug, PartialEq, Eq)]
pub enum Outcome {
    /// The server answered.
    Answered,
    /// The server reported an error in-band.
    Refused(KeyError),
    /// The call failed.
    Failed(Failure),
}

/// An [`Outcome`] as values.
pub enum OutcomeView {
    Answered,
    Refused(KeyErrorView),
    Failed(FailureView),
}

impl View for Outcome {
    type V = OutcomeView;

    open spec fn view(&self) -> OutcomeView {
        match self {
            Outcome::Answered => OutcomeView::Answered,
            Outcome::Refused(k) => OutcomeView::Refused(k@),
            Outcome::Failed(f) => OutcomeView::Failed(f@),
        }
    }
}

/// What the caller does next.
#[derive(Clone, Debug, PartialEq, Eq)]
pub enum Verdict {
    /// Return the answer.
    Done,
    /// Prepare and send once more.
    Again,
    /// Return an error.
    Fail(ClientError),
}

/// A [`Verdict`] as values.
pub enum VerdictView {
    Done,
    Again,
    Fail(ClientErrorView),
}

impl View for Verdict {
    type V = VerdictView;

    open spec fn view(&self) -> VerdictView {
        match self {
            Verdict::Done => VerdictView::Done,
            Verdict::Again => VerdictView::Again,
            Verdict::Fail(e) => VerdictView::Fail(e@),
        }
    }
}

/// Where requests go.
enum Mode {
    Direct(String),
    Cluster { endpoints: Vec<String>, leader: usize },
    Routed { pd: String, cache: RegionCache, fallback: Option<String> },
}

/// The mode of a client as values.
pub enum ModeView {
    /// One node.
    Direct(Seq<char>),
    /// A fixed list of nodes, and which of them is presumed to lead.
    Cluster { endpoints: Seq<Seq<char>>, leader: usize },
    /// The placement driver, the routes that it gave, and the node for regions that it gave no
    /// address of.
    Routed { pd: Seq<char>, cache: Seq<CachedView>, fallback: Option<Seq<char>> },
}

impl Mode {
    closed spec fn model(&self) -> ModeView {
        match self {
            Mode::Direct(u) => ModeView::Direct(u@),
            Mode::Cluster { endpoints, leader } => ModeView::Cluster {
                endpoints: text::strings(endpoints@),
                leader: *leader,
            },
            Mode::Routed { pd, cache, fallback } => ModeView::Routed {
                pd: pd@,
                cache: cache@,
                fallback: text::opt_text(*fallback),
            },
        }
    }
}

/// A list of tables as values.
pub open spec fn entries(v: Seq<(String, TableId)>) -> Seq<(Seq<char>, TableId)> {
    Seq::new(v.len(), |i: int| (v[i].0@, v[i].1))
}

/// Where a table stands in a list, or would.
pub open spec fn place(s: Seq<(Seq<char>, TableId)>, name: Seq<char>, i: int) -> int
    decreases s.len() - i,
{
    if i >= s.len() || s[i].0 == name {
        i
    } else {
        place(s, name, i + 1)
    }
}

/// A table's id in a list.
pub open spec fn id_in(s: Seq<(Seq<char>, TableId)>, name: Seq<char>) -> Option<TableId> {
    let i = place(s, name, 0);
    if i < s.len() {
        Some(s[i].1)
    } else {
        None
    }
}

/// The list with a table's id.
pub open spec fn noted(s: Seq<(Seq<char>, TableId)>, name: Seq<char>, id: TableId) -> Seq<
    (Seq<char>, TableId),
> {
    let i = place(s, name, 0);
    if i < s.len() {
        s.update(i, (name, id))
    } else {
        s.push((name, id))
    }
}

/// The list with the ids of listed tables.
pub open spec fn all_noted(
    s: Seq<(Seq<char>, TableId)>,
    listed: Seq<(Seq<char>, TableId)>,
) -> Seq<(Seq<char>, TableId)>
    decreases listed.len(),
{
    if listed.len() == 0 {
        s
    } else {
        noted(all_noted(s, listed.drop_last()), listed.last().0, listed.last().1)
    }
}

/// The tables that every client knows: the default one, under its name and under none.
pub open spec fn built_in() -> Seq<(Seq<char>, TableId)> {
    seq![(Seq::empty(), 0), ("default"@, 0)]
}

/// A client as values.
pub struct ClientView {
    pub mode: ModeView,
    pub tables: Seq<(Seq<char>, TableId)>,
}

/// The endpoint of an address that the placement driver gave: the fallback for an empty one.
pub open spec fn endpoint_of(address: Seq<char>, fallback: Option<Seq<char>>) -> Result<
    Seq<char>,
    ClientErrorView,
> {
    if address.len() > 0 {
        Ok(address)
    } else {
        match fallback {
            Some(f) => Ok(f),
            None => Err(
                ClientErrorView::Key("region has no node address and no fallback"@),
            ),
        }
    }
}

/// The target of a request to a known region.
pub open spec fn target_of(r: CachedView, fallback: Option<Seq<char>>) -> Result<
    TargetView,
    ClientErrorView,
> {
    match endpoint_of(r.address, fallback) {
        Ok(endpoint) => Ok(
            TargetView::Send {
                endpoint,
                context: Some(RegionContext { region_id: r.id, region_epoch: r.epoch }),
            },
        ),
        Err(e) => Err(e),
    }
}

/// A target with the channel to its endpoint made.
pub open spec fn reached(t: Result<TargetView, ClientErrorView>) -> Result<
    TargetView,
    ClientErrorView,
> {
    match t {
        Ok(TargetView::Send { endpoint, context }) => match endpoint::opened(endpoint) {
            Ok(endpoint) => Ok(TargetView::Send { endpoint, context }),
            Err(e) => Err(e),
        },
        _ => t,
    }
}

impl ClientView {
    /// The presumed leader is one of the endpoints, and the cache is tidy.
    pub open spec fn wf(self) -> bool {
        match self.mode {
            ModeView::Direct(_) => true,
            ModeView::Cluster { endpoints, leader } => leader < endpoints.len() <= usize::MAX,
            ModeView::Routed { cache, .. } => cache::tidy(cache),
        }
    }

    /// Where a request for a key is to go.
    pub open spec fn aimed(self, key: Seq<u8>) -> Result<TargetView, ClientErrorView> {
        match self.mode {
            ModeView::Direct(u) => Ok(TargetView::Send { endpoint: u, context: None }),
            ModeView::Cluster { endpoints, leader } => Ok(
                TargetView::Send { endpoint: endpoints[leader as int], context: None },
            ),
            ModeView::Routed { cache, fallback, .. } => match cache::cached(cache, key) {
                Some(r) => target_of(r, fallback),
                None => Ok(TargetView::AskPd),
            },
        }
    }

    /// Where a request for a key goes. A direct client has its channel from the start.
    pub open spec fn prepared(self, key: Seq<u8>) -> Result<TargetView, ClientErrorView> {
        match self.mode {
            ModeView::Direct(_) => self.aimed(key),
            _ => reached(self.aimed(key)),
        }
    }

    /// The client after a region was learned, where it can be reached.
    pub open spec fn after_learning(self, r: CachedView) -> ClientView {
        match self.mode {
            ModeView::Routed { pd, cache, fallback } => if reached(target_of(r, fallback)) is Ok {
                ClientView {
                    mode: ModeView::Routed { pd, cache: cache::renewed(cache, r), fallback },
                    ..self
                }
            } else {
                self
            },
            _ => self,
        }
    }

    /// The route for a key dropped: the next node, or no cached region.
    pub open spec fn moved_on(self, key: Seq<u8>) -> ClientView {
        match self.mode {
            ModeView::Direct(_) => self,
            ModeView::Cluster { endpoints, leader } => ClientView {
                mode: ModeView::Cluster {
                    endpoints,
                    leader: ((leader + 1) % endpoints.len() as int) as usize,
                },
                ..self
            },
            ModeView::Routed { pd, cache, fallback } => ClientView {
                mode: ModeView::Routed { pd, cache: cache::forgotten(cache, key), fallback },
                ..self
            },
        }
    }

    /// How many nodes a call that any node can answer is sent to at most.
    pub open spec fn nodes(self) -> usize {
        match self.mode {
            ModeView::Cluster { endpoints, .. } => endpoints.len() as usize,
            _ => 1,
        }
    }

    /// A call that starts.
    pub open spec fn call(self, policy: Policy) -> Call {
        Call {
            policy,
            left: if policy == Policy::AnyNode {
                self.nodes()
            } else {
                5
            },
            reached: false,
        }
    }

    /// Whether an outcome is followed by another try, as long as there are any left.
    pub open spec fn retried(self, policy: Policy, o: OutcomeView) -> bool {
        match o {
            OutcomeView::Answered => false,
            OutcomeView::Refused(ke) => {
                &&& policy == Policy::Keyed || policy == Policy::Transaction
                &&& error::misrouted(ke)
                &&& !(self.mode is Direct && ke is RegionStale)
            },
            OutcomeView::Failed(f) => {
                &&& policy != Policy::Transaction
                &&& self.mode is Cluster
                &&& error::elsewhere(f)
            },
        }
    }

    /// What the caller is told of an outcome that is not followed by another try.
    pub open spec fn concluded(self, policy: Policy, o: OutcomeView) -> VerdictView {
        match o {
            OutcomeView::Answered => VerdictView::Done,
            OutcomeView::Refused(ke) => if self.mode is Direct && ke is RegionStale && (policy
                == Policy::Keyed || policy == Policy::Transaction) {
                VerdictView::Fail(ClientErrorView::NotHosted)
            } else {
                VerdictView::Fail(error::told(ke))
            },
            OutcomeView::Failed(f) => VerdictView::Fail(ClientErrorView::Rpc(f)),
        }
    }

    /// The call after one outcome.
    pub open spec fn spent(self, call: Call, o: OutcomeView) -> Call {
        Call {
            left: if self.retried(call.policy, o) {
                (call.left - 1) as usize
            } else {
                call.left
            },
            reached: call.reached || o is Refused || o is Answered,
            ..call
        }
    }

    /// What becomes of a call: the client and the call after it, and what the caller does next.
    pub open spec fn settled(self, call: Call, key: Seq<u8>, o: OutcomeView) -> (
        ClientView,
        Call,
        VerdictView,
    ) {
        let next = self.spent(call, o);
        if self.retried(call.policy, o) {
            (
                self.moved_on(key),
                next,
                if next.left > 0 {
                    VerdictView::Again
                } else {
                    VerdictView::Fail(given_up(next.reached))
                },
            )
        } else {
            (self, next, self.concluded(call.policy, o))
        }
    }
}

/// What the caller is told once a call was tried often enough: whether a node answered makes the
/// difference between an election that can be waited out and a cluster that is down.
pub open spec fn given_up(reached: bool) -> ClientErrorView {
    if reached {
        ClientErrorView::NoLeader
    } else {
        ClientErrorView::Unreachable
    }
}

/// A client.
pub struct Client {
    mode: Mode,
    tables: Vec<(String, TableId)>,
}

impl View for Client {
    type V = ClientView;

    closed spec fn view(&self) -> ClientView {
        ClientView { mode: self.mode.model(), tables: entries(self.tables@) }
    }
}

/// The tables that every client knows.
fn seeded_tables() -> (r: Vec<(String, TableId)>)
    ensures
        entries(r@) == built_in(),
{
    let mut v: Vec<(String, TableId)> = Vec::new();
    v.push((String::new(), DEFAULT_TABLE_ID));
    v.push((text::owned(DEFAULT_TABLE_NAME), DEFAULT_TABLE_ID));
    assert(v@[0].0@ =~= Seq::<char>::empty());
    assert(entries(v@) =~= built_in());
    v
}

/// A key as it is stored and routed: the table's id and the key.
pub fn stored_key(id: TableId, key: &[u8]) -> (r: Vec<u8>)
    ensures
        r@ == bytes::be32(id) + key@,
{
    region::table_key(id, key)
}

impl Client {
    /// A client of a single node.
    pub fn connect(uri: String) -> (r: Result<Client, ClientError>)
        ensures
            match endpoint::opened(uri@) {
                Ok(u) => r matches Ok(c) && c@ == (ClientView {
                    mode: ModeView::Direct(u),
                    tables: built_in(),
                }) && c@.wf(),
                Err(e) => r matches Err(x) && x@ == e,
            },
    {
        match endpoint::lazy_channel(uri) {
            Ok(u) => Ok(Client { mode: Mode::Direct(u), tables: seeded_tables() }),
            Err(e) => Err(e),
        }
    }

    /// A client of a fixed list of nodes that follows the leader.
    pub fn connect_cluster(endpoints: Vec<String>) -> (r: Result<Client, ClientError>)
        ensures
            if endpoints@.len() == 0 {
                r matches Err(e) && e@ == ClientErrorView::Key(
                    "connect_cluster needs at least one endpoint"@,
                )
            } else {
                r matches Ok(c) && c@ == (ClientView {
                    mode: ModeView::Cluster { endpoints: text::strings(endpoints@), leader: 0 },
                    tables: built_in(),
                }) && c@.wf()
            },
    {
        if endpoints.len() == 0 {
            return Err(ClientError::Key(text::owned("connect_cluster needs at least one endpoint")));
        }
        Ok(Client { mode: Mode::Cluster { endpoints, leader: 0 }, tables: seeded_tables() })
    }

    /// A region-aware client. `kv_uri` is only for regions without an address.
    pub fn connect_with_pd(kv_uri: String, pd_uri: String) -> (r: Result<Client, ClientError>)
        ensures
            match endpoint::opened(pd_uri@) {
                Ok(pd) => r matches Ok(c) && c@ == (ClientView {
                    mode: ModeView::Routed { pd, cache: Seq::empty(), fallback: Some(kv_uri@) },
                    tables: built_in(),
                }) && c@.wf(),
                Err(e) => r matches Err(x) && x@ == e,
            },
    {
        match endpoint::lazy_channel(pd_uri) {
            Ok(pd) => Ok(
                Client {
                    mode: Mode::Routed { pd, cache: RegionCache::new(), fallback: Some(kv_uri) },
                    tables: seeded_tables(),
                },
            ),
            Err(e) => Err(e),
        }
    }

    /// The endpoint that is presumed to lead, in cluster mode.
    pub fn current_endpoint(&self) -> (r: Option<String>)
        requires
            self@.wf(),
        ensures
            match self@.mode {
                ModeView::Cluster { endpoints, leader } => r matches Some(e) && e@
                    == endpoints[leader as int],
                _ => r is None,
            },
    {
        match &self.mode {
            Mode::Cluster { endpoints, leader } => Some(text::owned(endpoints[*leader].as_str())),
            _ => None,
        }
    }

    /// Where a request for a key goes.
    pub fn prepare(&self, key: &[u8]) -> (r: Result<Target, ClientError>)
        requires
            self@.wf(),
        ensures
            target_result(r) == self@.prepared(key@),
    {
        let t = self.aim(key);
        match &self.mode {
            Mode::Direct(_) => t,
            _ => reach(t),
        }
    }

    /// Where a request for a key is to go.
    pub fn aim(&self, key: &[u8]) -> (r: Result<Target, ClientError>)
        requires
            self@.wf(),
        ensures
            target_result(r) == self@.aimed(key@),
    {
        match &self.mode {
            Mode::Direct(u) => Ok(
                Target::Send { endpoint: text::owned(u.as_str()), context: None },
            ),
            Mode::Cluster { endpoints, leader } => Ok(
                Target::Send {
                    endpoint: text::owned(endpoints[*leader].as_str()),
                    context: None,
                },
            ),
            Mode::Routed { cache, fallback, .. } => match cache.lookup(key) {
                Some(r) => send_to(&r, fallback),
                None => Ok(Target::AskPd),
            },
        }
    }

    /// What the placement driver answered: where the request goes, and a route to remember.
    pub fn located(&mut self, found: CachedRegion) -> (r: Result<Target, ClientError>)
        requires
            old(self)@.wf(),
            old(self)@.mode is Routed,
        ensures
            target_result(r) == reached(target_of(found@, old(self)@.mode->fallback)),
            final(self)@ == old(self)@.after_learning(found@),
            final(self)@.wf(),
    {
        match &mut self.mode {
            Mode::Routed { cache, fallback, .. } => {
                let t = reach(send_to(&found, fallback));
                if t.is_ok() {
                    cache.insert(found);
                }
                t
            },
            _ => Ok(Target::AskPd),
        }
    }

    /// A route was wrong or a node was not to be reached: the next node, or no cached route.
    pub fn invalidate(&mut self, key: &[u8])
        requires
            old(self)@.wf(),
        ensures
            final(self)@ == old(self)@.moved_on(key@),
            final(self)@.wf(),
    {
        match &mut self.mode {
            Mode::Direct(_) => {},
            Mode::Cluster { endpoints, leader } => {
                let next: usize = if *leader == endpoints.len() - 1 {
                    0
                } else {
                    *leader + 1
                };
                proof {
                    let n = endpoints@.len() as int;
                    assert((*leader + 1) % n == next) by (nonlinear_arith)
                        requires
                            0 <= *leader < n,
                            next == if *leader == n - 1 {
                                0
                            } else {
                                *leader + 1
                            },
                    ;
                }
                *leader = next;
            },
            Mode::Routed { cache, .. } => {
                cache.invalidate(key);
            },
        }
    }

    /// Start a call.
    pub fn call(&self, policy: Policy) -> (c: Call)
        requires
            self@.wf(),
        ensures
            c == self@.call(policy),
            c.left > 0,
    {
        let left: usize = match policy {
            Policy::AnyNode => match &self.mode {
                Mode::Cluster { endpoints, .. } => endpoints.len(),
                _ => 1,
            },
            _ => MAX_ROUTING_ATTEMPTS,
        };
        Call { policy, left, reached: false }
    }

    /// Take in what came of sending a request for a key, and say what to do next.
    pub fn settle(&mut self, call: &mut Call, key: &[u8], outcome: Outcome) -> (v: Verdict)
        requires
            old(self)@.wf(),
            old(call).left > 0,
        ensures
            (final(self)@, *final(call), v@) == old(self)@.settled(*old(call), key@, outcome@),
            final(self)@.wf(),
            v@ is Again ==> final(call).left > 0,
    {
        let policy = call.policy;
        match outcome {
            Outcome::Answered => {
                call.reached = true;
                Verdict::Done
            },
            Outcome::Refused(ke) => {
                call.reached = true;
                let keyed: bool = match policy {
                    Policy::Keyed => true,
                    Policy::Transaction => true,
                    _ => false,
                };
                if !keyed || !error::is_reroute(&ke) {
                    return Verdict::Fail(error::key_error(ke));
                }
                match self.reroute(key, &ke) {
                    Ok(()) => {},
                    Err(e) => {
                        return Verdict::Fail(e);
                    },
                }
                spend(call)
            },
            Outcome::Failed(f) => {
                let follows: bool = match &self.mode {
                    Mode::Cluster { .. } => true,
                    _ => false,
                };
                let fixed: bool = match policy {
                    Policy::Transaction => true,
                    _ => false,
                };
                if follows && !fixed && error::try_next_node(&f) {
                    self.invalidate(key);
                    spend(call)
                } else {
                    Verdict::Fail(ClientError::Rpc(f))
                }
            },
        }
    }

    /// Act on a redirect: move on, or fail at once in direct mode where the node does not hold the
    /// region. A direct client has one node and no route to refresh.
    pub fn reroute(&mut self, key: &[u8], ke: &KeyError) -> (r: Result<(), ClientError>)
        requires
            old(self)@.wf(),
        ensures
            if old(self)@.mode is Direct && ke@ is RegionStale {
                r matches Err(e) && e@ is NotHosted && final(self)@ == old(self)@
            } else {
                r is Ok && final(self)@ == old(self)@.moved_on(key@)
            },
            final(self)@.wf(),
    {
        let direct: bool = match &self.mode {
            Mode::Direct(_) => true,
            _ => false,
        };
        let stale: bool = match ke {
            KeyError::RegionStale { .. } => true,
            _ => false,
        };
        if direct && stale {
            return Err(ClientError::NotHosted);
        }
        self.invalidate(key);
        Ok(())
    }

    /// Where a table stands in the list of known ones, or would.
    fn find(&self, table: &str) -> (r: usize)
        ensures
            r == place(self@.tables, table@, 0),
            r <= self@.tables.len(),
    {
        let mut i: usize = 0;
        while i < self.tables.len() && !text::str_eq(self.tables[i].0.as_str(), table)
            invariant
                0 <= i <= self.tables@.len(),
                place(self@.tables, table@, 0) == place(self@.tables, table@, i as int),
            decreases self.tables@.len() - i,
        {
            i = i + 1;
        }
        i
    }

    /// A table's id, where it is known. Ids are never reused, so what is known stays right.
    pub fn known_table(&self, table: &str) -> (r: Option<TableId>)
        ensures
            r == id_in(self@.tables, table@),
    {
        let i: usize = self.find(table);
        if i < self.tables.len() {
            Some(self.tables[i].1)
        } else {
            None
        }
    }

    /// A table's id, once the tables were listed: a name that is still not known is no table.
    pub fn table_id(&self, table: &str) -> (r: Result<TableId, ClientError>)
        ensures
            match id_in(self@.tables, table@) {
                Some(id) => r matches Ok(x) && x == id,
                None => r matches Err(e) && e@ == ClientErrorView::UnknownTable(table@),
            },
    {
        match self.known_table(table) {
            Some(id) => Ok(id),
            None => Err(ClientError::UnknownTable(text::owned(table))),
        }
    }

    /// Remember a table's id.
    pub fn learn_table(&mut self, name: String, id: TableId)
        ensures
            final(self)@ == (ClientView {
                tables: noted(old(self)@.tables, name@, id),
                ..old(self)@
            }),
    {
        let ghost before = self@.tables;
        let i: usize = self.find(name.as_str());
        let ghost nv = name@;
        if i < self.tables.len() {
            self.tables.set(i, (name, id));
            assert(entries(self.tables@) =~= before.update(i as int, (nv, id)));
        } else {
            self.tables.push((name, id));
            assert(entries(self.tables@) =~= before.push((nv, id)));
        }
    }

    /// Remember the ids of listed tables.
    pub fn learn_tables(&mut self, listed: &Vec<(String, TableId)>)
        ensures
            final(self)@ == (ClientView {
                tables: all_noted(old(self)@.tables, entries(listed@)),
                ..old(self)@
            }),
    {
        let ghost start = self@;
        let ghost all = entries(listed@);
        let mut i: usize = 0;
        assert(all.take(0) =~= Seq::<(Seq<char>, TableId)>::empty());
        while i < listed.len()
            invariant
                0 <= i <= listed@.len(),
                all == entries(listed@),
                self@ == (ClientView {
                    tables: all_noted(start.tables, all.take(i as int)),
                    ..start
                }),
            decreases listed@.len() - i,
        {
            assert(all.take(i + 1).drop_last() =~= all.take(i as int));
            self.learn_table(text::owned(listed[i].0.as_str()), listed[i].1);
            i = i + 1;
        }
        assert(all.take(i as int) =~= all);
    }

    /// A table was created: its id is remembered, and its region handed on. A response without a
    /// region is no answer.
    pub fn table_created(
        &mut self,
        name: String,
        id: TableId,
        region: Option<crate::pd::region::Region>,
    ) -> (r: Result<crate::pd::region::Region, ClientError>)
        ensures
            match region {
                Some(x) => r matches Ok(y) && y == x && final(self)@ == (ClientView {
                    tables: noted(old(self)@.tables, name@, id),
                    ..old(self)@
                }),
                None => r matches Err(e) && e@ == ClientErrorView::Key(
                    "create_table: no region in response"@,
                ) && final(self)@ == old(self)@,
            },
    {
        match region {
            Some(x) => {
                self.learn_table(name, id);
                Ok(x)
            },
            None => Err(ClientError::Key(text::owned("create_table: no region in response"))),
        }
    }

    /// A put for [`plan_transaction`]: a mutation carries the key as it is stored.
    pub fn put_mutation(&self, table: &str, key: &[u8], value: Vec<u8>) -> (r: Result<
        Mutation,
        ClientError,
    >)
        ensures
            match id_in(self@.tables, table@) {
                Some(id) => r matches Ok(m) && m@ == (MutationView {
                    op: MutationOp::Put,
                    key: bytes::be32(id) + key@,
                    value: value@,
                }),
                None => r matches Err(e) && e@ == ClientErrorView::UnknownTable(table@),
            },
    {
        match self.table_id(table) {
            Ok(id) => Ok(Mutation { op: MutationOp::Put, key: stored_key(id, key), value }),
            Err(e) => Err(e),
        }
    }

    /// A delete for [`plan_transaction`].
    pub fn delete_mutation(&self, table: &str, key: &[u8]) -> (r: Result<Mutation, ClientError>)
        ensures
            match id_in(self@.tables, table@) {
                Some(id) => r matches Ok(m) && m@ == (MutationView {
                    op: MutationOp::Delete,
                    key: bytes::be32(id) + key@,
                    value: Seq::empty(),
                }),
                None => r matches Err(e) && e@ == ClientErrorView::UnknownTable(table@),
            },
    {
        match self.table_id(table) {
            Ok(id) => {
                let m = Mutation {
                    op: MutationOp::Delete,
                    key: stored_key(id, key),
                    value: Vec::new(),
                };
                assert(m@.value =~= Seq::<u8>::empty());
                Ok(m)
            },
            Err(e) => Err(e),
        }
    }
}

/// A target with the channel to its endpoint made.
fn reach(t: Result<Target, ClientError>) -> (r: Result<Target, ClientError>)
    ensures
        target_result(r) == reached(target_result(t)),
{
    match t {
        Ok(Target::Send { endpoint, context }) => match endpoint::lazy_channel(endpoint) {
            Ok(endpoint) => Ok(Target::Send { endpoint, context }),
            Err(e) => Err(e),
        },
        _ => t,
    }
}

/// Where a request to a known region goes.
fn send_to(r: &CachedRegion, fallback: &Option<String>) -> (t: Result<Target, ClientError>)
    ensures
        target_result(t) == target_of(r@, text::opt_text(*fallback)),
{
    let context = Some(RegionContext { region_id: r.id, region_epoch: r.epoch });
    if r.address.as_str().unicode_len() > 0 {
        return Ok(Target::Send { endpoint: text::owned(r.address.as_str()), context });
    }
    match fallback {
        Some(f) => Ok(Target::Send { endpoint: text::owned(f.as_str()), context }),
        None => Err(
            ClientError::Key(text::owned("region has no node address and no fallback")),
        ),
    }
}

/// The error of a call that was tried often enough.
pub fn exhausted(reached: bool) -> (r: ClientError)
    ensures
        r@ == given_up(reached),
{
    if reached {
        ClientError::NoLeader
    } else {
        ClientError::Unreachable
    }
}

/// Use up one try.
fn spend(call: &mut Call) -> (v: Verdict)
    requires
        old(call).left > 0,
    ensures
        *final(call) == (Call { left: (old(call).left - 1) as usize, ..*old(call) }),
        v@ == if old(call).left > 1 {
            VerdictView::Again
        } else {
            VerdictView::Fail(given_up(old(call).reached))
        },
{
    call.left = call.left - 1;
    if call.left > 0 {
        Verdict::Again
    } else {
        Verdict::Fail(exhausted(call.reached))
    }
}

/// The keys of a list of mutations.
pub open spec fn keys_of(s: Seq<Mutation>) -> Seq<Seq<u8>> {
    Seq::new(s.len(), |i: int| s[i].key@)
}

/// The primary key of a transaction, the first, and all of its keys.
pub fn plan_transaction(mutations: &Vec<Mutation>) -> (r: Result<
    (Vec<u8>, Vec<Vec<u8>>),
    ClientError,
>)
    ensures
        if mutations@.len() == 0 {
            r matches Err(e) && e@ == ClientErrorView::Key("empty transaction"@)
        } else {
            r matches Ok((primary, keys)) && primary@ == mutations@[0].key@ && Seq::new(
                keys@.len(),
                |i: int| keys@[i]@,
            ) == keys_of(mutations@)
        },
{
    if mutations.len() == 0 {
        return Err(ClientError::Key(text::owned("empty transaction")));
    }
    let mut keys: Vec<Vec<u8>> = Vec::new();
    let mut i: usize = 0;
    while i < mutations.len()
        invariant
            0 <= i <= mutations@.len(),
            keys@.len() == i,
            forall|j: int| 0 <= j < i ==> (#[trigger] keys@[j])@ == mutations@[j].key@,
        decreases mutations@.len() - i,
    {
        keys.push(bytes::copy(mutations[i].key.as_slice()));
        i = i + 1;
    }
    assert(Seq::new(keys@.len(), |i: int| keys@[i]@) =~= keys_of(mutations@));
    Ok((bytes::copy(mutations[0].key.as_slice()), keys))
}

/// When the locks of a transaction that starts at a timestamp expire.
pub open spec fn expiry(start_ts: u64) -> u64 {
    if start_ts + DEFAULT_LEASE > u64::MAX {
        u64::MAX
    } else {
        (start_ts + DEFAULT_LEASE) as u64
    }
}

/// When the locks of a transaction that starts at a timestamp expire.
pub fn lock_expiry(start_ts: u64) -> (r: u64)
    ensures
        r == expiry(start_ts),
{
    start_ts.saturating_add(DEFAULT_LEASE)
}

/// A call is tried again only as long as it has tries left, and each uses one up.
pub proof fn law_bounded(c: ClientView, call: Call, key: Seq<u8>, o: OutcomeView)
    requires
        call.left > 0,
    ensures
        ({
            let (_, next, v) = c.settled(call, key, o);
            v is Again ==> next.left + 1 == call.left && next.left > 0 && next.policy
                == call.policy
        }),
{
}

/// A write whose outcome is not known is never sent again, and neither is a failed step of a
/// transaction: the caller is told.
pub proof fn law_never_resent(
    c: ClientView,
    call: Call,
    key: Seq<u8>,
    detail: Seq<char>,
    f: FailureView,
)
    ensures
        ({
            let (d, _, v) = c.settled(
                call,
                key,
                OutcomeView::Refused(KeyErrorView::Undetermined(detail)),
            );
            d == c && v == VerdictView::Fail(ClientErrorView::Undetermined(detail))
        }),
        call.policy == Policy::Transaction ==> ({
            let (d, _, v) = c.settled(call, key, OutcomeView::Failed(f));
            d == c && v == VerdictView::Fail(ClientErrorView::Rpc(f))
        }),
{
}

/// A status that a server returned is its answer: it is handed on, and no other node is asked.
pub proof fn law_answer_is_final(c: ClientView, call: Call, key: Seq<u8>, f: FailureView)
    requires
        !error::elsewhere(f) || !(c.mode is Cluster),
    ensures
        ({
            let (d, _, v) = c.settled(call, key, OutcomeView::Failed(f));
            d == c && v == VerdictView::Fail(ClientErrorView::Rpc(f))
        }),
{
}

/// A direct client stays with its node, whatever comes back.
pub proof fn law_direct(c: ClientView, call: Call, key: Seq<u8>, o: OutcomeView)
    requires
        c.mode is Direct,
    ensures
        c.settled(call, key, o).0 == c,
{
}

/// A stale route is asked for again: after a redirect a region-aware client does not find the
/// key's region in its cache.
pub proof fn law_stale_route(c: ClientView, call: Call, key: Seq<u8>, ke: KeyErrorView)
    requires
        c.wf(),
        c.mode is Routed,
        call.policy == Policy::Keyed || call.policy == Policy::Transaction,
        error::misrouted(ke),
    ensures
        c.settled(call, key, OutcomeView::Refused(ke)).0.prepared(key) == Ok::<
            TargetView,
            ClientErrorView,
        >(TargetView::AskPd),
{
    cache::law_forgotten(c.mode->cache, key);
}

/// The client after moving on a number of times.
pub open spec fn moved(c: ClientView, key: Seq<u8>, k: nat) -> ClientView
    decreases k,
{
    if k == 0 {
        c
    } else {
        moved(c, key, (k - 1) as nat).moved_on(key)
    }
}

/// Moving on goes through the nodes of a cluster one after another, and round again.
pub proof fn law_rotation(c: ClientView, key: Seq<u8>, k: nat)
    requires
        c.wf(),
        c.mode is Cluster,
    ensures
        moved(c, key, k).mode is Cluster,
        moved(c, key, k).mode->endpoints == c.mode->endpoints,
        moved(c, key, k).mode->leader == (c.mode->leader + k) % c.mode->endpoints.len() as int,
    decreases k,
{
    let n = c.mode->endpoints.len() as int;
    let l = c.mode->leader as int;
    if k > 0 {
        law_rotation(c, key, (k - 1) as nat);
        let before = (l + k - 1) % n;
        assert((before + 1) % n == (l + k) % n && 0 <= (before + 1) % n < n) by (nonlinear_arith)
            requires
                n > 0,
                before == (l + k - 1) % n,
        {
            vstd::arithmetic::div_mod::lemma_add_mod_noop(l + k - 1, 1, n);
            vstd::arithmetic::div_mod::lemma_mod_bound(before + 1, n);
            if n > 1 {
                vstd::arithmetic::div_mod::lemma_small_mod(1, n as nat);
            } else {
                vstd::arithmetic::div_mod::lemma_mod_bound(l + k, n);
            }
        }
    } else {
        vstd::arithmetic::div_mod::lemma_small_mod(l as nat, n as nat);
    }
}

/// A call that any node can answer tries every node of a cluster, and none of them twice.
pub proof fn law_every_node_once(c: ClientView, key: Seq<u8>, i: nat, j: nat)
    requires
        c.wf(),
        c.mode is Cluster,
        i < j < c.call(Policy::AnyNode).left,
    ensures
        c.call(Policy::AnyNode).left == c.mode->endpoints.len(),
        moved(c, key, i).mode->leader != moved(c, key, j).mode->leader,
{
    law_rotation(c, key, i);
    law_rotation(c, key, j);
    let n = c.mode->endpoints.len() as int;
    let l = c.mode->leader as int;
    let a = l + i;
    let b = l + j;
    if a % n == b % n {
        vstd::arithmetic::div_mod::lemma_fundamental_div_mod(a, n);
        vstd::arithmetic::div_mod::lemma_fundamental_div_mod(b, n);
        let x = a / n;
        let y = b / n;
        assert(n * y - n * x == j - i);
        assert(n * (y - x) == j - i) by (nonlinear_arith)
            requires
                n * y - n * x == j - i,
        ;
        assert(y - x >= 1) by (nonlinear_arith)
            requires
                n * (y - x) > 0,
                n > 0,
        ;
        assert(n * (y - x) >= n) by (nonlinear_arith)
            requires
                y - x >= 1,
                n > 0,
        ;
    }
}

/// A table that was learned is known by its id, and the others keep theirs.
pub proof fn law_tables(s: Seq<(Seq<char>, TableId)>, name: Seq<char>, id: TableId, other: Seq<char>)
    ensures
        id_in(noted(s, name, id), name) == Some(id),
        other != name ==> id_in(noted(s, name, id), other) == id_in(s, other),
{
    lemma_place(s, name, 0);
    lemma_place(s, other, 0);
    let t = noted(s, name, id);
    let i = place(s, name, 0);
    lemma_place_is(t, name, 0, i);
    if other != name {
        let j = place(s, other, 0);
        if j < s.len() {
            lemma_place_is(t, other, 0, j);
        } else {
            lemma_place(t, other, 0);
        }
    }
}

/// Every client knows the default table, under its name and under none.
pub proof fn law_default_table()
    ensures
        id_in(built_in(), Seq::empty()) == Some(0u32),
        id_in(built_in(), "default"@) == Some(0u32),
{
    reveal_with_fuel(place, 3);
}

proof fn lemma_place(s: Seq<(Seq<char>, TableId)>, name: Seq<char>, i: int)
    requires
        0 <= i <= s.len(),
    ensures
        i <= place(s, name, i) <= s.len(),
        place(s, name, i) < s.len() ==> s[place(s, name, i)].0 == name,
        forall|k: int| i <= k < place(s, name, i) ==> (#[trigger] s[k]).0 != name,
    decreases s.len() - i,
{
    if i < s.len() && s[i].0 != name {
        lemma_place(s, name, i + 1);
    }
}

proof fn lemma_place_is(s: Seq<(Seq<char>, TableId)>, name: Seq<char>, i: int, at: int)
    requires
        0 <= i <= at < s.len(),
        s[at].0 == name,
        forall|k: int| i <= k < at ==> (#[trigger] s[k]).0 != name,
    ensures
        place(s, name, i) == at,
    decreases at - i,
{
    if i < at {
        lemma_place_is(s, name, i + 1, at);
    }
}

} // verus!
