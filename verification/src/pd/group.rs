//! The decisions of the thread that owns a replica: one command at a time is turned into calls on
//! the replica, and what comes of it into actions for the transport and the waiting callers.
//!
//! A caller that waits for an answer is known by a **ticket**. A proposal is parked on the log
//! index that will resolve it.

use std::collections::HashMap;
use vstd::prelude::*;
use crate::pd::cluster;
use crate::pd::cluster::{MembershipView, ReplicaSet, ReplicaSetView};
use crate::pd::command::{CmdView, PdCmd};
use crate::pd::fsm::{FsmView, PdFsm};
use crate::pd::order;
use crate::pd::replica;
use crate::pd::replica::{PdReplica, ReplicaView};
use crate::raft::message;
use crate::raft::message::{BodyView, EntryType, EntryView, Message, MessageBody, MessageView};
use crate::raft::node;
use crate::raft::node::{NodeView, ProposeError, Role};
use crate::raft::storage::{MemStorage, Storage, StorageView};

verus! {

/// What the group is asked to do.
pub enum Command {
    /// The clock advances.
    Tick,
    /// A peer's response arrives.
    Step(Message),
    /// A peer's request arrives; its one reply goes to the ticket.
    StepReply(Message, u64),
    /// Record a data node's heartbeat through the log; its assignment goes to the ticket once the
    /// entry commits.
    Heartbeat { node_id: u64, address: String, regions: Vec<ReplicaSet>, now: u64, ticket: u64 },
    /// Allocate timestamps from the reserved window, reserving a fresh one through the log first
    /// if it is exhausted.
    AllocTs { count: u64, ticket: u64 },
    /// Stop.
    Stop,
}

/// A [`Command`] as values.
pub enum CommandView {
    Tick,
    Step(MessageView),
    StepReply(MessageView, u64),
    Heartbeat {
        node_id: u64,
        address: Seq<char>,
        regions: Seq<ReplicaSetView>,
        now: u64,
        ticket: u64,
    },
    AllocTs { count: u64, ticket: u64 },
    Stop,
}

impl Command {
    /// An allocation of at least one timestamp.
    pub fn alloc_ts(count: u64, ticket: u64) -> (c: Command)
        ensures
            c@ == (CommandView::AllocTs { count: replica::at_least_one(count), ticket }),
    {
        let n: u64 = if count == 0 {
            1
        } else {
            count
        };
        Command::AllocTs { count: n, ticket }
    }
}

impl View for Command {
    type V = CommandView;

    open spec fn view(&self) -> CommandView {
        match self {
            Command::Tick => CommandView::Tick,
            Command::Step(m) => CommandView::Step(m@),
            Command::StepReply(m, t) => CommandView::StepReply(m@, *t),
            Command::Heartbeat { node_id, address, regions, now, ticket } => {
                CommandView::Heartbeat {
                    node_id: *node_id,
                    address: address@,
                    regions: order::views(regions@),
                    now: *now,
                    ticket: *ticket,
                }
            },
            Command::AllocTs { count, ticket } => CommandView::AllocTs {
                count: *count,
                ticket: *ticket,
            },
            Command::Stop => CommandView::Stop,
        }
    }
}

/// What is to be done.
pub enum Action {
    /// Ship a message to its peer.
    Send(Message),
    /// Answer a peer's request, or tell it that there is no answer.
    Reply { ticket: u64, message: Option<Message> },
    /// Answer a heartbeat: the node's assignment, or that this node does not lead.
    Assigned { ticket: u64, regions: Option<Vec<ReplicaSet>> },
    /// Answer an allocation: the first timestamp and how many, or that this node does not lead.
    Timestamps { ticket: u64, range: Option<(u64, u64)> },
    /// The leader or the term has changed.
    Announce { leads: bool, leader: Option<u64>, term: u64 },
}

/// An [`Action`] as values.
pub enum ActionView {
    Send(MessageView),
    Reply { ticket: u64, message: Option<MessageView> },
    Assigned { ticket: u64, regions: Option<Seq<ReplicaSetView>> },
    Timestamps { ticket: u64, range: Option<(u64, u64)> },
    Announce { leads: bool, leader: Option<u64>, term: u64 },
}

impl View for Action {
    type V = ActionView;

    open spec fn view(&self) -> ActionView {
        match self {
            Action::Send(m) => ActionView::Send(m@),
            Action::Reply { ticket, message } => ActionView::Reply {
                ticket: *ticket,
                message: match message {
                    Some(m) => Some(m@),
                    None => None,
                },
            },
            Action::Assigned { ticket, regions } => ActionView::Assigned {
                ticket: *ticket,
                regions: match regions {
                    Some(r) => Some(order::views(r@)),
                    None => None,
                },
            },
            Action::Timestamps { ticket, range } => ActionView::Timestamps {
                ticket: *ticket,
                range: *range,
            },
            Action::Announce { leads, leader, term } => ActionView::Announce {
                leads: *leads,
                leader: *leader,
                term: *term,
            },
        }
    }
}

/// A proposal that waits for its log index: what it is for (a node, or a count), and who waits.
#[derive(Clone, Copy, PartialEq, Eq, Structural)]
pub struct Parked {
    pub index: u64,
    pub subject: u64,
    pub ticket: u64,
}

/// Where a proposal stands, or would: behind those with lower indices.
pub open spec fn spot(s: Seq<Parked>, index: u64, i: int) -> int
    decreases s.len() - i,
{
    if i >= s.len() || s[i].index >= index {
        i
    } else {
        spot(s, index, i + 1)
    }
}

/// The proposal that waits for an index.
pub open spec fn waiting(s: Seq<Parked>, index: u64) -> Option<Parked> {
    let i = spot(s, index, 0);
    if i < s.len() && s[i].index == index {
        Some(s[i])
    } else {
        None
    }
}

/// The list with a proposal parked.
pub open spec fn parked(s: Seq<Parked>, p: Parked) -> Seq<Parked> {
    let i = spot(s, p.index, 0);
    if waiting(s, p.index) is Some {
        s.update(i, p)
    } else {
        s.insert(i, p)
    }
}

/// The list without what waited for an index.
pub open spec fn resolved(s: Seq<Parked>, index: u64) -> Seq<Parked> {
    if waiting(s, index) is Some {
        s.remove(spot(s, index, 0))
    } else {
        s
    }
}

/// Whether a message is a response.
pub open spec fn is_reply(b: BodyView) -> bool {
    match b {
        BodyView::RequestVoteResp { .. } => true,
        BodyView::AppendEntriesResp { .. } => true,
        BodyView::InstallSnapshotResp { .. } => true,
        _ => false,
    }
}

/// Whether a message is a response.
pub fn is_response(b: &MessageBody) -> (r: bool)
    ensures
        r == is_reply(b@),
{
    match b {
        MessageBody::RequestVoteResp { .. } => true,
        MessageBody::AppendEntriesResp { .. } => true,
        MessageBody::InstallSnapshotResp { .. } => true,
        _ => false,
    }
}

/// The actions that a list of messages comes to, and who still waits for a reply: the first
/// response to the peer that waits goes to it, everything else to the transport.
pub open spec fn routed(ms: Seq<MessageView>, reply: Option<(u64, u64)>) -> (
    Seq<ActionView>,
    Option<(u64, u64)>,
)
    decreases ms.len(),
{
    if ms.len() == 0 {
        (Seq::empty(), reply)
    } else {
        let (acts, r) = routed(ms.drop_last(), reply);
        let m = ms.last();
        match r {
            Some((from, ticket)) => if m.to == from && is_reply(m.body) {
                (acts.push(ActionView::Reply { ticket, message: Some(m) }), None)
            } else {
                (acts.push(ActionView::Send(m)), r)
            },
            None => (acts.push(ActionView::Send(m)), r),
        }
    }
}

/// The answer to a peer that no response was for.
pub open spec fn unanswered(reply: Option<(u64, u64)>) -> Seq<ActionView> {
    match reply {
        Some((_, ticket)) => seq![ActionView::Reply { ticket, message: None }],
        None => Seq::empty(),
    }
}

/// That heartbeats are not answered here.
pub open spec fn refused_heartbeats(s: Seq<Parked>) -> Seq<ActionView> {
    Seq::new(
        s.len(),
        |i: int| ActionView::Assigned { ticket: s[i].ticket, regions: None },
    )
}

/// That allocations are not answered here.
pub open spec fn refused_allocations(s: Seq<Parked>) -> Seq<ActionView> {
    Seq::new(s.len(), |i: int| ActionView::Timestamps { ticket: s[i].ticket, range: None })
}

/// A group as values.
#[verifier::ext_equal]
pub struct GroupView {
    pub replica: ReplicaView,
    /// Heartbeats that wait, in order of their indices.
    pub heartbeats: Seq<Parked>,
    /// Allocations that wait, in order of their indices.
    pub allocations: Seq<Parked>,
    /// The leader and term that were announced last.
    pub announced: (Option<u64>, u64),
    /// Every voter's serving address.
    pub addrs: Map<u64, Seq<char>>,
}

/// What the input comes to: the group, the actions, and who waits for a reply.
pub struct Input {
    pub group: GroupView,
    pub actions: Seq<ActionView>,
    pub reply: Option<(u64, u64)>,
}

impl GroupView {
    /// A group that starts.
    pub open spec fn start(replica: ReplicaView, addrs: Map<u64, Seq<char>>) -> GroupView {
        GroupView {
            replica,
            heartbeats: Seq::empty(),
            allocations: Seq::empty(),
            announced: (replica.node.leader, replica.node.term),
            addrs,
        }
    }

    /// A command is proposed.
    pub open spec fn proposed(self, c: CmdView) -> (GroupView, Result<u64, ProposeError>) {
        let (node, r) = self.replica.node.propose(c.bytes());
        (GroupView { replica: ReplicaView { node, ..self.replica }, ..self }, r)
    }

    /// The command is taken in.
    #[verifier::opaque]
    pub open spec fn input(self, c: CommandView) -> Input {
        match c {
            CommandView::Tick => Input {
                group: GroupView {
                    replica: ReplicaView { node: self.replica.node.tick(), ..self.replica },
                    ..self
                },
                actions: Seq::empty(),
                reply: None,
            },
            CommandView::Step(m) => Input {
                group: GroupView {
                    replica: ReplicaView { node: self.replica.node.step(m), ..self.replica },
                    ..self
                },
                actions: Seq::empty(),
                reply: None,
            },
            CommandView::StepReply(m, ticket) => Input {
                group: GroupView {
                    replica: ReplicaView { node: self.replica.node.step(m), ..self.replica },
                    ..self
                },
                actions: Seq::empty(),
                reply: Some((m.from, ticket)),
            },
            CommandView::Heartbeat { node_id, address, regions, now, ticket } => {
                let none = ActionView::Assigned { ticket, regions: None };
                let (g, r) = self.proposed(CmdView::Heartbeat { node_id, address, regions, now });
                match r {
                    Ok(index) => Input {
                        group: GroupView {
                            heartbeats: parked(
                                self.heartbeats,
                                Parked { index, subject: node_id, ticket },
                            ),
                            ..g
                        },
                        actions: match waiting(self.heartbeats, index) {
                            Some(p) => seq![
                                ActionView::Assigned { ticket: p.ticket, regions: None },
                            ],
                            None => Seq::empty(),
                        },
                        reply: None,
                    },
                    Err(_) => Input { group: g, actions: seq![none], reply: None },
                }
            },
            CommandView::AllocTs { count, ticket } => {
                let none = ActionView::Timestamps { ticket, range: None };
                if self.replica.node.role != Role::Leader {
                    Input { group: self, actions: seq![none], reply: None }
                } else if self.replica.hand_out(count) is Some {
                    Input {
                        group: GroupView { replica: self.replica.handed(count), ..self },
                        actions: seq![
                            ActionView::Timestamps {
                                ticket,
                                range: Some((self.replica.hand_out(count)->0, count)),
                            },
                        ],
                        reply: None,
                    }
                } else if !self.replica.can_reserve(count) {
                    Input { group: self, actions: seq![none], reply: None }
                } else {
                    let (g, r) = self.proposed(
                        CmdView::ReserveTs { upper: self.replica.reserved(count) },
                    );
                    match r {
                        Ok(index) => Input {
                            group: GroupView {
                                allocations: parked(
                                    self.allocations,
                                    Parked { index, subject: count, ticket },
                                ),
                                ..g
                            },
                            actions: match waiting(self.allocations, index) {
                                Some(p) => seq![
                                    ActionView::Timestamps { ticket: p.ticket, range: None },
                                ],
                                None => Seq::empty(),
                            },
                            reply: None,
                        },
                        Err(_) => Input { group: g, actions: seq![none], reply: None },
                    }
                }
            },
            CommandView::Stop => Input { group: self, actions: Seq::empty(), reply: None },
        }
    }

    /// The proposals of committed indices are answered.
    pub open spec fn answered(self, committed: Seq<u64>) -> (GroupView, Seq<ActionView>)
        decreases committed.len(),
    {
        if committed.len() == 0 {
            (self, Seq::empty())
        } else {
            let (g, acts) = self.answered(committed.drop_last());
            g.answer(committed.last(), acts)
        }
    }

    /// The proposals of one committed index are answered.
    pub open spec fn answer(self, index: u64, acts: Seq<ActionView>) -> (
        GroupView,
        Seq<ActionView>,
    ) {
        let a = match waiting(self.heartbeats, index) {
            Some(p) => acts.push(
                ActionView::Assigned {
                    ticket: p.ticket,
                    regions: Some(self.replica.fsm.assignment_for(p.subject)),
                },
            ),
            None => acts,
        };
        let g = GroupView { heartbeats: resolved(self.heartbeats, index), ..self };
        match waiting(self.allocations, index) {
            Some(p) => (
                GroupView {
                    allocations: resolved(self.allocations, index),
                    replica: self.replica.handed(p.subject),
                    ..g
                },
                a.push(
                    ActionView::Timestamps {
                        ticket: p.ticket,
                        range: match self.replica.hand_out(p.subject) {
                            Some(first) => Some((first, p.subject)),
                            None => None,
                        },
                    },
                ),
            ),
            None => (g, a),
        }
    }

    /// A node that does not lead fails everything that still waits.
    pub open spec fn released(self) -> (GroupView, Seq<ActionView>) {
        if self.replica.node.role == Role::Leader {
            (self, Seq::empty())
        } else {
            (
                GroupView { heartbeats: Seq::empty(), allocations: Seq::empty(), ..self },
                refused_heartbeats(self.heartbeats) + refused_allocations(self.allocations),
            )
        }
    }

    /// A change of the leader or the term is announced.
    pub open spec fn proclaimed(self) -> (GroupView, Seq<ActionView>) {
        let now = (self.replica.node.leader, self.replica.node.term);
        if now == self.announced {
            (self, Seq::empty())
        } else {
            (
                GroupView { announced: now, ..self },
                seq![
                    ActionView::Announce {
                        leads: self.replica.node.role == Role::Leader,
                        leader: now.0,
                        term: now.1,
                    },
                ],
            )
        }
    }

    /// One command handled.
    pub open spec fn handle(self, c: CommandView) -> (GroupView, Seq<ActionView>) {
        let i = self.input(c);
        let r = i.group.replica;
        let drained = GroupView { replica: r.ready(), ..i.group };
        let (sent, left) = routed(r.prepared().node.outbox, i.reply);
        let (answered, answers) = drained.answered(r.newly());
        let (free, refusals) = answered.released();
        let (done, news) = free.proclaimed();
        (done, i.actions + sent + unanswered(left) + answers + refusals + news)
    }

    /// Silent nodes are marked down.
    pub open spec fn swept(self, now: u64, timeout_ms: u64) -> GroupView {
        let f = self.replica.fsm;
        GroupView {
            replica: ReplicaView {
                fsm: FsmView {
                    members: MembershipView {
                        nodes: cluster::swept(f.members.nodes, now, timeout_ms),
                        ..f.members
                    },
                    ..f
                },
                ..self.replica
            },
            ..self
        }
    }

    /// A voter's serving address.
    pub open spec fn addr_of(self, id: u64) -> Option<Seq<char>> {
        if self.addrs.contains_key(id) {
            Some(self.addrs[id])
        } else {
            None
        }
    }

    /// The known leader's serving address.
    pub open spec fn leader_addr(self) -> Option<Seq<char>> {
        match self.replica.node.leader {
            Some(id) => self.addr_of(id),
            None => None,
        }
    }

    /// Where a message to a peer is sent.
    pub open spec fn peer_addr(self, to: u64) -> Option<Seq<char>> {
        if to == self.replica.node.id {
            None
        } else {
            self.addr_of(to)
        }
    }

    /// Whether there is room in terms and indices for one more command.
    pub open spec fn roomy(self) -> bool {
        self.replica.node.term < u64::MAX && self.replica.node.st.last_index() < u64::MAX - 2
    }
}

/// Configuration to [`start`] a group.
pub struct PdGroupOptions {
    /// This node's id.
    pub id: u64,
    /// All voting members (including `id`).
    pub voters: Vec<u64>,
    /// Every voter's serving address (including this node's own), for calls to peers and for the
    /// hint that redirects to the leader.
    pub addrs: HashMap<u64, String>,
}

/// A map of strings as characters.
pub open spec fn texts(m: Map<u64, String>) -> Map<u64, Seq<char>> {
    m.map_values(|s: String| s@)
}

/// Start a group in memory.
pub fn start(opts: PdGroupOptions) -> (g: PdGroup<MemStorage>)
    ensures
        g@ == GroupView::start(
            ReplicaView::start(opts.id, opts.voters@, StorageView::fresh()),
            texts(opts.addrs@),
        ),
        g@.replica.wf(),
{
    PdGroup::new(PdReplica::new(opts.id, opts.voters), opts.addrs)
}

/// The owner of a replica.
pub struct PdGroup<S: Storage> {
    replica: PdReplica<S>,
    heartbeats: Vec<Parked>,
    allocations: Vec<Parked>,
    leader: Option<u64>,
    term: u64,
    addrs: HashMap<u64, String>,
}

impl<S: Storage> View for PdGroup<S> {
    type V = GroupView;

    closed spec fn view(&self) -> GroupView {
        GroupView {
            replica: self.replica@,
            heartbeats: self.heartbeats@,
            allocations: self.allocations@,
            announced: (self.leader, self.term),
            addrs: texts(self.addrs@),
        }
    }
}

fn find_spot(s: &Vec<Parked>, index: u64) -> (r: usize)
    ensures
        r == spot(s@, index, 0),
        r <= s@.len(),
{
    let mut i: usize = 0;
    while i < s.len() && s[i].index < index
        invariant
            0 <= i <= s@.len(),
            spot(s@, index, 0) == spot(s@, index, i as int),
        decreases s@.len() - i,
    {
        i = i + 1;
    }
    i
}

/// Park a proposal, returning any that it displaces.
fn park(s: &mut Vec<Parked>, p: Parked) -> (r: Option<Parked>)
    ensures
        final(s)@ == parked(old(s)@, p),
        r == waiting(old(s)@, p.index),
{
    let i: usize = find_spot(s, p.index);
    if i < s.len() && s[i].index == p.index {
        let before: Parked = s[i];
        s.set(i, p);
        Some(before)
    } else {
        s.insert(i, p);
        None
    }
}

/// Take what waits for an index.
fn take_parked(s: &mut Vec<Parked>, index: u64) -> (r: Option<Parked>)
    ensures
        final(s)@ == resolved(old(s)@, index),
        r == waiting(old(s)@, index),
{
    let i: usize = find_spot(s, index);
    if i < s.len() && s[i].index == index {
        Some(s.remove(i))
    } else {
        None
    }
}

/// Append an action.
fn act(out: &mut Vec<Action>, a: Action)
    ensures
        order::views(final(out)@) == order::views(old(out)@).push(a@),
{
    let ghost before = order::views(out@);
    let ghost av = a@;
    out.push(a);
    assert(order::views(out@) =~= before.push(av));
}

impl<S: Storage> PdGroup<S> {
    /// Own a replica.
    pub fn new(replica: PdReplica<S>, addrs: HashMap<u64, String>) -> (g: PdGroup<S>)
        ensures
            g@ == GroupView::start(replica@, texts(addrs@)),
    {
        let ghost names = texts(addrs@);
        let leader = replica.leader_id();
        let term: u64 = replica.current_term();
        let g = PdGroup {
            replica,
            heartbeats: Vec::new(),
            allocations: Vec::new(),
            leader,
            term,
            addrs,
        };
        assert(g@ =~= GroupView::start(g@.replica, names));
        g
    }

    /// Whether this node leads.
    pub fn is_leader(&self) -> (r: bool)
        ensures
            r == (self@.replica.node.role == Role::Leader),
    {
        self.replica.is_leader()
    }

    /// The leader that this node knows of.
    pub fn leader_id(&self) -> (r: Option<u64>)
        ensures
            r == self@.replica.node.leader,
    {
        self.replica.leader_id()
    }

    /// The current leader's serving address, if one is known: what a follower tells a client to
    /// go to.
    pub fn leader_addr(&self) -> (r: Option<String>)
        ensures
            match self@.leader_addr() {
                Some(a) => r matches Some(x) && x@ == a,
                None => r is None,
            },
    {
        match self.leader_id() {
            Some(id) => self.addr_of(id),
            None => None,
        }
    }

    /// A voter's serving address.
    fn addr_of(&self, id: u64) -> (r: Option<String>)
        ensures
            match self@.addr_of(id) {
                Some(a) => r matches Some(x) && x@ == a,
                None => r is None,
            },
    {
        broadcast use vstd::std_specs::hash::group_hash_axioms;

        match self.addrs.get(&id) {
            Some(a) => Some(a.clone()),
            None => None,
        }
    }

    /// Where a message to a peer is sent: nowhere, if the peer is this node or its address is not
    /// known.
    pub fn peer_addr(&self, to: u64) -> (r: Option<String>)
        ensures
            match self@.peer_addr(to) {
                Some(a) => r matches Some(x) && x@ == a,
                None => r is None,
            },
    {
        if to == self.replica.id() {
            None
        } else {
            self.addr_of(to)
        }
    }

    /// The state machine: the routing view is read from it directly.
    pub fn fsm(&self) -> (r: &PdFsm)
        ensures
            r@ == self@.replica.fsm,
    {
        self.replica.fsm()
    }

    /// Whether there is room in terms and indices for one more command.
    pub fn has_room(&self) -> (r: bool)
        requires
            self@.replica.wf(),
        ensures
            r == self@.roomy(),
    {
        self.replica.current_term() < u64::MAX && self.replica.last_log_index() < u64::MAX - 2
    }

    /// Set the replication target. At least 1.
    pub fn set_replicas(&mut self, n: usize)
        ensures
            final(self)@ == (GroupView {
                replica: ReplicaView {
                    fsm: FsmView {
                        replicas: if n == 0 {
                            1
                        } else {
                            n
                        },
                        ..old(self)@.replica.fsm
                    },
                    ..old(self)@.replica
                },
                ..old(self)@
            }),
            old(self)@.replica.wf() ==> final(self)@.replica.wf(),
    {
        let ghost before = self@;
        self.replica.set_replicas(n);
        assert(self@ =~= (GroupView { replica: self.replica@, ..before }));
    }

    /// The failure detector's sweep: the leader marks silent nodes down in its view.
    pub fn sweep(&mut self, now: u64, timeout_ms: u64) -> (r: Vec<u64>)
        requires
            old(self)@.replica.wf(),
        ensures
            r@ == cluster::downed(old(self)@.replica.fsm.members.nodes, now, timeout_ms),
            final(self)@ == old(self)@.swept(now, timeout_ms),
            final(self)@.replica.wf(),
    {
        let ghost before = self@;
        let r = self.replica.sweep(now, timeout_ms);
        assert(self@ =~= before.swept(now, timeout_ms));
        r
    }

    /// Handle one command: the actions that it comes to, or `None` where it is to stop.
    pub fn handle(&mut self, cmd: Command) -> (r: Option<Vec<Action>>)
        requires
            old(self)@.replica.wf(),
            old(self)@.roomy(),
            match cmd {
                Command::Step(m) => m@.well_formed(),
                Command::StepReply(m, _) => m@.well_formed(),
                _ => true,
            },
        ensures
            cmd is Stop ==> r is None && final(self)@ == old(self)@,
            !(cmd is Stop) ==> (r matches Some(acts) && (final(self)@, order::views(acts@))
                == old(self)@.handle(cmd@)),
            final(self)@.replica.wf(),
    {
        let ghost start = self@;
        let ghost cv = cmd@;
        match cmd {
            Command::Stop => {
                return None;
            },
            _ => {},
        }
        let mut out: Vec<Action> = Vec::new();
        assert(order::views(out@) =~= Seq::<ActionView>::empty());
        let reply = self.take_in(cmd, &mut out);
        let ghost i = start.input(cv);
        proof {
            lemma_input_room(start, cv);
        }
        let ghost r1 = self@.replica;
        let ready = self.replica.ready();
        let ghost drained = GroupView { replica: i.group.replica.ready(), ..i.group };
        assert(self@ =~= drained);
        let left = route(ready.messages, reply, &mut out);
        match left {
            Some((_, ticket)) => {
                act(&mut out, Action::Reply { ticket, message: None });
            },
            None => {},
        }
        let ghost base = order::views(out@);
        proof {
            let (sent, l) = routed(i.group.replica.prepared().node.outbox, i.reply);
            assert(base =~= i.actions + sent + unanswered(l));
        }
        self.resolve(&ready.committed, &mut out);
        let ghost (answered, answers) = drained.answered(i.group.replica.newly());
        self.release(&mut out);
        let ghost (free, refusals) = answered.released();
        self.proclaim(&mut out);
        let ghost (done, news) = free.proclaimed();
        assert(order::views(out@) =~= base + answers + refusals + news);
        Some(out)
    }

    /// Take the command in.
    fn take_in(&mut self, cmd: Command, out: &mut Vec<Action>) -> (reply: Option<(u64, u64)>)
        requires
            !(cmd is Stop),
            old(self)@.replica.wf(),
            old(self)@.roomy(),
            order::views(old(out)@) == Seq::<ActionView>::empty(),
            match cmd {
                Command::Step(m) => m@.well_formed(),
                Command::StepReply(m, _) => m@.well_formed(),
                _ => true,
            },
        ensures
            final(self)@ == old(self)@.input(cmd@).group,
            order::views(final(out)@) == old(self)@.input(cmd@).actions,
            reply == old(self)@.input(cmd@).reply,
            final(self)@.replica.wf(),
    {
        match cmd {
            Command::Tick => {
                self.take_tick();
                None
            },
            Command::Step(m) => {
                self.take_step(m, 0);
                None
            },
            Command::StepReply(m, ticket) => {
                let from: u64 = m.from;
                self.take_step(m, ticket);
                Some((from, ticket))
            },
            Command::Heartbeat { node_id, address, regions, now, ticket } => {
                self.take_heartbeat(node_id, address, regions, now, ticket, out);
                None
            },
            Command::AllocTs { count, ticket } => {
                self.take_alloc(count, ticket, out);
                None
            },
            Command::Stop => None,
        }
    }

    /// Advance the clock.
    fn take_tick(&mut self)
        requires
            old(self)@.replica.wf(),
            old(self)@.roomy(),
        ensures
            ({
                let i = old(self)@.input(CommandView::Tick);
                &&& final(self)@ == i.group
                &&& i.actions == Seq::<ActionView>::empty()
                &&& i.reply is None
            }),
            final(self)@.replica.wf(),
    {
        reveal(GroupView::input);
        self.replica.tick();
    }

    /// Step a peer's message, whether or not its reply is waited for.
    fn take_step(&mut self, m: Message, ticket: u64)
        requires
            old(self)@.replica.wf(),
            old(self)@.roomy(),
            m@.well_formed(),
        ensures
            ({
                let i = old(self)@.input(CommandView::Step(m@));
                let j = old(self)@.input(CommandView::StepReply(m@, ticket));
                &&& final(self)@ == i.group
                &&& i.actions == Seq::<ActionView>::empty()
                &&& i.reply is None
                &&& j == (Input { reply: Some((m.from, ticket)), ..i })
            }),
            final(self)@.replica.wf(),
    {
        reveal(GroupView::input);
        self.replica.step(m);
    }

    /// Propose a heartbeat.
    fn take_heartbeat(
        &mut self,
        node_id: u64,
        address: String,
        regions: Vec<ReplicaSet>,
        now: u64,
        ticket: u64,
        out: &mut Vec<Action>,
    )
        requires
            old(self)@.replica.wf(),
            old(self)@.roomy(),
            order::views(old(out)@) == Seq::<ActionView>::empty(),
        ensures
            ({
                let i = old(self)@.input(
                    CommandView::Heartbeat {
                        node_id,
                        address: address@,
                        regions: order::views(regions@),
                        now,
                        ticket,
                    },
                );
                &&& final(self)@ == i.group
                &&& order::views(final(out)@) == i.actions
                &&& i.reply is None
            }),
            final(self)@.replica.wf(),
    {
        let ghost start = self@;
        let ghost cv = CommandView::Heartbeat {
            node_id,
            address: address@,
            regions: order::views(regions@),
            now,
            ticket,
        };
        reveal(GroupView::input);
        let c = PdCmd::Heartbeat { node_id, address, regions, now };
        match self.replica.propose(&c) {
            Ok(index) => {
                let displaced = park(
                    &mut self.heartbeats,
                    Parked { index, subject: node_id, ticket },
                );
                match displaced {
                    Some(p) => {
                        act(out, Action::Assigned { ticket: p.ticket, regions: None });
                    },
                    None => {},
                }
            },
            Err(_) => {
                act(out, Action::Assigned { ticket, regions: None });
            },
        }
        assert(self@ =~= start.input(cv).group);
        assert(order::views(out@) =~= start.input(cv).actions);
    }

    /// Serve an allocation, or reserve a fresh window for it.
    fn take_alloc(&mut self, count: u64, ticket: u64, out: &mut Vec<Action>)
        requires
            old(self)@.replica.wf(),
            old(self)@.roomy(),
            order::views(old(out)@) == Seq::<ActionView>::empty(),
        ensures
            final(self)@ == old(self)@.input(CommandView::AllocTs { count, ticket }).group,
            order::views(final(out)@) == old(self)@.input(
                CommandView::AllocTs { count, ticket },
            ).actions,
            old(self)@.input(CommandView::AllocTs { count, ticket }).reply is None,
            final(self)@.replica.wf(),
    {
        let ghost start = self@;
        let ghost cv = CommandView::AllocTs { count, ticket };
        reveal(GroupView::input);
        if !self.replica.is_leader() {
            act(out, Action::Timestamps { ticket, range: None });
            assert(order::views(out@) =~= start.input(cv).actions);
            return ;
        }
        match self.replica.hand_out(count) {
            Some(first) => {
                act(out, Action::Timestamps { ticket, range: Some((first, count)) });
                assert(order::views(out@) =~= start.input(cv).actions);
                return ;
            },
            None => {},
        }
        if !self.replica.can_reserve(count) {
            act(out, Action::Timestamps { ticket, range: None });
            assert(order::views(out@) =~= start.input(cv).actions);
            return ;
        }
        let c = self.replica.reserve_ts_cmd(count);
        match self.replica.propose(&c) {
            Ok(index) => {
                let displaced = park(
                    &mut self.allocations,
                    Parked { index, subject: count, ticket },
                );
                match displaced {
                    Some(p) => {
                        act(out, Action::Timestamps { ticket: p.ticket, range: None });
                    },
                    None => {},
                }
            },
            Err(_) => {
                act(out, Action::Timestamps { ticket, range: None });
            },
        }
        assert(self@ =~= start.input(cv).group);
        assert(order::views(out@) =~= start.input(cv).actions);
    }

    /// Answer the proposals whose entries just committed.
    fn resolve(&mut self, committed: &Vec<u64>, out: &mut Vec<Action>)
        requires
            old(self)@.replica.wf(),
        ensures
            final(self)@ == old(self)@.answered(committed@).0,
            order::views(final(out)@) == order::views(old(out)@) + old(self)@.answered(
                committed@,
            ).1,
            final(self)@.replica.wf(),
    {
        let ghost start = self@;
        let ghost base = order::views(out@);
        let mut i: usize = 0;
        assert(committed@.take(0) =~= Seq::<u64>::empty());
        assert(base =~= base + start.answered(committed@.take(0)).1);
        while i < committed.len()
            invariant
                0 <= i <= committed@.len(),
                self@ == start.answered(committed@.take(i as int)).0,
                order::views(out@) == base + start.answered(committed@.take(i as int)).1,
                self@.replica.wf(),
            decreases committed@.len() - i,
        {
            let ghost g = self@;
            let ghost acts = start.answered(committed@.take(i as int)).1;
            assert(committed@.take(i + 1).drop_last() =~= committed@.take(i as int));
            let index: u64 = committed[i];
            match take_parked(&mut self.heartbeats, index) {
                Some(p) => {
                    let regions = self.replica.fsm().assignment_for(p.subject);
                    act(out, Action::Assigned { ticket: p.ticket, regions: Some(regions) });
                },
                None => {},
            }
            match take_parked(&mut self.allocations, index) {
                Some(p) => {
                    let range = match self.replica.hand_out(p.subject) {
                        Some(first) => Some((first, p.subject)),
                        None => None,
                    };
                    act(out, Action::Timestamps { ticket: p.ticket, range });
                },
                None => {},
            }
            proof {
                assert(self@ =~= g.answer(index, acts).0);
                assert(order::views(out@) =~= base + g.answer(index, acts).1);
            }
            i = i + 1;
        }
        assert(committed@.take(i as int) =~= committed@);
    }

    /// Fail every proposal that still waits, where this node no longer leads.
    fn release(&mut self, out: &mut Vec<Action>)
        ensures
            final(self)@ == old(self)@.released().0,
            order::views(final(out)@) == order::views(old(out)@) + old(self)@.released().1,
    {
        let ghost start = self@;
        let ghost base = order::views(out@);
        if self.replica.is_leader() {
            assert(base =~= base + Seq::<ActionView>::empty());
            return ;
        }
        let ghost hs = refused_heartbeats(start.heartbeats);
        let ghost as_ = refused_allocations(start.allocations);
        let mut i: usize = 0;
        assert(base =~= base + hs.take(0));
        while i < self.heartbeats.len()
            invariant
                0 <= i <= self.heartbeats@.len(),
                self@ == start,
                hs == refused_heartbeats(start.heartbeats),
                order::views(out@) == base + hs.take(i as int),
            decreases self.heartbeats@.len() - i,
        {
            act(out, Action::Assigned { ticket: self.heartbeats[i].ticket, regions: None });
            assert(order::views(out@) =~= base + hs.take(i + 1));
            i = i + 1;
        }
        assert(hs.take(i as int) =~= hs);
        let ghost mid = order::views(out@);
        let mut i: usize = 0;
        assert(mid =~= mid + as_.take(0));
        while i < self.allocations.len()
            invariant
                0 <= i <= self.allocations@.len(),
                self@ == start,
                as_ == refused_allocations(start.allocations),
                order::views(out@) == mid + as_.take(i as int),
            decreases self.allocations@.len() - i,
        {
            act(out, Action::Timestamps { ticket: self.allocations[i].ticket, range: None });
            assert(order::views(out@) =~= mid + as_.take(i + 1));
            i = i + 1;
        }
        assert(as_.take(i as int) =~= as_);
        self.heartbeats = Vec::new();
        self.allocations = Vec::new();
        assert(self@ =~= start.released().0);
        assert(order::views(out@) =~= base + (hs + as_));
    }

    /// Announce a change of the leader or the term.
    fn proclaim(&mut self, out: &mut Vec<Action>)
        ensures
            final(self)@ == old(self)@.proclaimed().0,
            order::views(final(out)@) == order::views(old(out)@) + old(self)@.proclaimed().1,
    {
        let ghost start = self@;
        let ghost base = order::views(out@);
        let leader = self.replica.leader_id();
        let term: u64 = self.replica.current_term();
        let same: bool = term == self.term && match (leader, self.leader) {
            (Some(a), Some(b)) => a == b,
            (None, None) => true,
            _ => false,
        };
        if !same {
            let leads: bool = self.replica.is_leader();
            act(out, Action::Announce { leads, leader, term });
            self.leader = leader;
            self.term = term;
        }
        assert(self@ =~= start.proclaimed().0);
        assert(order::views(out@) =~= base + start.proclaimed().1);
    }
}

/// Route outbound messages: the one reply (if any) to the request that waits for it, the rest to
/// the transport.
fn route(messages: Vec<Message>, reply: Option<(u64, u64)>, out: &mut Vec<Action>) -> (left: Option<
    (u64, u64),
>)
    ensures
        left == routed(message::message_views(messages@), reply).1,
        order::views(final(out)@) == order::views(old(out)@) + routed(
            message::message_views(messages@),
            reply,
        ).0,
{
    let ghost all = message::message_views(messages@);
    let ghost base = order::views(out@);
    let mut rest: Vec<Message> = Vec::new();
    let mut src: Vec<Message> = messages;
    // Turn the list round, so that its messages can be taken from the front.
    while src.len() > 0
        invariant
            src@.len() + rest@.len() == all.len(),
            forall|j: int| 0 <= j < src@.len() ==> (#[trigger] src@[j])@ == all[j],
            forall|j: int| 0 <= j < rest@.len() ==> (#[trigger] rest@[j])@ == all[all.len() - 1 - j],
        decreases src@.len(),
    {
        match src.pop() {
            Some(x) => {
                rest.push(x);
            },
            None => {},
        }
    }
    let mut left: Option<(u64, u64)> = reply;
    assert(all.take(0) =~= Seq::<MessageView>::empty());
    assert(base =~= base + routed(all.take(0), reply).0);
    while rest.len() > 0
        invariant
            rest@.len() <= all.len(),
            left == routed(all.take(all.len() - rest@.len()), reply).1,
            order::views(out@) == base + routed(all.take(all.len() - rest@.len()), reply).0,
            forall|j: int| 0 <= j < rest@.len() ==> (#[trigger] rest@[j])@ == all[all.len() - 1 - j],
        decreases rest@.len(),
    {
        let ghost done = all.len() - rest@.len();
        let ghost before = routed(all.take(done), reply).0;
        match rest.pop() {
            Some(m) => {
                proof {
                    assert(m@ == all[done]);
                    assert(all.take(done + 1).drop_last() =~= all.take(done));
                }
                let ghost mv = m@;
                match left {
                    Some((from, ticket)) => {
                        if m.to == from && is_response(&m.body) {
                            act(out, Action::Reply { ticket, message: Some(m) });
                            left = None;
                        } else {
                            act(out, Action::Send(m));
                        }
                    },
                    None => {
                        act(out, Action::Send(m));
                    },
                }
                assert(order::views(out@) =~= base + routed(all.take(done + 1), reply).0);
            },
            None => {},
        }
    }
    assert(all.take(all.len() as int) =~= all);
    left
}

/// A clock tick leaves the log as it is.
proof fn lemma_tick_log(v: NodeView)
    ensures
        v.tick().st.last_index() == v.st.last_index(),
{
    let h = NodeView { heartbeat_elapsed: 0, ..v };
    node::lemma_send_appends(h, h.targets());
    let x = NodeView { election_elapsed: node::bump(v.election_elapsed), ..v };
    lemma_election_log(x);
}

/// Starting an election leaves the log as it is.
proof fn lemma_election_log(x: NodeView)
    ensures
        x.start_election().st.last_index() == x.st.last_index(),
{
    let c = (NodeView {
        role: Role::Candidate,
        term: (x.term + 1) as u64,
        vote: Some(x.id),
        ..x
    }).persist();
    let w = (NodeView { leader: None, votes: set![x.id], ..c }).reset_timer();
    node::lemma_ask_votes(w, w.peers());
    lemma_leader_log(w);
}

/// Becoming leader leaves the log as it is.
proof fn lemma_leader_log(w: NodeView)
    ensures
        w.become_leader().st.last_index() == w.st.last_index(),
{
    let last = w.st.last_index();
    let all = w.voters + w.learners;
    let l = NodeView {
        role: Role::Leader,
        leader: Some(w.id),
        next: Map::new(|k: u64| all.contains(k), |k: u64| (last + 1) as u64),
        matched: Map::new(|k: u64| all.contains(k), |k: u64| 0u64).insert(w.id, last),
        heartbeat_elapsed: 0,
        ..w
    };
    node::lemma_send_appends(l, l.targets());
}

/// A message changes the log of a follower only.
proof fn lemma_step_log(v: NodeView, m: MessageView)
    ensures
        v.step(m).role == Role::Leader ==> v.step(m).st.last_index() == v.st.last_index(),
{
    let a = v.adopt(m);
    lemma_election_log(a);
    lemma_leader_log(NodeView { votes: a.votes.insert(m.from), ..a });
}

/// A proposal appends one entry at most.
proof fn lemma_propose_log(v: NodeView, data: Seq<u8>)
    requires
        v.wf(),
        v.st.last_index() < u64::MAX - 1,
    ensures
        v.propose(data).0.st.last_index() <= v.st.last_index() + 1,
{
    let index = (v.st.last_index() + 1) as u64;
    let e = EntryView { term: v.term, index, kind: EntryType::Normal, data };
    let a = NodeView { st: v.st.append(seq![e]), ..v };
    let b = a.own_progress(index).advance_commit();
    node::lemma_send_appends(b, b.targets());
}

/// Taking a command in appends one entry at most to the log of a leader.
proof fn lemma_input_room(g: GroupView, c: CommandView)
    requires
        g.replica.wf(),
        g.roomy(),
    ensures
        ({
            let n = g.input(c).group.replica.node;
            n.role == Role::Leader ==> n.st.last_index() < u64::MAX - 1
        }),
{
    reveal(GroupView::input);
    let n = g.replica.node;
    match c {
        CommandView::Tick => {
            lemma_tick_log(n);
        },
        CommandView::Step(m) => {
            lemma_step_log(n, m);
        },
        CommandView::StepReply(m, _) => {
            lemma_step_log(n, m);
        },
        CommandView::Heartbeat { node_id, address, regions, now, .. } => {
            lemma_propose_log(n, (CmdView::Heartbeat { node_id, address, regions, now }).bytes());
        },
        CommandView::AllocTs { count, .. } => {
            lemma_propose_log(
                n,
                (CmdView::ReserveTs { upper: g.replica.reserved(count) }).bytes(),
            );
        },
        CommandView::Stop => {},
    }
}

/// How many actions answer a peer's request.
pub open spec fn replies(acts: Seq<ActionView>) -> nat
    decreases acts.len(),
{
    if acts.len() == 0 {
        0
    } else {
        replies(acts.drop_last()) + if acts.last() is Reply {
            1nat
        } else {
            0
        }
    }
}

proof fn lemma_replies_join(a: Seq<ActionView>, b: Seq<ActionView>)
    ensures
        replies(a + b) == replies(a) + replies(b),
    decreases b.len(),
{
    if b.len() == 0 {
        assert(a + b =~= a);
    } else {
        assert((a + b).drop_last() =~= a + b.drop_last());
        lemma_replies_join(a, b.drop_last());
    }
}

proof fn lemma_no_replies(a: Seq<ActionView>)
    requires
        forall|i: int| 0 <= i < a.len() ==> !((#[trigger] a[i]) is Reply),
    ensures
        replies(a) == 0,
    decreases a.len(),
{
    if a.len() > 0 {
        lemma_no_replies(a.drop_last());
    }
}

proof fn lemma_routed_replies(ms: Seq<MessageView>, reply: Option<(u64, u64)>)
    ensures
        ({
            let (acts, left) = routed(ms, reply);
            replies(acts) + replies(unanswered(left)) == if reply is Some {
                1nat
            } else {
                0
            }
        }),
    decreases ms.len(),
{
    reveal_with_fuel(replies, 2);
    if ms.len() > 0 {
        lemma_routed_replies(ms.drop_last(), reply);
        let (acts, left) = routed(ms, reply);
        let (before, _) = routed(ms.drop_last(), reply);
        assert(acts.drop_last() =~= before);
    }
}

proof fn lemma_answers(g: GroupView, committed: Seq<u64>)
    ensures
        replies(g.answered(committed).1) == 0,
    decreases committed.len(),
{
    if committed.len() > 0 {
        reveal_with_fuel(replies, 3);
        let index = committed.last();
        lemma_answers(g, committed.drop_last());
        let (h, acts) = g.answered(committed.drop_last());
        let a = match waiting(h.heartbeats, index) {
            Some(p) => acts.push(
                ActionView::Assigned {
                    ticket: p.ticket,
                    regions: Some(h.replica.fsm.assignment_for(p.subject)),
                },
            ),
            None => acts,
        };
        if waiting(h.heartbeats, index) is Some {
            assert(a.drop_last() =~= acts);
        }
        let b = h.answer(index, acts).1;
        if waiting(h.allocations, index) is Some {
            assert(b.drop_last() =~= a);
        }
    }
}

proof fn lemma_input_replies(g: GroupView, c: CommandView)
    ensures
        replies(g.input(c).actions) == 0,
        g.input(c).reply is Some == c is StepReply,
{
    reveal(GroupView::input);
    lemma_no_replies(g.input(c).actions);
}

/// Every request of a peer is answered, and once: with a message, or with the word that there is
/// none. Nothing else is answered as if it were such a request.
pub proof fn law_one_reply(g: GroupView, c: CommandView)
    ensures
        replies(g.handle(c).1) == if c is StepReply {
            1nat
        } else {
            0
        },
{
    let i = g.input(c);
    let r = i.group.replica;
    let drained = GroupView { replica: r.ready(), ..i.group };
    let (sent, left) = routed(r.prepared().node.outbox, i.reply);
    let (answered, answers) = drained.answered(r.newly());
    let (free, refusals) = answered.released();
    let (done, news) = free.proclaimed();
    lemma_input_replies(g, c);
    lemma_routed_replies(r.prepared().node.outbox, i.reply);
    lemma_answers(drained, r.newly());
    lemma_no_replies(refusals);
    lemma_no_replies(news);
    lemma_replies_join(i.actions, sent);
    lemma_replies_join(i.actions + sent, unanswered(left));
    lemma_replies_join(i.actions + sent + unanswered(left), answers);
    lemma_replies_join(i.actions + sent + unanswered(left) + answers, refusals);
    lemma_replies_join(i.actions + sent + unanswered(left) + answers + refusals, news);
}

/// A node that does not lead leaves no proposal waiting.
pub proof fn law_none_parked(g: GroupView, c: CommandView)
    ensures
        ({
            let h = g.handle(c).0;
            h.replica.node.role != Role::Leader ==> h.heartbeats.len() == 0 && h.allocations.len()
                == 0
        }),
{
}

/// What a node that does not lead is asked for is refused at once, so that the caller can go to
/// the leader: nothing is proposed.
pub proof fn law_refused(g: GroupView, c: CommandView)
    requires
        g.replica.node.role != Role::Leader,
    ensures
        match c {
            CommandView::Heartbeat { ticket, .. } => g.input(c).group == g && g.input(c).actions
                == seq![ActionView::Assigned { ticket, regions: None }],
            CommandView::AllocTs { ticket, .. } => g.input(c).group == g && g.input(c).actions
                == seq![ActionView::Timestamps { ticket, range: None }],
            _ => true,
        },
{
    reveal(GroupView::input);
}

} // verus!
