//! What a server reports in answer to a request, and what the caller is told of it.

use vstd::prelude::*;
use crate::text;

verus! {

/// What a server reports in-band of a key.
#[derive(Clone, Debug, PartialEq, Eq)]
pub enum KeyError {
    /// A write-write conflict.
    Conflict(String),
    /// A live lock of another transaction.
    Locked { primary: Vec<u8>, ttl: u64 },
    /// A bad request.
    Invalid(String),
    /// Worth another try.
    Retryable(String),
    /// The replica does not lead its region.
    NotLeader,
    /// The region's range has changed.
    RegionStale { new_epoch: u64 },
    /// The write was appended, but its commit was never confirmed.
    Undetermined(String),
    /// Nothing that this client knows.
    Unspecified,
}

/// A [`KeyError`] as values.
pub enum KeyErrorView {
    Conflict(Seq<char>),
    Locked { primary: Seq<u8>, ttl: u64 },
    Invalid(Seq<char>),
    Retryable(Seq<char>),
    NotLeader,
    RegionStale { new_epoch: u64 },
    Undetermined(Seq<char>),
    Unspecified,
}

impl View for KeyError {
    type V = KeyErrorView;

    open spec fn view(&self) -> KeyErrorView {
        match self {
            KeyError::Conflict(s) => KeyErrorView::Conflict(s@),
            KeyError::Locked { primary, ttl } => KeyErrorView::Locked {
                primary: primary@,
                ttl: *ttl,
            },
            KeyError::Invalid(s) => KeyErrorView::Invalid(s@),
            KeyError::Retryable(s) => KeyErrorView::Retryable(s@),
            KeyError::NotLeader => KeyErrorView::NotLeader,
            KeyError::RegionStale { new_epoch } => KeyErrorView::RegionStale {
                new_epoch: *new_epoch,
            },
            KeyError::Undetermined(s) => KeyErrorView::Undetermined(s@),
            KeyError::Unspecified => KeyErrorView::Unspecified,
        }
    }
}

/// A request that failed as a call.
#[derive(Clone, Debug, PartialEq, Eq)]
pub struct Failure {
    /// What the status code says.
    pub code: String,
    pub message: String,
    /// The request never reached a server.
    pub unsent: bool,
    /// The request was given up after its deadline.
    pub late: bool,
}

/// A [`Failure`] as values.
#[verifier::ext_equal]
pub struct FailureView {
    pub code: Seq<char>,
    pub message: Seq<char>,
    pub unsent: bool,
    pub late: bool,
}

impl View for Failure {
    type V = FailureView;

    open spec fn view(&self) -> FailureView {
        FailureView {
            code: self.code@,
            message: self.message@,
            unsent: self.unsent,
            late: self.late,
        }
    }
}

/// What a caller is told.
#[derive(Clone, Debug, PartialEq, Eq)]
pub enum ClientError {
    /// The server could not be reached, or its address is bad.
    Transport(String),
    /// The call itself failed.
    Rpc(Failure),
    /// A normal outcome that the server reported in-band.
    Key(String),
    /// A node answered, but none leads at the moment. Transient.
    NoLeader,
    /// Not one node could be reached.
    Unreachable,
    /// No such table: without its id nothing can be routed.
    UnknownTable(String),
    /// The one node of a direct client holds no replica of the key's region.
    NotHosted,
    /// The write may or may not have applied. Never tried again by itself.
    Undetermined(String),
}

/// A [`ClientError`] as values.
pub enum ClientErrorView {
    Transport(Seq<char>),
    Rpc(FailureView),
    Key(Seq<char>),
    NoLeader,
    Unreachable,
    UnknownTable(Seq<char>),
    NotHosted,
    Undetermined(Seq<char>),
}

impl View for ClientError {
    type V = ClientErrorView;

    open spec fn view(&self) -> ClientErrorView {
        match self {
            ClientError::Transport(s) => ClientErrorView::Transport(s@),
            ClientError::Rpc(f) => ClientErrorView::Rpc(f@),
            ClientError::Key(s) => ClientErrorView::Key(s@),
            ClientError::NoLeader => ClientErrorView::NoLeader,
            ClientError::Unreachable => ClientErrorView::Unreachable,
            ClientError::UnknownTable(s) => ClientErrorView::UnknownTable(s@),
            ClientError::NotHosted => ClientErrorView::NotHosted,
            ClientError::Undetermined(s) => ClientErrorView::Undetermined(s@),
        }
    }
}

impl ClientErrorView {
    /// The words for the caller.
    pub open spec fn text(self) -> Seq<char> {
        match self {
            ClientErrorView::Transport(s) => "transport error: "@ + s,
            ClientErrorView::Rpc(f) => "rpc error: "@ + f.message + " ("@ + f.code + ")"@,
            ClientErrorView::Key(s) => "key error: "@ + s,
            ClientErrorView::NoLeader => "no leader available (election in progress?)"@,
            ClientErrorView::Unreachable =>
                "no arcux server reachable (is the cluster running?)"@,
            ClientErrorView::NotHosted =>
                "this node holds no replica of that table's region — connect to one that does, or follow the cluster (ARCUX_CLUSTER / a comma-separated ARCUX_ADDR)"@,
            ClientErrorView::Undetermined(s) =>
                "outcome unknown — the write may or may not have applied; read the key back to find out ("@
                + s + ")"@,
            ClientErrorView::UnknownTable(t) => "unknown table "@ + text::quoted_text(t)
                + " — create it with `create table "@ + t + " <cp|ap>`"@,
        }
    }
}

impl ClientError {
    /// The words for the caller.
    pub fn message(&self) -> (r: String)
        ensures
            r@ == self@.text(),
    {
        match self {
            ClientError::Transport(e) => joined("transport error: ", e.as_str()),
            ClientError::Rpc(f) => {
                let mut s = joined("rpc error: ", f.message.as_str());
                s.push_str(" (");
                s.push_str(f.code.as_str());
                s.push_str(")");
                s
            },
            ClientError::Key(m) => joined("key error: ", m.as_str()),
            ClientError::NoLeader => text::owned("no leader available (election in progress?)"),
            ClientError::Unreachable => text::owned(
                "no arcux server reachable (is the cluster running?)",
            ),
            ClientError::NotHosted => text::owned(
                "this node holds no replica of that table's region — connect to one that does, or follow the cluster (ARCUX_CLUSTER / a comma-separated ARCUX_ADDR)",
            ),
            ClientError::Undetermined(d) => {
                let mut s = joined(
                    "outcome unknown — the write may or may not have applied; read the key back to find out (",
                    d.as_str(),
                );
                s.push_str(")");
                s
            },
            ClientError::UnknownTable(t) => {
                let q = text::quoted(t.as_str());
                let mut s = joined("unknown table ", q.as_str());
                s.push_str(" — create it with `create table ");
                s.push_str(t.as_str());
                s.push_str(" <cp|ap>`");
                s
            },
        }
    }
}

/// One text behind another.
pub fn joined(a: &str, b: &str) -> (r: String)
    ensures
        r@ == a@ + b@,
{
    let mut s = text::owned(a);
    s.push_str(b);
    s
}

/// What the caller is told of what a server reports.
pub open spec fn told(ke: KeyErrorView) -> ClientErrorView {
    match ke {
        KeyErrorView::Conflict(d) => ClientErrorView::Key("conflict: "@ + d),
        KeyErrorView::Locked { primary, ttl } => ClientErrorView::Key(
            "locked by primary "@ + text::byte_list(primary) + " (ttl "@ + text::decimal(
                ttl as nat,
            ) + ")"@,
        ),
        KeyErrorView::Invalid(s) => ClientErrorView::Key("invalid: "@ + s),
        KeyErrorView::Retryable(s) => ClientErrorView::Key("retryable: "@ + s),
        KeyErrorView::NotLeader => ClientErrorView::Key("not leader"@),
        KeyErrorView::RegionStale { new_epoch } => ClientErrorView::Key(
            "region stale (new epoch "@ + text::decimal(new_epoch as nat) + ")"@,
        ),
        KeyErrorView::Undetermined(d) => ClientErrorView::Undetermined(d),
        KeyErrorView::Unspecified => ClientErrorView::Key("unspecified key error"@),
    }
}

/// What the caller is told of what a server reports.
pub fn key_error(ke: KeyError) -> (r: ClientError)
    ensures
        r@ == told(ke@),
{
    match ke {
        KeyError::Conflict(d) => ClientError::Key(joined("conflict: ", d.as_str())),
        KeyError::Locked { primary, ttl } => {
            let mut s = text::owned("locked by primary ");
            text::push_byte_list(&mut s, primary.as_slice());
            s.push_str(" (ttl ");
            text::push_decimal(&mut s, ttl);
            s.push_str(")");
            ClientError::Key(s)
        },
        KeyError::Invalid(s) => ClientError::Key(joined("invalid: ", s.as_str())),
        KeyError::Retryable(s) => ClientError::Key(joined("retryable: ", s.as_str())),
        KeyError::NotLeader => ClientError::Key(text::owned("not leader")),
        KeyError::RegionStale { new_epoch } => {
            let mut s = text::owned("region stale (new epoch ");
            text::push_decimal(&mut s, new_epoch);
            s.push_str(")");
            ClientError::Key(s)
        },
        KeyError::Undetermined(d) => ClientError::Undetermined(d),
        KeyError::Unspecified => ClientError::Key(text::owned("unspecified key error")),
    }
}

/// Whether a report means that the route is wrong: the region's range has changed, or the replica
/// does not lead it any more.
pub open spec fn misrouted(ke: KeyErrorView) -> bool {
    ke is RegionStale || ke is NotLeader
}

/// Whether a report means that the route is wrong.
pub fn is_reroute(ke: &KeyError) -> (r: bool)
    ensures
        r == misrouted(ke@),
{
    match ke {
        KeyError::RegionStale { .. } => true,
        KeyError::NotLeader => true,
        _ => false,
    }
}

/// Whether a failed call should go to the next node: it never reached a server, it ran out of
/// time, or the server said that the range is not here (a scan has no other way to say so). Any
/// other status is the server's answer.
pub open spec fn elsewhere(f: FailureView) -> bool {
    ||| f.unsent
    ||| f.late
    ||| text::begins(f.message, "not the region leader"@)
    ||| text::begins(f.message, "region not hosted"@)
    ||| text::begins(f.message, "region stale"@)
}

/// Whether a failed call should go to the next node.
pub fn try_next_node(f: &Failure) -> (r: bool)
    ensures
        r == elsewhere(f@),
{
    if f.unsent || f.late {
        return true;
    }
    let m: &str = f.message.as_str();
    text::starts_with(m, "not the region leader") || text::starts_with(m, "region not hosted")
        || text::starts_with(m, "region stale")
}

} // verus!
