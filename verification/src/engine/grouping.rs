//! What group commit promises: requests that share one flush of the log are answered, and change
//! the engine, as if each had come alone.

use vstd::prelude::*;
use crate::engine::db::{DecisionView, EngineView, GroupIoView, RequestView};
use crate::engine::error::ErrorView;
use crate::engine::isolation;
use crate::engine::merged;

verus! {

/// Requests that each come alone, one after another: the state they leave and their answers.
pub open spec fn one_by_one(v: EngineView, reqs: Seq<RequestView>) -> (
    EngineView,
    Seq<Result<u64, ErrorView>>,
)
    decreases reqs.len(),
{
    if reqs.len() == 0 {
        (v, Seq::empty())
    } else {
        let (w, rs) = one_by_one(v, reqs.drop_last());
        let (x, r) = w.submit(reqs.last());
        (x, rs.push(r))
    }
}

/// Whether each of the requests leaves a memtable that flushes to a table with lengths that fit.
pub open spec fn each_fits(v: EngineView, reqs: Seq<RequestView>) -> bool
    decreases reqs.len(),
{
    reqs.len() > 0 ==> {
        &&& each_fits(v, reqs.drop_last())
        &&& isolation::fits(one_by_one(v, reqs.drop_last()).0, reqs.last())
    }
}

/// What is decided about a request depends on what a sound engine holds, and not on how it is
/// spread over the levels.
proof fn lemma_same_decision(a: EngineView, b: EngineView, req: RequestView)
    requires
        a.sound(),
        b.sound(),
        a.merged() == b.merged(),
    ensures
        a.decide(req) == b.decide(req),
{
    match req {
        RequestView::Write(_) => {},
        RequestView::Prewrite(p) => {
            isolation::lemma_prewrite_check(a, p.key, p.start_ts);
            isolation::lemma_prewrite_check(b, p.key, p.start_ts);
        },
        RequestView::Resolve { key, .. } => {
            isolation::lemma_lock_on(a, key);
            isolation::lemma_lock_on(b, key);
        },
    }
}

/// The requests of a group, before the log is flushed.
proof fn lemma_run_all(v: EngineView, reqs: Seq<RequestView>)
    requires
        v.sound(),
        each_fits(v, reqs),
    ensures
        ({
            let g = v.run_all(reqs, GroupIoView::clean());
            let (w, rs) = one_by_one(v, reqs);
            &&& g.engine.sound()
            &&& w.sound()
            &&& g.engine.merged() == w.merged()
            &&& g.engine.seq == w.seq
            &&& g.results == rs
        }),
    decreases reqs.len(),
{
    if reqs.len() > 0 {
        let io = GroupIoView::clean();
        let front = reqs.drop_last();
        let req = reqs.last();
        lemma_run_all(v, front);
        let e = v.run_all(front, io).engine;
        let w = one_by_one(v, front).0;
        lemma_same_decision(e, w, req);
        merged::law_submit(w, req);
        assert(io.append_at(reqs.len() - 1) is None);
        match e.decide(req) {
            DecisionView::Apply(ops) => {
                let n = e.numbered();
                assert(n.merged() == e.merged());
                merged::law_logged(n, ops);
            },
            DecisionView::Done(_) => {},
        }
    }
}

/// A group is answered as if its requests had come one by one: each is decided in the state that
/// those in front of it leave, gets the same answer and the same sequence number, and the group
/// leaves what they would have left.
pub proof fn law_group(v: EngineView, reqs: Seq<RequestView>)
    requires
        v.sound(),
        each_fits(v, reqs),
        ({
            let e = v.run_all(reqs, GroupIoView::clean()).engine;
            e.full() ==> e.roomy()
        }),
    ensures
        ({
            let (e, rs) = v.process(reqs, GroupIoView::clean());
            let (w, ws) = one_by_one(v, reqs);
            &&& e.sound()
            &&& e.merged() == w.merged()
            &&& e.seq == w.seq
            &&& rs == ws
        }),
{
    let io = GroupIoView::clean();
    lemma_run_all(v, reqs);
    let g = v.run_all(reqs, io);
    if g.appended {
        let s = g.engine.synced();
        assert(s.merged() == g.engine.merged());
        merged::law_settled(s, io);
    } else {
        merged::law_settled(g.engine, io);
    }
}

/// A group whose flush of the log fails acknowledges nothing: no request of it is answered with a
/// success.
pub proof fn law_failed_sync(v: EngineView, reqs: Seq<RequestView>, message: Seq<char>)
    requires
        v.run_all(reqs, failing_sync(message)).appended,
    ensures
        v.process(reqs, failing_sync(message)).1.len() == reqs.len(),
        forall|i: int|
            0 <= i < reqs.len() ==> (#[trigger] v.process(reqs, failing_sync(message)).1[i]) is Err,
{
    lemma_result_count(v, reqs, failing_sync(message));
}

/// Files that are all in order but for the flush of the log.
pub open spec fn failing_sync(message: Seq<char>) -> GroupIoView {
    GroupIoView { sync: Some(message), ..GroupIoView::clean() }
}

proof fn lemma_result_count(v: EngineView, reqs: Seq<RequestView>, io: GroupIoView)
    ensures
        v.run_all(reqs, io).results.len() == reqs.len(),
    decreases reqs.len(),
{
    if reqs.len() > 0 {
        lemma_result_count(v, reqs.drop_last(), io);
    }
}

} // verus!
