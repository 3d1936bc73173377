//! One group of requests, one file operation at a time.
//!
//! [`Commit::begin`] takes the requests, and each call gives the next change of the files that is
//! due; [`Commit::resume`] takes how it went. Whatever the outcomes, the engine and the answers end
//! where [`Engine::process_group`] ends with the same ones.

use vstd::prelude::*;
use crate::engine::batch;
use crate::engine::batch::{OpView, WriteBatch};
use crate::engine::db;
use crate::engine::db::{
    fail_unsynced, Decision, DecisionView, Effect, EffectView, Engine, EngineView, GroupIoView,
    GroupState, Op, RequestView,
};
use crate::engine::error::{ErrorView, Result};
use crate::engine::finite;
use crate::engine::manifest;
use crate::engine::wal;
use crate::text;

verus! {

/// What a group waits for.
enum Stage {
    /// A record of these mutations is appended to the log.
    Append(WriteBatch, Vec<u8>),
    /// The log is flushed.
    Sync,
    /// The next log segment is created.
    Segment(u64),
    /// A table is written.
    Table(u64, Vec<u8>),
    /// The manifest is replaced.
    Manifest,
    /// Nothing.
    Done,
}

/// What a group waits for, as values.
pub enum StageView {
    Append(Seq<OpView>, Seq<u8>),
    Sync,
    Segment(u64),
    Table(u64, Seq<u8>),
    Manifest,
    Done,
}

impl View for Stage {
    type V = StageView;

    closed spec fn view(&self) -> StageView {
        match self {
            Stage::Append(b, f) => StageView::Append(b@, f@),
            Stage::Sync => StageView::Sync,
            Stage::Segment(n) => StageView::Segment(*n),
            Stage::Table(n, d) => StageView::Table(*n, d@),
            Stage::Manifest => StageView::Manifest,
            Stage::Done => StageView::Done,
        }
    }
}

/// A group on its way, as values.
pub struct CommitView {
    /// The engine in front of the group.
    pub start: EngineView,
    pub reqs: Seq<RequestView>,
    /// How the file operations went so far.
    pub told: GroupIoView,
    /// How many requests are answered.
    pub at: int,
    pub stage: StageView,
    pub results: Seq<core::result::Result<u64, ErrorView>>,
}

/// The outcomes of a group's appends once that of the `k`-th request is known.
pub open spec fn append_told(s: Seq<Option<Seq<char>>>, k: int, outcome: Option<Seq<char>>) -> Seq<
    Option<Seq<char>>,
> {
    Seq::new(
        (k + 1) as nat,
        |i: int|
            if i == k {
                outcome
            } else if i < s.len() {
                s[i]
            } else {
                None
            },
    )
}

impl CommitView {
    /// The requests that are answered, run.
    pub open spec fn run(self) -> GroupState {
        self.start.run_all(self.reqs.take(self.at), self.told)
    }

    /// The engine once they are flushed.
    pub open spec fn ran(self) -> EngineView {
        let g = self.run();
        if g.appended {
            g.engine.synced()
        } else {
            g.engine
        }
    }

    /// The engine once its full memtable is frozen, and the log has moved if it could.
    pub open spec fn moved(self) -> EngineView {
        let f = self.ran().frozen();
        if self.told.segment is None {
            f.rotated(self.ran().next_seg)
        } else {
            f
        }
    }

    /// The change of the files that is due.
    pub open spec fn asks(self, e: EngineView) -> Option<EffectView> {
        match self.stage {
            StageView::Append(_, frame) => Some(EffectView::Append(e.segment, frame)),
            StageView::Sync => Some(EffectView::Sync(e.segment)),
            StageView::Segment(n) => Some(EffectView::CreateSegment(n)),
            StageView::Table(n, data) => Some(EffectView::WriteTable(n, data)),
            StageView::Manifest => Some(
                EffectView::StoreManifest(manifest::manifest_bytes(e.manifest())),
            ),
            StageView::Done => None,
        }
    }

    /// What is known once the outcome of that change is.
    pub open spec fn noted(self, outcome: Option<Seq<char>>) -> GroupIoView {
        match self.stage {
            StageView::Append(..) => GroupIoView {
                append: append_told(self.told.append, self.at, outcome),
                ..self.told
            },
            StageView::Sync => GroupIoView { sync: outcome, ..self.told },
            StageView::Segment(_) => GroupIoView { segment: outcome, ..self.told },
            StageView::Table(..) => GroupIoView { table: outcome, ..self.told },
            StageView::Manifest => GroupIoView { manifest: outcome, ..self.told },
            StageView::Done => self.told,
        }
    }

    /// A bound on the changes that are still due.
    pub open spec fn left(self) -> nat {
        match self.stage {
            StageView::Append(..) => (self.reqs.len() - self.at + 4) as nat,
            StageView::Sync => 4,
            StageView::Segment(_) => 3,
            StageView::Table(..) => 2,
            StageView::Manifest => 1,
            StageView::Done => 0,
        }
    }

    /// What holds between changes of an engine and its group.
    pub open spec fn wf(self, e: EngineView) -> bool {
        &&& self.start.finite()
        &&& 0 <= self.at <= self.reqs.len()
        &&& self.told.append.len() <= self.at
        &&& self.stage !is Done ==> self.told.manifest is None && self.told.sync is None
            && self.results == self.run().results
        &&& self.stage !is Append ==> self.at == self.reqs.len()
        &&& match self.stage {
            StageView::Append(ops, frame) => {
                &&& self.at < self.reqs.len()
                &&& self.told.segment is None && self.told.table is None
                &&& e == self.run().engine.numbered()
                &&& self.run().engine.decide(self.reqs[self.at]) == DecisionView::Apply(ops)
                &&& frame == wal::frame((e.seq, batch::batch_bytes(ops)))
            },
            StageView::Sync => {
                &&& self.told.segment is None && self.told.table is None
                &&& self.run().appended
                &&& e == self.run().engine
            },
            StageView::Segment(n) => {
                &&& self.told.segment is None && self.told.table is None
                &&& self.ran().full()
                &&& n == self.ran().next_seg
                &&& e == self.ran().frozen()
            },
            StageView::Table(n, data) => {
                &&& self.told.table is None
                &&& self.ran().full()
                &&& self.moved().immutable[0].size > 0
                &&& n == self.moved().next_sst
                &&& data == self.moved().table_image()
                &&& e == self.moved().table_numbered()
            },
            StageView::Manifest => {
                &&& self.ran().full()
                &&& self.moved().flush_data(self.told.table).1 is Ok
                &&& e == self.moved().flush_data(self.told.table).0.advanced()
            },
            StageView::Done => {
                &&& e == self.start.process(self.reqs, self.told).0
                &&& self.results == self.start.process(self.reqs, self.told).1
            },
        }
    }
}

impl CommitView {
    /// Whether a stage led to the next once its outcome was known.
    pub open spec fn led(self, stage: StageView, outcome: Option<Seq<char>>, next: CommitView) -> bool {
        let before = CommitView { stage, ..self };
        &&& next.start == before.start
        &&& next.reqs == before.reqs
        &&& next.told == before.noted(outcome)
        &&& next.left() < before.left()
    }
}

/// Only the outcomes of the requests that ran matter to a run.
proof fn lemma_same_run(v: EngineView, reqs: Seq<RequestView>, a: GroupIoView, b: GroupIoView)
    requires
        forall|i: int| 0 <= i < reqs.len() ==> #[trigger] a.append_at(i) == b.append_at(i),
    ensures
        v.run_all(reqs, a) == v.run_all(reqs, b),
    decreases reqs.len(),
{
    if reqs.len() > 0 {
        lemma_same_run(v, reqs.drop_last(), a, b);
        assert(a.append_at(reqs.len() - 1) == b.append_at(reqs.len() - 1));
    }
}

/// One more request runs.
proof fn lemma_one_more(
    v: EngineView,
    reqs: Seq<RequestView>,
    at: int,
    told: GroupIoView,
    outcome: Option<Seq<char>>,
)
    requires
        0 <= at < reqs.len(),
        told.append.len() <= at,
    ensures
        ({
            let next = GroupIoView { append: append_told(told.append, at, outcome), ..told };
            let g = v.run_all(reqs.take(at), told);
            let (e, r, a) = g.engine.run_one(reqs[at], outcome);
            v.run_all(reqs.take(at + 1), next) == (GroupState {
                engine: e,
                results: g.results.push(r),
                appended: g.appended || a,
            })
        }),
{
    let next = GroupIoView { append: append_told(told.append, at, outcome), ..told };
    assert forall|i: int| 0 <= i < at implies #[trigger] next.append_at(i) == told.append_at(i) by {}
    lemma_same_run(v, reqs.take(at), next, told);
    assert(reqs.take(at + 1).drop_last() =~= reqs.take(at));
    assert(reqs.take(at + 1).last() == reqs[at]);
    assert(next.append_at(at) == outcome);
}

/// Apply a batch once the outcome of its append is known.
fn record(
    engine: &mut Engine,
    b: &WriteBatch,
    frame: Vec<u8>,
    outcome: &Option<String>,
    base: Ghost<EngineView>,
    req: Ghost<RequestView>,
) -> (r: Result<u64>)
    requires
        base@.decide(req@) == DecisionView::Apply(b@),
        old(engine)@ == base@.numbered(),
        frame@ == wal::frame((old(engine)@.seq, batch::batch_bytes(b@))),
    ensures
        base@.run_one(req@, text::opt_text(*outcome)) == (
            final(engine)@,
            db::result_view(r),
            *outcome is None,
        ),
{
    engine.appended(b, frame, outcome)
}

/// A group of requests on its way through an engine.
pub struct Commit {
    group: Vec<Op>,
    at: usize,
    results: Vec<Result<u64>>,
    appended: bool,
    stage: Stage,
    start: Ghost<EngineView>,
    told: Ghost<GroupIoView>,
}

impl View for Commit {
    type V = CommitView;

    closed spec fn view(&self) -> CommitView {
        CommitView {
            start: self.start@,
            reqs: db::request_views(self.group@),
            told: self.told@,
            at: self.at as int,
            stage: self.stage@,
            results: db::result_views(self.results@),
        }
    }
}

/// A change of the files as a value.
pub open spec fn effect_view(e: Option<Effect>) -> Option<EffectView> {
    match e {
        Some(x) => Some(x@),
        None => None,
    }
}

impl Commit {
    /// Whether a group is on its way through an engine in this state.
    pub closed spec fn valid(self, e: EngineView) -> bool {
        &&& self@.wf(e)
        &&& self.stage !is Done ==> self.appended == self@.run().appended
    }

    /// What holds of a group on its way.
    pub proof fn lemma_valid(self, e: EngineView)
        ensures
            self.valid(e) ==> self@.wf(e),
    {
    }

    /// Begin a group. Gives the first change of the files that is due, if there is any.
    pub fn begin(engine: &mut Engine, group: Vec<Op>) -> (r: (Commit, Option<Effect>))
        requires
            old(engine)@.finite(),
        ensures
            r.0@.start == old(engine)@,
            r.0@.reqs == db::request_views(group@),
            r.0@.told == GroupIoView::clean(),
            r.0.valid(final(engine)@),
            effect_view(r.1) == r.0@.asks(final(engine)@),
    {
        let mut c = Commit {
            group,
            at: 0,
            results: Vec::new(),
            appended: false,
            stage: Stage::Done,
            start: Ghost(engine@),
            told: Ghost(GroupIoView::clean()),
        };
        assert(c@.reqs.take(0) =~= Seq::<RequestView>::empty());
        assert(c@.results =~= Seq::<core::result::Result<u64, ErrorView>>::empty());
        c.advance(engine);
        let e = c.due(engine);
        (c, e)
    }

    /// The change of the files that is due.
    fn due(&self, engine: &Engine) -> (r: Option<Effect>)
        requires
            self.valid(engine@),
        ensures
            effect_view(r) == self@.asks(engine@),
    {
        match &self.stage {
            Stage::Append(_, frame) => Some(
                Effect::Append(engine.segment(), crate::bytes::copy(frame.as_slice())),
            ),
            Stage::Sync => Some(Effect::Sync(engine.segment())),
            Stage::Segment(n) => Some(Effect::CreateSegment(*n)),
            Stage::Table(n, data) => Some(
                Effect::WriteTable(*n, crate::bytes::copy(data.as_slice())),
            ),
            Stage::Manifest => Some(Effect::StoreManifest(engine.manifest().encode())),
            Stage::Done => None,
        }
    }

    /// Answer requests until one is to be logged.
    fn advance(&mut self, engine: &mut Engine)
        requires
            old(self)@.start.finite(),
            old(self)@.at <= old(self)@.reqs.len(),
            old(self)@.told.append.len() <= old(self)@.at,
            old(self)@.told == (GroupIoView {
                append: old(self)@.told.append,
                ..GroupIoView::clean()
            }),
            old(engine)@ == old(self)@.run().engine,
            old(self)@.results == old(self)@.run().results,
            old(self).appended == old(self)@.run().appended,
        ensures
            final(self)@.start == old(self)@.start,
            final(self)@.reqs == old(self)@.reqs,
            final(self)@.told == old(self)@.told,
            final(self)@.at >= old(self)@.at,
            final(self).valid(final(engine)@),
    {
        let ghost reqs = self@.reqs;
        while self.at < self.group.len()
            invariant
                self@.start == old(self)@.start,
                self@.reqs == old(self)@.reqs,
                self@.told == old(self)@.told,
                self@.at >= old(self)@.at,
                self@.start.finite(),
                reqs == self@.reqs,
                self@.at <= reqs.len(),
                self@.told.append.len() <= self@.at,
                self@.told == (GroupIoView { append: self@.told.append, ..GroupIoView::clean() }),
                engine@ == self@.run().engine,
                self@.results == self@.run().results,
                self.appended == self@.run().appended,
            decreases self.group@.len() - self.at,
        {
            let ghost before = self@;
            proof {
                finite::lemma_run_finite(self@.start, reqs.take(self@.at), self@.told);
                assert(reqs[self@.at] == self.group@[self@.at]@);
            }
            match engine.decide(&self.group[self.at]) {
                Decision::Done(r) => {
                    self.results.push(r);
                    self.at = self.at + 1;
                    proof {
                        assert(reqs.take(self@.at).drop_last() =~= reqs.take(before.at));
                        assert(reqs.take(self@.at).last() == reqs[before.at]);
                        assert(self@.results =~= before.results.push(db::result_view(r)));
                    }
                },
                Decision::Apply(b) => {
                    let (_, frame) = engine.log(&b);
                    self.stage = Stage::Append(b, frame);
                    return;
                },
            }
        }
        assert(reqs.take(self@.at) =~= reqs);
        if self.appended {
            self.stage = Stage::Sync;
        } else {
            self.settle(engine);
        }
    }

    /// Freeze the memtable if it is full.
    fn settle(&mut self, engine: &mut Engine)
        requires
            old(self)@.start.finite(),
            old(self)@.at == old(self)@.reqs.len(),
            old(self)@.told.append.len() <= old(self)@.at,
            old(self)@.told == (GroupIoView {
                append: old(self)@.told.append,
                ..GroupIoView::clean()
            }),
            old(engine)@ == old(self)@.ran(),
            old(self)@.results == old(self)@.run().results,
            old(self).appended == old(self)@.run().appended,
        ensures
            final(self)@ == (CommitView { stage: final(self)@.stage, ..old(self)@ }),
            final(self)@.stage is Segment || final(self)@.stage is Done,
            final(self).valid(final(engine)@),
    {
        assert(self@.reqs.take(self@.at) =~= self@.reqs);
        match engine.freeze() {
            Some(n) => {
                self.stage = Stage::Segment(n);
            },
            None => {
                self.stage = Stage::Done;
            },
        }
    }

    /// Whether a group stands at a stage.
    spec fn stood(self, stage: StageView, e: EngineView) -> bool {
        let v = CommitView { stage, ..self@ };
        v.wf(e) && self.appended == v.run().appended
    }

    /// Go on once a record is appended.
    #[verifier::spinoff_prover]
    #[verifier::rlimit(40)]
    fn after_append(
        &mut self,
        engine: &mut Engine,
        b: WriteBatch,
        frame: Vec<u8>,
        outcome: &Option<String>,
    )
        requires
            old(self).stood(StageView::Append(b@, frame@), old(engine)@),
        ensures
            old(self)@.led(
                StageView::Append(b@, frame@),
                text::opt_text(*outcome),
                final(self)@,
            ),
            final(self).valid(final(engine)@),
    {
        let ghost before = CommitView { stage: StageView::Append(b@, frame@), ..self@ };
        let ghost told = before.noted(text::opt_text(*outcome));
        proof {
            lemma_one_more(
                before.start,
                before.reqs,
                before.at,
                before.told,
                text::opt_text(*outcome),
            );
        }
        let ghost g = before.run();
        let r = record(engine, &b, frame, outcome, Ghost(g.engine), Ghost(before.reqs[before.at]));
        assert(self.at < self.group.len());
        self.told = Ghost(told);
        if outcome.is_none() {
            self.appended = true;
        }
        self.results.push(r);
        self.at = self.at + 1;
        assert(self@.results =~= before.results.push(db::result_view(r)));
        assert(self@.run() == before.start.run_all(before.reqs.take(before.at + 1), told));
        self.advance(engine);
    }

    /// Go on once the log is flushed.
    fn after_sync(&mut self, engine: &mut Engine, outcome: &Option<String>)
        requires
            old(self).stood(StageView::Sync, old(engine)@),
        ensures
            old(self)@.led(StageView::Sync, text::opt_text(*outcome), final(self)@),
            final(self).valid(final(engine)@),
    {
        let ghost before = CommitView { stage: StageView::Sync, ..self@ };
        let ghost told = before.noted(text::opt_text(*outcome));
        proof {
            assert forall|i: int| 0 <= i < before.at implies #[trigger] told.append_at(i)
                == before.told.append_at(i) by {}
            lemma_same_run(before.start, before.reqs.take(before.at), told, before.told);
            assert(before.reqs.take(before.at) =~= before.reqs);
        }
        self.told = Ghost(told);
        match outcome {
            Some(m) => {
                fail_unsynced(&mut self.results, m.as_str());
                self.stage = Stage::Done;
            },
            None => {
                engine.note_synced();
                self.settle(engine);
            },
        }
    }

    /// Go on once the next log segment is created.
    fn after_segment(&mut self, engine: &mut Engine, n: u64, outcome: &Option<String>)
        requires
            old(self).stood(StageView::Segment(n), old(engine)@),
        ensures
            old(self)@.led(StageView::Segment(n), text::opt_text(*outcome), final(self)@),
            final(self).valid(final(engine)@),
    {
        let ghost before = CommitView { stage: StageView::Segment(n), ..self@ };
        let ghost told = before.noted(text::opt_text(*outcome));
        proof {
            assert forall|i: int| 0 <= i < before.at implies #[trigger] told.append_at(i)
                == before.told.append_at(i) by {}
            lemma_same_run(before.start, before.reqs.take(before.at), told, before.told);
            assert(before.reqs.take(before.at) =~= before.reqs);
        }
        self.told = Ghost(told);
        if outcome.is_none() {
            engine.rotate(n);
        }
        assert(engine@ == self@.moved());
        match engine.flush_begin() {
            Some((n, data)) => {
                self.stage = Stage::Table(n, data);
            },
            None => {
                let _ = engine.flush_advance();
                self.stage = Stage::Manifest;
            },
        }
    }

    /// Go on once a table is written.
    fn after_table(&mut self, engine: &mut Engine, n: u64, data: Vec<u8>, outcome: &Option<String>)
        requires
            old(self).stood(StageView::Table(n, data@), old(engine)@),
        ensures
            old(self)@.led(StageView::Table(n, data@), text::opt_text(*outcome), final(self)@),
            final(self).valid(final(engine)@),
    {
        let ghost before = CommitView { stage: StageView::Table(n, data@), ..self@ };
        let ghost told = before.noted(text::opt_text(*outcome));
        proof {
            assert forall|i: int| 0 <= i < before.at implies #[trigger] told.append_at(i)
                == before.told.append_at(i) by {}
            lemma_same_run(before.start, before.reqs.take(before.at), told, before.told);
            assert(before.reqs.take(before.at) =~= before.reqs);
        }
        self.told = Ghost(told);
        match engine.flush_install(n, data, outcome) {
            Ok(()) => {
                let _ = engine.flush_advance();
                self.stage = Stage::Manifest;
            },
            Err(_) => {
                self.stage = Stage::Done;
            },
        }
    }

    /// End once the manifest is replaced.
    fn after_manifest(&mut self, engine: &mut Engine, outcome: &Option<String>)
        requires
            old(self).stood(StageView::Manifest, old(engine)@),
        ensures
            old(self)@.led(StageView::Manifest, text::opt_text(*outcome), final(self)@),
            final(self).valid(final(engine)@),
    {
        let ghost before = CommitView { stage: StageView::Manifest, ..self@ };
        let ghost told = before.noted(text::opt_text(*outcome));
        proof {
            assert forall|i: int| 0 <= i < before.at implies #[trigger] told.append_at(i)
                == before.told.append_at(i) by {}
            lemma_same_run(before.start, before.reqs.take(before.at), told, before.told);
            assert(before.reqs.take(before.at) =~= before.reqs);
        }
        self.told = Ghost(told);
        let _ = engine.flush_finish(outcome);
        self.stage = Stage::Done;
    }

    /// Go on once the change that was due is made, or has failed. Gives the next one, if there is
    /// any.
    pub fn resume(&mut self, engine: &mut Engine, outcome: &Option<String>) -> (r: Option<Effect>)
        requires
            old(self).valid(old(engine)@),
        ensures
            final(self)@.start == old(self)@.start,
            final(self)@.reqs == old(self)@.reqs,
            final(self)@.told == old(self)@.noted(text::opt_text(*outcome)),
            final(self).valid(final(engine)@),
            effect_view(r) == final(self)@.asks(final(engine)@),
            old(self)@.left() > 0 ==> final(self)@.left() < old(self)@.left(),
    {
        let mut stage = Stage::Done;
        core::mem::swap(&mut stage, &mut self.stage);
        match stage {
            Stage::Append(b, frame) => {
                self.after_append(engine, b, frame, outcome);
            },
            Stage::Sync => {
                self.after_sync(engine, outcome);
            },
            Stage::Segment(n) => {
                self.after_segment(engine, n, outcome);
            },
            Stage::Table(n, data) => {
                self.after_table(engine, n, data, outcome);
            },
            Stage::Manifest => {
                self.after_manifest(engine, outcome);
            },
            Stage::Done => {},
        }
        self.due(engine)
    }

    /// The answers, once nothing is due any more.
    pub fn finish(self) -> (r: Vec<Result<u64>>)
        ensures
            db::result_views(r@) == self@.results,
    {
        self.results
    }
}

/// A group that is done has left the engine, and its answers, where the whole group run at once
/// leaves them with the same outcomes.
pub proof fn law_commit(c: Commit, e: EngineView)
    requires
        c.valid(e),
        c@.asks(e) is None,
    ensures
        e == c@.start.process(c@.reqs, c@.told).0,
        c@.results == c@.start.process(c@.reqs, c@.told).1,
{
    c.lemma_valid(e);
}

} // verus!
