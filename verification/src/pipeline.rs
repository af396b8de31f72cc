//! The ingestion pipeline: planning which index records a run writes, and
//! the run itself as a state machine driven by the outcomes of the external
//! embedding and vector-index calls.

use vstd::prelude::*;

verus! {

use crate::contents::File;
use crate::contents::FileView;
use crate::contents::views_of;

/// The mathematical shape of a sequence of documents.
pub open spec fn docs_view(docs: Seq<File>) -> Seq<FileView> {
    docs.map_values(|f: File| f@)
}

/// One record to be upserted into the vector index: the run-scoped
/// identifier, the path of the document that produced the chunk (the
/// record's payload), and which chunk of which document the record's
/// vector embeds.
#[derive(Debug)]
pub struct IndexPoint {
    pub id: u64,
    pub path: String,
    pub doc: usize,
    pub chunk: usize,
}

/// The mathematical shape of an `IndexPoint`.
pub struct PointView {
    pub id: int,
    pub path: Seq<char>,
    pub doc: int,
    pub chunk: int,
}

impl View for IndexPoint {
    type V = PointView;

    open spec fn view(&self) -> PointView {
        PointView {
            id: self.id as int,
            path: self.path@,
            doc: self.doc as int,
            chunk: self.chunk as int,
        }
    }
}

/// The mathematical shape of a sequence of planned records.
pub open spec fn points_view(plan: Seq<IndexPoint>) -> Seq<PointView> {
    plan.map_values(|p: IndexPoint| p@)
}

/// How many chunks the documents hold in total.
pub open spec fn total_chunks(docs: Seq<FileView>) -> int
    decreases docs.len(),
{
    if docs.len() == 0 {
        0
    } else {
        total_chunks(docs.drop_last()) + docs.last().sentences.len()
    }
}

/// The records one run upserts, in upsert order: documents in the order
/// supplied, each document's chunks in document order, identifiers assigned
/// by a single run-scoped counter starting at 0 and incremented once per
/// record.
pub open spec fn spec_plan(docs: Seq<FileView>) -> Seq<PointView>
    decreases docs.len(),
{
    if docs.len() == 0 {
        Seq::empty()
    } else {
        let rest = spec_plan(docs.drop_last());
        let d = docs.len() - 1;
        rest + Seq::new(
            docs.last().sentences.len(),
            |j: int| PointView { id: rest.len() + j, path: docs.last().path, doc: d, chunk: j },
        )
    }
}

pub proof fn lemma_plan_len(docs: Seq<FileView>)
    ensures
        spec_plan(docs).len() == total_chunks(docs),
        total_chunks(docs) >= 0,
    decreases docs.len(),
{
    if docs.len() > 0 {
        lemma_plan_len(docs.drop_last());
    }
}

pub proof fn lemma_total_take_succ(docs: Seq<FileView>, d: int)
    requires
        0 <= d < docs.len(),
    ensures
        total_chunks(docs.take(d + 1)) == total_chunks(docs.take(d)) + docs[d].sentences.len(),
{
    assert(docs.take(d + 1).drop_last() =~= docs.take(d));
    assert(docs.take(d + 1).last() == docs[d]);
}

/// The record planned for the `j`-th chunk of the `d`-th document stands at
/// plan position `total_chunks(docs.take(d)) + j` and carries exactly that
/// position as its identifier, the owning document's path, and the chunk's
/// coordinates.
pub proof fn lemma_plan_index(docs: Seq<FileView>, d: int, j: int)
    requires
        0 <= d < docs.len(),
        0 <= j < docs[d].sentences.len(),
    ensures
        0 <= total_chunks(docs.take(d)) + j < spec_plan(docs).len(),
        spec_plan(docs)[total_chunks(docs.take(d)) + j] == (PointView {
            id: total_chunks(docs.take(d)) + j,
            path: docs[d].path,
            doc: d,
            chunk: j,
        }),
    decreases docs.len(),
{
    lemma_plan_len(docs);
    lemma_plan_len(docs.take(d));
    lemma_plan_len(docs.drop_last());
    if d == docs.len() - 1 {
        assert(docs.take(d) =~= docs.drop_last());
    } else {
        lemma_plan_index(docs.drop_last(), d, j);
        assert(docs.drop_last().take(d) =~= docs.take(d));
        assert(docs.drop_last()[d] == docs[d]);
    }
}

/// Identifier uniqueness law: the identifiers of one run's records are
/// exactly `0, 1, ...` in upsert order — the record at plan position `k`
/// carries identifier `k` — so no two records of a run share an identifier
/// and the identifiers fill `[0, total_chunk_count)` with no gaps.
pub proof fn lemma_identifier_uniqueness(docs: Seq<FileView>)
    ensures
        spec_plan(docs).len() == total_chunks(docs),
        forall|k: int|
            0 <= k < spec_plan(docs).len() ==> (#[trigger] spec_plan(docs)[k]).id == k,
        forall|k1: int, k2: int|
            0 <= k1 < spec_plan(docs).len() && 0 <= k2 < spec_plan(docs).len() && k1 != k2
                ==> spec_plan(docs)[k1].id != spec_plan(docs)[k2].id,
    decreases docs.len(),
{
    lemma_plan_len(docs);
    if docs.len() > 0 {
        lemma_identifier_uniqueness(docs.drop_last());
        lemma_plan_len(docs.drop_last());
    }
}

/// Batch alignment law: for the batch submitted for document `d`, the `j`-th
/// returned vector is upserted as the record whose payload names the
/// document that produced the `j`-th submitted chunk — document `d` itself —
/// and which refers to chunk `j` of that document.
pub proof fn lemma_batch_alignment(docs: Seq<FileView>, d: int, j: int)
    requires
        0 <= d < docs.len(),
        0 <= j < docs[d].sentences.len(),
    ensures
        0 <= total_chunks(docs.take(d)) + j < spec_plan(docs).len(),
        spec_plan(docs)[total_chunks(docs.take(d)) + j].path == docs[d].path,
        spec_plan(docs)[total_chunks(docs.take(d)) + j].doc == d,
        spec_plan(docs)[total_chunks(docs.take(d)) + j].chunk == j,
{
    lemma_plan_index(docs, d, j);
}

/// Computes one run's upsert plan: the executable counterpart of
/// `spec_plan`.
pub fn upsert_plan(files: &Vec<File>) -> (plan: Vec<IndexPoint>)
    ensures
        points_view(plan@) == spec_plan(docs_view(files@)),
{
    let ghost dv = docs_view(files@);
    let mut plan: Vec<IndexPoint> = Vec::new();
    let mut d: usize = 0;
    proof {
        lemma_plan_len(dv);
        assert(dv.take(0) =~= Seq::<FileView>::empty());
        assert(points_view(plan@) =~= spec_plan(dv).take(0));
    }
    while d < files.len()
        invariant
            dv == docs_view(files@),
            d <= files.len(),
            plan@.len() == total_chunks(dv.take(d as int)),
            plan@.len() <= total_chunks(dv),
            points_view(plan@) == spec_plan(dv).take(plan@.len() as int),
        decreases files.len() - d,
    {
        proof {
            assert(dv[d as int] == files@[d as int]@);
        }
        let mut j: usize = 0;
        while j < files[d].sentences.len()
            invariant
                dv == docs_view(files@),
                d < files.len(),
                dv[d as int] == files@[d as int]@,
                j <= dv[d as int].sentences.len(),
                plan@.len() == total_chunks(dv.take(d as int)) + j,
                plan@.len() <= total_chunks(dv),
                points_view(plan@) == spec_plan(dv).take(plan@.len() as int),
            decreases dv[d as int].sentences.len() - j,
        {
            let ghost k = plan@.len() as int;
            proof {
                lemma_plan_index(dv, d as int, j as int);
                lemma_plan_len(dv);
            }
            let f: &File = &files[d];
            let point = IndexPoint { id: plan.len() as u64, path: f.path.clone(), doc: d, chunk: j };
            let ghost prev = plan@;
            plan.push(point);
            proof {
                assert(point@ == spec_plan(dv)[k]);
                assert(points_view(plan@) =~= points_view(prev).push(point@));
                assert(spec_plan(dv).take(k + 1) =~= spec_plan(dv).take(k).push(spec_plan(dv)[k]));
            }
            j = j + 1;
        }
        proof {
            lemma_total_take_succ(dv, d as int);
        }
        d = d + 1;
    }
    proof {
        assert(dv.take(d as int) =~= dv);
        lemma_plan_len(dv);
        assert(spec_plan(dv).take(plan@.len() as int) =~= spec_plan(dv));
    }
    plan
}

// ---------------------------------------------------------------------------
// The collection model and the reset-before-write law
// ---------------------------------------------------------------------------

/// The vector index's collection, modelled as a map from identifier to
/// record: `upsert` inserts or replaces the record at its identifier.
pub open spec fn apply_upserts(
    coll: Map<int, PointView>,
    plan: Seq<PointView>,
) -> Map<int, PointView>
    decreases plan.len(),
{
    if plan.len() == 0 {
        coll
    } else {
        apply_upserts(coll, plan.drop_last()).insert(plan.last().id, plan.last())
    }
}

/// The collection a successful run leaves behind: the run first resets the
/// collection — emptying it, whatever `prev` held — and then upserts every
/// planned record, strictly additively.
pub open spec fn collection_after_run(
    prev: Map<int, PointView>,
    docs: Seq<FileView>,
) -> Map<int, PointView> {
    apply_upserts(Map::empty(), spec_plan(docs))
}

proof fn lemma_apply_position_ids(plan: Seq<PointView>)
    requires
        forall|k: int| 0 <= k < plan.len() ==> (#[trigger] plan[k]).id == k,
    ensures
        apply_upserts(Map::empty(), plan).dom() =~= Set::new(|id: int| 0 <= id < plan.len()),
        forall|k: int|
            0 <= k < plan.len() ==> apply_upserts(Map::empty(), plan)[k] == plan[k],
    decreases plan.len(),
{
    if plan.len() == 0 {
        assert(apply_upserts(Map::empty(), plan).dom() =~= Set::new(
            |id: int| 0 <= id < plan.len(),
        ));
    } else {
        lemma_apply_position_ids(plan.drop_last());
        assert(apply_upserts(Map::empty(), plan).dom() =~= Set::new(
            |id: int| 0 <= id < plan.len(),
        ));
        let m = apply_upserts(Map::empty(), plan);
        let pre = apply_upserts(Map::empty(), plan.drop_last());
        assert forall|k: int| 0 <= k < plan.len() implies m[k] == plan[k] by {
            if k < plan.len() - 1 {
                assert(plan.drop_last()[k] == plan[k]);
                assert(pre[k] == plan.drop_last()[k]);
                assert(m[k] == pre[k]);
            } else {
                assert(plan.last().id == plan.len() - 1);
            }
        }
    }
}

/// Reset-before-write law: after a successful run over `docs`, the
/// collection holds exactly the current run's records — one per planned
/// chunk, at its identifier — and nothing from any earlier collection
/// contents `prev`.
pub proof fn lemma_reset_before_write(prev: Map<int, PointView>, docs: Seq<FileView>)
    ensures
        collection_after_run(prev, docs).dom() =~= Set::new(
            |id: int| 0 <= id < total_chunks(docs),
        ),
        forall|k: int|
            0 <= k < total_chunks(docs) ==> collection_after_run(prev, docs)[k] == spec_plan(
                docs,
            )[k],
{
    lemma_identifier_uniqueness(docs);
    lemma_apply_position_ids(spec_plan(docs));
}

proof fn lemma_total_prefix_bound(docs: Seq<FileView>, d: int)
    requires
        0 <= d <= docs.len(),
    ensures
        total_chunks(docs.take(d)) <= total_chunks(docs),
    decreases docs.len() - d,
{
    if d == docs.len() {
        assert(docs.take(d) =~= docs);
    } else {
        lemma_total_take_succ(docs, d);
        lemma_total_prefix_bound(docs, d + 1);
    }
}

// ---------------------------------------------------------------------------
// The run itself, as a state machine
// ---------------------------------------------------------------------------

/// The run's control state.
#[derive(Clone, Copy, Debug)]
pub enum Phase {
    /// The collection reset has been requested and not yet acknowledged.
    Resetting,
    /// The batch embedding call for document `doc` is outstanding.
    Embedding { doc: usize },
    /// The upsert of chunk `chunk` of document `doc` is outstanding.
    Upserting { doc: usize, chunk: usize },
    /// Every document's chunks are embedded and upserted: the run succeeded.
    Done,
    /// An external call failed or came back malformed: the run is aborted.
    Failed,
}

/// The outcome of the external call the run last asked for.
#[derive(Clone, Copy, Debug)]
pub enum Event {
    /// The collection was deleted and recreated empty.
    ResetOk,
    /// The batch embedding call returned `count` vectors.
    EmbedOk { count: usize },
    /// The outstanding upsert succeeded.
    UpsertOk,
    /// The outstanding external call failed.
    CallFailed,
}

/// The next external call the run asks its driver to perform.
#[derive(Debug)]
pub enum Action {
    /// Delete the collection if it exists, then recreate it empty.
    Reset,
    /// Submit the chunk texts of document `doc` as one batch embedding call.
    EmbedDoc { doc: usize },
    /// Upsert `point`, paired with the vector at position `point.chunk` of
    /// the batch returned for document `point.doc`.
    UpsertPoint { point: IndexPoint },
    /// The run has succeeded; there is nothing left to do.
    Finish,
    /// The run has failed; surface the error.
    Abort,
}

/// The phase after document `d - 1` is fully ingested (or, for `d == 0`,
/// after the reset): the next document's batch, or completion.
pub open spec fn advance(docs: Seq<FileView>, d: int) -> Phase {
    if d < docs.len() {
        Phase::Embedding { doc: d as usize }
    } else {
        Phase::Done
    }
}

/// The run's transition function on phases. Failure of any call is fatal,
/// as is a batch whose vector count does not match the submitted chunk
/// count; nothing is retried.
pub open spec fn next_phase(docs: Seq<FileView>, phase: Phase, ev: Event) -> Phase {
    match (phase, ev) {
        (Phase::Resetting, Event::ResetOk) => advance(docs, 0),
        (Phase::Embedding { doc }, Event::EmbedOk { count }) => if count == docs[
            doc as int
        ].sentences.len() {
            if count == 0 {
                advance(docs, doc + 1)
            } else {
                Phase::Upserting { doc, chunk: 0 }
            }
        } else {
            Phase::Failed
        },
        (Phase::Upserting { doc, chunk }, Event::UpsertOk) => if chunk + 1 < docs[
            doc as int
        ].sentences.len() {
            Phase::Upserting { doc, chunk: (chunk + 1) as usize }
        } else {
            advance(docs, doc + 1)
        },
        (Phase::Done, _) => Phase::Done,
        (Phase::Failed, _) => Phase::Failed,
        _ => Phase::Failed,
    }
}

/// How many upserts have succeeded after an event: exactly one more on a
/// successful upsert, unchanged otherwise.
pub open spec fn next_issued(phase: Phase, ev: Event, issued: int) -> int {
    match (phase, ev) {
        (Phase::Upserting { .. }, Event::UpsertOk) => issued + 1,
        _ => issued,
    }
}

/// One ingestion run over a fixed sequence of parsed documents.
///
/// The run performs no I/O itself: `action` says which external call to
/// perform next, and `step` consumes that call's outcome. The driver loops
/// between the two until it is told to finish or abort.
pub struct Run {
    docs: Vec<File>,
    phase: Phase,
    next_id: u64,
    upserts: Ghost<Seq<PointView>>,
}

/// The mathematical shape of a `Run`: its documents, its control state,
/// how many upserts have succeeded, and the log of records upserted so far.
pub struct RunView {
    pub docs: Seq<FileView>,
    pub phase: Phase,
    pub issued: int,
    pub log: Seq<PointView>,
}

impl View for Run {
    type V = RunView;

    closed spec fn view(&self) -> RunView {
        RunView {
            docs: docs_view(self.docs@),
            phase: self.phase,
            issued: self.next_id as int,
            log: self.upserts@,
        }
    }
}

impl Run {
    /// The run's invariant: the records upserted so far are exactly the
    /// first `issued` records of the plan, and the control state agrees
    /// with the counter.
    pub open spec fn wf(self) -> bool {
        &&& total_chunks(self@.docs) <= u64::MAX
        &&& 0 <= self@.issued <= total_chunks(self@.docs)
        &&& self@.log == spec_plan(self@.docs).take(self@.issued)
        &&& match self@.phase {
            Phase::Resetting => self@.issued == 0,
            Phase::Embedding { doc } => doc < self@.docs.len() && self@.issued == total_chunks(
                self@.docs.take(doc as int),
            ),
            Phase::Upserting { doc, chunk } => doc < self@.docs.len() && chunk < self@.docs[
                doc as int
            ].sentences.len() && self@.issued == total_chunks(self@.docs.take(doc as int)) + chunk,
            Phase::Done => self@.issued == total_chunks(self@.docs),
            Phase::Failed => true,
        }
    }

    /// Starts a run over the given documents; the first action is the
    /// collection reset. Returns `None` only when the documents hold more
    /// chunks than identifiers can count.
    pub fn new(docs: Vec<File>) -> (r: Option<Run>)
        ensures
            match r {
                Some(run) => {
                    &&& run.wf()
                    &&& run@.docs == docs_view(docs@)
                    &&& run@.phase == Phase::Resetting
                    &&& run@.issued == 0
                },
                None => total_chunks(docs_view(docs@)) > u64::MAX,
            },
    {
        let ghost dv = docs_view(docs@);
        let mut total: u64 = 0;
        let mut d: usize = 0;
        proof {
            assert(dv.take(0) =~= Seq::<FileView>::empty());
        }
        while d < docs.len()
            invariant
                dv == docs_view(docs@),
                d <= docs.len(),
                total as int == total_chunks(dv.take(d as int)),
            decreases docs.len() - d,
        {
            proof {
                assert(dv[d as int] == docs@[d as int]@);
                lemma_total_take_succ(dv, d as int);
            }
            let len = docs[d].sentences.len();
            if (len as u64) > u64::MAX - total {
                proof {
                    lemma_total_prefix_bound(dv, d as int + 1);
                }
                return None;
            }
            total = total + (len as u64);
            d = d + 1;
        }
        proof {
            assert(dv.take(d as int) =~= dv);
            assert(spec_plan(dv).take(0) =~= Seq::<PointView>::empty());
        }
        Some(Run { docs, phase: Phase::Resetting, next_id: 0, upserts: Ghost(Seq::empty()) })
    }

    /// How many documents the run holds.
    pub fn doc_count(&self) -> (n: usize)
        ensures
            n == self@.docs.len(),
    {
        self.docs.len()
    }

    /// The chunk texts to submit for the batch embedding call of document
    /// `doc`, in document order.
    pub fn batch_texts(&self, doc: usize) -> (texts: &Vec<String>)
        requires
            doc < self@.docs.len(),
        ensures
            views_of(texts@) == self@.docs[doc as int].sentences,
    {
        proof {
            assert(self@.docs[doc as int] == self.docs@[doc as int]@);
        }
        &self.docs[doc].sentences
    }

    /// The next external call to perform. Each action pins down the phase
    /// it is issued from; an upsert action carries exactly the planned
    /// record at the run's counter.
    pub fn action(&self) -> (a: Action)
        requires
            self.wf(),
        ensures
            match a {
                Action::Reset => self@.phase == Phase::Resetting,
                Action::EmbedDoc { doc } => self@.phase == (Phase::Embedding { doc }),
                Action::UpsertPoint { point } => {
                    &&& self@.phase == (Phase::Upserting { doc: point.doc, chunk: point.chunk })
                    &&& 0 <= self@.issued < spec_plan(self@.docs).len()
                    &&& point@ == spec_plan(self@.docs)[self@.issued]
                },
                Action::Finish => self@.phase == Phase::Done,
                Action::Abort => self@.phase == Phase::Failed,
            },
    {
        match self.phase {
            Phase::Resetting => Action::Reset,
            Phase::Embedding { doc } => Action::EmbedDoc { doc },
            Phase::Upserting { doc, chunk } => {
                proof {
                    lemma_plan_index(self@.docs, doc as int, chunk as int);
                    assert(self@.docs[doc as int] == self.docs@[doc as int]@);
                }
                let point = IndexPoint {
                    id: self.next_id,
                    path: self.docs[doc].path.clone(),
                    doc,
                    chunk,
                };
                Action::UpsertPoint { point }
            },
            Phase::Done => Action::Finish,
            Phase::Failed => Action::Abort,
        }
    }

    /// Feeds the outcome of the last requested call into the run.
    ///
    /// A successful reset moves to the first document's batch; a batch that
    /// returns exactly one vector per submitted chunk moves to upserting
    /// them in order; a mismatched vector count, or any failed call, aborts
    /// the run; the last successful upsert completes it. When the run
    /// reaches `Done`, the log of upserted records is the whole plan.
    pub fn step(&mut self, ev: Event)
        requires
            old(self).wf(),
        ensures
            final(self).wf(),
            final(self)@.docs == old(self)@.docs,
            final(self)@.phase == next_phase(old(self)@.docs, old(self)@.phase, ev),
            final(self)@.issued == next_issued(old(self)@.phase, ev, old(self)@.issued),
            final(self)@.log == spec_plan(old(self)@.docs).take(final(self)@.issued),
            final(self)@.phase is Done ==> final(self)@.log == spec_plan(old(self)@.docs),
    {
        let ghost dv = self@.docs;
        match self.phase {
            Phase::Resetting => match ev {
                Event::ResetOk => {
                    proof {
                        assert(dv.take(0) =~= Seq::<FileView>::empty());
                    }
                    if self.docs.len() == 0 {
                        self.phase = Phase::Done;
                    } else {
                        self.phase = Phase::Embedding { doc: 0 };
                    }
                },
                _ => {
                    self.phase = Phase::Failed;
                },
            },
            Phase::Embedding { doc } => match ev {
                Event::EmbedOk { count } => {
                    proof {
                        assert(dv[doc as int] == self.docs@[doc as int]@);
                    }
                    let ndocs = self.docs.len();
                    let expected = self.docs[doc].sentences.len();
                    if count != expected {
                        self.phase = Phase::Failed;
                    } else if count == 0 {
                        proof {
                            lemma_total_take_succ(dv, doc as int);
                        }
                        if doc + 1 < ndocs {
                            self.phase = Phase::Embedding { doc: doc + 1 };
                        } else {
                            proof {
                                assert(dv.take(doc as int + 1) =~= dv);
                            }
                            self.phase = Phase::Done;
                        }
                    } else {
                        self.phase = Phase::Upserting { doc, chunk: 0 };
                    }
                },
                _ => {
                    self.phase = Phase::Failed;
                },
            },
            Phase::Upserting { doc, chunk } => match ev {
                Event::UpsertOk => {
                    let ghost issued = self.next_id as int;
                    proof {
                        lemma_plan_index(dv, doc as int, chunk as int);
                        lemma_plan_len(dv);
                        lemma_total_take_succ(dv, doc as int);
                        lemma_total_prefix_bound(dv, doc as int + 1);
                        assert(dv[doc as int] == self.docs@[doc as int]@);
                    }
                    self.next_id = self.next_id + 1;
                    proof {
                        self.upserts@ = self.upserts@.push(spec_plan(dv)[issued]);
                        assert(spec_plan(dv).take(issued + 1) =~= spec_plan(dv).take(issued).push(
                            spec_plan(dv)[issued],
                        ));
                    }
                    let ndocs = self.docs.len();
                    let slen = self.docs[doc].sentences.len();
                    if chunk + 1 < slen {
                        self.phase = Phase::Upserting { doc, chunk: chunk + 1 };
                    } else if doc + 1 < ndocs {
                        self.phase = Phase::Embedding { doc: doc + 1 };
                    } else {
                        proof {
                            assert(dv.take(doc as int + 1) =~= dv);
                        }
                        self.phase = Phase::Done;
                    }
                },
                _ => {
                    self.phase = Phase::Failed;
                },
            },
            Phase::Done => {},
            Phase::Failed => {},
        }
        proof {
            lemma_plan_len(dv);
            if self.phase is Done {
                assert(spec_plan(dv).take(total_chunks(dv)) =~= spec_plan(dv));
            }
        }
    }
}

} // verus!
