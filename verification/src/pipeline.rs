use vstd::prelude::*;
use crate::workspace::{name_models, listed, distinct, contains_name};
use crate::closure::lemma_listed_push;

verus! {

/// `names` with `name` added, unless it is there already.
pub open spec fn insert_name(names: Seq<Seq<char>>, name: Seq<char>) -> Seq<Seq<char>> {
    if listed(names, name) {
        names
    } else {
        names.push(name)
    }
}

/// The names of `work` that are among `processed`, in the order of `work`.
pub open spec fn already_done(work: Seq<Seq<char>>, processed: Seq<Seq<char>>) -> Seq<Seq<char>>
    decreases work.len(),
{
    if work.len() == 0 {
        Seq::empty()
    } else if listed(processed, work.last()) {
        already_done(work.drop_last(), processed).push(work.last())
    } else {
        already_done(work.drop_last(), processed)
    }
}

/// The names of `work` that are not among `processed`, in the order of
/// `work`.
pub open spec fn still_to_do(work: Seq<Seq<char>>, processed: Seq<Seq<char>>) -> Seq<Seq<char>>
    decreases work.len(),
{
    if work.len() == 0 {
        Seq::empty()
    } else if listed(processed, work.last()) {
        still_to_do(work.drop_last(), processed)
    } else {
        still_to_do(work.drop_last(), processed).push(work.last())
    }
}

/// The names of `order` that stand before the first `stop`.
pub open spec fn before_first(order: Seq<Seq<char>>, stop: Seq<char>) -> Seq<Seq<char>>
    decreases order.len(),
{
    if order.len() == 0 {
        Seq::empty()
    } else if listed(order, stop) {
        before_first(order.drop_last(), stop)
    } else {
        before_first(order.drop_last(), stop).push(order.last())
    }
}

/// A processed package of the work set is reported as done and is not
/// among what is still to do; the others are all still to do.
pub proof fn lemma_split_work(work: Seq<Seq<char>>, processed: Seq<Seq<char>>, name: Seq<char>)
    ensures
        listed(already_done(work, processed), name) <==> listed(work, name) && listed(
            processed,
            name,
        ),
        listed(still_to_do(work, processed), name) <==> listed(work, name) && !listed(
            processed,
            name,
        ),
    decreases work.len(),
{
    if work.len() > 0 {
        let rest = work.drop_last();
        lemma_split_work(rest, processed, name);
        assert(work =~= rest.push(work.last()));
        lemma_listed_push(rest, name, work.last());
        lemma_listed_push(already_done(rest, processed), name, work.last());
        lemma_listed_push(still_to_do(rest, processed), name, work.last());
    }
}

/// Adds `name` to the processed names, unless it is there already.
pub fn mark_processed(processed: &mut Vec<String>, name: &String)
    ensures
        name_models(final(processed)@) == insert_name(name_models(old(processed)@), name@),
{
    if !contains_name(processed, name) {
        let ghost before = name_models(processed@);
        let copy = name.clone();
        processed.push(copy);
        proof {
            assert(name_models(processed@) =~= before.push(name@));
        }
    }
}

/// Splits a work set into the packages that were processed before, which
/// are only reported, and those still to do.
pub fn split_work(work: &Vec<String>, processed: &Vec<String>) -> (res: (Vec<String>, Vec<String>))
    ensures
        name_models(res.0@) == already_done(name_models(work@), name_models(processed@)),
        name_models(res.1@) == still_to_do(name_models(work@), name_models(processed@)),
        forall|name: Seq<char>|
            listed(name_models(work@), name) && listed(name_models(processed@), name) ==> listed(
                name_models(res.0@),
                name,
            ) && !listed(name_models(res.1@), name),
{
    let ghost wm = name_models(work@);
    let ghost pm = name_models(processed@);
    let mut done: Vec<String> = Vec::new();
    let mut todo: Vec<String> = Vec::new();
    let mut i: usize = 0;
    while i < work.len()
        invariant
            i <= work.len(),
            wm == name_models(work@),
            pm == name_models(processed@),
            name_models(done@) == already_done(wm.take(i as int), pm),
            name_models(todo@) == still_to_do(wm.take(i as int), pm),
        decreases work.len() - i,
    {
        let name = &work[i];
        proof {
            assert(wm.take(i as int + 1).drop_last() =~= wm.take(i as int));
            assert(wm.take(i as int + 1).last() == name@);
        }
        let copy = name.clone();
        if contains_name(processed, name) {
            let ghost before = name_models(done@);
            done.push(copy);
            proof {
                assert(name_models(done@) =~= before.push(name@));
            }
        } else {
            let ghost before = name_models(todo@);
            todo.push(copy);
            proof {
                assert(name_models(todo@) =~= before.push(name@));
            }
        }
        i += 1;
    }
    proof {
        assert(wm.take(work.len() as int) =~= wm);
        assert forall|name: Seq<char>| listed(wm, name) && listed(pm, name) implies listed(
            name_models(done@),
            name,
        ) && !listed(name_models(todo@), name) by {
            lemma_split_work(wm, pm, name);
        }
    }
    (done, todo)
}

/// The packages whose versions are written into the manifest of `package`
/// before it is handled: all that precede it in publish order.
pub fn sync_targets(order: &Vec<String>, package: &String) -> (out: Vec<String>)
    ensures
        name_models(out@) == before_first(name_models(order@), package@),
{
    let ghost om = name_models(order@);
    let mut out: Vec<String> = Vec::new();
    let mut found = false;
    let mut i: usize = 0;
    while i < order.len()
        invariant
            i <= order.len(),
            om == name_models(order@),
            found == listed(om.take(i as int), package@),
            name_models(out@) == before_first(om.take(i as int), package@),
        decreases order.len() - i,
    {
        let name = &order[i];
        proof {
            assert(om.take(i as int + 1).drop_last() =~= om.take(i as int));
            assert(om.take(i as int + 1).last() == name@);
            assert(om.take(i as int + 1) =~= om.take(i as int).push(name@));
            lemma_listed_push(om.take(i as int), package@, name@);
        }
        if *name == *package {
            found = true;
        }
        if !found {
            let ghost before = name_models(out@);
            let copy = name.clone();
            out.push(copy);
            proof {
                assert(name_models(out@) =~= before.push(name@));
            }
        }
        i += 1;
    }
    proof {
        assert(om.take(order.len() as int) =~= om);
    }
    out
}

/// What the pipeline waits for.
#[derive(Debug, PartialEq, Eq, Structural, Clone, Copy)]
pub enum Phase {
    /// Nothing yet: the run has not begun.
    Select,
    /// The versions of the preceding packages being written into the
    /// current package's manifest, under a save checkpoint.
    Sync,
    /// The work set of the current package.
    Plan,
    /// Whether the current member of the work set needs publishing, given
    /// the versions that the registry holds.
    Assess,
    /// The version bump, under a save checkpoint, and the publication.
    Publish,
    /// The member's version being written into all manifests, under a save
    /// checkpoint.
    Propagate,
    /// Every selected package has been handled.
    Finished,
    /// A step failed; the run is over.
    Aborted,
}

/// What happened outside since the last step.
pub enum Event {
    /// The run begins.
    Begin,
    /// The work that the phase waited for was done.
    Completed,
    /// The work set of the current package, in dependency order.
    WorkSet(Vec<String>),
    /// Whether the current member of the work set needs publishing.
    NeedsPublishing(bool),
    /// The work that the phase waited for failed.
    Failed,
}

/// The state of a run.
pub struct Pipeline {
    /// The packages to handle, in order.
    pub selected: Vec<String>,
    /// The packages handled so far in this run.
    pub processed: Vec<String>,
    /// The position in `selected` of the package being handled.
    pub current: usize,
    /// The members of the current work set that are still to do.
    pub work: Vec<String>,
    /// The members of the current work set that were handled before.
    pub skipped: Vec<String>,
    /// The position in `work` of the member being handled.
    pub at: usize,
    /// What the run waits for.
    pub phase: Phase,
}

/// The state of a run as plain values.
pub struct PipelineModel {
    pub selected: Seq<Seq<char>>,
    pub processed: Seq<Seq<char>>,
    pub current: nat,
    pub work: Seq<Seq<char>>,
    pub skipped: Seq<Seq<char>>,
    pub at: nat,
    pub phase: Phase,
}

impl View for Pipeline {
    type V = PipelineModel;

    open spec fn view(&self) -> PipelineModel {
        PipelineModel {
            selected: name_models(self.selected@),
            processed: name_models(self.processed@),
            current: self.current as nat,
            work: name_models(self.work@),
            skipped: name_models(self.skipped@),
            at: self.at as nat,
            phase: self.phase,
        }
    }
}

/// The positions are within their lists wherever the phase reads them.
pub open spec fn pipeline_wf(m: PipelineModel) -> bool {
    &&& m.current <= m.selected.len()
    &&& m.at <= m.work.len()
    &&& (m.phase == Phase::Sync || m.phase == Phase::Plan || m.phase == Phase::Assess || m.phase
        == Phase::Publish || m.phase == Phase::Propagate) ==> m.current < m.selected.len()
    &&& (m.phase == Phase::Assess || m.phase == Phase::Publish || m.phase == Phase::Propagate)
        ==> m.at < m.work.len()
}

/// Moves to the next selected package that was not processed yet, or
/// finishes.
pub open spec fn settle(m: PipelineModel) -> PipelineModel
    decreases m.selected.len() - m.current,
{
    if m.current >= m.selected.len() {
        PipelineModel { phase: Phase::Finished, ..m }
    } else if listed(m.processed, m.selected[m.current as int]) {
        settle(PipelineModel { current: m.current + 1, ..m })
    } else {
        PipelineModel { phase: Phase::Sync, ..m }
    }
}

/// Turns to the member at `at`, or, with the work set done, marks the
/// current package as processed and moves on.
pub open spec fn start_work(m: PipelineModel) -> PipelineModel {
    if m.at < m.work.len() {
        PipelineModel { phase: Phase::Assess, ..m }
    } else {
        settle(
            PipelineModel {
                processed: insert_name(m.processed, m.selected[m.current as int]),
                current: m.current + 1,
                ..m
            },
        )
    }
}

/// The state after `event`. A failure ends the run; an event that the
/// phase does not wait for changes nothing.
pub open spec fn step(m: PipelineModel, event: Event) -> PipelineModel {
    match (m.phase, event) {
        (Phase::Finished, _) => m,
        (Phase::Aborted, _) => m,
        (_, Event::Failed) => PipelineModel { phase: Phase::Aborted, ..m },
        (Phase::Select, Event::Begin) => settle(m),
        (Phase::Sync, Event::Completed) => PipelineModel { phase: Phase::Plan, ..m },
        (Phase::Plan, Event::WorkSet(w)) => if w@.len() == 0 {
            settle(PipelineModel { current: m.current + 1, ..m })
        } else {
            start_work(
                PipelineModel {
                    work: still_to_do(name_models(w@), m.processed),
                    skipped: already_done(name_models(w@), m.processed),
                    at: 0,
                    ..m
                },
            )
        },
        (Phase::Assess, Event::NeedsPublishing(needed)) => if needed {
            PipelineModel { phase: Phase::Publish, ..m }
        } else {
            PipelineModel { phase: Phase::Propagate, ..m }
        },
        (Phase::Publish, Event::Completed) => PipelineModel { phase: Phase::Propagate, ..m },
        (Phase::Propagate, Event::Completed) => start_work(
            PipelineModel {
                processed: insert_name(m.processed, m.work[m.at as int]),
                at: m.at + 1,
                ..m
            },
        ),
        _ => m,
    }
}

impl Pipeline {
    /// A run over `selected`, with `processed` already handled.
    pub fn new(selected: Vec<String>, processed: Vec<String>) -> (p: Pipeline)
        ensures
            pipeline_wf(p@),
            p@ == (PipelineModel {
                selected: name_models(selected@),
                processed: name_models(processed@),
                current: 0,
                work: Seq::empty(),
                skipped: Seq::empty(),
                at: 0,
                phase: Phase::Select,
            }),
    {
        let p = Pipeline {
            selected,
            processed,
            current: 0,
            work: Vec::new(),
            skipped: Vec::new(),
            at: 0,
            phase: Phase::Select,
        };
        proof {
            assert(name_models(p.work@) =~= Seq::empty());
            assert(name_models(p.skipped@) =~= Seq::empty());
        }
        p
    }

    /// Whether the positions are within their lists wherever the phase
    /// reads them.
    pub fn well_formed(&self) -> (res: bool)
        ensures
            res == pipeline_wf(self@),
    {
        let handling = self.phase == Phase::Sync || self.phase == Phase::Plan || self.phase
            == Phase::Assess || self.phase == Phase::Publish || self.phase == Phase::Propagate;
        let working = self.phase == Phase::Assess || self.phase == Phase::Publish || self.phase
            == Phase::Propagate;
        self.current <= self.selected.len() && self.at <= self.work.len() && (!handling
            || self.current < self.selected.len()) && (!working || self.at < self.work.len())
    }

    fn settle_now(&mut self)
        requires
            old(self).current <= old(self).selected@.len(),
            old(self).at <= old(self).work@.len(),
        ensures
            final(self)@ == settle(old(self)@),
            pipeline_wf(final(self)@),
    {
        while self.current < self.selected.len() && contains_name(
            &self.processed,
            &self.selected[self.current],
        )
            invariant
                self.current <= self.selected@.len(),
                self.at <= self.work@.len(),
                settle(self@) == settle(old(self)@),
            decreases self.selected@.len() - self.current,
        {
            self.current += 1;
        }
        if self.current >= self.selected.len() {
            self.phase = Phase::Finished;
        } else {
            self.phase = Phase::Sync;
        }
    }

    fn start_work_now(&mut self)
        requires
            old(self).current < old(self).selected@.len(),
            old(self).at <= old(self).work@.len(),
        ensures
            final(self)@ == start_work(old(self)@),
            pipeline_wf(final(self)@),
    {
        if self.at < self.work.len() {
            self.phase = Phase::Assess;
        } else {
            let bound = self.selected.len();
            let name = self.selected[self.current].clone();
            mark_processed(&mut self.processed, &name);
            assert(self.current < bound);
            self.current += 1;
            self.settle_now();
        }
    }

    /// Takes the run one step further.
    pub fn advance(&mut self, event: Event)
        requires
            pipeline_wf(old(self)@),
        ensures
            final(self)@ == step(old(self)@, event),
            pipeline_wf(final(self)@),
    {
        match (self.phase, event) {
            (Phase::Finished, _) => {},
            (Phase::Aborted, _) => {},
            (_, Event::Failed) => {
                self.phase = Phase::Aborted;
            },
            (Phase::Select, Event::Begin) => {
                self.settle_now();
            },
            (Phase::Sync, Event::Completed) => {
                self.phase = Phase::Plan;
            },
            (Phase::Plan, Event::WorkSet(w)) => {
                if w.len() == 0 {
                    let bound = self.selected.len();
                    assert(self.current < bound);
                    self.current += 1;
                    self.settle_now();
                } else {
                    let (done, todo) = split_work(&w, &self.processed);
                    self.work = todo;
                    self.skipped = done;
                    self.at = 0;
                    self.start_work_now();
                }
            },
            (Phase::Assess, Event::NeedsPublishing(needed)) => {
                if needed {
                    self.phase = Phase::Publish;
                } else {
                    self.phase = Phase::Propagate;
                }
            },
            (Phase::Publish, Event::Completed) => {
                self.phase = Phase::Propagate;
            },
            (Phase::Propagate, Event::Completed) => {
                let bound = self.work.len();
                let name = self.work[self.at].clone();
                mark_processed(&mut self.processed, &name);
                assert(self.at < bound);
                self.at += 1;
                self.start_work_now();
            },
            _ => {},
        }
    }
}

/// Moving on to the next package changes only the position and the phase.
pub proof fn lemma_settle_keeps(m: PipelineModel)
    ensures
        settle(m).processed == m.processed,
        settle(m).selected == m.selected,
        settle(m).work == m.work,
        settle(m).skipped == m.skipped,
        settle(m).at == m.at,
    decreases m.selected.len() - m.current,
{
    if m.current < m.selected.len() && listed(m.processed, m.selected[m.current as int]) {
        lemma_settle_keeps(PipelineModel { current: m.current + 1, ..m });
    }
}

/// Adding a name keeps the names that are there, and keeps them distinct.
pub proof fn lemma_insert_name(names: Seq<Seq<char>>, name: Seq<char>, other: Seq<char>)
    ensures
        listed(names, other) ==> listed(insert_name(names, name), other),
        listed(insert_name(names, name), name),
        distinct(names) ==> distinct(insert_name(names, name)),
{
    lemma_listed_push(names, other, name);
    lemma_listed_push(names, name, name);
    if distinct(names) && !listed(names, name) {
        let bigger = names.push(name);
        assert forall|i: int, j: int| 0 <= i < j < bigger.len() implies #[trigger] bigger[i]
            != #[trigger] bigger[j] by {
            assert(bigger[i] == names[i]);
            if j < names.len() {
                assert(bigger[j] == names[j]);
            }
        }
    }
}

/// The processed names only grow, and no name is ever there twice: what
/// was processed before a step is processed after it.
pub proof fn lemma_processed_grows(m: PipelineModel, event: Event, name: Seq<char>)
    requires
        pipeline_wf(m),
    ensures
        listed(m.processed, name) ==> listed(step(m, event).processed, name),
        distinct(m.processed) ==> distinct(step(m, event).processed),
{
    lemma_settle_keeps(m);
    lemma_settle_keeps(PipelineModel { current: m.current + 1, ..m });
    match (m.phase, event) {
        (Phase::Plan, Event::WorkSet(w)) => {
            let planned = PipelineModel {
                work: still_to_do(name_models(w@), m.processed),
                skipped: already_done(name_models(w@), m.processed),
                at: 0,
                ..m
            };
            let marked = PipelineModel {
                processed: insert_name(planned.processed, planned.selected[planned.current as int]),
                current: planned.current + 1,
                ..planned
            };
            lemma_settle_keeps(marked);
            lemma_insert_name(m.processed, m.selected[m.current as int], name);
        },
        (Phase::Propagate, Event::Completed) => {
            let done = PipelineModel {
                processed: insert_name(m.processed, m.work[m.at as int]),
                at: m.at + 1,
                ..m
            };
            let marked = PipelineModel {
                processed: insert_name(done.processed, done.selected[done.current as int]),
                current: done.current + 1,
                ..done
            };
            lemma_settle_keeps(marked);
            lemma_insert_name(m.processed, m.work[m.at as int], name);
            lemma_insert_name(done.processed, done.selected[done.current as int], name);
        },
        _ => {},
    }
}

/// A package that was processed before its work set arrives is reported as
/// skipped and is not among the packages to publish.
pub proof fn lemma_processed_is_skipped(m: PipelineModel, work: Vec<String>, name: Seq<char>)
    requires
        pipeline_wf(m),
        m.phase == Phase::Plan,
        work@.len() > 0,
        listed(m.processed, name),
    ensures
        !listed(step(m, Event::WorkSet(work)).work, name),
        listed(name_models(work@), name) ==> listed(step(m, Event::WorkSet(work)).skipped, name),
{
    let planned = PipelineModel {
        work: still_to_do(name_models(work@), m.processed),
        skipped: already_done(name_models(work@), m.processed),
        at: 0,
        ..m
    };
    let marked = PipelineModel {
        processed: insert_name(planned.processed, planned.selected[planned.current as int]),
        current: planned.current + 1,
        ..planned
    };
    lemma_settle_keeps(marked);
    lemma_split_work(name_models(work@), m.processed, name);
}

} // verus!
