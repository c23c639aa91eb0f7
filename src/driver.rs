use vstd::prelude::*;

use crate::aggregate::{
    aggregate, has_key, lemma_aggregate_exact, lemma_group_membership,
    lemma_reordered_outcomes_same_groups, total_paths, Aggregator, GroupsView, OutcomeView,
};
use crate::gate::ConcurrencyGate;

verus! {

/// Where a run stands. There is no way back to an earlier phase.
#[derive(Clone, Copy, Debug, PartialEq, Eq, Structural)]
pub enum Phase {
    /// Roots not yet checked.
    Idle,
    /// Paths arrive and hash tasks run alongside.
    Discovering,
    /// Discovery is over; waiting for the tasks still in flight.
    Draining,
    /// Every task has reported: the map is final.
    Aggregated,
    /// A root could not be opened: no map.
    Failed,
}

/// What the runner waits for next.
#[derive(Clone, Copy, Debug, PartialEq, Eq, Structural)]
pub enum Wait {
    /// The result of checking the roots.
    Roots,
    /// The next path from discovery, or its end.
    NextPath,
    /// Some hash task to finish.
    Completion,
    /// Nothing: the run is over.
    Nothing,
}

/// What happened outside, handed to the driver one at a time.
pub enum Event {
    /// Every root exists and can be read: discovery has started.
    RootsOpened,
    /// A root is missing or unreadable: the run fails.
    RootUnavailable { root: String, cause: String },
    /// Discovery produced one more candidate path.
    Discovered(String),
    /// Discovery is exhausted and the discovering task has finished.
    DiscoveryEnded,
    /// A hash task finished and gave its permit back: the fingerprint of its
    /// file, or none where the file could not be opened or read.
    TaskFinished { path: String, fingerprint: Option<u64> },
    /// Stop dispatching: let the tasks in flight finish, then end the run.
    Cancel,
}

/// What the runner does next: start a hash task on a path, if one is given,
/// then wait for the named kind of event.
pub struct Step {
    pub spawn: Option<String>,
    pub next: Wait,
}

/// The fatal discovery error: which root, and why.
pub struct RootError {
    pub root: String,
    pub cause: String,
}

/// A finished task as the driver saw it: its path, and its fingerprint if any.
pub type TaskView = (Seq<char>, Option<u64>);

/// The successful outcomes among the finished tasks, in order.
pub open spec fn successes(o: Seq<TaskView>) -> Seq<OutcomeView>
    decreases o.len(),
{
    if o.len() == 0 {
        Seq::empty()
    } else {
        match o.last().1 {
            Some(k) => successes(o.drop_last()).push((k, o.last().0)),
            None => successes(o.drop_last()),
        }
    }
}

/// The number of finished tasks that produced no fingerprint.
pub open spec fn failures(o: Seq<TaskView>) -> nat
    decreases o.len(),
{
    if o.len() == 0 {
        0
    } else {
        failures(o.drop_last()) + if o.last().1 is None {
            1nat
        } else {
            0nat
        }
    }
}

/// The orchestration of one run: takes each discovered path, gates it by a
/// permit, dispatches its hash task, and routes every finished task to the
/// aggregator. It owns the map alone.
pub struct PipelineDriver {
    phase: Phase,
    gate: ConcurrencyGate,
    held: Option<String>,
    agg: Aggregator,
    dispatched: usize,
    failed: usize,
    cancelled: bool,
    error: Option<RootError>,
    finished: Ghost<Seq<TaskView>>,
}

impl PipelineDriver {
    pub closed spec fn phase_view(&self) -> Phase {
        self.phase
    }

    pub closed spec fn limit_view(&self) -> nat {
        self.gate.spec_limit()
    }

    /// Hash tasks holding a permit.
    pub closed spec fn in_flight_view(&self) -> nat {
        self.gate.spec_in_use()
    }

    /// The path waiting for a permit, if any.
    pub closed spec fn held_view(&self) -> Option<Seq<char>> {
        match self.held {
            Some(p) => Some(p@),
            None => None,
        }
    }

    pub closed spec fn dispatched_view(&self) -> nat {
        self.dispatched as nat
    }

    pub closed spec fn failed_view(&self) -> nat {
        self.failed as nat
    }

    pub closed spec fn cancelled_view(&self) -> bool {
        self.cancelled
    }

    pub closed spec fn error_view(&self) -> Option<(Seq<char>, Seq<char>)> {
        match self.error {
            Some(e) => Some((e.root@, e.cause@)),
            None => None,
        }
    }

    /// Every task that has finished, in the order its outcome arrived.
    pub closed spec fn finished_view(&self) -> Seq<TaskView> {
        self.finished@
    }

    /// The groups built so far.
    pub closed spec fn groups_view(&self) -> GroupsView {
        self.agg@
    }

    /// What the runner is to wait for in this state.
    pub open spec fn wait_view(&self) -> Wait {
        match self.phase_view() {
            Phase::Idle => Wait::Roots,
            Phase::Discovering => if self.held_view() is Some {
                Wait::Completion
            } else {
                Wait::NextPath
            },
            Phase::Draining => Wait::Completion,
            Phase::Aggregated => Wait::Nothing,
            Phase::Failed => Wait::Nothing,
        }
    }

    /// Same tasks in flight, same counts, same finished tasks, same flags.
    pub open spec fn same_tasks(&self, other: &PipelineDriver) -> bool {
        &&& self.limit_view() == other.limit_view()
        &&& self.in_flight_view() == other.in_flight_view()
        &&& self.dispatched_view() == other.dispatched_view()
        &&& self.failed_view() == other.failed_view()
        &&& self.finished_view() == other.finished_view()
        &&& self.groups_view() == other.groups_view()
        &&& self.cancelled_view() == other.cancelled_view()
    }

    pub closed spec fn wf(&self) -> bool {
        &&& self.gate.wf()
        &&& self.gate.spec_limit() > 0
        &&& self.agg.wf()
        &&& self.agg@ == aggregate(successes(self.finished@))
        &&& self.failed == failures(self.finished@)
        &&& total_paths(self.agg@) + self.failed + self.gate.spec_in_use() == self.dispatched
        &&& self.held is Some ==> self.phase == Phase::Discovering && self.gate.spec_in_use()
            == self.gate.spec_limit()
        &&& self.phase == Phase::Idle ==> self.dispatched == 0
        &&& self.phase == Phase::Draining ==> self.gate.spec_in_use() > 0
        &&& self.phase == Phase::Aggregated ==> self.gate.spec_in_use() == 0
        &&& (self.phase == Phase::Failed <==> self.error is Some)
    }

    /// A run that has not started, with `limit` permits for hash tasks.
    pub fn new(limit: usize) -> (d: PipelineDriver)
        requires
            limit > 0,
        ensures
            d.wf(),
            d.phase_view() == Phase::Idle,
            d.limit_view() == limit,
            d.in_flight_view() == 0,
            d.held_view() is None,
            d.dispatched_view() == 0,
            d.failed_view() == 0,
            !d.cancelled_view(),
            d.error_view() is None,
            d.finished_view() == Seq::<TaskView>::empty(),
            d.groups_view() == Seq::<(u64, Seq<Seq<char>>)>::empty(),
    {
        PipelineDriver {
            phase: Phase::Idle,
            gate: ConcurrencyGate::new(limit),
            held: None,
            agg: Aggregator::new(),
            dispatched: 0,
            failed: 0,
            cancelled: false,
            error: None,
            finished: Ghost(Seq::empty()),
        }
    }

    /// Routes one finished task: its permit goes back and its outcome goes to
    /// the aggregator, or to the failure count.
    fn complete(&mut self, path: String, fingerprint: Option<u64>)
        requires
            old(self).wf(),
            old(self).phase == Phase::Discovering || old(self).phase == Phase::Draining,
            old(self).gate.spec_in_use() > 0,
        ensures
            final(self).gate.wf(),
            final(self).gate.spec_limit() == old(self).gate.spec_limit(),
            final(self).gate.spec_in_use() == old(self).gate.spec_in_use() - 1,
            final(self).finished@ == old(self).finished@.push((path@, fingerprint)),
            final(self).agg.wf(),
            final(self).agg@ == aggregate(successes(final(self).finished@)),
            final(self).failed == failures(final(self).finished@),
            final(self).failed == old(self).failed + if fingerprint is None {
                1int
            } else {
                0int
            },
            total_paths(final(self).agg@) + final(self).failed + final(self).gate.spec_in_use()
                == final(self).dispatched,
            final(self).phase == old(self).phase,
            final(self).held == old(self).held,
            final(self).dispatched == old(self).dispatched,
            final(self).cancelled == old(self).cancelled,
            final(self).error == old(self).error,
    {
        let ghost o = self.finished@.push((path@, fingerprint));
        assert(o.drop_last() =~= self.finished@);
        self.gate.release();
        match fingerprint {
            Some(k) => {
                proof {
                    let pre = successes(self.finished@);
                    assert(successes(o) == pre.push((k, path@)));
                    assert(pre.push((k, path@)).drop_last() =~= pre);
                    lemma_aggregate_exact(pre);
                }
                self.agg.record(k, path);
            },
            None => {
                self.failed = self.failed + 1;
            },
        }
        self.finished = Ghost(o);
    }

    /// Takes one event and says what to do next.
    pub fn handle(&mut self, ev: Event) -> (step: Step)
        requires
            old(self).wf(),
            old(self).dispatched_view() < usize::MAX,
        ensures
            final(self).wf(),
            final(self).limit_view() == old(self).limit_view(),
            final(self).in_flight_view() <= final(self).limit_view(),
            final(self).held_view() is Some ==> final(self).in_flight_view()
                == final(self).limit_view(),
            final(self).phase_view() == Phase::Aggregated ==> final(self).in_flight_view() == 0,
            total_paths(final(self).groups_view()) + final(self).failed_view()
                + final(self).in_flight_view() == final(self).dispatched_view(),
            final(self).groups_view() == aggregate(successes(final(self).finished_view())),
            step.next == final(self).wait_view(),
            step.spawn is Some ==> final(self).dispatched_view() == old(self).dispatched_view()
                + 1,
            step.spawn is None ==> final(self).dispatched_view() == old(self).dispatched_view(),
            match ev {
                Event::RootsOpened => if old(self).phase_view() == Phase::Idle {
                    &&& final(self).phase_view() == Phase::Discovering
                    &&& final(self).same_tasks(&*old(self))
                    &&& final(self).held_view() is None
                    &&& step.spawn is None
                } else {
                    *final(self) == *old(self) && step.spawn is None
                },
                Event::RootUnavailable { root, cause } => if old(self).phase_view()
                    == Phase::Idle || old(self).phase_view() == Phase::Discovering {
                    &&& final(self).phase_view() == Phase::Failed
                    &&& final(self).error_view() == Some((root@, cause@))
                    &&& final(self).same_tasks(&*old(self))
                    &&& final(self).held_view() is None
                    &&& step.spawn is None
                } else {
                    *final(self) == *old(self) && step.spawn is None
                },
                Event::Discovered(p) => if old(self).phase_view() == Phase::Discovering
                    && old(self).held_view() is None {
                    &&& final(self).phase_view() == Phase::Discovering
                    &&& final(self).finished_view() == old(self).finished_view()
                    &&& final(self).groups_view() == old(self).groups_view()
                    &&& final(self).failed_view() == old(self).failed_view()
                    &&& final(self).cancelled_view() == old(self).cancelled_view()
                    &&& if old(self).in_flight_view() < old(self).limit_view() {
                        &&& step.spawn == Some(p)
                        &&& final(self).in_flight_view() == old(self).in_flight_view() + 1
                        &&& final(self).held_view() is None
                    } else {
                        &&& step.spawn is None
                        &&& final(self).in_flight_view() == old(self).in_flight_view()
                        &&& final(self).held_view() == Some(p@)
                    }
                } else {
                    *final(self) == *old(self) && step.spawn is None
                },
                Event::DiscoveryEnded => if old(self).phase_view() == Phase::Discovering
                    && old(self).held_view() is None {
                    &&& final(self).phase_view() == if old(self).in_flight_view() == 0 {
                        Phase::Aggregated
                    } else {
                        Phase::Draining
                    }
                    &&& final(self).same_tasks(&*old(self))
                    &&& final(self).held_view() is None
                    &&& step.spawn is None
                } else {
                    *final(self) == *old(self) && step.spawn is None
                },
                Event::TaskFinished { path, fingerprint } => if (old(self).phase_view()
                    == Phase::Discovering || old(self).phase_view() == Phase::Draining)
                    && old(self).in_flight_view() > 0 {
                    &&& final(self).finished_view() == old(self).finished_view().push(
                        (path@, fingerprint),
                    )
                    &&& final(self).phase_view() == if old(self).phase_view()
                        == Phase::Discovering {
                        Phase::Discovering
                    } else if old(self).in_flight_view() == 1 {
                        Phase::Aggregated
                    } else {
                        Phase::Draining
                    }
                    &&& final(self).held_view() is None
                    &&& final(self).cancelled_view() == old(self).cancelled_view()
                    &&& final(self).failed_view() == old(self).failed_view() + if fingerprint is None {
                        1nat
                    } else {
                        0nat
                    }
                    &&& match old(self).held_view() {
                        Some(h) => step.spawn matches Some(s) && s@ == h
                            && final(self).in_flight_view() == old(self).in_flight_view(),
                        None => step.spawn is None && final(self).in_flight_view()
                            == old(self).in_flight_view() - 1,
                    }
                } else {
                    *final(self) == *old(self) && step.spawn is None
                },
                Event::Cancel => if old(self).phase_view() == Phase::Discovering {
                    &&& final(self).cancelled_view()
                    &&& final(self).held_view() is None
                    &&& final(self).in_flight_view() == old(self).in_flight_view()
                    &&& final(self).failed_view() == old(self).failed_view()
                    &&& final(self).groups_view() == old(self).groups_view()
                    &&& final(self).phase_view() == if old(self).in_flight_view() == 0 {
                        Phase::Aggregated
                    } else {
                        Phase::Draining
                    }
                    &&& final(self).finished_view() == old(self).finished_view()
                    &&& step.spawn is None
                } else {
                    *final(self) == *old(self) && step.spawn is None
                },
            },
    {
        match ev {
            Event::RootsOpened => {
                if self.phase == Phase::Idle {
                    self.phase = Phase::Discovering;
                }
            },
            Event::RootUnavailable { root, cause } => {
                if self.phase == Phase::Idle || self.phase == Phase::Discovering {
                    self.phase = Phase::Failed;
                    self.held = None;
                    self.error = Some(RootError { root, cause });
                }
            },
            Event::Discovered(p) => {
                if self.phase == Phase::Discovering && self.held.is_none() {
                    if self.gate.try_acquire() {
                        self.dispatched = self.dispatched + 1;
                        return Step { spawn: Some(p), next: Wait::NextPath };
                    } else {
                        self.held = Some(p);
                    }
                }
            },
            Event::DiscoveryEnded => {
                if self.phase == Phase::Discovering && self.held.is_none() {
                    if self.gate.in_use() == 0 {
                        self.phase = Phase::Aggregated;
                    } else {
                        self.phase = Phase::Draining;
                    }
                }
            },
            Event::TaskFinished { path, fingerprint } => {
                if (self.phase == Phase::Discovering || self.phase == Phase::Draining)
                    && self.gate.in_use() > 0 {
                    self.complete(path, fingerprint);
                    if self.phase == Phase::Draining && self.gate.in_use() == 0 {
                        self.phase = Phase::Aggregated;
                    }
                    let held = self.held.take();
                    match held {
                        Some(h) => {
                            let granted = self.gate.try_acquire();
                            assert(granted);
                            self.dispatched = self.dispatched + 1;
                            return Step { spawn: Some(h), next: Wait::NextPath };
                        },
                        None => {},
                    }
                }
            },
            Event::Cancel => {
                if self.phase == Phase::Discovering {
                    self.cancelled = true;
                    self.held = None;
                    if self.gate.in_use() == 0 {
                        self.phase = Phase::Aggregated;
                    } else {
                        self.phase = Phase::Draining;
                    }
                }
            },
        }
        Step { spawn: None, next: self.wait() }
    }

    /// What the runner is to wait for in this state.
    pub fn wait(&self) -> (w: Wait)
        ensures
            w == self.wait_view(),
    {
        match self.phase {
            Phase::Idle => Wait::Roots,
            Phase::Discovering => if self.held.is_some() {
                Wait::Completion
            } else {
                Wait::NextPath
            },
            Phase::Draining => Wait::Completion,
            Phase::Aggregated => Wait::Nothing,
            Phase::Failed => Wait::Nothing,
        }
    }

    pub fn phase(&self) -> (r: Phase)
        ensures
            r == self.phase_view(),
    {
        self.phase
    }

    pub fn limit(&self) -> (r: usize)
        ensures
            r == self.limit_view(),
    {
        self.gate.limit()
    }

    /// Hash tasks holding a permit.
    pub fn in_flight(&self) -> (r: usize)
        ensures
            r == self.in_flight_view(),
    {
        self.gate.in_use()
    }

    /// Hash tasks dispatched so far.
    pub fn dispatched(&self) -> (r: usize)
        ensures
            r == self.dispatched_view(),
    {
        self.dispatched
    }

    /// Finished tasks that produced no fingerprint.
    pub fn failed(&self) -> (r: usize)
        ensures
            r == self.failed_view(),
    {
        self.failed
    }

    pub fn cancelled(&self) -> (r: bool)
        ensures
            r == self.cancelled_view(),
    {
        self.cancelled
    }

    /// The aggregator, read-only.
    pub fn aggregator(&self) -> (r: &Aggregator)
        requires
            self.wf(),
        ensures
            r.wf(),
            r@ == self.groups_view(),
    {
        &self.agg
    }

    /// Hands over the outcome of a finished run: the map, or the fatal error.
    pub fn into_result(self) -> (r: Result<Aggregator, RootError>)
        requires
            self.wf(),
            self.phase_view() == Phase::Aggregated || self.phase_view() == Phase::Failed,
        ensures
            self.phase_view() == Phase::Aggregated ==> (r matches Ok(a) && a.wf() && a@
                == self.groups_view()),
            self.phase_view() == Phase::Failed ==> (r matches Err(e) && self.error_view() == Some(
                (e.root@, e.cause@),
            )),
    {
        match self.error {
            Some(e) => Err(e),
            None => Ok(self.agg),
        }
    }
}

/// How often a fingerprinted outcome occurs among the successes is how often
/// its task finished with that fingerprint.
pub proof fn lemma_successes_count(o: Seq<TaskView>, k: u64, q: Seq<char>)
    ensures
        successes(o).to_multiset().count((k, q)) == o.to_multiset().count((q, Some(k))),
    decreases o.len(),
{
    broadcast use vstd::seq_lib::group_to_multiset_ensures;

    if o.len() > 0 {
        let pre = o.drop_last();
        lemma_successes_count(pre, k, q);
        assert(o =~= pre.push(o.last()));
    } else {
        assert(o.to_multiset() =~= vstd::multiset::Multiset::empty());
        assert(successes(o).to_multiset() =~= vstd::multiset::Multiset::empty());
    }
}

/// A file whose every task failed (it could not be opened or read) is in no
/// group, while every file that was hashed is in the group of its fingerprint.
pub proof fn lemma_unreadable_file_absent(o: Seq<TaskView>, p: Seq<char>)
    requires
        forall|j: int| 0 <= j < o.len() && #[trigger] o[j].0 == p ==> o[j].1 is None,
    ensures
        forall|i: int|
            0 <= i < aggregate(successes(o)).len() ==> !(
            #[trigger] aggregate(successes(o))[i].1.contains(p)),
        forall|j: int|
            0 <= j < o.len() && (#[trigger] o[j]).1 is Some ==> exists|i: int|
                0 <= i < aggregate(successes(o)).len() && aggregate(successes(o))[i].0
                    == o[j].1.unwrap() && #[trigger] aggregate(successes(o))[i].1.contains(o[j].0),
{
    broadcast use vstd::seq_lib::group_to_multiset_ensures;

    let s = successes(o);
    let a = aggregate(s);
    lemma_group_membership(s);
    assert forall|i: int| 0 <= i < a.len() implies !(#[trigger] a[i].1.contains(p)) by {
        if a[i].1.contains(p) {
            assert(s.contains((a[i].0, p)));
            lemma_successes_count(o, a[i].0, p);
            assert(s.to_multiset().count((a[i].0, p)) > 0);
            assert(o.contains((p, Some(a[i].0))));
            let j = choose|j: int| 0 <= j < o.len() && o[j] == (p, Some(a[i].0));
            assert(o[j].0 == p);
        }
    }
    assert forall|j: int| 0 <= j < o.len() && (#[trigger] o[j]).1 is Some implies exists|i: int|
        0 <= i < a.len() && a[i].0 == o[j].1.unwrap() && #[trigger] a[i].1.contains(o[j].0) by {
        let k = o[j].1.unwrap();
        assert(o[j] == (o[j].0, Some(k)));
        assert(o.contains((o[j].0, Some(k))));
        lemma_successes_count(o, k, o[j].0);
        assert(s.to_multiset().count((k, o[j].0)) > 0);
        assert(s.contains((k, o[j].0)));
    }
}

/// Re-running over an unchanged tree: when the same tasks finish with the same
/// outcomes, in any order, the groups have the same fingerprints and the same
/// members; only the order within a group may differ.
pub proof fn lemma_rerun_same_groups(o1: Seq<TaskView>, o2: Seq<TaskView>)
    requires
        o1.to_multiset() == o2.to_multiset(),
    ensures
        aggregate(successes(o1)).len() == aggregate(successes(o2)).len(),
        forall|k: u64| #[trigger]
            has_key(aggregate(successes(o1)), k) <==> has_key(aggregate(successes(o2)), k),
        forall|i: int, j: int|
            0 <= i < aggregate(successes(o1)).len() && 0 <= j < aggregate(successes(o2)).len()
                && aggregate(successes(o1))[i].0 == aggregate(successes(o2))[j].0
                ==> #[trigger] aggregate(successes(o1))[i].1.to_multiset()
                == #[trigger] aggregate(successes(o2))[j].1.to_multiset(),
{
    assert forall|x: OutcomeView| successes(o1).to_multiset().count(x) == successes(
        o2,
    ).to_multiset().count(x) by {
        lemma_successes_count(o1, x.0, x.1);
        lemma_successes_count(o2, x.0, x.1);
    }
    assert(successes(o1).to_multiset() =~= successes(o2).to_multiset());
    lemma_reordered_outcomes_same_groups(successes(o1), successes(o2));
}

} // verus!
