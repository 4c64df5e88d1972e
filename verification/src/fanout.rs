//! Bounded fan-out and fan-in: which task starts next, which are in flight,
//! and when every task has come back.
//!
//! The engine decides; the caller acts. It asks [`FanOut::next_step`] what to
//! do, starts the probe it is told to start, waits when told to wait, and
//! reports each probe that ended with [`FanOut::complete`].

use crate::limiter::Limiter;
use vstd::prelude::*;

verus! {

/// What the caller of an engine does next.
#[derive(Debug, Clone, Copy, PartialEq, Eq)]
pub enum Step {
    /// Start the task with this index; it now holds a slot.
    Start(usize),
    /// Wait until a task in flight ends, then report it.
    Await,
    /// Every task was started and has ended.
    Finished,
}

/// What a probe tests.
#[derive(Debug, Clone, Copy, PartialEq, Eq)]
pub enum ProbeKind {
    /// Whether a name resolves.
    Dns,
    /// Whether a TCP port accepts a connection.
    Tcp,
    /// Whether a UDP port answers.
    Udp,
}

/// One probe to run: made when its task starts, run by one worker, and
/// reported back under its index.
#[derive(Debug)]
pub struct ProbeTask {
    pub kind: ProbeKind,
    /// The index under which the outcome is reported.
    pub index: usize,
    /// The name to resolve, or the host to probe.
    pub target: String,
    /// The port to probe; none for a lookup.
    pub port: Option<u16>,
}

/// What the caller of a scan does next.
#[derive(Debug)]
pub enum ScanStep {
    /// Run this probe and report its outcome.
    Probe(ProbeTask),
    /// Wait until a probe in flight ends, then report it.
    Await,
    /// Every probe has been reported.
    Finished,
}

/// The number of tasks among the first `upto` that have not ended.
pub open spec fn open_count(done: Seq<bool>, upto: int) -> nat
    decreases upto,
{
    if upto <= 0 {
        0
    } else {
        open_count(done, upto - 1) + if done[upto - 1] {
            0nat
        } else {
            1nat
        }
    }
}

proof fn lemma_open_count_bound(done: Seq<bool>, upto: int)
    requires
        0 <= upto,
    ensures
        open_count(done, upto) <= upto,
    decreases upto,
{
    if upto > 0 {
        lemma_open_count_bound(done, upto - 1);
    }
}

proof fn lemma_open_count_same(a: Seq<bool>, b: Seq<bool>, upto: int)
    requires
        forall|k: int| 0 <= k < upto ==> a[k] == b[k],
    ensures
        open_count(a, upto) == open_count(b, upto),
    decreases upto,
{
    if upto > 0 {
        lemma_open_count_same(a, b, upto - 1);
    }
}

proof fn lemma_open_count_close(done: Seq<bool>, upto: int, i: int)
    requires
        0 <= i < upto <= done.len(),
        !done[i],
    ensures
        open_count(done, upto) >= 1,
        open_count(done.update(i, true), upto) == open_count(done, upto) - 1,
    decreases upto,
{
    if i == upto - 1 {
        lemma_open_count_same(done, done.update(i, true), upto - 1);
    } else {
        lemma_open_count_close(done, upto - 1, i);
    }
}

proof fn lemma_open_count_zero(done: Seq<bool>, upto: int)
    requires
        open_count(done, upto) == 0,
    ensures
        forall|k: int| 0 <= k < upto ==> done[k],
    decreases upto,
{
    if upto > 0 {
        lemma_open_count_zero(done, upto - 1);
    }
}

/// A run of `total` independent tasks of which at most `capacity` are in
/// flight at a time. Tasks start in index order, and end in any order.
pub struct FanOut {
    limiter: Limiter,
    total: usize,
    dispatched: usize,
    done: Vec<bool>,
}

impl FanOut {
    /// The number of tasks.
    pub closed spec fn total(&self) -> nat {
        self.total as nat
    }

    /// The most tasks that may be in flight.
    pub closed spec fn capacity(&self) -> nat {
        self.limiter.slots()
    }

    /// The number of tasks started so far: tasks `0..dispatched` were started.
    pub closed spec fn dispatched(&self) -> nat {
        self.dispatched as nat
    }

    /// Which tasks have ended, by index.
    pub closed spec fn ended(&self) -> Seq<bool> {
        self.done@
    }

    /// The number of tasks started and not yet ended.
    pub closed spec fn in_flight(&self) -> nat {
        self.limiter.held()
    }

    /// Whether task `i` was started and has not ended.
    pub open spec fn is_in_flight(&self, i: int) -> bool {
        0 <= i < self.dispatched() && !self.ended()[i]
    }

    /// Every task was started and has ended.
    pub open spec fn finished(&self) -> bool {
        self.dispatched() == self.total() && self.in_flight() == 0
    }

    /// The steps still to come: one start and one end for each task.
    pub open spec fn work_left(&self) -> int {
        2 * self.total() - 2 * self.dispatched() + self.in_flight()
    }

    /// The run is sound: there is a slot, the tasks not yet started have not
    /// ended, and the slots held are those of the tasks in flight.
    pub closed spec fn wf(&self) -> bool {
        &&& self.limiter.slots() >= 1
        &&& self.limiter.held() <= self.limiter.slots()
        &&& self.done@.len() == self.total
        &&& self.dispatched <= self.total
        &&& forall|k: int| self.dispatched <= k < self.total ==> !self.done@[k]
        &&& self.limiter.held() == open_count(self.done@, self.dispatched as int)
    }

    /// At no time are more tasks in flight than the capacity allows, nor more
    /// than were started.
    pub proof fn lemma_capacity_respected(&self)
        requires
            self.wf(),
        ensures
            1 <= self.capacity(),
            self.in_flight() <= self.capacity(),
            self.in_flight() <= self.dispatched() <= self.total() <= usize::MAX,
            self.ended().len() == self.total(),
            self.work_left() >= 0,
    {
        lemma_open_count_bound(self.done@, self.dispatched as int);
    }

    /// A run that is over has seen every task end; one that is not over has a
    /// task to start or a task in flight.
    pub proof fn lemma_progress(&self)
        requires
            self.wf(),
        ensures
            self.finished() ==> forall|k: int| 0 <= k < self.total() ==> self.ended()[k],
            !self.finished() ==> self.dispatched() < self.total() || self.in_flight() > 0,
            self.in_flight() > 0 ==> exists|k: int| self.is_in_flight(k),
    {
        if self.finished() {
            lemma_open_count_zero(self.done@, self.dispatched as int);
        }
        if self.in_flight() > 0 {
            if forall|k: int| 0 <= k < self.dispatched ==> self.done@[k] {
                lemma_all_ended(self.done@, self.dispatched as int);
            } else {
                let k = choose|k: int| 0 <= k < self.dispatched && !self.done@[k];
                assert(self.is_in_flight(k));
            }
        }
    }

    /// A run of `total` tasks under `capacity` slots, none started. A run
    /// needs at least one slot: without one no task could ever start.
    pub fn new(capacity: usize, total: usize) -> (r: Option<FanOut>)
        ensures
            r is Some <==> capacity >= 1,
            r matches Some(run) ==> run.wf() && run.capacity() == capacity && run.total() == total
                && run.dispatched() == 0 && run.in_flight() == 0 && run.ended() == Seq::new(
                total as nat,
                |k: int| false,
            ),
    {
        if capacity == 0 {
            return None;
        }
        let limiter = Limiter::new(capacity);
        let mut done: Vec<bool> = Vec::new();
        let mut i: usize = 0;
        while i < total
            invariant
                i <= total,
                done@ == Seq::new(i as nat, |k: int| false),
            decreases total - i,
        {
            done.push(false);
            assert(done@ == Seq::new((i + 1) as nat, |k: int| false));
            i = i + 1;
        }
        Some(FanOut { limiter, total, dispatched: 0, done })
    }

    /// The number of tasks.
    pub fn task_count(&self) -> (n: usize)
        ensures
            n == self.total(),
    {
        self.total
    }

    /// The number of tasks started so far.
    pub fn started(&self) -> (n: usize)
        ensures
            n == self.dispatched(),
    {
        self.dispatched
    }

    /// The number of tasks in flight.
    pub fn in_flight_now(&self) -> (n: usize)
        ensures
            n == self.in_flight(),
    {
        self.limiter.in_flight()
    }

    /// The most tasks that may be in flight.
    pub fn slots(&self) -> (n: usize)
        ensures
            n == self.capacity(),
    {
        self.limiter.capacity()
    }

    /// Whether every task was started and has ended.
    pub fn is_finished(&self) -> (b: bool)
        ensures
            b == self.finished(),
    {
        self.dispatched == self.total && self.limiter.in_flight() == 0
    }

    /// Whether task `i` was started and has not ended.
    pub fn awaits(&self, i: usize) -> (b: bool)
        requires
            self.wf(),
        ensures
            b == self.is_in_flight(i as int),
    {
        i < self.dispatched && !self.done[i]
    }

    /// Decides the next step. A task is started whenever one is left and a
    /// slot is free; otherwise the caller waits for a task in flight; when
    /// none is left and none is in flight the run is over.
    pub fn next_step(&mut self) -> (step: Step)
        requires
            old(self).wf(),
        ensures
            final(self).wf(),
            final(self).total() == old(self).total(),
            final(self).capacity() == old(self).capacity(),
            final(self).ended() == old(self).ended(),
            if old(self).dispatched() < old(self).total() && old(self).in_flight() < old(
                self,
            ).capacity() {
                &&& step matches Step::Start(i)
                &&& i == old(self).dispatched()
                &&& final(self).dispatched() == old(self).dispatched() + 1
                &&& final(self).in_flight() == old(self).in_flight() + 1
            } else {
                &&& final(self).dispatched() == old(self).dispatched()
                &&& final(self).in_flight() == old(self).in_flight()
                &&& if old(self).in_flight() > 0 {
                    step is Await
                } else {
                    step is Finished
                }
            },
            step matches Step::Start(i) ==> final(self).is_in_flight(i as int),
    {
        if self.dispatched < self.total {
            if self.limiter.try_acquire() {
                let i = self.dispatched;
                self.dispatched = i + 1;
                return Step::Start(i);
            }
            return Step::Await;
        }
        if self.limiter.in_flight() > 0 {
            Step::Await
        } else {
            Step::Finished
        }
    }

    /// Reports that task `i` ended. The report is taken if the task was in
    /// flight: the task is marked and its slot freed. Any other report is
    /// turned down and changes nothing.
    pub fn complete(&mut self, i: usize) -> (taken: bool)
        requires
            old(self).wf(),
        ensures
            final(self).wf(),
            final(self).total() == old(self).total(),
            final(self).capacity() == old(self).capacity(),
            final(self).dispatched() == old(self).dispatched(),
            taken == old(self).is_in_flight(i as int),
            taken ==> final(self).ended() == old(self).ended().update(i as int, true)
                && final(self).in_flight() == old(self).in_flight() - 1,
            !taken ==> final(self).ended() == old(self).ended() && final(self).in_flight() == old(
                self,
            ).in_flight(),
    {
        if i < self.dispatched && !self.done[i] {
            proof {
                lemma_open_count_close(self.done@, self.dispatched as int, i as int);
            }
            self.done.set(i, true);
            self.limiter.release();
            true
        } else {
            false
        }
    }
}

proof fn lemma_all_ended(done: Seq<bool>, upto: int)
    requires
        forall|k: int| 0 <= k < upto ==> done[k],
    ensures
        open_count(done, upto) == 0,
    decreases upto,
{
    if upto > 0 {
        lemma_all_ended(done, upto - 1);
    }
}

} // verus!
