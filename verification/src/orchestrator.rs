//! The phases of a run and the order in which they follow one another.

use crate::error::ScanError;
use crate::target::{Target, TargetType};
use vstd::prelude::*;

verus! {

/// The kind of a target, which decides the path of a run.
#[derive(Debug, Clone, Copy, PartialEq, Eq)]
pub enum TargetKind {
    Url,
    Ip,
    Repo,
}

/// Where a run stands. Phases follow one another and never overlap: the port
/// scanner reads what the enumeration persisted.
#[derive(Debug, PartialEq, Eq)]
pub enum Phase {
    Idle,
    ResolvingTarget,
    EnumeratingSubdomains,
    ExtractingHosts,
    ScanningPorts,
    /// The run ended well.
    Done,
    /// The run ended with this error, the first that could not be recovered
    /// from.
    Failed(ScanError),
}

/// What happened in the current phase.
#[derive(Debug, PartialEq, Eq)]
pub enum Event {
    /// The run begins.
    Begun,
    /// The target was validated and is of this kind.
    Resolved(TargetKind),
    /// The work of the current phase is done.
    Completed,
    /// The current phase met an error it cannot recover from.
    Broke(ScanError),
}

/// The kind of a target.
pub open spec fn kind_of(target: Target) -> TargetKind {
    match target.target_type {
        TargetType::Url(_) => TargetKind::Url,
        TargetType::Ip(_) => TargetKind::Ip,
        TargetType::Repo(_) => TargetKind::Repo,
    }
}

impl Target {
    /// The kind of this target.
    pub fn kind(&self) -> (k: TargetKind)
        ensures
            k == kind_of(*self),
    {
        match &self.target_type {
            TargetType::Url(_) => TargetKind::Url,
            TargetType::Ip(_) => TargetKind::Ip,
            TargetType::Repo(_) => TargetKind::Repo,
        }
    }
}

impl Phase {
    /// A run that is over stays as it is.
    pub open spec fn is_terminal(&self) -> bool {
        self is Done || self is Failed
    }

    /// How far along a run is.
    pub open spec fn rank(&self) -> nat {
        match self {
            Phase::Idle => 0,
            Phase::ResolvingTarget => 1,
            Phase::EnumeratingSubdomains => 2,
            Phase::ExtractingHosts => 3,
            Phase::ScanningPorts => 4,
            Phase::Done => 5,
            Phase::Failed(_) => 5,
        }
    }

    /// The phase that follows `self` on `event`. A URL is enumerated, its
    /// hosts extracted and their ports scanned; an address goes straight to
    /// the port scan; a repository ends the run at once. An error ends the
    /// run where it stands. An event that does not belong to the phase
    /// changes nothing.
    pub open spec fn next(self, event: Event) -> Phase {
        match (self, event) {
            (Phase::Done, _) => Phase::Done,
            (Phase::Failed(first), _) => Phase::Failed(first),
            (_, Event::Broke(e)) => Phase::Failed(e),
            (Phase::Idle, Event::Begun) => Phase::ResolvingTarget,
            (Phase::ResolvingTarget, Event::Resolved(TargetKind::Url)) => {
                Phase::EnumeratingSubdomains
            },
            (Phase::ResolvingTarget, Event::Resolved(TargetKind::Ip)) => Phase::ScanningPorts,
            (Phase::ResolvingTarget, Event::Resolved(TargetKind::Repo)) => Phase::Done,
            (Phase::EnumeratingSubdomains, Event::Completed) => Phase::ExtractingHosts,
            (Phase::ExtractingHosts, Event::Completed) => Phase::ScanningPorts,
            (Phase::ScanningPorts, Event::Completed) => Phase::Done,
            (phase, _) => phase,
        }
    }

    /// Whether the run is over, well or not.
    pub fn is_over(&self) -> (b: bool)
        ensures
            b == self.is_terminal(),
    {
        match self {
            Phase::Done => true,
            Phase::Failed(_) => true,
            _ => false,
        }
    }

    /// Moves the run on by one event.
    pub fn advance(self, event: Event) -> (next: Phase)
        ensures
            next == self.next(event),
    {
        match (self, event) {
            (Phase::Done, _) => Phase::Done,
            (Phase::Failed(first), _) => Phase::Failed(first),
            (_, Event::Broke(e)) => Phase::Failed(e),
            (Phase::Idle, Event::Begun) => Phase::ResolvingTarget,
            (Phase::ResolvingTarget, Event::Resolved(TargetKind::Url)) => {
                Phase::EnumeratingSubdomains
            },
            (Phase::ResolvingTarget, Event::Resolved(TargetKind::Ip)) => Phase::ScanningPorts,
            (Phase::ResolvingTarget, Event::Resolved(TargetKind::Repo)) => Phase::Done,
            (Phase::EnumeratingSubdomains, Event::Completed) => Phase::ExtractingHosts,
            (Phase::ExtractingHosts, Event::Completed) => Phase::ScanningPorts,
            (Phase::ScanningPorts, Event::Completed) => Phase::Done,
            (phase, _) => phase,
        }
    }

    /// A run never goes back; a run that is over stays as it is, so a failed
    /// run keeps the error it failed with first; a run fails exactly on an
    /// error; and no phase is passed over, but where the kind of the target
    /// decides the path.
    pub proof fn lemma_sequential(self, event: Event)
        ensures
            self.next(event).rank() >= self.rank(),
            self.is_terminal() ==> self.next(event) == self,
            !self.is_terminal() ==> (self.next(event) is Failed <==> event is Broke),
            !(self is ResolvingTarget) && !(event is Broke) ==> self.next(event).rank()
                <= self.rank() + 1,
    {
    }
}

} // verus!
