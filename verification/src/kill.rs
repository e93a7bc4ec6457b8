//! Stopping Discord before anything underneath it is deleted.
//!
//! Processes are matched on their executable path only, never on a command
//! line: an editor with a Discord path open, or a build in a directory called
//! `discord-fixer`, is not Discord.
//!
//! The stop escalates: a polite request to terminate, a wait, then a kill
//! for whatever is left, another wait, and finally a short wait for
//! Electron's singleton lock to go. The decisions are a state machine
//! ([`Stopper`]); the caller signals the processes and does the waiting.
use vstd::prelude::*;
use crate::discord::{spec_matches_process, Flavor, TargetOs};
use crate::path::opt_view;

verus! {

/// What the stop of one install achieved.
#[derive(Debug, Clone, Copy, PartialEq, Eq, Structural)]
pub struct KillReport {
    pub was_running: bool,
    /// Processes that exited after a polite request.
    pub stopped_gracefully: usize,
    /// Processes that had to be killed outright.
    pub force_killed: usize,
    /// Processes still alive when the stop gave up. Deleting under these is
    /// likely to fail on Windows.
    pub survivors: usize,
}

/// The report of a stop that found nothing.
pub open spec fn empty_kill_report() -> KillReport {
    KillReport { was_running: false, stopped_gracefully: 0, force_killed: 0, survivors: 0 }
}

impl Default for KillReport {
    fn default() -> (r: KillReport)
        ensures
            r == empty_kill_report(),
    {
        KillReport { was_running: false, stopped_gracefully: 0, force_killed: 0, survivors: 0 }
    }
}

impl KillReport {
    /// Nothing was left running.
    pub fn all_stopped(&self) -> (r: bool)
        ensures
            r == (self.survivors == 0),
    {
        self.survivors == 0
    }
}

/// The indices of the processes, given by their executable paths (`None`
/// where the path could not be read), that belong to `flavor`.
pub open spec fn spec_matching(flavor: Flavor, os: TargetOs, exes: Seq<Option<Seq<char>>>) -> Seq<
    int,
>
    decreases exes.len(),
{
    if exes.len() == 0 {
        seq![]
    } else {
        spec_matching(flavor, os, exes.drop_last()) + match exes.last() {
            Some(exe) => if spec_matches_process(flavor, exe, os) {
                seq![exes.len() - 1]
            } else {
                seq![]
            },
            None => seq![],
        }
    }
}

/// The views of optional strings.
pub open spec fn opt_views(v: Seq<Option<String>>) -> Seq<Option<Seq<char>>> {
    v.map_values(|o: Option<String>| opt_view(o))
}

/// Picks, in order, the processes whose executable belongs to `flavor`.
pub fn matching(flavor: Flavor, os: TargetOs, exes: &Vec<Option<String>>) -> (r: Vec<usize>)
    ensures
        r@.map_values(|i: usize| i as int) == spec_matching(flavor, os, opt_views(exes@)),
{
    let mut r: Vec<usize> = Vec::new();
    let mut i: usize = 0;
    let ghost all = opt_views(exes@);
    assert(all.take(0) =~= Seq::<Option<Seq<char>>>::empty());
    while i < exes.len()
        invariant
            i <= exes.len(),
            all == opt_views(exes@),
            r@.map_values(|k: usize| k as int) == spec_matching(flavor, os, all.take(i as int)),
        decreases exes.len() - i,
    {
        assert(all.take(i + 1).drop_last() =~= all.take(i as int));
        let ghost before = r@.map_values(|k: usize| k as int);
        match &exes[i] {
            Some(exe) => {
                if flavor.matches_process(exe.as_str(), os) {
                    r.push(i);
                    assert(r@.map_values(|k: usize| k as int) =~= before.push(i as int));
                }
            },
            None => {},
        }
        i = i + 1;
        assert(r@.map_values(|k: usize| k as int) =~= spec_matching(flavor, os, all.take(i as int)));
    }
    assert(all.take(i as int) =~= all);
    r
}

/// Where a stop stands.
#[derive(Debug, Clone, Copy, PartialEq, Eq, Structural)]
pub enum StopPhase {
    /// The matching processes are being looked for.
    Finding,
    /// `found` processes were asked to terminate; waiting for them to go.
    Terminating { found: usize },
    /// `remaining` processes did not go and are being killed.
    Killing { remaining: usize },
    /// Everything stopped; waiting for the singleton lock to be released.
    Releasing,
    /// The stop is over.
    Done,
}

/// What the caller does next for a stop.
#[derive(Debug, Clone, Copy, PartialEq, Eq, Structural)]
pub enum StopAction {
    /// Look for the processes of the install and count them.
    FindProcesses,
    /// Ask the processes found to terminate, wait up to eight seconds for
    /// them to exit, and count those still alive.
    Terminate,
    /// Kill the processes still alive, wait up to five seconds, and count
    /// those still alive.
    ForceKill,
    /// Wait up to three seconds for the install's singleton lock to go.
    AwaitLockRelease,
    /// Nothing: the report is final.
    Finished,
}

/// What the caller reports back.
#[derive(Debug, Clone, Copy, PartialEq, Eq, Structural)]
pub enum StopEvent {
    /// This many matching processes are (still) alive.
    Counted(usize),
    /// The wait for the lock is over.
    LockWaited,
}

/// The stop of one install in progress.
#[derive(Debug, Clone, Copy, PartialEq, Eq, Structural)]
pub struct Stopper {
    pub dry_run: bool,
    /// How many processes were found at first.
    pub found: usize,
    pub phase: StopPhase,
    pub report: KillReport,
}

/// Starts a stop. In a dry run nothing is signalled: the processes found
/// are reported as if they had stopped politely.
pub fn stop(dry_run: bool) -> (r: Stopper)
    ensures
        r == (Stopper {
            dry_run,
            found: 0,
            phase: StopPhase::Finding,
            report: empty_kill_report(),
        }),
{
    Stopper { dry_run, found: 0, phase: StopPhase::Finding, report: KillReport::default() }
}

/// The action a stop asks for.
pub open spec fn spec_stop_action(s: Stopper) -> StopAction {
    match s.phase {
        StopPhase::Finding => StopAction::FindProcesses,
        StopPhase::Terminating { .. } => StopAction::Terminate,
        StopPhase::Killing { .. } => StopAction::ForceKill,
        StopPhase::Releasing => StopAction::AwaitLockRelease,
        StopPhase::Done => StopAction::Finished,
    }
}

/// An event the stop can take in its phase: a count may not exceed the
/// processes it counts again.
pub open spec fn stop_event_fits(s: Stopper, e: StopEvent) -> bool {
    match (s.phase, e) {
        (StopPhase::Terminating { found }, StopEvent::Counted(n)) => n <= found,
        (StopPhase::Killing { remaining }, StopEvent::Counted(n)) => n <= remaining,
        _ => true,
    }
}

/// The stop after an event; an event of the wrong kind changes nothing.
pub open spec fn spec_stop_next(s: Stopper, e: StopEvent) -> Stopper {
    match (s.phase, e) {
        (StopPhase::Finding, StopEvent::Counted(n)) => if n == 0 {
            Stopper { phase: StopPhase::Done, ..s }
        } else if s.dry_run {
            Stopper {
                found: n,
                phase: StopPhase::Done,
                report: KillReport { was_running: true, stopped_gracefully: n, ..s.report },
                ..s
            }
        } else {
            Stopper {
                found: n,
                phase: StopPhase::Terminating { found: n },
                report: KillReport { was_running: true, ..s.report },
                ..s
            }
        },
        (StopPhase::Terminating { found }, StopEvent::Counted(n)) => {
            let report = KillReport { stopped_gracefully: (found - n) as usize, ..s.report };
            if n > 0 {
                Stopper { phase: StopPhase::Killing { remaining: n }, report, ..s }
            } else {
                Stopper { phase: StopPhase::Releasing, report, ..s }
            }
        },
        (StopPhase::Killing { remaining }, StopEvent::Counted(n)) => {
            let report = KillReport { force_killed: (remaining - n) as usize, survivors: n, ..s.report };
            if n == 0 {
                Stopper { phase: StopPhase::Releasing, report, ..s }
            } else {
                Stopper { phase: StopPhase::Done, report, ..s }
            }
        },
        (StopPhase::Releasing, StopEvent::LockWaited) => Stopper { phase: StopPhase::Done, ..s },
        _ => s,
    }
}

impl Stopper {
    /// What the caller does next.
    pub fn action(&self) -> (r: StopAction)
        ensures
            r == spec_stop_action(*self),
    {
        match self.phase {
            StopPhase::Finding => StopAction::FindProcesses,
            StopPhase::Terminating { .. } => StopAction::Terminate,
            StopPhase::Killing { .. } => StopAction::ForceKill,
            StopPhase::Releasing => StopAction::AwaitLockRelease,
            StopPhase::Done => StopAction::Finished,
        }
    }

    /// Takes what the caller saw after the last action.
    pub fn on_event(self, e: StopEvent) -> (r: Stopper)
        requires
            stop_event_fits(self, e),
        ensures
            r == spec_stop_next(self, e),
    {
        let s = self;
        match (s.phase, e) {
            (StopPhase::Finding, StopEvent::Counted(n)) => if n == 0 {
                Stopper { phase: StopPhase::Done, ..s }
            } else if s.dry_run {
                Stopper {
                    found: n,
                    phase: StopPhase::Done,
                    report: KillReport { was_running: true, stopped_gracefully: n, ..s.report },
                    ..s
                }
            } else {
                Stopper {
                    found: n,
                    phase: StopPhase::Terminating { found: n },
                    report: KillReport { was_running: true, ..s.report },
                    ..s
                }
            },
            (StopPhase::Terminating { found }, StopEvent::Counted(n)) => {
                let report = KillReport { stopped_gracefully: found - n, ..s.report };
                if n > 0 {
                    Stopper { phase: StopPhase::Killing { remaining: n }, report, ..s }
                } else {
                    Stopper { phase: StopPhase::Releasing, report, ..s }
                }
            },
            (StopPhase::Killing { remaining }, StopEvent::Counted(n)) => {
                let report = KillReport { force_killed: remaining - n, survivors: n, ..s.report };
                if n == 0 {
                    Stopper { phase: StopPhase::Releasing, report, ..s }
                } else {
                    Stopper { phase: StopPhase::Done, report, ..s }
                }
            },
            (StopPhase::Releasing, StopEvent::LockWaited) => Stopper { phase: StopPhase::Done, ..s },
            _ => s,
        }
    }

    /// The report, final once the action is [`StopAction::Finished`].
    pub fn report(&self) -> (r: KillReport)
        ensures
            r == self.report,
    {
        self.report
    }
}

/// Every process a stop found is accounted for: as stopped politely, as
/// killed, as a survivor, or as still being waited for.
pub open spec fn accounted(s: Stopper) -> bool {
    let r = s.report;
    match s.phase {
        StopPhase::Finding => r == empty_kill_report() && s.found == 0,
        StopPhase::Terminating { found } => {
            &&& found == s.found
            &&& found > 0
            &&& r == KillReport { was_running: true, ..empty_kill_report() }
            &&& !s.dry_run
        },
        StopPhase::Killing { remaining } => {
            &&& r.was_running
            &&& !s.dry_run
            &&& remaining > 0
            &&& r.stopped_gracefully + remaining == s.found
            &&& r.force_killed == 0
            &&& r.survivors == 0
        },
        StopPhase::Releasing => {
            &&& r.was_running
            &&& !s.dry_run
            &&& r.survivors == 0
            &&& s.found > 0
            &&& r.stopped_gracefully + r.force_killed == s.found
        },
        StopPhase::Done => {
            &&& r.was_running <==> s.found > 0
            &&& r.stopped_gracefully + r.force_killed + r.survivors == s.found
            &&& s.dry_run ==> r.force_killed == 0 && r.survivors == 0
        },
    }
}

/// A stop starts balanced and every event keeps it so: in the end, the
/// processes stopped politely, killed and surviving add up to those found,
/// and a dry run kills nothing.
pub proof fn lemma_stop_accounts_for_every_process(s: Stopper, e: StopEvent)
    requires
        accounted(s),
        stop_event_fits(s, e),
    ensures
        accounted(spec_stop_next(s, e)),
{
}

/// The lock is waited for exactly when every process found went away, and
/// never in a dry run.
pub proof fn lemma_lock_wait_only_when_all_stopped(s: Stopper)
    requires
        accounted(s),
        spec_stop_action(s) == StopAction::AwaitLockRelease,
    ensures
        s.report.survivors == 0,
        s.report.was_running,
        !s.dry_run,
{
}

/// The polite request always comes first: a stop asks to kill processes
/// only right after asking them to terminate, and never in a dry run.
pub proof fn lemma_terminate_before_kill(s: Stopper, e: StopEvent)
    requires
        accounted(s),
        spec_stop_action(spec_stop_next(s, e)) == StopAction::ForceKill,
        spec_stop_action(s) != StopAction::ForceKill,
    ensures
        spec_stop_action(s) == StopAction::Terminate,
        !s.dry_run,
{
}

/// How many steps a stop has left at most.
pub open spec fn stop_pending(s: Stopper) -> int {
    match s.phase {
        StopPhase::Finding => 4,
        StopPhase::Terminating { .. } => 3,
        StopPhase::Killing { .. } => 2,
        StopPhase::Releasing => 1,
        StopPhase::Done => 0,
    }
}

/// The event a stop's action waits for.
pub open spec fn stop_awaited(s: Stopper, e: StopEvent) -> bool {
    match (s.phase, e) {
        (StopPhase::Releasing, StopEvent::LockWaited) => true,
        (StopPhase::Done, _) => false,
        (StopPhase::Releasing, _) => false,
        (_, StopEvent::Counted(_)) => true,
        _ => false,
    }
}

/// Every awaited event moves a stop on: it ends after at most four.
pub proof fn lemma_stop_progress(s: Stopper, e: StopEvent)
    requires
        stop_awaited(s, e),
        stop_event_fits(s, e),
    ensures
        0 <= stop_pending(spec_stop_next(s, e)) < stop_pending(s),
{
}

} // verus!
