//! The fix itself: stop Discord, delete its caches, start it again.
//!
//! Shared by the window and the terminal, so there is one description of
//! what fixing Discord means. A [`Job`] decides; the caller stops, cleans
//! and launches when asked, reports back, and shows the progress lines the
//! job hands out.
use vstd::prelude::*;
use crate::clean::{
    count_removed, problems_of, sum_freed, unit_result_view, Item, ItemModel, Outcome, OutcomeModel,
    Report,
};
use crate::discord::{spec_label, Install, Scope};
use crate::kill::KillReport;
use crate::text::string_views;
use crate::units::{decimal, format_bytes, push_decimal, spec_format_bytes};
use std::time::Duration;

verus! {

/// What a fix does.
#[derive(Debug, Clone, Copy, PartialEq, Eq, Structural)]
pub struct Options {
    pub scope: Scope,
    pub relaunch: bool,
    pub dry_run: bool,
}

/// A line of progress for a person to read.
#[derive(Debug, Clone)]
pub struct Step(pub String);

/// `Duration` is `Copy`; its `clone` gives the same duration.
pub assume_specification[ <Duration as Clone>::clone ](d: &Duration) -> (r: Duration)
    ensures
        r == *d,
;

/// `Duration::default` gives a duration; nothing more is stated of it here.
pub assume_specification[ <Duration as Default>::default ]() -> Duration;

/// How a fix went.
#[derive(Debug, Clone)]
pub struct Summary {
    pub report: Report,
    /// Things that did not go to plan but did not stop the fix either.
    pub warnings: Vec<String>,
    pub elapsed: Duration,
    pub relaunched: bool,
}

/// The one-line result, which is all most people read.
pub open spec fn spec_headline(items: Seq<ItemModel>, dry_run: bool) -> Seq<char> {
    let size = spec_format_bytes(sum_freed(items));
    let count = decimal(count_removed(items));
    if dry_run {
        "Would clear "@ + count + " items ("@ + size + ")"@
    } else if count_removed(items) == 0 {
        "Nothing to clear — Discord's caches were already empty"@
    } else {
        "Cleared "@ + count + " items, freeing "@ + size
    }
}

impl Default for Summary {
    /// The summary of a fix that did nothing.
    fn default() -> (r: Summary)
        ensures
            r.report@ == Seq::<ItemModel>::empty(),
            r.warnings@ == Seq::<String>::empty(),
            !r.relaunched,
    {
        Summary {
            report: Report::default(),
            warnings: Vec::new(),
            elapsed: Duration::default(),
            relaunched: false,
        }
    }
}

impl Summary {
    /// The bytes freed over every install. Their sum must fit in a `u64`.
    pub fn bytes_freed(&self) -> (r: u64)
        requires
            sum_freed(self.report@) <= u64::MAX,
        ensures
            r == sum_freed(self.report@),
    {
        self.report.bytes_freed()
    }

    /// The one-line result. The bytes freed must fit in a `u64`.
    pub fn headline(&self, dry_run: bool) -> (r: String)
        requires
            sum_freed(self.report@) <= u64::MAX,
        ensures
            r@ == spec_headline(self.report@, dry_run),
    {
        let size = format_bytes(self.bytes_freed());
        let count = self.report.removed_count();
        let mut out = String::new();
        if dry_run {
            out.append("Would clear ");
            push_decimal(&mut out, count as u128);
            out.append(" items (");
            out.append(size.as_str());
            out.append(")");
        } else if count == 0 {
            out.append("Nothing to clear — Discord's caches were already empty");
        } else {
            out.append("Cleared ");
            push_decimal(&mut out, count as u128);
            out.append(" items, freeing ");
            out.append(size.as_str());
        }
        out
    }
}

/// What the stop of an install did, in words.
pub open spec fn spec_describe_kill(label: Seq<char>, kill: KillReport) -> Seq<char> {
    let total = decimal((kill.stopped_gracefully + kill.force_killed) as nat);
    let head = "Stopped "@ + total + " "@ + label + " process(es)"@;
    if !kill.was_running {
        label + " wasn't running"@
    } else if kill.force_killed > 0 {
        head + " ("@ + decimal(kill.force_killed as nat) + " forced)"@
    } else {
        head
    }
}

/// What the stop of the install labelled `label` did, in words.
pub fn describe_kill(label: &str, kill: &KillReport) -> (r: String)
    ensures
        r@ == spec_describe_kill(label@, *kill),
{
    let mut out = String::new();
    if !kill.was_running {
        out.append(label);
        out.append(" wasn't running");
        assert(out@ =~= spec_describe_kill(label@, *kill));
        return out;
    }
    let total: u128 = kill.stopped_gracefully as u128 + kill.force_killed as u128;
    out.append("Stopped ");
    push_decimal(&mut out, total);
    out.append(" ");
    out.append(label);
    out.append(" process(es)");
    let ghost head = "Stopped "@ + decimal(total as nat) + " "@ + label@ + " process(es)"@;
    assert(out@ =~= head);
    if kill.force_killed > 0 {
        out.append(" (");
        push_decimal(&mut out, kill.force_killed as u128);
        out.append(" forced)");
        assert(out@ =~= head + " ("@ + decimal(kill.force_killed as nat) + " forced)"@);
    }
    assert(out@ =~= spec_describe_kill(label@, *kill));
    out
}

/// What became of a target, in words.
pub open spec fn spec_describe(o: OutcomeModel) -> Seq<char> {
    match o {
        OutcomeModel::Refused(why) => "skipped — "@ + why,
        OutcomeModel::Failed(why) => "couldn't delete — "@ + why,
        OutcomeModel::Removed { bytes } => "removed "@ + spec_format_bytes(bytes as nat),
        OutcomeModel::NotPresent => "not present"@,
    }
}

/// What became of a target, in words.
pub fn describe(outcome: &Outcome) -> (r: String)
    ensures
        r@ == spec_describe(outcome@),
{
    let mut out = String::new();
    match outcome {
        Outcome::Refused(why) => {
            out.append("skipped — ");
            out.append(why.as_str());
        },
        Outcome::Failed(why) => {
            out.append("couldn't delete — ");
            out.append(why.as_str());
        },
        Outcome::Removed { bytes } => {
            out.append("removed ");
            let size = format_bytes(*bytes);
            out.append(size.as_str());
        },
        Outcome::NotPresent => {
            out.append("not present");
        },
    }
    out
}

/// The warning for an item that went wrong.
pub open spec fn problem_warning(i: ItemModel) -> Seq<char> {
    i.path + ": "@ + spec_describe(i.outcome)
}

/// The warnings for the items of a clean that went wrong, in order.
pub open spec fn problem_warnings(items: Seq<ItemModel>) -> Seq<Seq<char>> {
    problems_of(items).map_values(|i: ItemModel| problem_warning(i))
}

/// What a clean at `scope` clears, in words.
pub open spec fn spec_what(scope: Scope) -> Seq<char> {
    match scope {
        Scope::Safe => "caches"@,
        Scope::Deep => "caches and stored modules"@,
    }
}

pub open spec fn stopping_line(label: Seq<char>) -> Seq<char> {
    "Stopping "@ + label + "…"@
}

pub open spec fn clearing_line(label: Seq<char>, scope: Scope) -> Seq<char> {
    "Clearing "@ + label + " "@ + spec_what(scope) + "…"@
}

pub open spec fn cleared_line(items: Seq<ItemModel>) -> Seq<char> {
    "Cleared "@ + spec_format_bytes(sum_freed(items)) + " ("@ + decimal(count_removed(items))
        + " items)"@
}

pub open spec fn reopening_line(label: Seq<char>) -> Seq<char> {
    "Reopening "@ + label + "…"@
}

pub open spec fn survivors_warning(label: Seq<char>, n: nat) -> Seq<char> {
    decimal(n) + " process(es) from "@ + label + " wouldn't stop; some files may be locked"@
}

pub open spec fn reopen_warning(label: Seq<char>, e: Seq<char>) -> Seq<char> {
    "Couldn't reopen "@ + label + ": "@ + e
}

/// Where a job stands with its current install.
#[derive(Debug, Clone, Copy, PartialEq, Eq, Structural)]
pub enum JobPhase {
    /// Its processes are being stopped.
    Stopping,
    /// Its caches are being cleared; `was_running` says whether any of its
    /// processes were found.
    Cleaning { was_running: bool },
    /// It is being started again.
    Launching,
    /// Every install is done.
    Done,
}

/// What the caller does next for a job.
#[derive(Debug, Clone, Copy, PartialEq, Eq, Structural)]
pub enum JobAction {
    /// Stop the processes of the install with this index.
    Stop(usize),
    /// Clean the install with this index, at the job's scope.
    Clean(usize),
    /// Start the install with this index again.
    Launch(usize),
    /// Nothing: the summary is ready.
    Finished,
}

/// What the caller reports back.
pub enum JobEvent {
    Stopped(KillReport),
    Cleaned(Report),
    /// Whether the install started, with the reason where it did not.
    Launched(Result<(), String>),
}

pub enum JobEventModel {
    Stopped(KillReport),
    Cleaned(Seq<ItemModel>),
    Launched(Result<(), Seq<char>>),
}

impl View for JobEvent {
    type V = JobEventModel;

    open spec fn view(&self) -> JobEventModel {
        match self {
            JobEvent::Stopped(k) => JobEventModel::Stopped(*k),
            JobEvent::Cleaned(r) => JobEventModel::Cleaned(r@),
            JobEvent::Launched(r) => JobEventModel::Launched(unit_result_view(*r)),
        }
    }
}

/// The state of a job, as mathematical values.
#[verifier::ext_equal]
pub struct JobModel {
    /// The label of each install, in order.
    pub labels: Seq<Seq<char>>,
    pub options: Options,
    /// The install being handled.
    pub index: nat,
    pub phase: JobPhase,
    pub items: Seq<ItemModel>,
    pub warnings: Seq<Seq<char>>,
    pub relaunched: bool,
}

/// The action a job asks for.
pub open spec fn spec_job_action(m: JobModel) -> JobAction {
    match m.phase {
        JobPhase::Stopping => JobAction::Stop(m.index as usize),
        JobPhase::Cleaning { .. } => JobAction::Clean(m.index as usize),
        JobPhase::Launching => JobAction::Launch(m.index as usize),
        JobPhase::Done => JobAction::Finished,
    }
}

/// Moving on from the current install: the next is stopped, or the job is
/// done.
pub open spec fn advanced(m: JobModel) -> (JobModel, Seq<Seq<char>>) {
    if m.index + 1 < m.labels.len() {
        (
            JobModel { index: m.index + 1, phase: JobPhase::Stopping, ..m },
            seq![stopping_line(m.labels[m.index + 1int])],
        )
    } else {
        (JobModel { phase: JobPhase::Done, ..m }, seq![])
    }
}

/// Lines `lines` shown before those of `next`.
pub open spec fn after(lines: Seq<Seq<char>>, next: (JobModel, Seq<Seq<char>>)) -> (
    JobModel,
    Seq<Seq<char>>,
) {
    (next.0, lines + next.1)
}

/// The job after an event, with the progress lines to show; an event of
/// the wrong kind changes nothing.
pub open spec fn spec_job_next(m: JobModel, e: JobEventModel) -> (JobModel, Seq<Seq<char>>) {
    let label = m.labels[m.index as int];
    match (m.phase, e) {
        (JobPhase::Stopping, JobEventModel::Stopped(kill)) => {
            let warnings = if kill.survivors != 0 {
                m.warnings.push(survivors_warning(label, kill.survivors as nat))
            } else {
                m.warnings
            };
            (
                JobModel { phase: JobPhase::Cleaning { was_running: kill.was_running }, warnings, ..m },
                seq![spec_describe_kill(label, kill), clearing_line(label, m.options.scope)],
            )
        },
        (JobPhase::Cleaning { was_running }, JobEventModel::Cleaned(items)) => {
            let m2 = JobModel {
                items: m.items + items,
                warnings: m.warnings + problem_warnings(items),
                ..m
            };
            if m.options.relaunch && was_running && !m.options.dry_run {
                (
                    JobModel { phase: JobPhase::Launching, ..m2 },
                    seq![cleared_line(items), reopening_line(label)],
                )
            } else {
                after(seq![cleared_line(items)], advanced(m2))
            }
        },
        (JobPhase::Launching, JobEventModel::Launched(r)) => {
            let m2 = match r {
                Ok(()) => JobModel { relaunched: true, ..m },
                Err(why) => JobModel { warnings: m.warnings.push(reopen_warning(label, why)), ..m },
            };
            advanced(m2)
        },
        _ => (m, seq![]),
    }
}

/// An event the job can take: the report of a clean must count its bytes
/// in a `u64`.
pub open spec fn job_event_fits(e: JobEventModel) -> bool {
    match e {
        JobEventModel::Cleaned(items) => sum_freed(items) <= u64::MAX,
        _ => true,
    }
}

/// What holds of every state a job passes through.
pub open spec fn job_wf(m: JobModel) -> bool {
    &&& m.labels.len() <= usize::MAX
    &&& (m.phase != JobPhase::Done ==> m.index < m.labels.len())
    &&& (m.phase == JobPhase::Launching ==> m.options.relaunch && !m.options.dry_run)
    &&& (m.relaunched ==> m.options.relaunch && !m.options.dry_run)
}

/// The views of progress lines.
pub open spec fn step_views(v: Seq<Step>) -> Seq<Seq<char>> {
    v.map_values(|s: Step| s.0@)
}

/// The labels of some installs.
pub open spec fn labels_of(installs: Seq<Install>) -> Seq<Seq<char>> {
    installs.map_values(|i: Install| spec_label(i.flavor, i.packaging))
}

/// A fix of some installs in progress.
pub struct Job {
    labels: Vec<String>,
    options: Options,
    index: usize,
    phase: JobPhase,
    report: Report,
    warnings: Vec<String>,
    relaunched: bool,
}

impl View for Job {
    type V = JobModel;

    closed spec fn view(&self) -> JobModel {
        JobModel {
            labels: string_views(self.labels@),
            options: self.options,
            index: self.index as nat,
            phase: self.phase,
            items: self.report@,
            warnings: string_views(self.warnings@),
            relaunched: self.relaunched,
        }
    }
}

fn push_step(steps: &mut Vec<Step>, line: String)
    ensures
        step_views(final(steps)@) == step_views(old(steps)@).push(line@),
{
    let ghost before = steps@;
    steps.push(Step(line));
    assert(step_views(steps@) =~= step_views(before).push(line@));
}

fn push_warning(warnings: &mut Vec<String>, w: String)
    ensures
        string_views(final(warnings)@) == string_views(old(warnings)@).push(w@),
{
    let ghost before = warnings@;
    warnings.push(w);
    assert(string_views(warnings@) =~= string_views(before).push(w@));
}

fn stopping_line_of(label: &String) -> (r: String)
    ensures
        r@ == stopping_line(label@),
{
    let mut out = String::new();
    out.append("Stopping ");
    out.append(label.as_str());
    out.append("…");
    out
}

fn cleared_line_of(report: &Report) -> (r: String)
    requires
        sum_freed(report@) <= u64::MAX,
    ensures
        r@ == cleared_line(report@),
{
    let size = format_bytes(report.bytes_freed());
    let mut out = String::new();
    out.append("Cleared ");
    out.append(size.as_str());
    out.append(" (");
    push_decimal(&mut out, report.removed_count() as u128);
    out.append(" items)");
    out
}

/// Starts a fix of `installs`, in order. Returns the job and the first
/// progress lines to show.
pub fn run(installs: &Vec<Install>, options: Options) -> (r: (Job, Vec<Step>))
    ensures
        r.0@ == (JobModel {
            labels: labels_of(installs@),
            options,
            index: 0,
            phase: if installs@.len() > 0 {
                JobPhase::Stopping
            } else {
                JobPhase::Done
            },
            items: Seq::empty(),
            warnings: Seq::empty(),
            relaunched: false,
        }),
        step_views(r.1@) == if installs@.len() > 0 {
            seq![stopping_line(labels_of(installs@)[0])]
        } else {
            Seq::<Seq<char>>::empty()
        },
{
    let mut labels: Vec<String> = Vec::new();
    let mut i: usize = 0;
    while i < installs.len()
        invariant
            i <= installs.len(),
            string_views(labels@) == labels_of(installs@).take(i as int),
        decreases installs.len() - i,
    {
        let ghost before = labels@;
        labels.push(installs[i].label());
        i = i + 1;
        assert(string_views(labels@) =~= labels_of(installs@).take(i as int)) by {
            assert(string_views(labels@) =~= string_views(before).push(labels@[i - 1]@));
        }
    }
    assert(labels_of(installs@).take(i as int) =~= labels_of(installs@));
    let mut steps: Vec<Step> = Vec::new();
    let phase = if labels.len() > 0 {
        let first = stopping_line_of(&labels[0]);
        push_step(&mut steps, first);
        JobPhase::Stopping
    } else {
        JobPhase::Done
    };
    assert(step_views(Seq::<Step>::empty()) =~= Seq::<Seq<char>>::empty());
    let job = Job {
        labels,
        options,
        index: 0,
        phase,
        report: Report::default(),
        warnings: Vec::new(),
        relaunched: false,
    };
    assert(string_views(Seq::<String>::empty()) =~= Seq::<Seq<char>>::empty());
    assert(job@ =~= JobModel {
        labels: labels_of(installs@),
        options,
        index: 0,
        phase: job.phase,
        items: Seq::empty(),
        warnings: Seq::empty(),
        relaunched: false,
    });
    (job, steps)
}

impl Job {
    #[verifier::type_invariant]
    spec fn inv(self) -> bool {
        job_wf(self@)
    }

    /// What the caller does next.
    pub fn action(&self) -> (r: JobAction)
        ensures
            r == spec_job_action(self@),
            job_wf(self@),
    {
        proof {
            use_type_invariant(self);
        }
        match self.phase {
            JobPhase::Stopping => JobAction::Stop(self.index),
            JobPhase::Cleaning { .. } => JobAction::Clean(self.index),
            JobPhase::Launching => JobAction::Launch(self.index),
            JobPhase::Done => JobAction::Finished,
        }
    }

    /// Takes what the caller saw after the last action. Returns the job and
    /// the progress lines to show, in order.
    pub fn on_event(self, e: JobEvent) -> (r: (Job, Vec<Step>))
        requires
            job_event_fits(e@),
        ensures
            r.0@ == spec_job_next(self@, e@).0,
            step_views(r.1@) == spec_job_next(self@, e@).1,
            job_wf(r.0@),
    {
        proof {
            use_type_invariant(&self);
        }
        let ghost m = self@;
        let Job { labels, options, index, phase, mut report, mut warnings, mut relaunched } = self;
        let mut steps: Vec<Step> = Vec::new();
        assert(step_views(steps@) =~= Seq::<Seq<char>>::empty());
        let mut phase = phase;
        let mut index = index;
        let mut advance = false;
        match (phase, e) {
            (JobPhase::Stopping, JobEvent::Stopped(kill)) => {
                let label = &labels[index];
                if kill.survivors != 0 {
                    let mut w = String::new();
                    push_decimal(&mut w, kill.survivors as u128);
                    w.append(" process(es) from ");
                    w.append(label.as_str());
                    w.append(" wouldn't stop; some files may be locked");
                    push_warning(&mut warnings, w);
                }
                push_step(&mut steps, describe_kill(label.as_str(), &kill));
                let mut clearing = String::new();
                clearing.append("Clearing ");
                clearing.append(label.as_str());
                clearing.append(" ");
                clearing.append(
                    match options.scope {
                        Scope::Safe => "caches",
                        Scope::Deep => "caches and stored modules",
                    },
                );
                clearing.append("…");
                push_step(&mut steps, clearing);
                phase = JobPhase::Cleaning { was_running: kill.was_running };
            },
            (JobPhase::Cleaning { was_running }, JobEvent::Cleaned(cleaned)) => {
                let ghost items = cleaned@;
                let problems = cleaned.problems();
                let mut k: usize = 0;
                let ghost start = string_views(warnings@);
                assert(problem_warnings(items).take(0) =~= Seq::<Seq<char>>::empty());
                while k < problems.len()
                    invariant
                        k <= problems.len(),
                        problems@.map_values(|i: &Item| i@) == problems_of(items),
                        string_views(warnings@) == start + problem_warnings(items).take(k as int),
                    decreases problems.len() - k,
                {
                    let item: &Item = problems[k];
                    let mut w = String::new();
                    w.append(item.path.as_str());
                    w.append(": ");
                    let d = describe(&item.outcome);
                    w.append(d.as_str());
                    assert(item@ == problems_of(items)[k as int]);
                    push_warning(&mut warnings, w);
                    k = k + 1;
                    assert(string_views(warnings@) =~= start + problem_warnings(items).take(k as int));
                }
                assert(problem_warnings(items).take(k as int) =~= problem_warnings(items));
                push_step(&mut steps, cleared_line_of(&cleaned));
                let ghost before = report@;
                report.merge(cleaned);
                if options.relaunch && was_running && !options.dry_run {
                    let mut line = String::new();
                    line.append("Reopening ");
                    line.append(labels[index].as_str());
                    line.append("…");
                    push_step(&mut steps, line);
                    phase = JobPhase::Launching;
                } else {
                    advance = true;
                }
            },
            (JobPhase::Launching, JobEvent::Launched(r)) => {
                match r {
                    Ok(()) => {
                        relaunched = true;
                    },
                    Err(why) => {
                        let mut w = String::new();
                        w.append("Couldn't reopen ");
                        w.append(labels[index].as_str());
                        w.append(": ");
                        w.append(why.as_str());
                        push_warning(&mut warnings, w);
                    },
                }
                advance = true;
            },
            _ => {},
        }
        if advance {
            if index + 1 < labels.len() {
                index = index + 1;
                let line = stopping_line_of(&labels[index]);
                push_step(&mut steps, line);
                phase = JobPhase::Stopping;
            } else {
                phase = JobPhase::Done;
            }
        }
        let job = Job { labels, options, index, phase, report, warnings, relaunched };
        assert(job@ =~= spec_job_next(m, e@).0);
        assert(step_views(steps@) =~= spec_job_next(m, e@).1);
        (job, steps)
    }

    /// The summary of the fix, which took `elapsed`; complete once the
    /// action is [`JobAction::Finished`].
    pub fn finish(self, elapsed: Duration) -> (r: Summary)
        ensures
            r.report@ == self@.items,
            string_views(r.warnings@) == self@.warnings,
            r.relaunched == self@.relaunched,
            r.elapsed == elapsed,
    {
        Summary {
            report: self.report,
            warnings: self.warnings,
            elapsed,
            relaunched: self.relaunched,
        }
    }
}

/// A job never starts an install again in a dry run or when asked not to,
/// whatever the disk and the processes report.
pub proof fn lemma_no_relaunch_unless_asked(m: JobModel, e: JobEventModel)
    requires
        job_wf(m),
    ensures
        spec_job_action(spec_job_next(m, e).0) is Launch ==> m.options.relaunch
            && !m.options.dry_run,
        spec_job_next(m, e).0.relaunched ==> m.options.relaunch && !m.options.dry_run,
{
}

/// Only what was closed is reopened: a job asks to start an install again
/// only right after cleaning an install whose processes it found running.
pub proof fn lemma_reopens_only_what_it_closed(m: JobModel, e: JobEventModel)
    requires
        job_wf(m),
        !(spec_job_action(m) is Launch),
        spec_job_action(spec_job_next(m, e).0) is Launch,
    ensures
        m.phase == (JobPhase::Cleaning { was_running: true }),
        e is Cleaned,
        spec_job_next(m, e).0.index == m.index,
{
}

/// A job keeps every item of every clean, in order, and never loses a
/// warning: each event only appends to both.
pub proof fn lemma_job_only_appends(m: JobModel, e: JobEventModel)
    requires
        job_wf(m),
    ensures
        spec_job_next(m, e).0.items == m.items + match e {
            JobEventModel::Cleaned(items) => if m.phase is Cleaning {
                items
            } else {
                Seq::empty()
            },
            _ => Seq::empty(),
        },
        m.warnings.is_prefix_of(spec_job_next(m, e).0.warnings),
        spec_job_next(m, e).0.labels == m.labels,
        spec_job_next(m, e).0.options == m.options,
{
    assert(m.items + Seq::<ItemModel>::empty() =~= m.items);
    assert(m.warnings.is_prefix_of(m.warnings + problem_warnings(Seq::empty())));
}

/// Every state a job passes through is well formed.
pub proof fn lemma_job_keeps_wf(m: JobModel, e: JobEventModel)
    requires
        job_wf(m),
    ensures
        job_wf(spec_job_next(m, e).0),
{
}

/// The event a job's action waits for.
pub open spec fn awaited(m: JobModel, e: JobEventModel) -> bool {
    match (m.phase, e) {
        (JobPhase::Stopping, JobEventModel::Stopped(_)) => true,
        (JobPhase::Cleaning { .. }, JobEventModel::Cleaned(_)) => true,
        (JobPhase::Launching, JobEventModel::Launched(_)) => true,
        _ => false,
    }
}

/// How much of a job is left.
pub open spec fn job_pending(m: JobModel) -> int {
    let left = 3 * (m.labels.len() - m.index);
    match m.phase {
        JobPhase::Stopping => left,
        JobPhase::Cleaning { .. } => left - 1,
        JobPhase::Launching => left - 2,
        JobPhase::Done => 0,
    }
}

/// Every awaited event brings a job closer to its end, so a fix of finitely
/// many installs always finishes.
pub proof fn lemma_job_progress(m: JobModel, e: JobEventModel)
    requires
        job_wf(m),
        awaited(m, e),
    ensures
        0 <= job_pending(spec_job_next(m, e).0) < job_pending(m),
{
}

/// The action after those for install `i`: the next install is stopped, or,
/// after the last, the job is finished.
pub open spec fn next_install(i: usize, n: nat) -> JobAction {
    if i + 1 < n {
        JobAction::Stop((i + 1) as usize)
    } else {
        JobAction::Finished
    }
}

/// Action `b` may come right after action `a` in a job of `n` installs:
/// an install is stopped, then cleaned, then perhaps started again, and
/// only then is the next one stopped.
pub open spec fn action_follows(a: JobAction, b: JobAction, n: nat) -> bool {
    match a {
        JobAction::Stop(i) => b == JobAction::Clean(i),
        JobAction::Clean(i) => b == JobAction::Launch(i) || b == next_install(i, n),
        JobAction::Launch(i) => b == next_install(i, n),
        JobAction::Finished => false,
    }
}

/// The order of a fix: it starts by stopping the first install (or is
/// finished at once when there is none); an awaited event moves it to the
/// action that follows, so each install is stopped once, then cleaned once,
/// then started again at most once, before anything is done to the next;
/// any other event changes nothing.
pub proof fn lemma_job_order(m: JobModel, e: JobEventModel)
    requires
        job_wf(m),
    ensures
        awaited(m, e) ==> action_follows(
            spec_job_action(m),
            spec_job_action(spec_job_next(m, e).0),
            m.labels.len(),
        ),
        !awaited(m, e) ==> spec_job_next(m, e).0 == m && spec_job_next(m, e).1.len() == 0,
        m.index == 0 && m.phase == JobPhase::Stopping ==> spec_job_action(m) == JobAction::Stop(0),
{
}

/// A job after the events `es`, in order.
pub open spec fn job_after(m: JobModel, es: Seq<JobEventModel>) -> JobModel
    decreases es.len(),
{
    if es.len() == 0 {
        m
    } else {
        spec_job_next(job_after(m, es.drop_last()), es.last()).0
    }
}

/// Each event is the one the job was waiting for at that point.
pub open spec fn events_in_turn(m: JobModel, es: Seq<JobEventModel>) -> bool {
    forall|k: int| 0 <= k < es.len() ==> awaited(job_after(m, es.take(k)), #[trigger] es[k])
}

/// The place of an action in the order of a fix of `n` installs: later
/// actions have smaller places.
pub open spec fn action_place(a: JobAction, n: nat) -> int {
    match a {
        JobAction::Stop(i) => 3 * (n - i),
        JobAction::Clean(i) => 3 * (n - i) - 1,
        JobAction::Launch(i) => 3 * (n - i) - 2,
        JobAction::Finished => 0,
    }
}

/// The action the job asks for after the first `k` events.
pub open spec fn action_at(m: JobModel, es: Seq<JobEventModel>, k: int) -> JobAction {
    spec_job_action(job_after(m, es.take(k)))
}

proof fn lemma_job_after_steps(m: JobModel, es: Seq<JobEventModel>)
    requires
        job_wf(m),
        events_in_turn(m, es),
    ensures
        job_wf(job_after(m, es)),
        job_after(m, es).labels == m.labels,
        es.len() > 0 ==> job_pending(job_after(m, es)) == action_place(
            spec_job_action(job_after(m, es)),
            m.labels.len(),
        ),
        job_pending(job_after(m, es)) <= job_pending(m) - es.len(),
    decreases es.len(),
{
    if es.len() > 0 {
        let init = es.drop_last();
        assert forall|k: int| 0 <= k < init.len() implies awaited(job_after(m, init.take(k)), #[trigger] init[k]) by {
            assert(init.take(k) =~= es.take(k));
            assert(init[k] == es[k]);
        }
        lemma_job_after_steps(m, init);
        assert(es.take(es.len() - 1) =~= init);
        assert(awaited(job_after(m, init), es[es.len() - 1]));
        let j = job_after(m, init);
        lemma_job_step_facts(j, es.last());
        assert(job_after(m, es) == spec_job_next(j, es.last()).0);
    }
}

proof fn lemma_job_step_facts(m: JobModel, e: JobEventModel)
    requires
        job_wf(m),
        awaited(m, e),
    ensures
        job_wf(spec_job_next(m, e).0),
        spec_job_next(m, e).0.labels == m.labels,
        0 <= job_pending(spec_job_next(m, e).0) < job_pending(m),
        job_pending(spec_job_next(m, e).0) == action_place(
            spec_job_action(spec_job_next(m, e).0),
            m.labels.len(),
        ),
{
    lemma_job_keeps_wf(m, e);
    lemma_job_progress(m, e);
}

/// The order of a whole fix. Given events each of which is the one the job
/// waited for, every action follows the one before it (an install is
/// stopped, then cleaned, then perhaps started again, then the next is
/// stopped), and the actions asked for come strictly in order: an earlier
/// action always has a later place, so no action is asked for twice, and
/// every action for one install comes before every action for the next.
pub proof fn lemma_whole_job_order(m: JobModel, es: Seq<JobEventModel>)
    requires
        job_wf(m),
        events_in_turn(m, es),
    ensures
        forall|k: int|
            0 <= k < es.len() ==> action_follows(
                #[trigger] action_at(m, es, k),
                action_at(m, es, k + 1),
                m.labels.len(),
            ),
        forall|k1: int, k2: int|
            0 <= k1 < k2 <= es.len() ==> action_place(#[trigger] action_at(m, es, k2), m.labels.len())
                < action_place(#[trigger] action_at(m, es, k1), m.labels.len()),
{
    let n = m.labels.len();
    assert forall|k: int| 0 <= k <= es.len() implies {
        &&& job_wf(#[trigger] job_after(m, es.take(k)))
        &&& job_after(m, es.take(k)).labels == m.labels
        &&& job_pending(job_after(m, es.take(k))) == action_place(action_at(m, es, k), n)
    } by {
        assert forall|j: int| 0 <= j < es.take(k).len() implies awaited(
            job_after(m, es.take(k).take(j)),
            #[trigger] es.take(k)[j],
        ) by {
            assert(es.take(k).take(j) =~= es.take(j));
            assert(es.take(k)[j] == es[j]);
        }
        lemma_job_after_steps(m, es.take(k));
    }
    assert forall|k: int| 0 <= k < es.len() implies {
        &&& action_follows(#[trigger] action_at(m, es, k), action_at(m, es, k + 1), n)
        &&& action_place(action_at(m, es, k + 1), n) < action_place(action_at(m, es, k), n)
    } by {
        let before = job_after(m, es.take(k));
        assert(job_wf(before));
        assert(es.take(k + 1).drop_last() =~= es.take(k));
        assert(es.take(k + 1).last() == es[k]);
        assert(job_after(m, es.take(k + 1)) == spec_job_next(before, es[k]).0);
        lemma_job_order(before, es[k]);
        lemma_job_progress(before, es[k]);
        assert(job_wf(job_after(m, es.take(k + 1))));
    }
    assert forall|k1: int, k2: int| 0 <= k1 < k2 <= es.len() implies action_place(
        #[trigger] action_at(m, es, k2),
        n,
    ) < action_place(#[trigger] action_at(m, es, k1), n) by {
        lemma_places_fall(m, es, k1, k2);
    }
}

proof fn lemma_places_fall(m: JobModel, es: Seq<JobEventModel>, k1: int, k2: int)
    requires
        0 <= k1 < k2 <= es.len(),
        forall|k: int|
            0 <= k < es.len() ==> action_place(action_at(m, es, k + 1), m.labels.len()) < action_place(
                #[trigger] action_at(m, es, k),
                m.labels.len(),
            ),
    ensures
        action_place(action_at(m, es, k2), m.labels.len()) < action_place(action_at(m, es, k1), m.labels.len()),
    decreases k2 - k1,
{
    if k2 > k1 + 1 {
        lemma_places_fall(m, es, k1 + 1, k2);
    }
    assert(action_place(action_at(m, es, k1 + 1), m.labels.len()) < action_place(action_at(m, es, k1), m.labels.len()));
}

} // verus!
