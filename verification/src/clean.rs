//! The deletion engine.
//!
//! Every target passes four independent gates before anything is removed: a
//! deny-list check, a symlink refusal, a containment check (the target must
//! be a direct child of a directory found for the install, after resolving
//! symlinks), and a root/home guard. A failure on one target never stops the
//! rest of the run.
//!
//! The disk is never touched here. A [`Cleaner`] is a state machine: it says
//! what it needs next (a [`Request`]), and is told what the disk said (an
//! [`Answer`]); the caller performs the I/O.
use vstd::prelude::*;
use crate::discord::{
    child_of, is_never_deletable, lemma_never_names_plain, lemma_target_names_plain,
    lemma_versioned_children, parent_candidates, spec_is_never_deletable, spec_target_names,
    spec_targets, spec_versioned, DirEntryFacts, Install, Scope,
};
use crate::path::{
    components, lemma_join_components, lemma_sorted_firsts_unique, plain_name, file_name, join, opt_view, parent, same_path, same_path_of, sorted_firsts, spec_file_name,
    spec_join, spec_parent,
};
use crate::platform::home_dir;
pub use crate::units::format_bytes;
use crate::text::string_views;

verus! {

/// What became of one target.
#[derive(Debug, Clone, PartialEq, Eq)]
pub enum Outcome {
    /// Deleted (or, in a dry run, would have been).
    Removed { bytes: u64 },
    /// Not on disk: the target lists span Discord versions.
    NotPresent,
    /// A guard said no.
    Refused(String),
    /// The filesystem said no.
    Failed(String),
}

/// The mathematical value of an [`Outcome`].
pub enum OutcomeModel {
    Removed { bytes: u64 },
    NotPresent,
    Refused(Seq<char>),
    Failed(Seq<char>),
}

impl View for Outcome {
    type V = OutcomeModel;

    open spec fn view(&self) -> OutcomeModel {
        match self {
            Outcome::Removed { bytes } => OutcomeModel::Removed { bytes: *bytes },
            Outcome::NotPresent => OutcomeModel::NotPresent,
            Outcome::Refused(s) => OutcomeModel::Refused(s@),
            Outcome::Failed(s) => OutcomeModel::Failed(s@),
        }
    }
}

/// One target and what became of it.
#[derive(Debug, Clone)]
pub struct Item {
    pub path: String,
    pub outcome: Outcome,
}

pub struct ItemModel {
    pub path: Seq<char>,
    pub outcome: OutcomeModel,
}

impl View for Item {
    type V = ItemModel;

    open spec fn view(&self) -> ItemModel {
        ItemModel { path: self.path@, outcome: self.outcome@ }
    }
}

/// The items of a clean, in the order of its targets.
#[derive(Debug, Clone)]
pub struct Report {
    pub items: Vec<Item>,
}

impl View for Report {
    type V = Seq<ItemModel>;

    open spec fn view(&self) -> Seq<ItemModel> {
        self.items@.map_values(|i: Item| i@)
    }
}

impl Default for Report {
    fn default() -> (r: Report)
        ensures
            r@ == Seq::<ItemModel>::empty(),
    {
        let r = Report { items: Vec::new() };
        assert(r@ =~= Seq::<ItemModel>::empty());
        r
    }
}

/// The bytes an outcome freed.
pub open spec fn freed(o: OutcomeModel) -> nat {
    match o {
        OutcomeModel::Removed { bytes } => bytes as nat,
        _ => 0,
    }
}

pub open spec fn sum_freed(items: Seq<ItemModel>) -> nat
    decreases items.len(),
{
    if items.len() == 0 {
        0
    } else {
        sum_freed(items.drop_last()) + freed(items.last().outcome)
    }
}

pub open spec fn count_removed(items: Seq<ItemModel>) -> nat
    decreases items.len(),
{
    if items.len() == 0 {
        0
    } else {
        count_removed(items.drop_last()) + if items.last().outcome is Removed {
            1nat
        } else {
            0nat
        }
    }
}

/// Something the user might want to know went wrong.
pub open spec fn is_problem(o: OutcomeModel) -> bool {
    o is Refused || o is Failed
}

pub open spec fn problems_of(items: Seq<ItemModel>) -> Seq<ItemModel>
    decreases items.len(),
{
    if items.len() == 0 {
        seq![]
    } else {
        problems_of(items.drop_last()) + if is_problem(items.last().outcome) {
            seq![items.last()]
        } else {
            seq![]
        }
    }
}

pub proof fn lemma_count_removed_bound(items: Seq<ItemModel>)
    ensures
        count_removed(items) <= items.len(),
    decreases items.len(),
{
    if items.len() > 0 {
        lemma_count_removed_bound(items.drop_last());
    }
}

impl Report {
    /// The bytes freed, or `None` where their sum exceeds `u64::MAX`.
    pub fn checked_bytes_freed(&self) -> (r: Option<u64>)
        ensures
            match r {
                Some(b) => b == sum_freed(self@),
                None => sum_freed(self@) > u64::MAX,
            },
    {
        let mut total: u64 = 0;
        let mut i: usize = 0;
        assert(self@.take(0) =~= Seq::<ItemModel>::empty());
        while i < self.items.len()
            invariant
                i <= self.items.len(),
                total == sum_freed(self@.take(i as int)),
            decreases self.items.len() - i,
        {
            assert(self@.take(i + 1).drop_last() =~= self@.take(i as int));
            let add: u64 = match self.items[i].outcome {
                Outcome::Removed { bytes } => bytes,
                _ => 0,
            };
            assert(add == freed(self@[i as int].outcome));
            match total.checked_add(add) {
                Some(t) => {
                    total = t;
                },
                None => {
                    proof {
                        lemma_sum_freed_monotone(self@, i + 1);
                    }
                    return None;
                },
            }
            i = i + 1;
        }
        assert(self@.take(i as int) =~= self@);
        Some(total)
    }

    /// The bytes freed: the sum over removed items. Its sum must fit in a
    /// `u64`, or the addition overflows.
    pub fn bytes_freed(&self) -> (r: u64)
        requires
            sum_freed(self@) <= u64::MAX,
        ensures
            r == sum_freed(self@),
    {
        match self.checked_bytes_freed() {
            Some(b) => b,
            None => 0,
        }
    }

    /// The number of removed items.
    pub fn removed_count(&self) -> (r: usize)
        ensures
            r == count_removed(self@),
    {
        let mut n: usize = 0;
        let mut i: usize = 0;
        assert(self@.take(0) =~= Seq::<ItemModel>::empty());
        while i < self.items.len()
            invariant
                i <= self.items.len(),
                n == count_removed(self@.take(i as int)),
            decreases self.items.len() - i,
        {
            assert(self@.take(i + 1).drop_last() =~= self@.take(i as int));
            proof {
                lemma_count_removed_bound(self@.take(i as int));
            }
            if let Outcome::Removed { .. } = self.items[i].outcome {
                n = n + 1;
            }
            i = i + 1;
        }
        assert(self@.take(i as int) =~= self@);
        n
    }

    /// Anything the user might want to know went wrong: refused and failed
    /// items, in order.
    pub fn problems(&self) -> (r: Vec<&Item>)
        ensures
            r@.map_values(|i: &Item| i@) == problems_of(self@),
    {
        let mut r: Vec<&Item> = Vec::new();
        let mut i: usize = 0;
        assert(self@.take(0) =~= Seq::<ItemModel>::empty());
        while i < self.items.len()
            invariant
                i <= self.items.len(),
                r@.map_values(|i: &Item| i@) == problems_of(self@.take(i as int)),
            decreases self.items.len() - i,
        {
            assert(self@.take(i + 1).drop_last() =~= self@.take(i as int));
            let item = &self.items[i];
            let ghost before = r@.map_values(|i: &Item| i@);
            match item.outcome {
                Outcome::Refused(_) | Outcome::Failed(_) => {
                    r.push(item);
                    assert(r@.map_values(|i: &Item| i@) =~= before.push(item@));
                },
                _ => {},
            }
            i = i + 1;
            assert(r@.map_values(|i: &Item| i@) =~= problems_of(self@.take(i as int)));
        }
        assert(self@.take(i as int) =~= self@);
        r
    }

    /// Appends the items of `other`.
    pub fn merge(&mut self, other: Report)
        ensures
            final(self)@ == old(self)@ + other@,
    {
        let mut other = other;
        let ghost o = other@;
        self.items.append(&mut other.items);
        assert(self@ =~= old(self)@ + o);
    }
}

proof fn lemma_sum_freed_monotone(items: Seq<ItemModel>, k: int)
    requires
        0 <= k <= items.len(),
    ensures
        sum_freed(items.take(k)) <= sum_freed(items),
    decreases items.len(),
{
    if k < items.len() {
        assert(items.drop_last().take(k) =~= items.take(k));
        lemma_sum_freed_monotone(items.drop_last(), k);
    } else {
        assert(items.take(k) =~= items);
    }
}


/// The view of a result whose sides are strings.
pub open spec fn result_view(r: Result<String, String>) -> Result<Seq<char>, Seq<char>> {
    match r {
        Ok(s) => Ok(s@),
        Err(e) => Err(e@),
    }
}

/// The view of a result that carries a message on failure.
pub open spec fn unit_result_view(r: Result<(), String>) -> Result<(), Seq<char>> {
    match r {
        Ok(()) => Ok(()),
        Err(e) => Err(e@),
    }
}

/// The gates that need nothing but the target and whether it is a link:
/// it must have a file name, that name must not be on the never-delete
/// list, it must not be a symlink, and it must have a parent.
pub open spec fn spec_guard_target(target: Seq<char>, is_symlink: bool) -> Result<(), Seq<char>> {
    match spec_file_name(target) {
        None => Err("path has no file name"@),
        Some(name) => if spec_is_never_deletable(name) {
            Err(name + " is on the never-delete list"@)
        } else if is_symlink {
            Err("refusing to follow a symlink"@)
        } else if spec_parent(target) is None {
            Err("path has no parent"@)
        } else {
            Ok(())
        },
    }
}

/// Some member of `allowed` names the same path as `p`.
pub open spec fn within(allowed: Seq<Seq<char>>, p: Seq<char>) -> bool {
    exists|i: int| 0 <= i < allowed.len() && same_path(#[trigger] allowed[i], p)
}

/// The gates that need the canonical form of the target's parent: it must
/// have resolved, it must be one of the allowed parents, and the resolved
/// target must be neither a root nor the home directory.
pub open spec fn spec_guard_parent(
    name: Seq<char>,
    canonical: Result<Seq<char>, Seq<char>>,
    allowed: Seq<Seq<char>>,
    home: Option<Seq<char>>,
) -> Result<(), Seq<char>> {
    match canonical {
        Err(e) => Err("cannot resolve parent directory: "@ + e),
        Ok(c) => if !within(allowed, c) {
            Err(c + " is outside every known Discord directory"@)
        } else {
            let resolved = spec_join(c, name);
            if spec_parent(resolved) is None || (home is Some && same_path(resolved, home->Some_0)) {
                Err("refusing to delete a root or home directory"@)
            } else {
                Ok(())
            }
        },
    }
}

/// Gates one to three, and the parent's existence.
pub fn guard_target(target: &str, is_symlink: bool) -> (r: Result<(), String>)
    ensures
        unit_result_view(r) == spec_guard_target(target@, is_symlink),
{
    match file_name(target) {
        None => Err("path has no file name".to_owned()),
        Some(name) => {
            if is_never_deletable(name.as_str()) {
                let mut msg = name.clone();
                msg.append(" is on the never-delete list");
                Err(msg)
            } else if is_symlink {
                Err("refusing to follow a symlink".to_owned())
            } else if parent(target).is_none() {
                Err("path has no parent".to_owned())
            } else {
                Ok(())
            }
        },
    }
}

/// Gate four, containment, and the root/home guard.
pub fn guard_parent(
    name: &str,
    canonical: &Result<String, String>,
    allowed: &Vec<String>,
    home: &Option<String>,
) -> (r: Result<(), String>)
    ensures
        unit_result_view(r) == spec_guard_parent(
            name@,
            result_view(*canonical),
            string_views(allowed@),
            opt_view(*home),
        ),
{
    match canonical {
        Err(e) => {
            let mut msg = "cannot resolve parent directory: ".to_owned();
            msg.append(e.as_str());
            Err(msg)
        },
        Ok(c) => {
            let mut found = false;
            let mut i: usize = 0;
            while i < allowed.len() && !found
                invariant
                    i <= allowed.len(),
                    found ==> within(string_views(allowed@), c@),
                    !found ==> forall|j: int|
                        0 <= j < i ==> !same_path(#[trigger] string_views(allowed@)[j], c@),
                decreases allowed.len() - i,
            {
                if same_path_of(allowed[i].as_str(), c.as_str()) {
                    found = true;
                    assert(same_path(string_views(allowed@)[i as int], c@));
                }
                i = i + 1;
            }
            if !found {
                let mut msg = c.clone();
                msg.append(" is outside every known Discord directory");
                return Err(msg);
            }
            let resolved = join(c.as_str(), name);
            let is_home = match home {
                Some(h) => same_path_of(resolved.as_str(), h.as_str()),
                None => false,
            };
            if parent(resolved.as_str()).is_none() || is_home {
                Err("refusing to delete a root or home directory".to_owned())
            } else {
                Ok(())
            }
        },
    }
}


/// What the disk said of a target, looked at without following a link.
pub enum Stat {
    /// Nothing is there.
    Missing,
    /// The lookup failed for another reason; the message says why.
    Unreadable(String),
    Found { is_dir: bool, is_symlink: bool },
}

/// What the caller reports back after doing what a [`Request`] asked.
pub enum Answer {
    /// The canonical form of the path, or why it could not be resolved.
    Canonical(Result<String, String>),
    Stat(Stat),
    /// Total bytes of the regular files below the target, links not followed.
    Size(u64),
    /// Whether the removal succeeded.
    Removal(Result<(), String>),
}

/// What a [`Cleaner`] needs done next.
pub enum Request {
    /// Resolve this directory to its canonical form.
    Canonicalize(String),
    /// Look at this path without following a link.
    Stat(String),
    /// Measure what this path holds.
    Measure(String),
    /// Remove this path: the whole tree where it is a directory.
    Remove { path: String, is_dir: bool },
    /// Nothing more: the report is complete.
    Finished,
}

pub enum RequestModel {
    Canonicalize(Seq<char>),
    Stat(Seq<char>),
    Measure(Seq<char>),
    Remove { path: Seq<char>, is_dir: bool },
    Finished,
}

impl View for Request {
    type V = RequestModel;

    open spec fn view(&self) -> RequestModel {
        match self {
            Request::Canonicalize(p) => RequestModel::Canonicalize(p@),
            Request::Stat(p) => RequestModel::Stat(p@),
            Request::Measure(p) => RequestModel::Measure(p@),
            Request::Remove { path, is_dir } => RequestModel::Remove { path: path@, is_dir: *is_dir },
            Request::Finished => RequestModel::Finished,
        }
    }
}

/// Where a [`Cleaner`] stands.
#[derive(Clone, Copy, PartialEq, Eq, Structural)]
pub enum Phase {
    /// Resolving the allowed parent with this index.
    Resolving { next: usize },
    /// Looking at the current target.
    Stat,
    /// Resolving the current target's parent.
    Parent { is_dir: bool },
    /// Measuring the current target.
    Size { is_dir: bool },
    /// Removing the current target, which holds `bytes`.
    Removal { is_dir: bool, bytes: u64 },
    /// Every target has its item.
    Done,
}

/// What the disk reported of the current target on its way through the
/// gates: whether it was a link, its parent's canonical form, and the home
/// directory it was held against.
pub struct Evidence {
    pub symlink: bool,
    pub canonical_parent: Seq<char>,
    pub home: Option<Seq<char>>,
}

/// The state of a clean, as mathematical values.
#[verifier::ext_equal]
pub struct CleanerModel {
    /// The directories targets may sit in, as found for the install.
    pub allowed_raw: Seq<Seq<char>>,
    /// Their canonical forms, for those that resolved.
    pub allowed: Seq<Seq<char>>,
    pub targets: Seq<Seq<char>>,
    pub dry_run: bool,
    /// One item per target handled so far; the current target is the next.
    pub items: Seq<ItemModel>,
    pub phase: Phase,
    pub evidence: Evidence,
}

/// The target being handled.
pub open spec fn current(m: CleanerModel) -> Seq<char> {
    m.targets[m.items.len() as int]
}

/// The phase once `n` targets have their items.
pub open spec fn phase_after(n: nat, targets: nat) -> Phase {
    if n < targets {
        Phase::Stat
    } else {
        Phase::Done
    }
}

/// The current target gets outcome `o`; the clean moves on to the next.
pub open spec fn record(m: CleanerModel, o: OutcomeModel) -> CleanerModel {
    let items = m.items.push(ItemModel { path: current(m), outcome: o });
    CleanerModel { items, phase: phase_after(items.len(), m.targets.len()), ..m }
}

/// The request a state makes.
pub open spec fn spec_request(m: CleanerModel) -> RequestModel {
    match m.phase {
        Phase::Resolving { next } => RequestModel::Canonicalize(m.allowed_raw[next as int]),
        Phase::Stat => RequestModel::Stat(current(m)),
        Phase::Parent { .. } => RequestModel::Canonicalize(spec_parent(current(m))->Some_0),
        Phase::Size { .. } => RequestModel::Measure(current(m)),
        Phase::Removal { is_dir, .. } => RequestModel::Remove { path: current(m), is_dir },
        Phase::Done => RequestModel::Finished,
    }
}

pub open spec fn on_stat(m: CleanerModel, st: Stat) -> CleanerModel {
    match st {
        Stat::Missing => record(m, OutcomeModel::NotPresent),
        Stat::Unreadable(e) => record(m, OutcomeModel::Failed(e@)),
        Stat::Found { is_dir, is_symlink } => match spec_guard_target(current(m), is_symlink) {
            Err(msg) => record(m, OutcomeModel::Refused(msg)),
            Ok(()) => CleanerModel {
                phase: Phase::Parent { is_dir },
                evidence: Evidence { symlink: is_symlink, ..m.evidence },
                ..m
            },
        },
    }
}

pub open spec fn on_parent(
    m: CleanerModel,
    is_dir: bool,
    canonical: Result<Seq<char>, Seq<char>>,
    home: Option<Seq<char>>,
) -> CleanerModel {
    match spec_guard_parent(spec_file_name(current(m))->Some_0, canonical, m.allowed, home) {
        Err(msg) => record(m, OutcomeModel::Refused(msg)),
        Ok(()) => CleanerModel {
            phase: Phase::Size { is_dir },
            evidence: Evidence {
                symlink: m.evidence.symlink,
                canonical_parent: canonical->Ok_0,
                home,
            },
            ..m
        },
    }
}

/// The state after an answer; `home` is the home directory at that moment.
/// An answer of the wrong kind leaves the state as it is.
pub open spec fn spec_answer(m: CleanerModel, a: Answer, home: Option<Seq<char>>) -> CleanerModel {
    match m.phase {
        Phase::Resolving { next } => match a {
            Answer::Canonical(r) => {
                let allowed = match r {
                    Ok(p) => m.allowed.push(p@),
                    Err(_) => m.allowed,
                };
                let phase = if next + 1 < m.allowed_raw.len() {
                    Phase::Resolving { next: (next + 1) as usize }
                } else {
                    phase_after(m.items.len(), m.targets.len())
                };
                CleanerModel { allowed, phase, ..m }
            },
            _ => m,
        },
        Phase::Stat => match a {
            Answer::Stat(st) => on_stat(m, st),
            _ => m,
        },
        Phase::Parent { is_dir } => match a {
            Answer::Canonical(r) => on_parent(m, is_dir, result_view(r), home),
            _ => m,
        },
        Phase::Size { is_dir } => match a {
            Answer::Size(bytes) => if m.dry_run {
                record(m, OutcomeModel::Removed { bytes })
            } else {
                CleanerModel { phase: Phase::Removal { is_dir, bytes }, ..m }
            },
            _ => m,
        },
        Phase::Removal { bytes, .. } => match a {
            Answer::Removal(r) => match r {
                Ok(()) => record(m, OutcomeModel::Removed { bytes }),
                Err(e) => record(m, OutcomeModel::Failed(e@)),
            },
            _ => m,
        },
        Phase::Done => m,
    }
}

/// The current target passed the gates that need no disk answer beyond the
/// stat, and the disk said it is no link.
pub open spec fn passed_target_gates(m: CleanerModel) -> bool {
    &&& spec_guard_target(current(m), m.evidence.symlink) is Ok
    &&& !m.evidence.symlink
}

/// The current target passed every gate.
pub open spec fn passed_all_gates(m: CleanerModel) -> bool {
    &&& passed_target_gates(m)
    &&& spec_guard_parent(
        spec_file_name(current(m))->Some_0,
        Ok(m.evidence.canonical_parent),
        m.allowed,
        m.evidence.home,
    ) is Ok
}

/// What holds of every state a clean passes through.
pub open spec fn wf(m: CleanerModel) -> bool {
    &&& m.allowed_raw.len() <= usize::MAX
    &&& m.items.len() <= m.targets.len()
    &&& forall|i: int| 0 <= i < m.items.len() ==> (#[trigger] m.items[i]).path == m.targets[i]
    &&& match m.phase {
        Phase::Resolving { next } => next < m.allowed_raw.len() && m.items.len() == 0,
        Phase::Stat => m.items.len() < m.targets.len(),
        Phase::Parent { .. } => m.items.len() < m.targets.len() && passed_target_gates(m),
        Phase::Size { .. } => m.items.len() < m.targets.len() && passed_all_gates(m),
        Phase::Removal { .. } => m.items.len() < m.targets.len() && passed_all_gates(m),
        Phase::Done => m.items.len() == m.targets.len(),
    }
    &&& m.dry_run ==> !(m.phase is Removal)
}

/// The phase a clean starts in.
pub open spec fn first_phase(allowed_raw: nat, targets: nat) -> Phase {
    if allowed_raw > 0 {
        Phase::Resolving { next: 0 }
    } else {
        phase_after(0, targets)
    }
}

fn next_phase(n: usize, targets: usize) -> (r: Phase)
    ensures
        r == phase_after(n as nat, targets as nat),
{
    if n < targets {
        Phase::Stat
    } else {
        Phase::Done
    }
}

fn record_item(report: &mut Report, path: String, outcome: Outcome)
    ensures
        final(report)@ == old(report)@.push(ItemModel { path: path@, outcome: outcome@ }),
{
    let ghost before = report@;
    let item = Item { path, outcome };
    report.items.push(item);
    assert(report@ =~= before.push(item@));
}

/// Recording an outcome keeps a state well formed.
proof fn lemma_record(m: CleanerModel, o: OutcomeModel, r: CleanerModel)
    requires
        wf(m),
        m.items.len() < m.targets.len(),
        r == record(m, o),
    ensures
        wf(r),
{
    assert forall|i: int| 0 <= i < r.items.len() implies (#[trigger] r.items[i]).path == r.targets[i] by {
        if i < m.items.len() {
            assert(r.items[i] == m.items[i]);
        }
    }
}

/// A clean of one install in progress.
pub struct Cleaner {
    allowed_raw: Vec<String>,
    allowed: Vec<String>,
    targets: Vec<String>,
    dry_run: bool,
    report: Report,
    phase: Phase,
    evidence: Ghost<Evidence>,
}

impl View for Cleaner {
    type V = CleanerModel;

    closed spec fn view(&self) -> CleanerModel {
        CleanerModel {
            allowed_raw: string_views(self.allowed_raw@),
            allowed: string_views(self.allowed@),
            targets: string_views(self.targets@),
            dry_run: self.dry_run,
            items: self.report@,
            phase: self.phase,
            evidence: self.evidence@,
        }
    }
}

/// The evidence a clean starts with: none gathered yet.
pub open spec fn no_evidence() -> Evidence {
    Evidence { symlink: false, canonical_parent: seq![], home: None }
}

/// Starts a clean of every target of `install` at `scope`; `versioned`
/// holds the install's per-version module stores. With `dry_run` set, sizes
/// are still measured and every gate still runs; only the removal is left
/// out, which makes a dry run a real rehearsal.
pub fn clean(install: &Install, scope: Scope, dry_run: bool, versioned: &Vec<String>) -> (r: Cleaner)
    ensures
        sorted_firsts(r@.allowed_raw, parent_candidates(*install)),
        r@.allowed == Seq::<Seq<char>>::empty(),
        r@.targets == spec_targets(*install, scope, string_views(versioned@)),
        r@.dry_run == dry_run,
        r@.items == Seq::<ItemModel>::empty(),
        r@.phase == first_phase(r@.allowed_raw.len(), r@.targets.len()),
        r@.evidence == no_evidence(),
        wf(r@),
{
    let allowed_raw = install.allowed_parents();
    let targets = install.targets(scope, versioned);
    let phase = if allowed_raw.len() > 0 {
        Phase::Resolving { next: 0 }
    } else if targets.len() > 0 {
        Phase::Stat
    } else {
        Phase::Done
    };
    let report = Report::default();
    let r = Cleaner {
        allowed_raw,
        allowed: Vec::new(),
        targets,
        dry_run,
        report,
        phase,
        evidence: Ghost(Evidence { symlink: false, canonical_parent: seq![], home: None }),
    };
    assert(r@.allowed =~= Seq::<Seq<char>>::empty());
    r
}

impl Cleaner {
    #[verifier::type_invariant]
    spec fn inv(self) -> bool {
        wf(self@)
    }

    /// What the clean needs done next.
    pub fn request(&self) -> (r: Request)
        ensures
            r@ == spec_request(self@),
            wf(self@),
    {
        proof {
            use_type_invariant(self);
        }
        let idx = self.report.items.len();
        match self.phase {
            Phase::Resolving { next } => Request::Canonicalize(self.allowed_raw[next].clone()),
            Phase::Stat => Request::Stat(self.targets[idx].clone()),
            Phase::Parent { .. } => {
                let p = parent(self.targets[idx].as_str());
                match p {
                    Some(q) => Request::Canonicalize(q),
                    None => Request::Finished,
                }
            },
            Phase::Size { .. } => Request::Measure(self.targets[idx].clone()),
            Phase::Removal { is_dir, .. } => Request::Remove {
                path: self.targets[idx].clone(),
                is_dir,
            },
            Phase::Done => Request::Finished,
        }
    }

    /// Takes the disk's answer to the last request. Where it is the answer
    /// to a parent's resolution, the home directory is looked up now.
    pub fn answer(self, a: Answer) -> (r: Cleaner)
        ensures
            exists|home: Option<Seq<char>>| r@ == spec_answer(self@, a, home),
            wf(r@),
    {
        let wants_home = match (self.phase, &a) {
            (Phase::Parent { .. }, Answer::Canonical(_)) => true,
            _ => false,
        };
        let home = if wants_home {
            home_dir()
        } else {
            None
        };
        self.answer_with_home(a, home)
    }

    /// Takes the disk's answer to the last request, `home` being the home
    /// directory.
    pub fn answer_with_home(self, a: Answer, home: Option<String>) -> (r: Cleaner)
        ensures
            r@ == spec_answer(self@, a, opt_view(home)),
            wf(r@),
    {
        proof {
            use_type_invariant(&self);
        }
        let ghost m = self@;
        let Cleaner { allowed_raw, mut allowed, targets, dry_run, mut report, phase, evidence } = self;
        let idx = report.items.len();
        match phase {
            Phase::Resolving { next } => {
                match a {
                    Answer::Canonical(r) => {
                        let ghost before = allowed@;
                        match r {
                            Ok(p) => {
                                allowed.push(p);
                                assert(string_views(allowed@) =~= string_views(before).push(p@));
                            },
                            Err(_) => {},
                        }
                        let phase = if next < allowed_raw.len() - 1 {
                            Phase::Resolving { next: next + 1 }
                        } else if idx < targets.len() {
                            Phase::Stat
                        } else {
                            Phase::Done
                        };
                        let r = Cleaner { allowed_raw, allowed, targets, dry_run, report, phase, evidence };
                        assert(r@ =~= spec_answer(m, a, opt_view(home)));
                        r
                    },
                    _ => Cleaner { allowed_raw, allowed, targets, dry_run, report, phase, evidence },
                }
            },
            Phase::Stat => {
                match a {
                    Answer::Stat(st) => {
                        let ghost st_v = st;
                        let target = targets[idx].clone();
                        match st {
                            Stat::Missing => {
                                record_item(&mut report, target, Outcome::NotPresent);
                                let phase = next_phase(report.items.len(), targets.len());
                                let r = Cleaner { allowed_raw, allowed, targets, dry_run, report, phase, evidence };
                                proof { lemma_record(m, OutcomeModel::NotPresent, r@); }
                                r
                            },
                            Stat::Unreadable(e) => {
                                let ghost ev = e@;
                                record_item(&mut report, target, Outcome::Failed(e));
                                let phase = next_phase(report.items.len(), targets.len());
                                let r = Cleaner { allowed_raw, allowed, targets, dry_run, report, phase, evidence };
                                proof { lemma_record(m, OutcomeModel::Failed(ev), r@); }
                                r
                            },
                            Stat::Found { is_dir, is_symlink } => {
                                match guard_target(target.as_str(), is_symlink) {
                                    Err(msg) => {
                                        let ghost mv = msg@;
                                        record_item(&mut report, target, Outcome::Refused(msg));
                                        let phase = next_phase(report.items.len(), targets.len());
                                        let r = Cleaner { allowed_raw, allowed, targets, dry_run, report, phase, evidence };
                                        proof { lemma_record(m, OutcomeModel::Refused(mv), r@); }
                                        r
                                    },
                                    Ok(()) => {
                                        let evidence = Ghost(Evidence { symlink: is_symlink, ..evidence@ });
                                        let r = Cleaner {
                                            allowed_raw,
                                            allowed,
                                            targets,
                                            dry_run,
                                            report,
                                            phase: Phase::Parent { is_dir },
                                            evidence,
                                        };
                                        assert(r@ =~= spec_answer(m, a, opt_view(home)));
                                        r
                                    },
                                }
                            },
                        }
                    },
                    _ => Cleaner { allowed_raw, allowed, targets, dry_run, report, phase, evidence },
                }
            },
            Phase::Parent { is_dir } => {
                match a {
                    Answer::Canonical(r) => {
                        let target = targets[idx].clone();
                        let name = match file_name(target.as_str()) {
                            Some(n) => n,
                            None => String::new(),
                        };
                        match guard_parent(name.as_str(), &r, &allowed, &home) {
                            Err(msg) => {
                                let ghost mv = msg@;
                                record_item(&mut report, target, Outcome::Refused(msg));
                                let phase = next_phase(report.items.len(), targets.len());
                                let r = Cleaner { allowed_raw, allowed, targets, dry_run, report, phase, evidence };
                                proof { lemma_record(m, OutcomeModel::Refused(mv), r@); }
                                r
                            },
                            Ok(()) => {
                                let evidence = Ghost(Evidence {
                                    symlink: evidence@.symlink,
                                    canonical_parent: result_view(r)->Ok_0,
                                    home: opt_view(home),
                                });
                                let r = Cleaner {
                                    allowed_raw,
                                    allowed,
                                    targets,
                                    dry_run,
                                    report,
                                    phase: Phase::Size { is_dir },
                                    evidence,
                                };
                                assert(r@ =~= spec_answer(m, a, opt_view(home)));
                                r
                            },
                        }
                    },
                    _ => Cleaner { allowed_raw, allowed, targets, dry_run, report, phase, evidence },
                }
            },
            Phase::Size { is_dir } => {
                match a {
                    Answer::Size(bytes) => {
                        if dry_run {
                            let target = targets[idx].clone();
                            record_item(&mut report, target, Outcome::Removed { bytes });
                            let phase = next_phase(report.items.len(), targets.len());
                            let r = Cleaner { allowed_raw, allowed, targets, dry_run, report, phase, evidence };
                            proof { lemma_record(m, OutcomeModel::Removed { bytes }, r@); }
                            r
                        } else {
                            let r = Cleaner {
                                allowed_raw,
                                allowed,
                                targets,
                                dry_run,
                                report,
                                phase: Phase::Removal { is_dir, bytes },
                                evidence,
                            };
                            assert(r@ =~= spec_answer(m, a, opt_view(home)));
                            r
                        }
                    },
                    _ => Cleaner { allowed_raw, allowed, targets, dry_run, report, phase, evidence },
                }
            },
            Phase::Removal { bytes, .. } => {
                match a {
                    Answer::Removal(res) => {
                        let target = targets[idx].clone();
                        match res {
                            Ok(()) => {
                                record_item(&mut report, target, Outcome::Removed { bytes });
                                let phase = next_phase(report.items.len(), targets.len());
                                let r = Cleaner { allowed_raw, allowed, targets, dry_run, report, phase, evidence };
                                proof { lemma_record(m, OutcomeModel::Removed { bytes }, r@); }
                                r
                            },
                            Err(e) => {
                                let ghost ev = e@;
                                record_item(&mut report, target, Outcome::Failed(e));
                                let phase = next_phase(report.items.len(), targets.len());
                                let r = Cleaner { allowed_raw, allowed, targets, dry_run, report, phase, evidence };
                                proof { lemma_record(m, OutcomeModel::Failed(ev), r@); }
                                r
                            },
                        }
                    },
                    _ => Cleaner { allowed_raw, allowed, targets, dry_run, report, phase, evidence },
                }
            },
            Phase::Done => Cleaner { allowed_raw, allowed, targets, dry_run, report, phase, evidence },
        }
    }

    /// The report: one item per target, in order.
    pub fn into_report(self) -> (r: Report)
        ensures
            r@ == self@.items,
    {
        self.report
    }
}


/// The answer `a` is of the kind that request `r` asks for.
pub open spec fn answers(r: RequestModel, a: Answer) -> bool {
    match r {
        RequestModel::Canonicalize(_) => a is Canonical,
        RequestModel::Stat(_) => a is Stat,
        RequestModel::Measure(_) => a is Size,
        RequestModel::Remove { .. } => a is Removal,
        RequestModel::Finished => false,
    }
}

/// How much of a clean is left: it falls with every answer of the asked kind.
pub open spec fn pending(m: CleanerModel) -> int {
    let left = 4 * (m.targets.len() - m.items.len());
    match m.phase {
        Phase::Resolving { next } => (m.allowed_raw.len() - next) + 4 * m.targets.len(),
        Phase::Stat => left,
        Phase::Parent { .. } => left - 1,
        Phase::Size { .. } => left - 2,
        Phase::Removal { .. } => left - 3,
        Phase::Done => 0,
    }
}

proof fn lemma_record_pending(m: CleanerModel, o: OutcomeModel)
    requires
        wf(m),
        m.items.len() < m.targets.len(),
        !(m.phase is Resolving),
        !(m.phase is Done),
    ensures
        wf(record(m, o)),
        0 <= pending(record(m, o)) < pending(m),
{
    lemma_record(m, o, record(m, o));
}

/// Every answer keeps a clean well formed: one item per handled target, in
/// the order of the targets, and every target in a phase past its stat has
/// passed the gates of that phase.
pub proof fn lemma_answer_keeps_wf(m: CleanerModel, a: Answer, home: Option<Seq<char>>)
    requires
        wf(m),
    ensures
        wf(spec_answer(m, a, home)),
        answers(spec_request(m), a) ==> 0 <= pending(spec_answer(m, a, home)) < pending(m),
{
    let r = spec_answer(m, a, home);
    match m.phase {
        Phase::Resolving { next } => {},
        Phase::Stat => {
            if let Answer::Stat(st) = a {
                match st {
                    Stat::Found { is_dir, is_symlink } => {
                        if spec_guard_target(current(m), is_symlink) is Err {
                            lemma_record_pending(m, OutcomeModel::Refused(spec_guard_target(current(m), is_symlink)->Err_0));
                        }
                    },
                    Stat::Missing => {
                        lemma_record_pending(m, OutcomeModel::NotPresent);
                    },
                    Stat::Unreadable(e) => {
                        lemma_record_pending(m, OutcomeModel::Failed(e@));
                    },
                }
            }
        },
        Phase::Parent { is_dir } => {
            if let Answer::Canonical(c) = a {
                let g = spec_guard_parent(spec_file_name(current(m))->Some_0, result_view(c), m.allowed, home);
                if g is Err {
                    lemma_record_pending(m, OutcomeModel::Refused(g->Err_0));
                }
            }
        },
        Phase::Size { is_dir } => {
            if let Answer::Size(bytes) = a {
                if m.dry_run {
                    lemma_record_pending(m, OutcomeModel::Removed { bytes });
                }
            }
        },
        Phase::Removal { bytes, .. } => {
            if let Answer::Removal(res) = a {
                match res {
                    Ok(()) => lemma_record_pending(m, OutcomeModel::Removed { bytes }),
                    Err(e) => lemma_record_pending(m, OutcomeModel::Failed(e@)),
                }
            }
        },
        Phase::Done => {},
    }
}

/// A removal is asked for only of a target that passed all four gates: its
/// file name is not on the never-delete list, the disk said it is no
/// symlink, its parent resolved to one of the allowed parents, and, put back
/// under that parent, it is neither a root nor the home directory. A dry run
/// never asks for one.
pub proof fn lemma_removal_passes_every_gate(m: CleanerModel)
    requires
        wf(m),
        spec_request(m) is Remove,
    ensures
        spec_request(m)->Remove_path == current(m),
        spec_file_name(current(m)) is Some,
        !spec_is_never_deletable(spec_file_name(current(m))->Some_0),
        !m.evidence.symlink,
        within(m.allowed, m.evidence.canonical_parent),
        spec_parent(spec_join(m.evidence.canonical_parent, spec_file_name(current(m))->Some_0)) is Some,
        m.evidence.home is Some ==> !same_path(
            spec_join(m.evidence.canonical_parent, spec_file_name(current(m))->Some_0),
            m.evidence.home->Some_0,
        ),
        !m.dry_run,
{
}

/// A dry run asks for no removal, ever.
pub proof fn lemma_dry_run_removes_nothing(m: CleanerModel)
    requires
        wf(m),
        m.dry_run,
    ensures
        !(spec_request(m) is Remove),
{
}

/// Once a clean is finished, its report holds exactly one item per target,
/// in the order of the targets: a failure on one target never stops the
/// rest.
pub proof fn lemma_finished_report_covers_targets(m: CleanerModel)
    requires
        wf(m),
        spec_request(m) is Finished,
    ensures
        m.items.len() == m.targets.len(),
        forall|i: int| 0 <= i < m.items.len() ==> (#[trigger] m.items[i]).path == m.targets[i],
{
}

/// A name on the never-delete list is refused whatever else holds of it.
pub proof fn lemma_never_list_refused(target: Seq<char>, is_symlink: bool)
    requires
        spec_file_name(target) is Some,
        spec_is_never_deletable(spec_file_name(target)->Some_0),
    ensures
        spec_guard_target(target, is_symlink) is Err,
{
}

/// The outcome `dry` of a target in a dry run is the rehearsal of the
/// outcome `actual` of the same target in a real run: the same refusal, the
/// same absence, the same failure to look at it, and a removal of the same
/// size; a removal that failed was rehearsed as a removal.
pub open spec fn outcome_rehearsed(dry: OutcomeModel, actual: OutcomeModel) -> bool {
    match actual {
        OutcomeModel::Removed { bytes } => dry == (OutcomeModel::Removed { bytes }),
        OutcomeModel::NotPresent => dry == OutcomeModel::NotPresent,
        OutcomeModel::Refused(why) => dry == OutcomeModel::Refused(why),
        OutcomeModel::Failed(why) => dry == OutcomeModel::Failed(why) || dry is Removed,
    }
}

/// The dry run `d` rehearses the real run `r`: the same parents and targets,
/// one rehearsed item for each item of the real run, in order; either both
/// stand at the same point, or the real run is removing the current target
/// that the dry run already recorded as removed.
pub open spec fn rehearses(d: CleanerModel, r: CleanerModel) -> bool {
    &&& d.dry_run
    &&& !r.dry_run
    &&& d.allowed_raw == r.allowed_raw
    &&& d.allowed == r.allowed
    &&& d.targets == r.targets
    &&& d.evidence == r.evidence
    &&& r.items.len() <= d.items.len() <= r.items.len() + 1
    &&& forall|k: int|
        0 <= k < r.items.len() ==> (#[trigger] d.items[k]).path == r.items[k].path
            && outcome_rehearsed(d.items[k].outcome, r.items[k].outcome)
    &&& if d.items.len() == r.items.len() {
        d.phase == r.phase
    } else {
        &&& r.phase matches Phase::Removal { bytes, .. }
        &&& d.items.last() == (ItemModel { path: current(r), outcome: OutcomeModel::Removed { bytes } })
        &&& d.phase == phase_after(d.items.len(), d.targets.len())
    }
}

/// A dry run started beside a real one, from the same install, scope and
/// version directories, rehearses it: `d` and `r` being what `clean` gives
/// for a dry and for a real run.
pub proof fn lemma_rehearsal_starts(
    d: CleanerModel,
    r: CleanerModel,
    i: Install,
    scope: Scope,
    versioned: Seq<Seq<char>>,
)
    requires
        sorted_firsts(d.allowed_raw, parent_candidates(i)),
        sorted_firsts(r.allowed_raw, parent_candidates(i)),
        d.allowed == r.allowed,
        d.targets == spec_targets(i, scope, versioned),
        r.targets == spec_targets(i, scope, versioned),
        d.dry_run,
        !r.dry_run,
        d.items == Seq::<ItemModel>::empty(),
        r.items == Seq::<ItemModel>::empty(),
        d.phase == first_phase(d.allowed_raw.len(), d.targets.len()),
        r.phase == first_phase(r.allowed_raw.len(), r.targets.len()),
        d.evidence == no_evidence(),
        r.evidence == no_evidence(),
    ensures
        rehearses(d, r),
{
    lemma_sorted_firsts_unique(d.allowed_raw, r.allowed_raw, parent_candidates(i));
}

/// A dry run is a faithful rehearsal: given the same answers from the disk
/// (and the same home directory), it stays a rehearsal of the real run at
/// every step. Where the real run is removing a target the dry run has
/// already passed, the dry run waits while the real one takes the answer.
pub proof fn lemma_dry_run_rehearses(d: CleanerModel, r: CleanerModel, a: Answer, home: Option<Seq<char>>)
    requires
        wf(d),
        wf(r),
        rehearses(d, r),
    ensures
        d.items.len() == r.items.len() ==> rehearses(spec_answer(d, a, home), spec_answer(r, a, home)),
        d.items.len() > r.items.len() ==> rehearses(d, spec_answer(r, a, home)),
{
    let d2 = spec_answer(d, a, home);
    let r2 = spec_answer(r, a, home);
    if d.items.len() == r.items.len() {
        assert forall|k: int| 0 <= k < r2.items.len() implies (#[trigger] d2.items[k]).path == r2.items[k].path
            && outcome_rehearsed(d2.items[k].outcome, r2.items[k].outcome) by {
            if k < r.items.len() {
                assert(d2.items[k] == d.items[k]);
                assert(r2.items[k] == r.items[k]);
            }
        }
    } else {
        let r2 = spec_answer(r, a, home);
        assert forall|k: int| 0 <= k < r2.items.len() implies (#[trigger] d.items[k]).path == r2.items[k].path
            && outcome_rehearsed(d.items[k].outcome, r2.items[k].outcome) by {
            if k < r.items.len() {
                assert(r2.items[k] == r.items[k]);
            }
        }
    }
}

/// Once both runs are finished, the dry run listed the same paths in the
/// same order; a target is refused in one exactly when in the other, absent
/// in one exactly when in the other, and what the real run removed, the dry
/// run reported removed with the same size.
pub proof fn lemma_finished_rehearsal(d: CleanerModel, r: CleanerModel)
    requires
        wf(d),
        wf(r),
        rehearses(d, r),
        spec_request(d) is Finished,
        spec_request(r) is Finished,
    ensures
        d.items.len() == r.items.len(),
        forall|k: int|
            0 <= k < r.items.len() ==> {
                &&& (#[trigger] d.items[k]).path == r.items[k].path
                &&& (d.items[k].outcome is Refused <==> r.items[k].outcome is Refused)
                &&& (d.items[k].outcome is NotPresent <==> r.items[k].outcome is NotPresent)
                &&& (forall|b: u64|
                    r.items[k].outcome == (OutcomeModel::Removed { bytes: b }) ==> d.items[k].outcome
                        == (OutcomeModel::Removed { bytes: b }))
            },
{
}

/// The login survives every clean. Take a name on the never-delete list
/// (`Local Storage`, `Cookies`, ..., in any case) inside the data directory,
/// and extra cache directories none of which is the data directory or lies
/// above it: no removal a clean asks for is that file, or any directory
/// above it.
pub proof fn lemma_login_survives(
    m: CleanerModel,
    i: Install,
    scope: Scope,
    entries: Seq<DirEntryFacts>,
    n: Seq<char>,
)
    requires
        wf(m),
        m.targets == spec_targets(i, scope, spec_versioned(i.data_dir@, entries)),
        spec_is_never_deletable(n),
        forall|k: int|
            0 <= k < i.extra_cache_dirs@.len() ==> !components(
                #[trigger] i.extra_cache_dirs@[k]@,
            ).is_prefix_of(components(i.data_dir@)),
        forall|k: int|
            0 <= k < i.extra_deep_cache_dirs@.len() ==> !components(
                #[trigger] i.extra_deep_cache_dirs@[k]@,
            ).is_prefix_of(components(i.data_dir@)),
    ensures
        spec_request(m) is Remove ==> !components(spec_request(m)->Remove_path).is_prefix_of(
            components(spec_join(i.data_dir@, n)),
        ),
{
    if spec_request(m) is Remove {
        let dd = i.data_dir@;
        let t = current(m);
        let k = m.items.len() as int;
        let names = spec_target_names(scope).map_values(|x: Seq<char>| spec_join(dd, x));
        let ec = string_views(i.extra_cache_dirs@);
        let ed = string_views(i.extra_deep_cache_dirs@);
        let vs = spec_versioned(dd, entries);
        lemma_never_names_plain(n);
        lemma_join_components(dd, n);
        let p = components(spec_join(dd, n));
        let cd = components(dd);
        let ct = components(t);
        if ct.is_prefix_of(p) {
            if ct.len() == p.len() {
                assert(ct =~= p);
                reveal(components);
                assert(spec_file_name(t) == Some(n));
                assert(false);
            } else {
                assert(ct.is_prefix_of(cd)) by {
                    assert(ct =~= cd.subrange(0, ct.len() as int));
                }
                lemma_target_names_plain(scope);
                lemma_versioned_children(dd, entries);
                if k < names.len() {
                    let x = spec_target_names(scope)[k];
                    assert(t == spec_join(dd, x));
                    assert(plain_name(x));
                    lemma_join_components(dd, x);
                } else if k < names.len() + ec.len() {
                    assert(t == ec[k - names.len()]);
                    assert(ec[k - names.len()] == i.extra_cache_dirs@[k - names.len()]@);
                } else if k < names.len() + ec.len() + ed.len() {
                    assert(t == ed[k - names.len() - ec.len()]);
                    assert(ed[k - names.len() - ec.len()] == i.extra_deep_cache_dirs@[k - names.len() - ec.len()]@);
                } else {
                    let r = k - names.len() - ec.len() - ed.len();
                    assert(t == vs[r]);
                    assert(child_of(vs[r], dd));
                    let v = choose|v: Seq<char>| plain_name(v) && vs[r] == spec_join(dd, v);
                    lemma_join_components(dd, v);
                }
            }
        }
    }
}

/// A clean after it was given `steps`, in order: each an answer and the
/// home directory at that moment.
pub open spec fn run_clean(m: CleanerModel, steps: Seq<(Answer, Option<Seq<char>>)>) -> CleanerModel
    decreases steps.len(),
{
    if steps.len() == 0 {
        m
    } else {
        let last = steps.last();
        spec_answer(run_clean(m, steps.drop_last()), last.0, last.1)
    }
}

/// Each step answers what the clean asked for at that point.
pub open spec fn answered_in_turn(m: CleanerModel, steps: Seq<(Answer, Option<Seq<char>>)>) -> bool {
    forall|k: int|
        0 <= k < steps.len() ==> answers(spec_request(run_clean(m, steps.take(k))), #[trigger] steps[k].0)
}

proof fn lemma_whole_rehearsal_steps(
    d: CleanerModel,
    r: CleanerModel,
    steps: Seq<(Answer, Option<Seq<char>>)>,
)
    requires
        wf(d),
        wf(r),
        rehearses(d, r),
        answered_in_turn(r, steps),
    ensures
        wf(run_clean(d, steps)),
        wf(run_clean(r, steps)),
        rehearses(run_clean(d, steps), run_clean(r, steps)),
    decreases steps.len(),
{
    if steps.len() > 0 {
        let init = steps.drop_last();
        assert forall|k: int| 0 <= k < init.len() implies answers(
            spec_request(run_clean(r, init.take(k))),
            #[trigger] init[k].0,
        ) by {
            assert(init.take(k) =~= steps.take(k));
            assert(init[k] == steps[k]);
        }
        lemma_whole_rehearsal_steps(d, r, init);
        let d1 = run_clean(d, init);
        let r1 = run_clean(r, init);
        let (a, home) = steps.last();
        assert(steps.take(steps.len() - 1) =~= init);
        assert(answers(spec_request(r1), steps[steps.len() - 1].0));
        lemma_answer_keeps_wf(d1, a, home);
        lemma_answer_keeps_wf(r1, a, home);
        lemma_dry_run_rehearses(d1, r1, a, home);
        if d1.items.len() > r1.items.len() {
            assert(a is Removal);
            assert(spec_answer(d1, a, home) == d1);
        }
    }
}

/// The dry run rehearses the real run over whole runs: started by `clean`
/// for the same install, scope and version directories, and given the same
/// answers from the disk (those of the real run, each answering what it
/// asked; the dry run passes over the answers to removals it never asks
/// for), once the real run is finished the dry run is finished too, their
/// reports list the same paths in the same order, a target is refused in
/// one exactly when in the other, absent in one exactly when in the other,
/// and what the real run removed the dry run reported removed with the
/// same size.
pub proof fn lemma_whole_runs_agree(
    d: CleanerModel,
    r: CleanerModel,
    i: Install,
    scope: Scope,
    versioned: Seq<Seq<char>>,
    steps: Seq<(Answer, Option<Seq<char>>)>,
)
    requires
        sorted_firsts(d.allowed_raw, parent_candidates(i)),
        sorted_firsts(r.allowed_raw, parent_candidates(i)),
        d.allowed == r.allowed,
        d.targets == spec_targets(i, scope, versioned),
        r.targets == spec_targets(i, scope, versioned),
        d.dry_run,
        !r.dry_run,
        d.items == Seq::<ItemModel>::empty(),
        r.items == Seq::<ItemModel>::empty(),
        d.phase == first_phase(d.allowed_raw.len(), d.targets.len()),
        r.phase == first_phase(r.allowed_raw.len(), r.targets.len()),
        d.evidence == no_evidence(),
        r.evidence == no_evidence(),
        wf(d),
        wf(r),
        answered_in_turn(r, steps),
        spec_request(run_clean(r, steps)) is Finished,
    ensures
        spec_request(run_clean(d, steps)) is Finished,
        run_clean(d, steps).items.len() == run_clean(r, steps).items.len(),
        forall|k: int|
            0 <= k < run_clean(r, steps).items.len() ==> {
                let di = #[trigger] run_clean(d, steps).items[k];
                let ri = run_clean(r, steps).items[k];
                &&& di.path == ri.path
                &&& (di.outcome is Refused <==> ri.outcome is Refused)
                &&& (di.outcome is NotPresent <==> ri.outcome is NotPresent)
                &&& (forall|b: u64|
                    ri.outcome == (OutcomeModel::Removed { bytes: b }) ==> di.outcome
                        == (OutcomeModel::Removed { bytes: b }))
            },
{
    lemma_rehearsal_starts(d, r, i, scope, versioned);
    lemma_whole_rehearsal_steps(d, r, steps);
    let d2 = run_clean(d, steps);
    let r2 = run_clean(r, steps);
    assert(d2.items.len() == r2.items.len());
    lemma_finished_rehearsal(d2, r2);
}

proof fn lemma_run_keeps_targets(m: CleanerModel, steps: Seq<(Answer, Option<Seq<char>>)>)
    requires
        wf(m),
    ensures
        wf(run_clean(m, steps)),
        run_clean(m, steps).targets == m.targets,
    decreases steps.len(),
{
    if steps.len() > 0 {
        lemma_run_keeps_targets(m, steps.drop_last());
        let last = steps.last();
        lemma_answer_keeps_wf(run_clean(m, steps.drop_last()), last.0, last.1);
    }
}

/// The login survives a whole clean: under the conditions of
/// `lemma_login_survives`, at no point of a clean, whatever the disk
/// answers, is a removal asked for of the protected file or of any
/// directory above it.
pub proof fn lemma_login_survives_every_step(
    m: CleanerModel,
    i: Install,
    scope: Scope,
    entries: Seq<DirEntryFacts>,
    n: Seq<char>,
    steps: Seq<(Answer, Option<Seq<char>>)>,
)
    requires
        wf(m),
        m.targets == spec_targets(i, scope, spec_versioned(i.data_dir@, entries)),
        spec_is_never_deletable(n),
        forall|k: int|
            0 <= k < i.extra_cache_dirs@.len() ==> !components(
                #[trigger] i.extra_cache_dirs@[k]@,
            ).is_prefix_of(components(i.data_dir@)),
        forall|k: int|
            0 <= k < i.extra_deep_cache_dirs@.len() ==> !components(
                #[trigger] i.extra_deep_cache_dirs@[k]@,
            ).is_prefix_of(components(i.data_dir@)),
    ensures
        forall|k: int|
            0 <= k <= steps.len() ==> (#[trigger] spec_request(run_clean(m, steps.take(k)))) is Remove
                ==> !components(spec_request(run_clean(m, steps.take(k)))->Remove_path).is_prefix_of(
                components(spec_join(i.data_dir@, n)),
            ),
{
    assert forall|k: int| 0 <= k <= steps.len() implies (#[trigger] spec_request(run_clean(m, steps.take(k))))
        is Remove ==> !components(spec_request(run_clean(m, steps.take(k)))->Remove_path).is_prefix_of(
        components(spec_join(i.data_dir@, n)),
    ) by {
        lemma_run_keeps_targets(m, steps.take(k));
        lemma_login_survives(run_clean(m, steps.take(k)), i, scope, entries, n);
    }
}

/// The phase of a target past its stat, carrying `b` as what the stat said
/// of whether it is a directory.
pub open spec fn carries_kind(m: CleanerModel, b: bool) -> bool {
    match m.phase {
        Phase::Parent { is_dir } => is_dir == b,
        Phase::Size { is_dir } => is_dir == b,
        Phase::Removal { is_dir, .. } => is_dir == b,
        _ => false,
    }
}

proof fn lemma_kind_carried(m: CleanerModel, n0: nat, b: bool, steps: Seq<(Answer, Option<Seq<char>>)>)
    requires
        wf(m),
        m.items.len() >= n0,
        m.items.len() == n0 ==> carries_kind(m, b),
    ensures
        wf(run_clean(m, steps)),
        run_clean(m, steps).items.len() >= n0,
        run_clean(m, steps).items.len() == n0 ==> carries_kind(run_clean(m, steps), b),
    decreases steps.len(),
{
    if steps.len() > 0 {
        lemma_kind_carried(m, n0, b, steps.drop_last());
        let s = run_clean(m, steps.drop_last());
        let (a, home) = steps.last();
        lemma_answer_keeps_wf(s, a, home);
    }
}

/// A directory is removed as a directory, a file as a file: once the disk
/// has answered the stat of the current target with `is_dir`, every
/// removal the clean asks for of that target, whatever the later answers,
/// says `is_dir` just as the stat did.
pub proof fn lemma_removal_kind_is_the_stat_kind(
    m: CleanerModel,
    is_dir: bool,
    is_symlink: bool,
    home: Option<Seq<char>>,
    steps: Seq<(Answer, Option<Seq<char>>)>,
)
    requires
        wf(m),
        m.phase == Phase::Stat,
    ensures
        ({
            let after = run_clean(
                spec_answer(m, Answer::Stat(Stat::Found { is_dir, is_symlink }), home),
                steps,
            );
            after.items.len() == m.items.len() && spec_request(after) is Remove ==> spec_request(
                after,
            )->Remove_path == current(m) && spec_request(after)->Remove_is_dir == is_dir
        }),
{
    let first = spec_answer(m, Answer::Stat(Stat::Found { is_dir, is_symlink }), home);
    lemma_answer_keeps_wf(m, Answer::Stat(Stat::Found { is_dir, is_symlink }), home);
    lemma_kind_carried(first, m.items.len(), is_dir, steps);
    lemma_run_keeps_targets(first, steps);
}

} // verus!
