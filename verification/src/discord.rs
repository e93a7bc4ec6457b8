//! What a Discord install looks like on disk, and which parts of it may go.
//!
//! The one invariant that matters most lives here: the never-delete list.
//! Discord keeps its login in `Local Storage` and `Cookies`; nothing that a
//! cleaning scope schedules may match that list, and the laws below prove it.
use vstd::prelude::*;
use crate::path::{
    chars_eq, components, covered, lemma_between_separators_is_component, file_name, join, lemma_components_well_formed,
    lemma_join_components, lemma_render_components, opt_view, plain_name, same_path, sorted_firsts, sorted_unique_paths, spec_file_name, spec_join,
    spec_parent, parent, split_on, lemma_split_on_nonempty,
};
use crate::text::{
    chars_of, clone_strings, concat_chars, contains, contains_of, eq_ignore_case, eq_ignore_case_of,
    has_prefix, has_suffix, holds_at_of, lower, lower_seq, skip_of, str_views, string_views,
    strip_suffix_or_keep, strip_suffix_or_keep_of,
};

verus! {

/// A release channel of the Discord client.
#[derive(Debug, Clone, Copy, PartialEq, Eq, Hash, Structural)]
pub enum Flavor {
    Stable,
    Ptb,
    Canary,
    Development,
}

/// The operating system that names are chosen for: process names differ on
/// macOS.
#[derive(Debug, Clone, Copy, PartialEq, Eq, Structural)]
pub enum TargetOs {
    MacOs,
    Other,
}

pub open spec fn spec_all_flavors() -> Seq<Flavor> {
    seq![Flavor::Stable, Flavor::Ptb, Flavor::Canary, Flavor::Development]
}

pub open spec fn spec_display_name(f: Flavor) -> Seq<char> {
    match f {
        Flavor::Stable => "Discord"@,
        Flavor::Ptb => "Discord PTB"@,
        Flavor::Canary => "Discord Canary"@,
        Flavor::Development => "Discord Development"@,
    }
}

pub open spec fn spec_data_dir_name(f: Flavor) -> Seq<char> {
    match f {
        Flavor::Stable => "discord"@,
        Flavor::Ptb => "discordptb"@,
        Flavor::Canary => "discordcanary"@,
        Flavor::Development => "discorddevelopment"@,
    }
}

pub open spec fn spec_bundle_id(f: Flavor) -> Seq<char> {
    match f {
        Flavor::Stable => "com.hnc.Discord"@,
        Flavor::Ptb => "com.hnc.DiscordPTB"@,
        Flavor::Canary => "com.hnc.DiscordCanary"@,
        Flavor::Development => "com.hnc.DiscordDevelopment"@,
    }
}

pub open spec fn spec_process_stem(f: Flavor, os: TargetOs) -> Seq<char> {
    match os {
        TargetOs::MacOs => spec_display_name(f),
        TargetOs::Other => match f {
            Flavor::Stable => "Discord"@,
            Flavor::Ptb => "DiscordPTB"@,
            Flavor::Canary => "DiscordCanary"@,
            Flavor::Development => "DiscordDevelopment"@,
        },
    }
}

/// Whether an executable path belongs to flavor `f`: its file name, without
/// a trailing `.exe`, is the flavor's process stem or the stem followed by
/// ` Helper...`; or it is `chrome_crashpad_handler` living in the flavor's
/// `.app` bundle or data directory.
pub open spec fn spec_matches_process(f: Flavor, exe: Seq<char>, os: TargetOs) -> bool {
    match spec_file_name(exe) {
        None => false,
        Some(full) => {
            let name = strip_suffix_or_keep(full, ".exe"@);
            let stem = spec_process_stem(f, os);
            if name == stem || (has_prefix(name, stem) && has_prefix(
                name.skip(stem.len() as int),
                " Helper"@,
            )) {
                true
            } else if name == "chrome_crashpad_handler"@ {
                contains(exe, spec_display_name(f) + ".app/"@) || contains(
                    exe,
                    "/"@ + spec_data_dir_name(f) + "/"@,
                )
            } else {
                false
            }
        },
    }
}

impl Flavor {
    /// Every flavor, Stable first.
    pub fn all() -> (r: Vec<Flavor>)
        ensures
            r@ == spec_all_flavors(),
    {
        let mut r: Vec<Flavor> = Vec::new();
        r.push(Flavor::Stable);
        r.push(Flavor::Ptb);
        r.push(Flavor::Canary);
        r.push(Flavor::Development);
        assert(r@ =~= spec_all_flavors());
        r
    }

    /// What the user is shown.
    pub fn display_name(self) -> (r: &'static str)
        ensures
            r@ == spec_display_name(self),
    {
        match self {
            Flavor::Stable => "Discord",
            Flavor::Ptb => "Discord PTB",
            Flavor::Canary => "Discord Canary",
            Flavor::Development => "Discord Development",
        }
    }

    /// The Electron userData directory name, the same on every platform.
    pub fn data_dir_name(self) -> (r: &'static str)
        ensures
            r@ == spec_data_dir_name(self),
    {
        match self {
            Flavor::Stable => "discord",
            Flavor::Ptb => "discordptb",
            Flavor::Canary => "discordcanary",
            Flavor::Development => "discorddevelopment",
        }
    }

    pub fn macos_bundle_id(self) -> (r: &'static str)
        ensures
            r@ == spec_bundle_id(self),
    {
        match self {
            Flavor::Stable => "com.hnc.Discord",
            Flavor::Ptb => "com.hnc.DiscordPTB",
            Flavor::Canary => "com.hnc.DiscordCanary",
            Flavor::Development => "com.hnc.DiscordDevelopment",
        }
    }

    /// Base name of the main executable, shared as a stem by its helper
    /// processes (`Discord`, `Discord Helper (GPU)`, ...).
    pub fn process_stem(self, os: TargetOs) -> (r: &'static str)
        ensures
            r@ == spec_process_stem(self, os),
    {
        match os {
            TargetOs::MacOs => self.display_name(),
            TargetOs::Other => match self {
                Flavor::Stable => "Discord",
                Flavor::Ptb => "DiscordPTB",
                Flavor::Canary => "DiscordCanary",
                Flavor::Development => "DiscordDevelopment",
            },
        }
    }

    /// Does the process with this executable path belong to this flavor?
    /// Only the executable's path is looked at, never a command line.
    pub fn matches_process(self, exe: &str, os: TargetOs) -> (r: bool)
        ensures
            r == spec_matches_process(self, exe@, os),
    {
        let name_opt = file_name(exe);
        match name_opt {
            None => false,
            Some(full) => {
                let full_c = chars_of(full.as_str());
                let ext = chars_of(".exe");
                let name = strip_suffix_or_keep_of(&full_c, &ext);
                let stem = chars_of(self.process_stem(os));
                if chars_eq(&name, &stem) {
                    return true;
                }
                if holds_at_of(&name, &stem, 0) {
                    let rest = skip_of(&name, stem.len());
                    let helper = chars_of(" Helper");
                    if holds_at_of(&rest, &helper, 0) {
                        return true;
                    }
                }
                let crash = chars_of("chrome_crashpad_handler");
                if chars_eq(&name, &crash) {
                    let path = chars_of(exe);
                    let app = concat_chars(&chars_of(self.display_name()), &chars_of(".app/"));
                    if contains_of(&path, &app) {
                        return true;
                    }
                    let slash = chars_of("/");
                    let dir = concat_chars(&concat_chars(&slash, &chars_of(self.data_dir_name())), &slash);
                    contains_of(&path, &dir)
                } else {
                    false
                }
            },
        }
    }
}

/// How an install was packaged.
#[derive(Debug, Clone, Copy, PartialEq, Eq, Structural)]
pub enum Packaging {
    Native,
    Flatpak,
    Snap,
}

/// How to start an install back up once the caches are gone.
#[derive(Debug, Clone)]
pub enum LaunchSpec {
    /// `open -b <bundle id>`
    MacOsBundleId(&'static str),
    /// Squirrel's stub launcher. Starting `app-x.y.z\Discord.exe` directly
    /// works but quietly breaks the auto-updater, so the stub is used.
    WindowsSquirrel { update_exe: String, exe_name: String },
    Command { program: String, args: Vec<String> },
}

/// A launch spec as mathematical values.
pub enum LaunchSpecModel {
    MacOsBundleId(Seq<char>),
    WindowsSquirrel { update_exe: Seq<char>, exe_name: Seq<char> },
    Command { program: Seq<char>, args: Seq<Seq<char>> },
}

impl View for LaunchSpec {
    type V = LaunchSpecModel;

    open spec fn view(&self) -> LaunchSpecModel {
        match self {
            LaunchSpec::MacOsBundleId(id) => LaunchSpecModel::MacOsBundleId(id@),
            LaunchSpec::WindowsSquirrel { update_exe, exe_name } => LaunchSpecModel::WindowsSquirrel {
                update_exe: update_exe@,
                exe_name: exe_name@,
            },
            LaunchSpec::Command { program, args } => LaunchSpecModel::Command {
                program: program@,
                args: string_views(args@),
            },
        }
    }
}

/// One Discord installation found on this machine.
#[derive(Debug, Clone)]
pub struct Install {
    pub flavor: Flavor,
    pub packaging: Packaging,
    /// The Electron userData dir; named cache targets are resolved inside it.
    pub data_dir: String,
    /// Whole directories outside `data_dir` that are pure cache and go
    /// entirely.
    pub extra_cache_dirs: Vec<String>,
    /// The same, but only removed by a deep clean.
    pub extra_deep_cache_dirs: Vec<String>,
    pub launch: Option<LaunchSpec>,
}

/// An install as mathematical values.
pub struct InstallModel {
    pub flavor: Flavor,
    pub packaging: Packaging,
    pub data_dir: Seq<char>,
    pub extra_cache_dirs: Seq<Seq<char>>,
    pub extra_deep_cache_dirs: Seq<Seq<char>>,
    pub launch: Option<LaunchSpecModel>,
}

impl View for Install {
    type V = InstallModel;

    open spec fn view(&self) -> InstallModel {
        InstallModel {
            flavor: self.flavor,
            packaging: self.packaging,
            data_dir: self.data_dir@,
            extra_cache_dirs: string_views(self.extra_cache_dirs@),
            extra_deep_cache_dirs: string_views(self.extra_deep_cache_dirs@),
            launch: match self.launch {
                Some(l) => Some(l@),
                None => None,
            },
        }
    }
}

impl LaunchSpec {
    /// A copy holding the same values.
    pub fn copied(&self) -> (r: LaunchSpec)
        ensures
            r@ == self@,
    {
        match self {
            LaunchSpec::MacOsBundleId(id) => LaunchSpec::MacOsBundleId(*id),
            LaunchSpec::WindowsSquirrel { update_exe, exe_name } => LaunchSpec::WindowsSquirrel {
                update_exe: update_exe.clone(),
                exe_name: exe_name.clone(),
            },
            LaunchSpec::Command { program, args } => LaunchSpec::Command {
                program: program.clone(),
                args: clone_strings(args),
            },
        }
    }
}

impl Install {
    /// A copy holding the same values.
    pub fn copied(&self) -> (r: Install)
        ensures
            r@ == self@,
    {
        Install {
            flavor: self.flavor,
            packaging: self.packaging,
            data_dir: self.data_dir.clone(),
            extra_cache_dirs: clone_strings(&self.extra_cache_dirs),
            extra_deep_cache_dirs: clone_strings(&self.extra_deep_cache_dirs),
            launch: match &self.launch {
                Some(l) => Some(l.copied()),
                None => None,
            },
        }
    }
}

pub open spec fn spec_label(f: Flavor, p: Packaging) -> Seq<char> {
    match p {
        Packaging::Native => spec_display_name(f),
        Packaging::Flatpak => spec_display_name(f) + " (Flatpak)"@,
        Packaging::Snap => spec_display_name(f) + " (Snap)"@,
    }
}

/// The parents of `ds` that exist, in order.
pub open spec fn parents_of(ds: Seq<Seq<char>>) -> Seq<Seq<char>>
    decreases ds.len(),
{
    if ds.len() == 0 {
        seq![]
    } else {
        parents_of(ds.drop_last()) + match spec_parent(ds.last()) {
            Some(p) => seq![p],
            None => seq![],
        }
    }
}

/// The directories a target of `i` may sit in, before sorting: the data
/// directory, then the parent of each extra cache directory.
pub open spec fn parent_candidates(i: Install) -> Seq<Seq<char>> {
    seq![i.data_dir@] + parents_of(
        string_views(i.extra_cache_dirs@) + string_views(i.extra_deep_cache_dirs@),
    )
}

/// Every path `i` would delete at `scope`, present or not.
pub open spec fn spec_targets(i: Install, scope: Scope, versioned: Seq<Seq<char>>) -> Seq<Seq<char>> {
    spec_target_names(scope).map_values(|n: Seq<char>| spec_join(i.data_dir@, n)) + string_views(
        i.extra_cache_dirs@,
    ) + if scope == Scope::Deep {
        string_views(i.extra_deep_cache_dirs@) + versioned
    } else {
        seq![]
    }
}

impl Install {
    pub fn label(&self) -> (r: String)
        ensures
            r@ == spec_label(self.flavor, self.packaging),
    {
        let mut s = self.flavor.display_name().to_owned();
        match self.packaging {
            Packaging::Native => {},
            Packaging::Flatpak => s.append(" (Flatpak)"),
            Packaging::Snap => s.append(" (Snap)"),
        }
        s
    }

    /// Directories under which this install may delete things, sorted, each
    /// once. The clean engine requires every target to be a direct child of
    /// one of these, after symlink resolution.
    pub fn allowed_parents(&self) -> (r: Vec<String>)
        ensures
            sorted_firsts(string_views(r@), parent_candidates(*self)),
    {
        let mut parents: Vec<String> = Vec::new();
        parents.push(self.data_dir.clone());
        let mut extras: Vec<String> = Vec::new();
        let mut i: usize = 0;
        while i < self.extra_cache_dirs.len()
            invariant
                i <= self.extra_cache_dirs.len(),
                extras@ == self.extra_cache_dirs@.take(i as int),
            decreases self.extra_cache_dirs.len() - i,
        {
            extras.push(self.extra_cache_dirs[i].clone());
            i = i + 1;
            assert(extras@ =~= self.extra_cache_dirs@.take(i as int));
        }
        let mut j: usize = 0;
        while j < self.extra_deep_cache_dirs.len()
            invariant
                i == self.extra_cache_dirs.len(),
                j <= self.extra_deep_cache_dirs.len(),
                extras@ == self.extra_cache_dirs@ + self.extra_deep_cache_dirs@.take(j as int),
            decreases self.extra_deep_cache_dirs.len() - j,
        {
            extras.push(self.extra_deep_cache_dirs[j].clone());
            j = j + 1;
            assert(extras@ =~= self.extra_cache_dirs@ + self.extra_deep_cache_dirs@.take(j as int));
        }
        assert(self.extra_cache_dirs@.take(i as int) =~= self.extra_cache_dirs@);
        assert(self.extra_deep_cache_dirs@.take(j as int) =~= self.extra_deep_cache_dirs@);
        let ghost ds = string_views(self.extra_cache_dirs@) + string_views(self.extra_deep_cache_dirs@);
        assert(string_views(extras@) =~= ds);
        let mut k: usize = 0;
        assert(string_views(parents@) =~= seq![self.data_dir@] + parents_of(ds.take(0)));
        while k < extras.len()
            invariant
                k <= extras.len(),
                string_views(extras@) == ds,
                string_views(parents@) == seq![self.data_dir@] + parents_of(ds.take(k as int)),
            decreases extras.len() - k,
        {
            let p = parent(extras[k].as_str());
            let ghost before = string_views(parents@);
            assert(ds.take(k + 1).drop_last() =~= ds.take(k as int));
            match p {
                Some(q) => {
                    parents.push(q);
                    assert(string_views(parents@) =~= before.push(q@));
                },
                None => {},
            }
            k = k + 1;
            assert(string_views(parents@) =~= seq![self.data_dir@] + parents_of(ds.take(k as int)));
        }
        assert(ds.take(k as int) =~= ds);
        sorted_unique_paths(&parents)
    }

    /// Every path this install would delete at `scope`, present or not.
    /// `versioned` holds the per-version module stores of `data_dir`
    /// (see `versioned_module_dirs`); only a deep clean takes them.
    pub fn targets(&self, scope: Scope, versioned: &Vec<String>) -> (r: Vec<String>)
        ensures
            string_views(r@) == spec_targets(*self, scope, string_views(versioned@)),
    {
        let names = scope.target_names();
        let mut r: Vec<String> = Vec::new();
        let mut i: usize = 0;
        while i < names.len()
            invariant
                i <= names.len(),
                str_views(names@) == spec_target_names(scope),
                string_views(r@) == spec_target_names(scope).take(i as int).map_values(
                    |n: Seq<char>| spec_join(self.data_dir@, n),
                ),
            decreases names.len() - i,
        {
            let t = join(self.data_dir.as_str(), names[i]);
            assert(names@[i as int]@ == spec_target_names(scope)[i as int]);
            assert(spec_target_names(scope).take(i + 1) =~= spec_target_names(scope).take(i as int).push(
                spec_target_names(scope)[i as int],
            ));
            let ghost before = r@;
            r.push(t);
            assert(string_views(r@) =~= string_views(before).push(t@));
            i = i + 1;
            assert(string_views(r@) =~= spec_target_names(scope).take(i as int).map_values(
                |n: Seq<char>| spec_join(self.data_dir@, n),
            ));
        }
        assert(spec_target_names(scope).take(i as int) =~= spec_target_names(scope));
        let ghost head = string_views(r@);
        append_all(&mut r, &self.extra_cache_dirs);
        if scope == Scope::Deep {
            append_all(&mut r, &self.extra_deep_cache_dirs);
            append_all(&mut r, versioned);
            assert(string_views(r@) =~= head + string_views(self.extra_cache_dirs@) + (string_views(
                self.extra_deep_cache_dirs@,
            ) + string_views(versioned@)));
        } else {
            assert(string_views(r@) =~= head + string_views(self.extra_cache_dirs@) + Seq::<
                Seq<char>,
            >::empty());
        }
        r
    }
}

fn append_all(r: &mut Vec<String>, more: &Vec<String>)
    ensures
        string_views(final(r)@) == string_views(old(r)@) + string_views(more@),
{
    let ghost start = string_views(r@);
    let mut i: usize = 0;
    while i < more.len()
        invariant
            i <= more.len(),
            string_views(r@) == start + string_views(more@.take(i as int)),
        decreases more.len() - i,
    {
        let x = more[i].clone();
        let ghost before = r@;
        assert(x@ == more@[i as int]@);
        assert(string_views(more@.take(i + 1)) =~= string_views(more@.take(i as int)).push(x@));
        r.push(x);
        assert(r@ == before.push(x));
        assert(string_views(r@) =~= string_views(before).push(x@));
        i = i + 1;
        assert(string_views(r@) =~= start + string_views(more@.take(i as int)));
    }
    assert(more@.take(i as int) =~= more@);
}

/// What `read_dir` tells of one entry of a data directory.
pub struct DirEntryFacts {
    /// The entry's file name, where it is valid UTF-8.
    pub name: Option<String>,
    /// The entry is a directory.
    pub is_dir: bool,
    /// The entry holds a `modules` directory.
    pub has_modules: bool,
}

pub open spec fn is_digit(c: char) -> bool {
    '0' <= c && c <= '9'
}

/// `0.0.402` yes; `0.0.402-beta`, `modules`, `1` no: at least two pieces
/// between dots, each made of ASCII digits and none empty.
pub open spec fn spec_looks_like_version(s: Seq<char>) -> bool {
    let parts = split_on(s, '.');
    parts.len() >= 2 && forall|k: int|
        0 <= k < parts.len() ==> #[trigger] parts[k].len() > 0 && forall|j: int|
            0 <= j < parts[k].len() ==> is_digit(parts[k][j])
}

/// Every piece of `ps` is non-empty and made of digits.
pub open spec fn all_digit_parts(ps: Seq<Seq<char>>) -> bool {
    forall|k: int|
        0 <= k < ps.len() ==> #[trigger] ps[k].len() > 0 && forall|j: int|
            0 <= j < ps[k].len() ==> is_digit(ps[k][j])
}

pub fn looks_like_version(name: &str) -> (r: bool)
    ensures
        r == spec_looks_like_version(name@),
{
    let cs = chars_of(name);
    let mut several = false;
    let mut cur_nonempty = false;
    let mut cur_digits = true;
    let mut done_ok = true;
    let mut i: usize = 0;
    assert(name@.take(0) =~= Seq::<char>::empty());
    while i < cs.len()
        invariant
            cs@ == name@,
            i <= cs.len(),
            split_on(name@.take(i as int), '.').len() >= 1,
            several == (split_on(name@.take(i as int), '.').len() >= 2),
            cur_nonempty == (split_on(name@.take(i as int), '.').last().len() > 0),
            cur_digits == (forall|j: int|
                0 <= j < split_on(name@.take(i as int), '.').last().len() ==> is_digit(
                    split_on(name@.take(i as int), '.').last()[j],
                )),
            done_ok == all_digit_parts(split_on(name@.take(i as int), '.').drop_last()),
        decreases cs.len() - i,
    {
        let c = cs[i];
        let ghost sp = split_on(name@.take(i as int), '.');
        proof {
            lemma_split_on_nonempty(name@.take(i as int), '.');
            assert(name@.take(i + 1).drop_last() =~= name@.take(i as int));
        }
        let ghost sp2 = split_on(name@.take(i + 1), '.');
        if c == '.' {
            done_ok = done_ok && cur_nonempty && cur_digits;
            several = true;
            cur_nonempty = false;
            cur_digits = true;
            proof {
                assert(sp2 == sp.push(Seq::<char>::empty()));
                assert(sp2.drop_last() =~= sp);
                assert(sp =~= sp.drop_last().push(sp.last()));
                assert(sp2.last() =~= Seq::<char>::empty());
            }
        } else {
            let ghost old_digits = cur_digits;
            cur_digits = cur_digits && '0' <= c && c <= '9';
            cur_nonempty = true;
            proof {
                assert(sp2 == sp.update(sp.len() - 1, sp.last().push(c)));
                assert(sp2.drop_last() =~= sp.drop_last());
                assert(sp2.last() =~= sp.last().push(c));
                let l = sp2.last();
                if cur_digits {
                    assert forall|j: int| 0 <= j < l.len() implies is_digit(l[j]) by {
                        if j < l.len() - 1 {
                            assert(l[j] == sp.last()[j]);
                        }
                    }
                } else if old_digits {
                    assert(!is_digit(l[l.len() - 1]));
                } else {
                    let j = choose|j: int| 0 <= j < sp.last().len() && !is_digit(sp.last()[j]);
                    assert(l[j] == sp.last()[j]);
                }
            }
        }
        i = i + 1;
    }
    let ghost sp = split_on(name@, '.');
    proof {
        assert(name@.take(i as int) =~= name@);
        lemma_split_on_nonempty(name@, '.');
        assert(sp =~= sp.drop_last().push(sp.last()));
    }
    several && done_ok && cur_nonempty && cur_digits
}

/// The per-host-version module stores among the entries of `data_dir`:
/// directories named like a version (`0.0.402`) that hold a `modules`
/// directory, as paths under `data_dir`.
pub open spec fn spec_versioned(data_dir: Seq<char>, es: Seq<DirEntryFacts>) -> Seq<Seq<char>>
    decreases es.len(),
{
    if es.len() == 0 {
        seq![]
    } else {
        let e = es.last();
        spec_versioned(data_dir, es.drop_last()) + match e.name {
            Some(n) => if e.is_dir && spec_looks_like_version(n@) && e.has_modules {
                seq![spec_join(data_dir, n@)]
            } else {
                seq![]
            },
            None => seq![],
        }
    }
}

/// Discord stores its downloaded native modules under a per-host-version
/// directory, `<data_dir>/0.0.402/modules`; the version differs per user,
/// so these are discovered rather than hard-coded. A numeric directory
/// without a `modules` store is left alone.
pub fn versioned_module_dirs(data_dir: &str, entries: &Vec<DirEntryFacts>) -> (r: Vec<String>)
    ensures
        string_views(r@) == spec_versioned(data_dir@, entries@),
{
    let mut r: Vec<String> = Vec::new();
    let mut i: usize = 0;
    while i < entries.len()
        invariant
            i <= entries.len(),
            string_views(r@) == spec_versioned(data_dir@, entries@.take(i as int)),
        decreases entries.len() - i,
    {
        let e = &entries[i];
        assert(entries@.take(i + 1).drop_last() =~= entries@.take(i as int));
        let ghost before = string_views(r@);
        match &e.name {
            Some(n) => {
                if e.is_dir && looks_like_version(n.as_str()) && e.has_modules {
                    let t = join(data_dir, n.as_str());
                    r.push(t);
                    assert(string_views(r@) =~= before.push(spec_join(data_dir@, n@)));
                }
            },
            None => {},
        }
        i = i + 1;
        assert(string_views(r@) =~= spec_versioned(data_dir@, entries@.take(i as int)));
    }
    assert(entries@.take(i as int) =~= entries@);
    r
}

/// How much a clean removes.
#[derive(Debug, Clone, Copy, PartialEq, Eq, Structural)]
pub enum Scope {
    /// Caches only. Cannot log the user out, cannot lose settings.
    Safe,
    /// Everything in `Safe`, plus regenerable browser state and `modules`.
    /// Still cannot log the user out.
    Deep,
}

/// Pure caches. Discord rebuilds all of these on its own; the list spans
/// Discord versions and missing entries are simply skipped.
pub open spec fn spec_safe() -> Seq<Seq<char>> {
    seq!["Cache"@, "Code Cache"@, "GPUCache"@, "DawnCache"@, "DawnGraphiteCache"@, "DawnWebGPUCache"@, "GrShaderCache"@, "ShaderCache"@, "blob_storage"@, "component_crx_cache"@, "Crashpad"@, "logs"@, "sentry"@, "Shared Dictionary"@]
}

/// Added by a deep clean: regenerable, but heavier.
pub open spec fn spec_deep_extra() -> Seq<Seq<char>> {
    seq!["Service Worker"@, "Session Storage"@, "SharedStorage"@, "SharedStorage-wal"@, "DIPS"@, "DIPS-wal"@, "Network Persistent State"@, "Trust Tokens"@, "Trust Tokens-journal"@, "WebStorage"@, "modules"@]
}

/// Never, under any scope, for any reason: `Local Storage` and `Cookies`
/// hold the login; the rest is user configuration.
pub open spec fn spec_never() -> Seq<Seq<char>> {
    seq!["Local Storage"@, "Cookies"@, "Cookies-journal"@, "SingletonCookie"@, "settings.json"@, "quotes.json"@]
}

pub open spec fn spec_target_names(scope: Scope) -> Seq<Seq<char>> {
    if scope == Scope::Deep {
        spec_safe() + spec_deep_extra()
    } else {
        spec_safe()
    }
}

/// Case-insensitive membership of the never-delete list.
pub open spec fn spec_is_never_deletable(name: Seq<char>) -> bool {
    exists|k: int| 0 <= k < spec_never().len() && eq_ignore_case(#[trigger] spec_never()[k], name)
}

/// The cache names that every clean removes.
pub fn safe_targets() -> (r: Vec<&'static str>)
    ensures
        str_views(r@) == spec_safe(),
{
    let mut r: Vec<&'static str> = Vec::new();
    r.push("Cache");
    r.push("Code Cache");
    r.push("GPUCache");
    r.push("DawnCache");
    r.push("DawnGraphiteCache");
    r.push("DawnWebGPUCache");
    r.push("GrShaderCache");
    r.push("ShaderCache");
    r.push("blob_storage");
    r.push("component_crx_cache");
    r.push("Crashpad");
    r.push("logs");
    r.push("sentry");
    r.push("Shared Dictionary");
    assert(str_views(r@) =~= spec_safe());
    r
}

/// The names that only a deep clean removes.
pub fn deep_extra_targets() -> (r: Vec<&'static str>)
    ensures
        str_views(r@) == spec_deep_extra(),
{
    let mut r: Vec<&'static str> = Vec::new();
    r.push("Service Worker");
    r.push("Session Storage");
    r.push("SharedStorage");
    r.push("SharedStorage-wal");
    r.push("DIPS");
    r.push("DIPS-wal");
    r.push("Network Persistent State");
    r.push("Trust Tokens");
    r.push("Trust Tokens-journal");
    r.push("WebStorage");
    r.push("modules");
    assert(str_views(r@) =~= spec_deep_extra());
    r
}

/// The names that nothing may ever delete.
pub fn never_deletable() -> (r: Vec<&'static str>)
    ensures
        str_views(r@) == spec_never(),
{
    let mut r: Vec<&'static str> = Vec::new();
    r.push("Local Storage");
    r.push("Cookies");
    r.push("Cookies-journal");
    r.push("SingletonCookie");
    r.push("settings.json");
    r.push("quotes.json");
    assert(str_views(r@) =~= spec_never());
    r
}

impl Scope {
    /// The names, inside the data directory, removed at this scope.
    pub fn target_names(self) -> (r: Vec<&'static str>)
        ensures
            str_views(r@) == spec_target_names(self),
    {
        let mut names = safe_targets();
        if self == Scope::Deep {
            let extra = deep_extra_targets();
            let mut i: usize = 0;
            let ghost start = names@;
            while i < extra.len()
                invariant
                    i <= extra.len(),
                    names@ == start + extra@.take(i as int),
                decreases extra.len() - i,
            {
                names.push(extra[i]);
                i = i + 1;
                assert(names@ =~= start + extra@.take(i as int));
            }
            assert(extra@.take(i as int) =~= extra@);
            assert(str_views(names@) =~= str_views(start) + str_views(extra@));
        }
        names
    }
}

/// Case-insensitive (ASCII) membership test against the never-delete list.
pub fn is_never_deletable(name: &str) -> (r: bool)
    ensures
        r == spec_is_never_deletable(name@),
{
    let never = never_deletable();
    let n = chars_of(name);
    let mut k: usize = 0;
    while k < never.len()
        invariant
            k <= never.len(),
            str_views(never@) == spec_never(),
            n@ == name@,
            forall|j: int| 0 <= j < k ==> !eq_ignore_case(#[trigger] spec_never()[j], name@),
        decreases never.len() - k,
    {
        let c = chars_of(never[k]);
        assert(c@ == spec_never()[k as int]);
        if eq_ignore_case_of(&c, &n) {
            return true;
        }
        k = k + 1;
    }
    false
}

/// Nothing that either scope schedules for deletion is on the never-delete
/// list, compared without regard to ASCII case.
pub proof fn lemma_scheduled_names_never_protected(scope: Scope)
    ensures
        forall|i: int|
            0 <= i < spec_target_names(scope).len() ==> !spec_is_never_deletable(
                #[trigger] spec_target_names(scope)[i],
            ),
{
    reveal_strlit("Cache");
    reveal_strlit("Code Cache");
    reveal_strlit("GPUCache");
    reveal_strlit("DawnCache");
    reveal_strlit("DawnGraphiteCache");
    reveal_strlit("DawnWebGPUCache");
    reveal_strlit("GrShaderCache");
    reveal_strlit("ShaderCache");
    reveal_strlit("blob_storage");
    reveal_strlit("component_crx_cache");
    reveal_strlit("Crashpad");
    reveal_strlit("logs");
    reveal_strlit("sentry");
    reveal_strlit("Shared Dictionary");
    reveal_strlit("Service Worker");
    reveal_strlit("Session Storage");
    reveal_strlit("SharedStorage");
    reveal_strlit("SharedStorage-wal");
    reveal_strlit("DIPS");
    reveal_strlit("DIPS-wal");
    reveal_strlit("Network Persistent State");
    reveal_strlit("Trust Tokens");
    reveal_strlit("Trust Tokens-journal");
    reveal_strlit("WebStorage");
    reveal_strlit("modules");
    reveal_strlit("Local Storage");
    reveal_strlit("Cookies");
    reveal_strlit("Cookies-journal");
    reveal_strlit("SingletonCookie");
    reveal_strlit("settings.json");
    reveal_strlit("quotes.json");
    assert forall|i: int, k: int|
        0 <= i < spec_target_names(Scope::Deep).len() && 0 <= k < spec_never().len() implies !eq_ignore_case(
        #[trigger] spec_never()[k],
        #[trigger] spec_target_names(Scope::Deep)[i],
    ) by {
        let a = lower_seq(spec_never()[k]);
        let b = lower_seq(spec_target_names(Scope::Deep)[i]);
        assert(a.len() != b.len() || a[0] != b[0] || a[1] != b[1]);
    }
    assert forall|i: int| 0 <= i < spec_target_names(scope).len() implies !spec_is_never_deletable(
        #[trigger] spec_target_names(scope)[i],
    ) by {
        assert(spec_target_names(scope)[i] == spec_target_names(Scope::Deep)[i]);
    }
}

/// Every name a safe clean removes is removed by a deep clean too.
pub proof fn lemma_safe_names_within_deep()
    ensures
        forall|i: int|
            0 <= i < spec_target_names(Scope::Safe).len() ==> spec_target_names(Scope::Deep).contains(
                #[trigger] spec_target_names(Scope::Safe)[i],
            ),
{
    assert forall|i: int| 0 <= i < spec_target_names(Scope::Safe).len() implies spec_target_names(
        Scope::Deep,
    ).contains(#[trigger] spec_target_names(Scope::Safe)[i]) by {
        assert(spec_target_names(Scope::Deep)[i] == spec_target_names(Scope::Safe)[i]);
    }
}

/// Every path a safe clean of an install would delete, a deep clean of the
/// same install deletes too.
pub proof fn lemma_safe_targets_within_deep(i: Install, versioned: Seq<Seq<char>>)
    ensures
        forall|k: int|
            0 <= k < spec_targets(i, Scope::Safe, versioned).len() ==> spec_targets(
                i,
                Scope::Deep,
                versioned,
            ).contains(#[trigger] spec_targets(i, Scope::Safe, versioned)[k]),
{
    let safe = spec_targets(i, Scope::Safe, versioned);
    let deep = spec_targets(i, Scope::Deep, versioned);
    let ns = spec_target_names(Scope::Safe).len();
    let nd = spec_target_names(Scope::Deep).len();
    assert forall|k: int| 0 <= k < safe.len() implies deep.contains(#[trigger] safe[k]) by {
        if k < ns {
            assert(deep[k] == safe[k]);
        } else {
            assert(deep[nd + (k - ns)] == safe[k]);
        }
    }
}

/// No name is listed twice in either scope.
pub proof fn lemma_target_names_unique(scope: Scope)
    ensures
        forall|i: int, j: int|
            0 <= i < j < spec_target_names(scope).len() ==> spec_target_names(scope)[i]
                != spec_target_names(scope)[j],
{
    reveal_strlit("Cache");
    reveal_strlit("Code Cache");
    reveal_strlit("GPUCache");
    reveal_strlit("DawnCache");
    reveal_strlit("DawnGraphiteCache");
    reveal_strlit("DawnWebGPUCache");
    reveal_strlit("GrShaderCache");
    reveal_strlit("ShaderCache");
    reveal_strlit("blob_storage");
    reveal_strlit("component_crx_cache");
    reveal_strlit("Crashpad");
    reveal_strlit("logs");
    reveal_strlit("sentry");
    reveal_strlit("Shared Dictionary");
    reveal_strlit("Service Worker");
    reveal_strlit("Session Storage");
    reveal_strlit("SharedStorage");
    reveal_strlit("SharedStorage-wal");
    reveal_strlit("DIPS");
    reveal_strlit("DIPS-wal");
    reveal_strlit("Network Persistent State");
    reveal_strlit("Trust Tokens");
    reveal_strlit("Trust Tokens-journal");
    reveal_strlit("WebStorage");
    reveal_strlit("modules");
    reveal_strlit("Local Storage");
    reveal_strlit("Cookies");
    reveal_strlit("Cookies-journal");
    reveal_strlit("SingletonCookie");
    reveal_strlit("settings.json");
    reveal_strlit("quotes.json");
    let d = spec_target_names(Scope::Deep);
    assert forall|i: int, j: int| 0 <= i < j < d.len() implies #[trigger] d[i] != #[trigger] d[j] by {
        assert(d[i].len() != d[j].len() || d[i][0] != d[j][0] || d[i][6] != d[j][6]);
    }
    assert forall|i: int, j: int|
        0 <= i < j < spec_target_names(scope).len() implies spec_target_names(scope)[i]
            != spec_target_names(scope)[j] by {
        assert(spec_target_names(scope)[i] == d[i]);
        assert(spec_target_names(scope)[j] == d[j]);
    }
}

/// Distinct flavors have distinct identities: display names, data
/// directories, bundle ids and process stems all differ.
pub proof fn lemma_flavors_distinct(a: Flavor, b: Flavor, os: TargetOs)
    requires
        a != b,
    ensures
        spec_display_name(a) != spec_display_name(b),
        spec_data_dir_name(a) != spec_data_dir_name(b),
        spec_bundle_id(a) != spec_bundle_id(b),
        spec_process_stem(a, os) != spec_process_stem(b, os),
{
    reveal_strlit("Discord");
    reveal_strlit("Discord PTB");
    reveal_strlit("Discord Canary");
    reveal_strlit("Discord Development");
    reveal_strlit("discord");
    reveal_strlit("discordptb");
    reveal_strlit("discordcanary");
    reveal_strlit("discorddevelopment");
    reveal_strlit("com.hnc.Discord");
    reveal_strlit("com.hnc.DiscordPTB");
    reveal_strlit("com.hnc.DiscordCanary");
    reveal_strlit("com.hnc.DiscordDevelopment");
    reveal_strlit("DiscordPTB");
    reveal_strlit("DiscordCanary");
    reveal_strlit("DiscordDevelopment");
    assert(spec_display_name(a).len() != spec_display_name(b).len());
    assert(spec_data_dir_name(a).len() != spec_data_dir_name(b).len());
    assert(spec_bundle_id(a).len() != spec_bundle_id(b).len());
    assert(spec_process_stem(a, os).len() != spec_process_stem(b, os).len());
}

/// The main executable of one flavor is never taken for a process of
/// another: Stable does not sweep up Canary, on any platform.
pub proof fn lemma_other_flavors_not_matched(a: Flavor, b: Flavor, os: TargetOs, exe: Seq<char>)
    requires
        a != b,
        spec_file_name(exe) == Some(spec_process_stem(b, os)),
    ensures
        !spec_matches_process(a, exe, os),
{
    reveal_strlit("Discord");
    reveal_strlit("Discord PTB");
    reveal_strlit("Discord Canary");
    reveal_strlit("Discord Development");
    reveal_strlit("DiscordPTB");
    reveal_strlit("DiscordCanary");
    reveal_strlit("DiscordDevelopment");
    reveal_strlit(".exe");
    reveal_strlit(" Helper");
    reveal_strlit("chrome_crashpad_handler");
    lemma_flavors_distinct(a, b, os);
    let full = spec_process_stem(b, os);
    let stem = spec_process_stem(a, os);
    assert(!has_suffix(full, ".exe"@)) by {
        if has_suffix(full, ".exe"@) {
            assert(full.subrange(full.len() - 4, full.len() as int)[3] == full.last());
        }
    }
    let name = strip_suffix_or_keep(full, ".exe"@);
    assert(name == full);
    assert(name != "chrome_crashpad_handler"@) by {
        assert(name.len() != "chrome_crashpad_handler"@.len());
    }
    if has_prefix(name, stem) {
        let rest = name.skip(stem.len() as int);
        assert(name.subrange(0, stem.len() as int) == stem);
        assert(stem == spec_process_stem(Flavor::Stable, os)) by {
            if stem != spec_process_stem(Flavor::Stable, os) {
                assert(stem.len() > 8);
                assert(name.subrange(0, stem.len() as int)[7] == name[7]);
                assert(name.subrange(0, stem.len() as int)[8] == name[8]);
            }
        }
        assert(!has_prefix(rest, " Helper"@)) by {
            if has_prefix(rest, " Helper"@) {
                assert(rest.subrange(0, 7)[0] == rest[0]);
                assert(rest.subrange(0, 7)[1] == rest[1]);
                assert(rest[0] == name[7]);
                assert(rest[1] == name[8]);
            }
        }
    }
}

/// Facts about the first characters of an executable name that flavor `f`
/// takes for its own, other than the crash handler.
proof fn lemma_matched_name_facts(f: Flavor, os: TargetOs, name: Seq<char>)
    requires
        name == spec_process_stem(f, os) || (has_prefix(name, spec_process_stem(f, os)) && has_prefix(
            name.skip(spec_process_stem(f, os).len() as int),
            " Helper"@,
        )),
    ensures
        has_prefix(name, spec_process_stem(f, os)),
        forall|k: int| 0 <= k < spec_process_stem(f, os).len() ==> name[k] == spec_process_stem(f, os)[k],
        name != spec_process_stem(f, os) ==> name.len() >= spec_process_stem(f, os).len() + 7
            && name[spec_process_stem(f, os).len() as int] == ' '
            && name[spec_process_stem(f, os).len() + 1int] == 'H',
{
    reveal_strlit(" Helper");
    let stem = spec_process_stem(f, os);
    if name == stem {
        assert(name.subrange(0, name.len() as int) =~= name);
    }
    assert forall|k: int| 0 <= k < stem.len() implies name[k] == stem[k] by {
        assert(name.subrange(0, stem.len() as int)[k] == name[k]);
    }
    if name != stem {
        let rest = name.skip(stem.len() as int);
        assert(rest.subrange(0, 7)[0] == rest[0]);
        assert(rest.subrange(0, 7)[1] == rest[1]);
    }
}

/// One process is never taken by two flavors: whatever the executable, no
/// two flavors both claim it, its file name (less a trailing `.exe`) being
/// anything but Chromium's crash handler, which lives in a flavor's bundle
/// or data directory and is told apart by that path.
pub proof fn lemma_one_flavor_per_process(a: Flavor, b: Flavor, os: TargetOs, exe: Seq<char>)
    requires
        a != b,
        spec_file_name(exe) is Some,
        strip_suffix_or_keep(spec_file_name(exe)->Some_0, ".exe"@) != "chrome_crashpad_handler"@,
    ensures
        !(spec_matches_process(a, exe, os) && spec_matches_process(b, exe, os)),
{
    reveal_strlit("Discord");
    reveal_strlit("Discord PTB");
    reveal_strlit("Discord Canary");
    reveal_strlit("Discord Development");
    reveal_strlit("DiscordPTB");
    reveal_strlit("DiscordCanary");
    reveal_strlit("DiscordDevelopment");
    if spec_matches_process(a, exe, os) && spec_matches_process(b, exe, os) {
        let name = strip_suffix_or_keep(spec_file_name(exe)->Some_0, ".exe"@);
        lemma_matched_name_facts(a, os, name);
        lemma_matched_name_facts(b, os, name);
        let sa = spec_process_stem(a, os);
        let sb = spec_process_stem(b, os);
        if sa.len() > 8 && sb.len() > 8 {
            assert(name[7] == sa[7] && name[7] == sb[7]);
            assert(name[8] == sa[8] && name[8] == sb[8]);
        } else if sa.len() <= 8 {
            assert(sb.len() > 8);
            assert(name != sa);
            assert(name[7] == sb[7]);
            assert(name[8] == sb[8]);
        } else {
            assert(sa.len() > 8);
            assert(name != sb);
            assert(name[7] == sa[7]);
            assert(name[8] == sa[8]);
        }
    }
}

/// Every name a scope schedules is a plain file name: one normal
/// component, without a separator.
pub proof fn lemma_target_names_plain(scope: Scope)
    ensures
        forall|k: int| 0 <= k < spec_target_names(scope).len() ==> plain_name(#[trigger] spec_target_names(scope)[k]),
{
    reveal_strlit("Cache");
    reveal_strlit("Code Cache");
    reveal_strlit("GPUCache");
    reveal_strlit("DawnCache");
    reveal_strlit("DawnGraphiteCache");
    reveal_strlit("DawnWebGPUCache");
    reveal_strlit("GrShaderCache");
    reveal_strlit("ShaderCache");
    reveal_strlit("blob_storage");
    reveal_strlit("component_crx_cache");
    reveal_strlit("Crashpad");
    reveal_strlit("logs");
    reveal_strlit("sentry");
    reveal_strlit("Shared Dictionary");
    reveal_strlit("Service Worker");
    reveal_strlit("Session Storage");
    reveal_strlit("SharedStorage");
    reveal_strlit("SharedStorage-wal");
    reveal_strlit("DIPS");
    reveal_strlit("DIPS-wal");
    reveal_strlit("Network Persistent State");
    reveal_strlit("Trust Tokens");
    reveal_strlit("Trust Tokens-journal");
    reveal_strlit("WebStorage");
    reveal_strlit("modules");
    let d = spec_target_names(Scope::Deep);
    assert forall|k: int| 0 <= k < d.len() implies plain_name(#[trigger] d[k]) by {
        assert(d[k].len() > 1 && d[k][0] != '.');
    }
    assert forall|k: int| 0 <= k < spec_target_names(scope).len() implies plain_name(#[trigger] spec_target_names(scope)[k]) by {
        assert(spec_target_names(scope)[k] == d[k]);
    }
}

proof fn lemma_version_chars(s: Seq<char>)
    requires
        forall|k: int, j: int|
            0 <= k < split_on(s, '.').len() && 0 <= j < split_on(s, '.')[k].len() ==> is_digit(
                #[trigger] split_on(s, '.')[k][j],
            ),
    ensures
        forall|i: int| 0 <= i < s.len() ==> s[i] == '.' || is_digit(#[trigger] s[i]),
    decreases s.len(),
{
    if s.len() > 0 {
        let t = s.drop_last();
        let c = s.last();
        let pt = split_on(t, '.');
        let ps = split_on(s, '.');
        lemma_split_on_nonempty(t, '.');
        assert forall|k: int, j: int| 0 <= k < pt.len() && 0 <= j < pt[k].len() implies is_digit(#[trigger] pt[k][j]) by {
            if c == '.' {
                assert(ps[k] == pt[k]);
            } else if k < pt.len() - 1 {
                assert(ps[k] == pt[k]);
            } else {
                assert(ps[k] == pt[k].push(c));
                assert(ps[k][j] == pt[k][j]);
            }
        }
        lemma_version_chars(t);
        if c != '.' {
            assert(ps[pt.len() - 1] == pt.last().push(c));
            assert(ps[pt.len() - 1][pt.last().len() as int] == c);
        }
        assert forall|i: int| 0 <= i < s.len() implies s[i] == '.' || is_digit(#[trigger] s[i]) by {
            if i < t.len() {
                assert(s[i] == t[i]);
            }
        }
    }
}

/// A name that looks like a version is a plain file name.
pub proof fn lemma_version_names_plain(n: Seq<char>)
    requires
        spec_looks_like_version(n),
    ensures
        plain_name(n),
{
    let ps = split_on(n, '.');
    assert forall|k: int, j: int| 0 <= k < ps.len() && 0 <= j < ps[k].len() implies is_digit(#[trigger] ps[k][j]) by {
        assert(ps[k].len() > 0);
    }
    lemma_version_chars(n);
    reveal_with_fuel(split_on, 3);
    if n.len() == 0 {
        assert(split_on(n, '.') =~= seq![Seq::<char>::empty()]);
    }
    assert(ps[0].len() > 0);
    if n == seq!['.'] {
        assert(n.drop_last() =~= Seq::<char>::empty());
        assert(ps[0] =~= Seq::<char>::empty());
    }
    if n == seq!['.', '.'] {
        assert(n.drop_last() =~= seq!['.']);
        assert(n.drop_last().drop_last() =~= Seq::<char>::empty());
        assert(ps[0] =~= Seq::<char>::empty());
    }
    assert(n != seq!['/']) by {
        if n == seq!['/'] {
            assert(n[0] == '/');
        }
    }
}

/// `t` is a plain name joined to `d`.
pub open spec fn child_of(t: Seq<char>, d: Seq<char>) -> bool {
    exists|v: Seq<char>| plain_name(v) && t == spec_join(d, v)
}

/// Every per-version module store is a plain name joined to the data
/// directory.
pub proof fn lemma_versioned_children(d: Seq<char>, es: Seq<DirEntryFacts>)
    ensures
        forall|k: int| 0 <= k < spec_versioned(d, es).len() ==> child_of(#[trigger] spec_versioned(d, es)[k], d),
    decreases es.len(),
{
    if es.len() > 0 {
        lemma_versioned_children(d, es.drop_last());
        let init = spec_versioned(d, es.drop_last());
        let all = spec_versioned(d, es);
        assert forall|k: int| 0 <= k < all.len() implies child_of(#[trigger] all[k], d) by {
            if k < init.len() {
                assert(all[k] == init[k]);
                assert(child_of(init[k], d));
            } else {
                let e = es.last();
                assert(e.name is Some && e.is_dir && spec_looks_like_version(e.name->Some_0@) && e.has_modules);
                let n = e.name->Some_0@;
                lemma_version_names_plain(n);
                assert(all[k] == spec_join(d, n));
            }
        }
    } else {
        assert(spec_versioned(d, es).len() == 0);
    }
}

/// A name on the never-delete list, in any case, is a plain file name.
pub proof fn lemma_never_names_plain(n: Seq<char>)
    requires
        spec_is_never_deletable(n),
    ensures
        plain_name(n),
        n.len() > 2,
{
    reveal_strlit("Local Storage");
    reveal_strlit("Cookies");
    reveal_strlit("Cookies-journal");
    reveal_strlit("SingletonCookie");
    reveal_strlit("settings.json");
    reveal_strlit("quotes.json");
    let k = choose|k: int| 0 <= k < spec_never().len() && eq_ignore_case(#[trigger] spec_never()[k], n);
    let w = spec_never()[k];
    assert(lower_seq(w).len() == lower_seq(n).len());
    assert(w.len() > 2);
    assert forall|i: int| 0 <= i < n.len() implies n[i] != '/' by {
        assert(lower_seq(w)[i] == lower_seq(n)[i]);
        assert(lower(w[i]) == lower(n[i]));
        assert(w[i] != '/');
    }
}

proof fn lemma_parents_of_holds(ds: Seq<Seq<char>>, k: int)
    requires
        0 <= k < ds.len(),
        spec_parent(ds[k]) is Some,
    ensures
        parents_of(ds).contains(spec_parent(ds[k])->Some_0),
    decreases ds.len(),
{
    let init = parents_of(ds.drop_last());
    if k < ds.len() - 1 {
        assert(ds.drop_last()[k] == ds[k]);
        lemma_parents_of_holds(ds.drop_last(), k);
        let j = choose|j: int| 0 <= j < init.len() && init[j] == spec_parent(ds[k])->Some_0;
        assert(parents_of(ds)[j] == init[j]);
    } else {
        assert(parents_of(ds)[init.len() as int] == spec_parent(ds[k])->Some_0);
    }
}

/// Every target sits directly in an allowed parent: its parent names the
/// same path as one of `allowed_parents`. (Each extra cache directory is
/// taken to have a parent.)
pub proof fn lemma_targets_sit_in_allowed_parents(
    i: Install,
    scope: Scope,
    entries: Seq<DirEntryFacts>,
    allowed: Seq<Seq<char>>,
)
    requires
        sorted_firsts(allowed, parent_candidates(i)),
        forall|k: int|
            0 <= k < i.extra_cache_dirs@.len() ==> spec_parent(#[trigger] i.extra_cache_dirs@[k]@) is Some,
        forall|k: int|
            0 <= k < i.extra_deep_cache_dirs@.len() ==> spec_parent(#[trigger] i.extra_deep_cache_dirs@[k]@)
                is Some,
    ensures
        forall|k: int|
            0 <= k < spec_targets(i, scope, spec_versioned(i.data_dir@, entries)).len() ==> {
                let t = #[trigger] spec_targets(i, scope, spec_versioned(i.data_dir@, entries))[k];
                &&& spec_parent(t) is Some
                &&& exists|j: int| 0 <= j < allowed.len() && same_path(allowed[j], spec_parent(t)->Some_0)
            },
{
    reveal(covered);
    let dd = i.data_dir@;
    let c = parent_candidates(i);
    let names = spec_target_names(scope).map_values(|n: Seq<char>| spec_join(dd, n));
    let ec = string_views(i.extra_cache_dirs@);
    let ed = string_views(i.extra_deep_cache_dirs@);
    let vs = spec_versioned(dd, entries);
    let ts = spec_targets(i, scope, vs);
    lemma_target_names_plain(scope);
    lemma_versioned_children(dd, entries);
    lemma_components_well_formed(dd);
    lemma_render_components(components(dd));
    assert(c[0] == dd);
    assert(covered(allowed, c[0]));
    let j0 = choose|j: int| 0 <= j < allowed.len() && same_path(allowed[j], c[0]);
    // A plain name joined to the data directory has the data directory as parent.
    assert forall|x: Seq<char>| plain_name(x) implies spec_parent(#[trigger] spec_join(dd, x)) is Some
        && same_path(allowed[j0], spec_parent(spec_join(dd, x))->Some_0) by {
        lemma_join_components(dd, x);
        assert(components(spec_join(dd, x)).drop_last() =~= components(dd));
        assert(components(spec_join(dd, x)).last() == x);
    }
    // An extra directory has its own parent among the candidates.
    assert forall|e: Seq<char>| (ec.contains(e) || ed.contains(e)) implies spec_parent(e) is Some
        && exists|j: int| 0 <= j < allowed.len() && same_path(allowed[j], spec_parent(e)->Some_0) by {
        let all = ec + ed;
        let m = if ec.contains(e) {
            choose|m: int| 0 <= m < ec.len() && ec[m] == e
        } else {
            ec.len() + choose|m: int| 0 <= m < ed.len() && ed[m] == e
        };
        if ec.contains(e) {
            assert(all[m] == ec[m]);
            assert(ec[m] == i.extra_cache_dirs@[m]@);
        } else {
            assert(all[m] == ed[m - ec.len()]);
            assert(ed[m - ec.len()] == i.extra_deep_cache_dirs@[m - ec.len()]@);
        }
        lemma_parents_of_holds(all, m);
        let ps = parents_of(all);
        let q = choose|q: int| 0 <= q < ps.len() && ps[q] == spec_parent(e)->Some_0;
        assert(c[q + 1] == ps[q]);
        assert(covered(allowed, c[q + 1]));
    }
    assert forall|k: int| 0 <= k < ts.len() implies {
        let t = #[trigger] ts[k];
        &&& spec_parent(t) is Some
        &&& exists|j: int| 0 <= j < allowed.len() && same_path(allowed[j], spec_parent(t)->Some_0)
    } by {
        let t = ts[k];
        if k < names.len() {
            assert(t == spec_join(dd, spec_target_names(scope)[k]));
            assert(plain_name(spec_target_names(scope)[k]));
        } else if k < names.len() + ec.len() {
            assert(t == ec[k - names.len()]);
            assert(ec.contains(t));
        } else {
            let r = k - names.len() - ec.len();
            if r < ed.len() {
                assert(t == ed[r]);
                assert(ed.contains(t));
            } else {
                assert(t == vs[r - ed.len()]);
                assert(child_of(vs[r - ed.len()], dd));
                let v = choose|v: Seq<char>| plain_name(v) && vs[r - ed.len()] == spec_join(dd, v);
                assert(t == spec_join(dd, v));
            }
        }
    }
}

/// A directory entry that holds a per-version module store.
pub open spec fn is_module_store(e: DirEntryFacts) -> bool {
    e.name is Some && e.is_dir && spec_looks_like_version(e.name->Some_0@) && e.has_modules
}

/// How many entries hold a module store.
pub open spec fn module_store_count(es: Seq<DirEntryFacts>) -> nat
    decreases es.len(),
{
    if es.len() == 0 {
        0
    } else {
        module_store_count(es.drop_last()) + if is_module_store(es.last()) {
            1nat
        } else {
            0nat
        }
    }
}

/// The module stores found are exactly those on disk: every entry that is
/// a directory with a version's name and a `modules` store inside gives its
/// path under the data directory; every path given is such an entry's; and
/// there are as many paths as such entries, one each.
pub proof fn lemma_every_module_store_found(d: Seq<char>, es: Seq<DirEntryFacts>)
    ensures
        forall|k: int|
            0 <= k < es.len() && is_module_store(#[trigger] es[k]) ==> spec_versioned(d, es).contains(
                spec_join(d, es[k].name->Some_0@),
            ),
        forall|j: int|
            0 <= j < spec_versioned(d, es).len() ==> exists|k: int|
                0 <= k < es.len() && is_module_store(es[k]) && #[trigger] spec_versioned(d, es)[j]
                    == spec_join(d, es[k].name->Some_0@),
        spec_versioned(d, es).len() == module_store_count(es),
    decreases es.len(),
{
    if es.len() > 0 {
        let init = es.drop_last();
        lemma_every_module_store_found(d, init);
        let vi = spec_versioned(d, init);
        let v = spec_versioned(d, es);
        let e = es.last();
        assert forall|k: int| 0 <= k < es.len() && is_module_store(#[trigger] es[k]) implies v.contains(
            spec_join(d, es[k].name->Some_0@),
        ) by {
            if k < init.len() {
                assert(init[k] == es[k]);
                let j = choose|j: int| 0 <= j < vi.len() && vi[j] == spec_join(d, init[k].name->Some_0@);
                assert(v[j] == vi[j]);
            } else {
                assert(v[vi.len() as int] == spec_join(d, e.name->Some_0@));
            }
        }
        assert forall|j: int| 0 <= j < v.len() implies exists|k: int|
            0 <= k < es.len() && is_module_store(es[k]) && #[trigger] v[j] == spec_join(d, es[k].name->Some_0@) by {
            if j < vi.len() {
                assert(v[j] == vi[j]);
                let k = choose|k: int| 0 <= k < init.len() && is_module_store(init[k]) && vi[j] == spec_join(d, init[k].name->Some_0@);
                assert(es[k] == init[k]);
            } else {
                assert(es[es.len() - 1] == e);
            }
        }
    }
}

/// A crash handler belongs to a flavor only through its place: outside the
/// flavor's `.app` bundle, a flavor takes a `chrome_crashpad_handler` for
/// its own only where the flavor's data directory name is a whole component
/// of the executable's path (`discord` in `/x/discord/...`, never as part
/// of `discordcanary`).
pub proof fn lemma_crash_handler_lives_in_its_directory(f: Flavor, exe: Seq<char>, os: TargetOs)
    requires
        spec_matches_process(f, exe, os),
        spec_file_name(exe) is Some,
        strip_suffix_or_keep(spec_file_name(exe)->Some_0, ".exe"@) == "chrome_crashpad_handler"@,
        !contains(exe, spec_display_name(f) + ".app/"@),
    ensures
        components(exe).contains(spec_data_dir_name(f)),
{
    reveal_strlit("chrome_crashpad_handler");
    reveal_strlit("Discord");
    reveal_strlit("Discord PTB");
    reveal_strlit("Discord Canary");
    reveal_strlit("Discord Development");
    reveal_strlit("DiscordPTB");
    reveal_strlit("DiscordCanary");
    reveal_strlit("DiscordDevelopment");
    reveal_strlit("discord");
    reveal_strlit("discordptb");
    reveal_strlit("discordcanary");
    reveal_strlit("discorddevelopment");
    reveal_strlit("/");
    let name = "chrome_crashpad_handler"@;
    let stem = spec_process_stem(f, os);
    assert(!has_prefix(name, stem)) by {
        if has_prefix(name, stem) {
            assert(name.subrange(0, stem.len() as int)[0] == name[0]);
        }
    }
    assert(name != stem);
    let dir = spec_data_dir_name(f);
    assert(contains(exe, "/"@ + dir + "/"@));
    assert(plain_name(dir)) by {
        assert(dir.len() > 2 && dir[0] == 'd');
    }
    assert("/"@ + dir + "/"@ =~= seq!['/'] + dir + seq!['/']);
    lemma_between_separators_is_component(exe, dir);
}

/// Outside every `.app` bundle, a crash handler inside the data directory
/// of exactly one flavor is taken by that flavor alone.
pub proof fn lemma_crash_handler_of_one_flavor(f: Flavor, g: Flavor, exe: Seq<char>, os: TargetOs)
    requires
        spec_matches_process(f, exe, os),
        spec_file_name(exe) is Some,
        strip_suffix_or_keep(spec_file_name(exe)->Some_0, ".exe"@) == "chrome_crashpad_handler"@,
        !contains(exe, spec_display_name(f) + ".app/"@),
        forall|h: Flavor| h != g ==> !components(exe).contains(#[trigger] spec_data_dir_name(h)),
    ensures
        f == g,
{
    lemma_crash_handler_lives_in_its_directory(f, exe, os);
}

} // verus!
