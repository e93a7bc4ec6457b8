//! Finding Discord installations.
//!
//! Each platform has its own layout. For each flavor it says where an
//! install would be ([`Candidate`]); the caller looks at the disk and the
//! `PATH` ([`Probed`]); [`assemble`] keeps the installs that are really
//! there, with the extra directories that exist and a way to start them.
use vstd::prelude::*;
use vstd::multiset::Multiset;
use crate::discord::{
    spec_all_flavors, spec_bundle_id, spec_data_dir_name, spec_process_stem, Flavor, Install,
    LaunchSpec, LaunchSpecModel, Packaging, TargetOs,
};
use crate::path::{join, lemma_join_components, opt_view, plain_name, spec_file_name, spec_join};
use crate::text::{clone_strings, lower_seq, lower_string, string_views};

verus! {

/// How a found install is started again.
#[derive(Debug, Clone)]
pub enum Launcher {
    /// The first of `programs` found on `PATH`, run with `args`.
    OnPath { programs: Vec<String>, args: Vec<String> },
    /// `open -b` with this bundle id, which macOS always has.
    Bundle(&'static str),
    /// Squirrel's stub `update_exe`, where it is a file, starting `exe_name`.
    Squirrel { update_exe: String, exe_name: String },
}

pub enum LauncherModel {
    OnPath { programs: Seq<Seq<char>>, args: Seq<Seq<char>> },
    Bundle(Seq<char>),
    Squirrel { update_exe: Seq<char>, exe_name: Seq<char> },
}

impl View for Launcher {
    type V = LauncherModel;

    open spec fn view(&self) -> LauncherModel {
        match self {
            Launcher::OnPath { programs, args } => LauncherModel::OnPath {
                programs: string_views(programs@),
                args: string_views(args@),
            },
            Launcher::Bundle(id) => LauncherModel::Bundle(id@),
            Launcher::Squirrel { update_exe, exe_name } => LauncherModel::Squirrel {
                update_exe: update_exe@,
                exe_name: exe_name@,
            },
        }
    }
}

/// Where an install of one flavor and packaging would be.
#[derive(Debug, Clone)]
pub struct Candidate {
    pub flavor: Flavor,
    pub packaging: Packaging,
    /// Its Electron userData directory; the install exists when this is a
    /// directory.
    pub data_dir: String,
    /// Cache directories outside it, each kept where it is there.
    pub extra_cache_dirs: Vec<String>,
    /// The same, for a deep clean only.
    pub extra_deep_cache_dirs: Vec<String>,
    pub launcher: Launcher,
}

pub struct CandidateModel {
    pub flavor: Flavor,
    pub packaging: Packaging,
    pub data_dir: Seq<char>,
    pub extra_cache_dirs: Seq<Seq<char>>,
    pub extra_deep_cache_dirs: Seq<Seq<char>>,
    pub launcher: LauncherModel,
}

impl View for Candidate {
    type V = CandidateModel;

    open spec fn view(&self) -> CandidateModel {
        CandidateModel {
            flavor: self.flavor,
            packaging: self.packaging,
            data_dir: self.data_dir@,
            extra_cache_dirs: string_views(self.extra_cache_dirs@),
            extra_deep_cache_dirs: string_views(self.extra_deep_cache_dirs@),
            launcher: self.launcher@,
        }
    }
}

/// What the disk and the `PATH` said of a candidate.
#[derive(Debug, Clone)]
pub struct Probed {
    /// Its data directory is a directory.
    pub data_dir: bool,
    /// Which of its extra cache directories are there, in order.
    pub extra_cache_dirs: Vec<bool>,
    pub extra_deep_cache_dirs: Vec<bool>,
    /// The launcher program found: for [`Launcher::OnPath`] the first of its
    /// programs found on `PATH`; for [`Launcher::Squirrel`] the stub, where
    /// it is a file.
    pub program: Option<String>,
}

/// The entries of `s` whose flag is set, in order.
pub open spec fn kept(s: Seq<Seq<char>>, flags: Seq<bool>) -> Seq<Seq<char>>
    decreases s.len(),
{
    if s.len() == 0 {
        seq![]
    } else {
        kept(s.drop_last(), flags.take(s.len() - 1)) + if flags[s.len() - 1] {
            seq![s.last()]
        } else {
            seq![]
        }
    }
}

/// How the install is started, given the launcher program found.
pub open spec fn spec_launch_of(l: LauncherModel, program: Option<Seq<char>>) -> Option<
    LaunchSpecModel,
> {
    match l {
        LauncherModel::OnPath { args, .. } => match program {
            Some(p) => Some(LaunchSpecModel::Command { program: p, args }),
            None => None,
        },
        LauncherModel::Bundle(id) => Some(LaunchSpecModel::MacOsBundleId(id)),
        LauncherModel::Squirrel { exe_name, .. } => match program {
            Some(p) => Some(LaunchSpecModel::WindowsSquirrel { update_exe: p, exe_name }),
            None => None,
        },
    }
}

/// The view of an optional launch spec.
pub open spec fn opt_launch_view(l: Option<LaunchSpec>) -> Option<LaunchSpecModel> {
    match l {
        Some(s) => Some(s@),
        None => None,
    }
}

/// The install `r` is what the candidate `c` amounts to, given `p`.
pub open spec fn assembled(r: Install, c: CandidateModel, p: Probed) -> bool {
    &&& r.flavor == c.flavor
    &&& r.packaging == c.packaging
    &&& r.data_dir@ == c.data_dir
    &&& string_views(r.extra_cache_dirs@) == kept(c.extra_cache_dirs, p.extra_cache_dirs@)
    &&& string_views(r.extra_deep_cache_dirs@) == kept(
        c.extra_deep_cache_dirs,
        p.extra_deep_cache_dirs@,
    )
    &&& opt_launch_view(r.launch) == spec_launch_of(c.launcher, opt_view(p.program))
}

fn kept_of(s: &Vec<String>, flags: &Vec<bool>) -> (r: Vec<String>)
    requires
        flags.len() == s.len(),
    ensures
        string_views(r@) == kept(string_views(s@), flags@),
{
    let mut r: Vec<String> = Vec::new();
    let mut i: usize = 0;
    let ghost all = string_views(s@);
    while i < s.len()
        invariant
            i <= s.len(),
            flags.len() == s.len(),
            all == string_views(s@),
            string_views(r@) == kept(all.take(i as int), flags@.take(i as int)),
        decreases s.len() - i,
    {
        let ghost before = r@;
        assert(all.take(i + 1).drop_last() =~= all.take(i as int));
        assert(flags@.take(i + 1).take(i as int) =~= flags@.take(i as int));
        if flags[i] {
            r.push(s[i].clone());
            assert(string_views(r@) =~= string_views(before).push(s@[i as int]@));
        }
        i = i + 1;
        assert(string_views(r@) =~= kept(all.take(i as int), flags@.take(i as int)));
    }
    assert(all.take(i as int) =~= all);
    assert(flags@.take(i as int) =~= flags@);
    r
}

/// The install a candidate amounts to: none where its data directory is
/// not a directory.
pub fn assemble(c: &Candidate, p: &Probed) -> (r: Option<Install>)
    requires
        p.extra_cache_dirs.len() == c.extra_cache_dirs.len(),
        p.extra_deep_cache_dirs.len() == c.extra_deep_cache_dirs.len(),
    ensures
        r is Some <==> p.data_dir,
        r matches Some(i) ==> assembled(i, c@, *p),
{
    if !p.data_dir {
        return None;
    }
    let launch = match (&c.launcher, &p.program) {
        (Launcher::OnPath { args, .. }, Some(prog)) => Some(
            LaunchSpec::Command { program: prog.clone(), args: clone_strings(args) },
        ),
        (Launcher::Bundle(id), _) => Some(LaunchSpec::MacOsBundleId(*id)),
        (Launcher::Squirrel { exe_name, .. }, Some(prog)) => Some(
            LaunchSpec::WindowsSquirrel { update_exe: prog.clone(), exe_name: exe_name.clone() },
        ),
        _ => None,
    };
    Some(
        Install {
            flavor: c.flavor,
            packaging: c.packaging,
            data_dir: c.data_dir.clone(),
            extra_cache_dirs: kept_of(&c.extra_cache_dirs, &p.extra_cache_dirs),
            extra_deep_cache_dirs: kept_of(&c.extra_deep_cache_dirs, &p.extra_deep_cache_dirs),
            launch,
        },
    )
}

/// The Flatpak application id of a flavor.
pub open spec fn spec_flatpak_app_id(f: Flavor) -> Seq<char> {
    match f {
        Flavor::Stable => "com.discordapp.Discord"@,
        Flavor::Ptb => "com.discordapp.DiscordPTB"@,
        Flavor::Canary => "com.discordapp.DiscordCanary"@,
        Flavor::Development => "com.discordapp.DiscordDevelopment"@,
    }
}

/// The Flatpak application id of a flavor.
pub fn flatpak_app_id(flavor: Flavor) -> (r: &'static str)
    ensures
        r@ == spec_flatpak_app_id(flavor),
{
    match flavor {
        Flavor::Stable => "com.discordapp.Discord",
        Flavor::Ptb => "com.discordapp.DiscordPTB",
        Flavor::Canary => "com.discordapp.DiscordCanary",
        Flavor::Development => "com.discordapp.DiscordDevelopment",
    }
}

/// The directory Squirrel installs a flavor into, per user, under the local
/// application data; its Electron userData lives apart from it.
pub open spec fn spec_install_dir_name(f: Flavor) -> Seq<char> {
    match f {
        Flavor::Stable => "Discord"@,
        Flavor::Ptb => "DiscordPTB"@,
        Flavor::Canary => "DiscordCanary"@,
        Flavor::Development => "DiscordDevelopment"@,
    }
}

/// The directory Squirrel installs a flavor into.
pub fn install_dir_name(flavor: Flavor) -> (r: &'static str)
    ensures
        r@ == spec_install_dir_name(flavor),
{
    match flavor {
        Flavor::Stable => "Discord",
        Flavor::Ptb => "DiscordPTB",
        Flavor::Canary => "DiscordCanary",
        Flavor::Development => "DiscordDevelopment",
    }
}

/// Where a flavor can be on Linux: a native install (configuration and
/// cache under the XDG directories), a Flatpak (a private home per app),
/// and a Snap.
pub open spec fn linux_for(home: Seq<char>, config: Seq<char>, cache: Seq<char>, f: Flavor) -> Seq<
    CandidateModel,
> {
    let name = spec_data_dir_name(f);
    let stem = spec_process_stem(f, TargetOs::Other);
    let app_id = spec_flatpak_app_id(f);
    let root = spec_join(spec_join(home, ".var/app"@), app_id);
    seq![
        CandidateModel {
            flavor: f,
            packaging: Packaging::Native,
            data_dir: spec_join(config, name),
            extra_cache_dirs: seq![spec_join(cache, name)],
            extra_deep_cache_dirs: seq![],
            launcher: LauncherModel::OnPath { programs: seq![stem, lower_seq(stem)], args: seq![] },
        },
        CandidateModel {
            flavor: f,
            packaging: Packaging::Flatpak,
            data_dir: spec_join(spec_join(root, "config"@), name),
            extra_cache_dirs: seq![spec_join(spec_join(root, "cache"@), name)],
            extra_deep_cache_dirs: seq![],
            launcher: LauncherModel::OnPath { programs: seq!["flatpak"@], args: seq!["run"@, app_id] },
        },
        CandidateModel {
            flavor: f,
            packaging: Packaging::Snap,
            data_dir: spec_join(
                spec_join(spec_join(spec_join(home, "snap"@), name), "current/.config"@),
                name,
            ),
            extra_cache_dirs: seq![],
            extra_deep_cache_dirs: seq![],
            launcher: LauncherModel::OnPath { programs: seq!["snap"@], args: seq!["run"@, name] },
        },
    ]
}

/// Where a flavor can be on macOS: its data under Application Support, its
/// caches, Squirrel's update staging cache and its saved window state.
pub open spec fn macos_for(home: Seq<char>, f: Flavor) -> Seq<CandidateModel> {
    let id = spec_bundle_id(f);
    let caches = spec_join(home, "Library/Caches"@);
    seq![
        CandidateModel {
            flavor: f,
            packaging: Packaging::Native,
            data_dir: spec_join(spec_join(home, "Library/Application Support"@), spec_data_dir_name(f)),
            extra_cache_dirs: seq![
                spec_join(caches, id),
                spec_join(caches, id + ".ShipIt"@),
                spec_join(spec_join(home, "Library/Saved Application State"@), id + ".savedState"@),
            ],
            extra_deep_cache_dirs: seq![],
            launcher: LauncherModel::Bundle(id),
        },
    ]
}

/// Where a flavor can be on Windows: its data under the roaming application
/// data, Squirrel's install under the local one, whose downloaded update
/// packages go on a deep clean only.
pub open spec fn windows_for(roaming: Seq<char>, local: Seq<char>, f: Flavor) -> Seq<
    CandidateModel,
> {
    let dir = spec_join(local, spec_install_dir_name(f));
    seq![
        CandidateModel {
            flavor: f,
            packaging: Packaging::Native,
            data_dir: spec_join(roaming, spec_data_dir_name(f)),
            extra_cache_dirs: seq![],
            extra_deep_cache_dirs: seq![spec_join(dir, "packages"@)],
            launcher: LauncherModel::Squirrel {
                update_exe: spec_join(dir, "Update.exe"@),
                exe_name: spec_install_dir_name(f) + ".exe"@,
            },
        },
    ]
}

/// The platforms with a layout.
#[derive(Debug, Clone, Copy, PartialEq, Eq, Structural)]
pub enum Platform {
    /// `home`, the configuration and the cache directories.
    Linux,
    /// `home`.
    MacOs,
    /// The roaming and the local application data directories.
    Windows,
}

/// The candidates for some flavors, in order.
pub open spec fn layout_for(p: Platform, a: Seq<char>, b: Seq<char>, c: Seq<char>, fs: Seq<Flavor>) -> Seq<
    CandidateModel,
>
    decreases fs.len(),
{
    if fs.len() == 0 {
        seq![]
    } else {
        layout_for(p, a, b, c, fs.drop_last()) + match p {
            Platform::Linux => linux_for(a, b, c, fs.last()),
            Platform::MacOs => macos_for(a, fs.last()),
            Platform::Windows => windows_for(a, b, fs.last()),
        }
    }
}

/// The views of some candidates.
pub open spec fn candidate_views(v: Seq<Candidate>) -> Seq<CandidateModel> {
    v.map_values(|c: Candidate| c@)
}

fn strings2(a: String, b: String) -> (r: Vec<String>)
    ensures
        string_views(r@) == seq![a@, b@],
{
    let mut r: Vec<String> = Vec::new();
    r.push(a);
    r.push(b);
    assert(string_views(r@) =~= seq![a@, b@]);
    r
}

fn strings1(a: String) -> (r: Vec<String>)
    ensures
        string_views(r@) == seq![a@],
{
    let mut r: Vec<String> = Vec::new();
    r.push(a);
    assert(string_views(r@) =~= seq![a@]);
    r
}

fn no_strings() -> (r: Vec<String>)
    ensures
        string_views(r@) == Seq::<Seq<char>>::empty(),
{
    let r: Vec<String> = Vec::new();
    assert(string_views(r@) =~= Seq::<Seq<char>>::empty());
    r
}

fn push_candidate(out: &mut Vec<Candidate>, c: Candidate)
    ensures
        candidate_views(final(out)@) == candidate_views(old(out)@).push(c@),
{
    let ghost before = out@;
    out.push(c);
    assert(candidate_views(out@) =~= candidate_views(before).push(c@));
}

fn push_for(out: &mut Vec<Candidate>, p: Platform, a: &str, b: &str, c: &str, f: Flavor)
    ensures
        candidate_views(final(out)@) == candidate_views(old(out)@) + match p {
            Platform::Linux => linux_for(a@, b@, c@, f),
            Platform::MacOs => macos_for(a@, f),
            Platform::Windows => windows_for(a@, b@, f),
        },
{
    let ghost start = candidate_views(out@);
    let name = f.data_dir_name();
    match p {
        Platform::Linux => {
            let (home, config, cache) = (a, b, c);
            let stem = f.process_stem(TargetOs::Other);
            let app_id = flatpak_app_id(f);
            let root = join(join(home, ".var/app").as_str(), app_id);
            push_candidate(
                out,
                Candidate {
                    flavor: f,
                    packaging: Packaging::Native,
                    data_dir: join(config, name),
                    extra_cache_dirs: strings1(join(cache, name)),
                    extra_deep_cache_dirs: no_strings(),
                    launcher: Launcher::OnPath {
                        programs: strings2(stem.to_owned(), lower_string(stem)),
                        args: no_strings(),
                    },
                },
            );
            push_candidate(
                out,
                Candidate {
                    flavor: f,
                    packaging: Packaging::Flatpak,
                    data_dir: join(join(root.as_str(), "config").as_str(), name),
                    extra_cache_dirs: strings1(join(join(root.as_str(), "cache").as_str(), name)),
                    extra_deep_cache_dirs: no_strings(),
                    launcher: Launcher::OnPath {
                        programs: strings1("flatpak".to_owned()),
                        args: strings2("run".to_owned(), app_id.to_owned()),
                    },
                },
            );
            let snap = join(
                join(join(join(home, "snap").as_str(), name).as_str(), "current/.config").as_str(),
                name,
            );
            push_candidate(
                out,
                Candidate {
                    flavor: f,
                    packaging: Packaging::Snap,
                    data_dir: snap,
                    extra_cache_dirs: no_strings(),
                    extra_deep_cache_dirs: no_strings(),
                    launcher: Launcher::OnPath {
                        programs: strings1("snap".to_owned()),
                        args: strings2("run".to_owned(), name.to_owned()),
                    },
                },
            );
            assert(candidate_views(out@) =~= start + linux_for(a@, b@, c@, f));
        },
        Platform::MacOs => {
            let home = a;
            let id = f.macos_bundle_id();
            let caches = join(home, "Library/Caches");
            let mut ship_it = id.to_owned();
            ship_it.append(".ShipIt");
            let mut saved = id.to_owned();
            saved.append(".savedState");
            let mut extra: Vec<String> = Vec::new();
            extra.push(join(caches.as_str(), id));
            extra.push(join(caches.as_str(), ship_it.as_str()));
            extra.push(join(join(home, "Library/Saved Application State").as_str(), saved.as_str()));
            let cand = Candidate {
                flavor: f,
                packaging: Packaging::Native,
                data_dir: join(join(home, "Library/Application Support").as_str(), name),
                extra_cache_dirs: extra,
                extra_deep_cache_dirs: no_strings(),
                launcher: Launcher::Bundle(id),
            };
            assert(cand@.extra_cache_dirs =~= macos_for(a@, f)[0].extra_cache_dirs);
            push_candidate(out, cand);
            assert(candidate_views(out@) =~= start + macos_for(a@, f));
        },
        Platform::Windows => {
            let (roaming, local) = (a, b);
            let dir_name = install_dir_name(f);
            let dir = join(local, dir_name);
            let mut exe = dir_name.to_owned();
            exe.append(".exe");
            push_candidate(
                out,
                Candidate {
                    flavor: f,
                    packaging: Packaging::Native,
                    data_dir: join(roaming, name),
                    extra_cache_dirs: no_strings(),
                    extra_deep_cache_dirs: strings1(join(dir.as_str(), "packages")),
                    launcher: Launcher::Squirrel {
                        update_exe: join(dir.as_str(), "Update.exe"),
                        exe_name: exe,
                    },
                },
            );
            assert(candidate_views(out@) =~= start + windows_for(a@, b@, f));
        },
    }
}

/// Where the installs of every flavor could be on platform `p`, Stable
/// first. For Linux `a`, `b` and `c` are the home, configuration and cache
/// directories; for macOS `a` is the home directory; for Windows `a` and
/// `b` are the roaming and local application data directories. The others
/// are not looked at.
pub fn layout(p: Platform, a: &str, b: &str, c: &str) -> (r: Vec<Candidate>)
    ensures
        candidate_views(r@) == layout_for(p, a@, b@, c@, spec_all_flavors()),
{
    let flavors = Flavor::all();
    let mut out: Vec<Candidate> = Vec::new();
    let mut i: usize = 0;
    assert(candidate_views(out@) =~= layout_for(p, a@, b@, c@, spec_all_flavors().take(0)));
    while i < flavors.len()
        invariant
            i <= flavors.len(),
            flavors@ == spec_all_flavors(),
            candidate_views(out@) == layout_for(p, a@, b@, c@, spec_all_flavors().take(i as int)),
        decreases flavors.len() - i,
    {
        assert(spec_all_flavors().take(i + 1).drop_last() =~= spec_all_flavors().take(i as int));
        push_for(&mut out, p, a, b, c, flavors[i]);
        i = i + 1;
    }
    assert(spec_all_flavors().take(i as int) =~= spec_all_flavors());
    out
}

/// The home directory, as `dirs::home_dir` finds it. It depends on the
/// environment (`$HOME`, or the password database), so nothing is stated of
/// it. A path that is not UTF-8 is converted lossily, as every path here is.
#[verifier::external_body]
pub(crate) fn home_dir() -> (r: Option<String>) {
    match dirs::home_dir() {
        Some(p) => Some(p.to_string_lossy().into_owned()),
        None => None,
    }
}

/// The configuration directory, as `dirs::config_dir` finds it
/// (`$XDG_CONFIG_HOME` or `~/.config` on Linux, the roaming application
/// data on Windows). It depends on the environment; nothing is stated of it.
#[verifier::external_body]
fn config_dir() -> (r: Option<String>) {
    match dirs::config_dir() {
        Some(p) => Some(p.to_string_lossy().into_owned()),
        None => None,
    }
}

/// The cache directory, as `dirs::cache_dir` finds it (`$XDG_CACHE_HOME`
/// or `~/.cache` on Linux). It depends on the environment; nothing is
/// stated of it.
#[verifier::external_body]
fn cache_dir() -> (r: Option<String>) {
    match dirs::cache_dir() {
        Some(p) => Some(p.to_string_lossy().into_owned()),
        None => None,
    }
}

/// The local data directory, as `dirs::data_local_dir` finds it (the local
/// application data on Windows). It depends on the environment; nothing is
/// stated of it.
#[verifier::external_body]
fn data_local_dir() -> (r: Option<String>) {
    match dirs::data_local_dir() {
        Some(p) => Some(p.to_string_lossy().into_owned()),
        None => None,
    }
}

/// The view of three optional strings.
pub open spec fn roots_view(r: Option<(String, String, String)>) -> Option<(Seq<char>, Seq<char>, Seq<char>)> {
    match r {
        Some((a, b, c)) => Some((a@, b@, c@)),
        None => None,
    }
}

/// The directories a layout starts from (see [`layout`]), given what the
/// environment says of the home, configuration, cache and local data
/// directories. Linux needs a home; its configuration and cache default to
/// `~/.config` and `~/.cache`. macOS needs a home. Windows needs both the
/// roaming (configuration) and the local data directories.
pub open spec fn spec_roots(
    p: Platform,
    home: Option<Seq<char>>,
    config: Option<Seq<char>>,
    cache: Option<Seq<char>>,
    local: Option<Seq<char>>,
) -> Option<(Seq<char>, Seq<char>, Seq<char>)> {
    match p {
        Platform::Linux => match home {
            Some(h) => Some(
                (
                    h,
                    match config {
                        Some(c) => c,
                        None => spec_join(h, ".config"@),
                    },
                    match cache {
                        Some(c) => c,
                        None => spec_join(h, ".cache"@),
                    },
                ),
            ),
            None => None,
        },
        Platform::MacOs => match home {
            Some(h) => Some((h, seq![], seq![])),
            None => None,
        },
        Platform::Windows => match (config, local) {
            (Some(r), Some(l)) => Some((r, l, seq![])),
            _ => None,
        },
    }
}

/// The directories a layout of `p` starts from, given what the environment
/// said (see [`spec_roots`]).
pub fn roots_from(
    p: Platform,
    home: Option<String>,
    config: Option<String>,
    cache: Option<String>,
    local: Option<String>,
) -> (r: Option<(String, String, String)>)
    ensures
        roots_view(r) == spec_roots(p, opt_view(home), opt_view(config), opt_view(cache), opt_view(local)),
{
    match p {
        Platform::Linux => match home {
            Some(h) => {
                let c = match config {
                    Some(c) => c,
                    None => join(h.as_str(), ".config"),
                };
                let k = match cache {
                    Some(k) => k,
                    None => join(h.as_str(), ".cache"),
                };
                Some((h, c, k))
            },
            None => None,
        },
        Platform::MacOs => match home {
            Some(h) => Some((h, String::new(), String::new())),
            None => None,
        },
        Platform::Windows => match (config, local) {
            (Some(r), Some(l)) => Some((r, l, String::new())),
            _ => None,
        },
    }
}

/// The directories a layout of `p` starts from, as this environment has
/// them; none where a directory it needs is unknown.
pub fn roots(p: Platform) -> (r: Option<(String, String, String)>)
    ensures
        exists|
            home: Option<Seq<char>>,
            config: Option<Seq<char>>,
            cache: Option<Seq<char>>,
            local: Option<Seq<char>>,
        | roots_view(r) == spec_roots(p, home, config, cache, local),
{
    let (home, config, cache, local) = match p {
        Platform::Linux => (home_dir(), config_dir(), cache_dir(), None),
        Platform::MacOs => (home_dir(), None, None, None),
        Platform::Windows => (None, config_dir(), None, data_local_dir()),
    };
    let ghost args = (opt_view(home), opt_view(config), opt_view(cache), opt_view(local));
    let r = roots_from(p, home, config, cache, local);
    assert(roots_view(r) == spec_roots(p, args.0, args.1, args.2, args.3));
    r
}

/// `r` holds, in order, the installs that the candidates amount to.
pub open spec fn assembled_all(r: Seq<Install>, cs: Seq<CandidateModel>, ps: Seq<Probed>) -> bool
    decreases cs.len(),
{
    if cs.len() == 0 {
        r.len() == 0
    } else if ps.last().data_dir {
        &&& r.len() > 0
        &&& assembled(r.last(), cs.last(), ps.last())
        &&& assembled_all(r.drop_last(), cs.drop_last(), ps.drop_last())
    } else {
        assembled_all(r, cs.drop_last(), ps.drop_last())
    }
}

/// A probe fits its candidate: one answer per extra directory.
pub open spec fn probe_fits(c: Candidate, p: Probed) -> bool {
    &&& p.extra_cache_dirs.len() == c.extra_cache_dirs.len()
    &&& p.extra_deep_cache_dirs.len() == c.extra_deep_cache_dirs.len()
}

/// The installs that are really there, in the order of the candidates.
pub fn discover(candidates: &Vec<Candidate>, probes: &Vec<Probed>) -> (r: Vec<Install>)
    requires
        probes.len() == candidates.len(),
        forall|k: int| 0 <= k < candidates.len() ==> probe_fits(#[trigger] candidates@[k], probes@[k]),
    ensures
        assembled_all(r@, candidate_views(candidates@), probes@),
{
    let mut r: Vec<Install> = Vec::new();
    let mut i: usize = 0;
    while i < candidates.len()
        invariant
            i <= candidates.len(),
            probes.len() == candidates.len(),
            forall|k: int| 0 <= k < candidates.len() ==> probe_fits(#[trigger] candidates@[k], probes@[k]),
            assembled_all(r@, candidate_views(candidates@).take(i as int), probes@.take(i as int)),
        decreases candidates.len() - i,
    {
        assert(probe_fits(candidates@[i as int], probes@[i as int]));
        let found = assemble(&candidates[i], &probes[i]);
        let ghost before = r@;
        assert(candidate_views(candidates@).take(i + 1).drop_last() =~= candidate_views(candidates@).take(i as int));
        assert(probes@.take(i + 1).drop_last() =~= probes@.take(i as int));
        match found {
            Some(install) => {
                r.push(install);
                assert(r@.drop_last() =~= before);
            },
            None => {},
        }
        i = i + 1;
    }
    assert(candidate_views(candidates@).take(i as int) =~= candidate_views(candidates@));
    assert(probes@.take(i as int) =~= probes@);
    r
}

/// The installs of flavor `f`, in order.
pub open spec fn of_flavor(s: Seq<Install>, f: Flavor) -> Seq<Install>
    decreases s.len(),
{
    if s.len() == 0 {
        seq![]
    } else {
        of_flavor(s.drop_last(), f) + if s.last().flavor == f {
            seq![s.last()]
        } else {
            seq![]
        }
    }
}

/// The installs of another flavor than `f`, in order.
pub open spec fn not_of_flavor(s: Seq<Install>, f: Flavor) -> Seq<Install>
    decreases s.len(),
{
    if s.len() == 0 {
        seq![]
    } else {
        not_of_flavor(s.drop_last(), f) + if s.last().flavor != f {
            seq![s.last()]
        } else {
            seq![]
        }
    }
}

/// The installs ordered by flavor, Stable first, keeping the order among
/// those of one flavor: what a stable sort on the flavor's position gives.
pub open spec fn by_flavor(s: Seq<Install>) -> Seq<Install> {
    of_flavor(s, Flavor::Stable) + of_flavor(s, Flavor::Ptb) + of_flavor(s, Flavor::Canary)
        + of_flavor(s, Flavor::Development)
}

proof fn lemma_of_flavor_skips_others(s: Seq<Install>, f: Flavor, g: Flavor)
    requires
        f != g,
    ensures
        of_flavor(not_of_flavor(s, f), g) == of_flavor(s, g),
        of_flavor(not_of_flavor(s, f), f) == Seq::<Install>::empty(),
    decreases s.len(),
{
    if s.len() > 0 {
        lemma_of_flavor_skips_others(s.drop_last(), f, g);
        let t = not_of_flavor(s.drop_last(), f);
        if s.last().flavor != f {
            assert((t + seq![s.last()]).drop_last() =~= t);
        } else {
            assert(t + Seq::<Install>::empty() =~= t);
        }
    }
}

proof fn lemma_no_flavor_left(s: Seq<Install>)
    ensures
        not_of_flavor(
            not_of_flavor(not_of_flavor(not_of_flavor(s, Flavor::Stable), Flavor::Ptb), Flavor::Canary),
            Flavor::Development,
        ).len() == 0,
    decreases s.len(),
{
    if s.len() > 0 {
        lemma_no_flavor_left(s.drop_last());
        let a = not_of_flavor(s, Flavor::Stable);
        let a0 = not_of_flavor(s.drop_last(), Flavor::Stable);
        let b0 = not_of_flavor(a0, Flavor::Ptb);
        let c0 = not_of_flavor(b0, Flavor::Canary);
        if s.last().flavor != Flavor::Stable {
            assert((a0 + seq![s.last()]).drop_last() =~= a0);
            let b = not_of_flavor(a, Flavor::Ptb);
            if s.last().flavor != Flavor::Ptb {
                assert((b0 + seq![s.last()]).drop_last() =~= b0);
                let c = not_of_flavor(b, Flavor::Canary);
                if s.last().flavor != Flavor::Canary {
                    assert((c0 + seq![s.last()]).drop_last() =~= c0);
                } else {
                    assert(b0 + Seq::<Install>::empty() =~= b0);
                }
            } else {
                assert(a0 + Seq::<Install>::empty() =~= a0);
            }
        } else {
            assert(a0 + Seq::<Install>::empty() =~= a0);
        }
    }
}

/// Moves the installs of flavor `f` from `rest` to the end of `out`, in
/// order; returns the others, in order.
fn take_flavor(rest: Vec<Install>, f: Flavor, out: &mut Vec<Install>) -> (keep: Vec<Install>)
    ensures
        final(out)@ == old(out)@ + of_flavor(rest@, f),
        keep@ == not_of_flavor(rest@, f),
{
    let mut rest = rest;
    let ghost orig = rest@;
    let ghost out0 = out@;
    let mut keep: Vec<Install> = Vec::new();
    let ghost mut k: int = 0;
    assert(orig.take(0) =~= Seq::<Install>::empty());
    assert(out0 + Seq::<Install>::empty() =~= out0);
    while rest.len() > 0
        invariant
            0 <= k <= orig.len(),
            rest@ == orig.skip(k),
            out@ == out0 + of_flavor(orig.take(k), f),
            keep@ == not_of_flavor(orig.take(k), f),
        decreases rest.len(),
    {
        let x = rest.remove(0);
        assert(orig.take(k + 1).drop_last() =~= orig.take(k));
        assert(x == orig[k]);
        assert(rest@ =~= orig.skip(k + 1));
        if x.flavor == f {
            out.push(x);
            assert(out@ =~= out0 + of_flavor(orig.take(k + 1), f));
        } else {
            keep.push(x);
            assert(out@ =~= out0 + of_flavor(orig.take(k + 1), f));
        }
        proof {
            k = k + 1;
        }
    }
    assert(orig.take(k) =~= orig);
    keep
}

/// The installs, Stable first: what almost everyone is here to fix.
pub fn discover_sorted(installs: Vec<Install>) -> (r: Vec<Install>)
    ensures
        r@ == by_flavor(installs@),
{
    let ghost s = installs@;
    let mut out: Vec<Install> = Vec::new();
    let rest = take_flavor(installs, Flavor::Stable, &mut out);
    let rest = take_flavor(rest, Flavor::Ptb, &mut out);
    let rest = take_flavor(rest, Flavor::Canary, &mut out);
    let rest = take_flavor(rest, Flavor::Development, &mut out);
    proof {
        let a = not_of_flavor(s, Flavor::Stable);
        let b = not_of_flavor(a, Flavor::Ptb);
        let c = not_of_flavor(b, Flavor::Canary);
        lemma_of_flavor_skips_others(s, Flavor::Stable, Flavor::Ptb);
        lemma_of_flavor_skips_others(s, Flavor::Stable, Flavor::Canary);
        lemma_of_flavor_skips_others(s, Flavor::Stable, Flavor::Development);
        lemma_of_flavor_skips_others(a, Flavor::Ptb, Flavor::Canary);
        lemma_of_flavor_skips_others(a, Flavor::Ptb, Flavor::Development);
        lemma_of_flavor_skips_others(b, Flavor::Canary, Flavor::Development);
        assert(Seq::<Install>::empty() + of_flavor(s, Flavor::Stable) =~= of_flavor(s, Flavor::Stable));
        assert(out@ =~= by_flavor(s));
    }
    out
}

proof fn lemma_split_by_flavor(s: Seq<Install>, f: Flavor)
    ensures
        of_flavor(s, f).len() + not_of_flavor(s, f).len() == s.len(),
        forall|k: int| 0 <= k < of_flavor(s, f).len() ==> (#[trigger] of_flavor(s, f)[k]).flavor == f,
    decreases s.len(),
{
    if s.len() > 0 {
        lemma_split_by_flavor(s.drop_last(), f);
        let o = of_flavor(s.drop_last(), f);
        assert forall|k: int| 0 <= k < of_flavor(s, f).len() implies (#[trigger] of_flavor(s, f)[k]).flavor == f by {
            if k < o.len() {
                assert(of_flavor(s, f)[k] == o[k]);
            }
        }
    }
}

/// The position of a flavor in the order installs are shown in.
pub open spec fn flavor_rank(f: Flavor) -> int {
    match f {
        Flavor::Stable => 0,
        Flavor::Ptb => 1,
        Flavor::Canary => 2,
        Flavor::Development => 3,
    }
}

proof fn lemma_of_flavor_add(a: Seq<Install>, b: Seq<Install>, f: Flavor)
    ensures
        of_flavor(a + b, f) == of_flavor(a, f) + of_flavor(b, f),
    decreases b.len(),
{
    if b.len() == 0 {
        assert(a + b =~= a);
        assert(of_flavor(a, f) + of_flavor(b, f) =~= of_flavor(a, f));
    } else {
        lemma_of_flavor_add(a, b.drop_last(), f);
        assert((a + b).drop_last() =~= a + b.drop_last());
        assert((a + b).last() == b.last());
        if b.last().flavor == f {
            assert(of_flavor(a + b, f) =~= of_flavor(a, f) + of_flavor(b, f));
        } else {
            assert(of_flavor(a + b, f) =~= of_flavor(a, f) + of_flavor(b, f));
        }
    }
}

proof fn lemma_of_flavor_twice(s: Seq<Install>, f: Flavor, g: Flavor)
    ensures
        of_flavor(of_flavor(s, g), f) == if f == g {
            of_flavor(s, f)
        } else {
            Seq::<Install>::empty()
        },
    decreases s.len(),
{
    if s.len() > 0 {
        lemma_of_flavor_twice(s.drop_last(), f, g);
        let t = of_flavor(s.drop_last(), g);
        if s.last().flavor == g {
            assert((t + seq![s.last()]).drop_last() =~= t);
        } else {
            assert(t + Seq::<Install>::empty() =~= t);
        }
    }
}

proof fn lemma_groups_make_the_whole(s: Seq<Install>)
    ensures
        s.to_multiset() == of_flavor(s, Flavor::Stable).to_multiset().add(
            of_flavor(s, Flavor::Ptb).to_multiset(),
        ).add(of_flavor(s, Flavor::Canary).to_multiset()).add(
            of_flavor(s, Flavor::Development).to_multiset(),
        ),
    decreases s.len(),
{
    broadcast use vstd::multiset::group_multiset_axioms;
    broadcast use vstd::multiset::lemma_multiset_empty_len;
    broadcast use vstd::seq_lib::lemma_multiset_commutative;
    broadcast use vstd::seq_lib::to_multiset_build;
    broadcast use vstd::seq_lib::to_multiset_len;

    if s.len() == 0 {
        assert(s.to_multiset().len() == 0);
        assert(s.to_multiset() =~= Multiset::empty());
        assert(of_flavor(s, Flavor::Stable).to_multiset().len() == 0);
        assert(of_flavor(s, Flavor::Stable).to_multiset() =~= Multiset::empty());
        assert(of_flavor(s, Flavor::Ptb).to_multiset().len() == 0);
        assert(of_flavor(s, Flavor::Ptb).to_multiset() =~= Multiset::empty());
        assert(of_flavor(s, Flavor::Canary).to_multiset().len() == 0);
        assert(of_flavor(s, Flavor::Canary).to_multiset() =~= Multiset::empty());
        assert(of_flavor(s, Flavor::Development).to_multiset().len() == 0);
        assert(of_flavor(s, Flavor::Development).to_multiset() =~= Multiset::empty());
        assert(s.to_multiset() =~= of_flavor(s, Flavor::Stable).to_multiset().add(
            of_flavor(s, Flavor::Ptb).to_multiset(),
        ).add(of_flavor(s, Flavor::Canary).to_multiset()).add(
            of_flavor(s, Flavor::Development).to_multiset(),
        ));
    } else {
        let t = s.drop_last();
        let x = s.last();
        lemma_groups_make_the_whole(t);
        assert(s == t.push(x));
        assert(s.to_multiset() =~= t.to_multiset().insert(x));
        let one = seq![x].to_multiset();
        assert(seq![x] =~= Seq::<Install>::empty().push(x));
        assert(Seq::<Install>::empty().to_multiset().len() == 0);
        assert(Seq::<Install>::empty().to_multiset() =~= Multiset::empty());
        assert(one =~= Multiset::empty().insert(x));
        assert(Seq::<Install>::empty().to_multiset() =~= Multiset::<Install>::empty());
        assert(s.to_multiset() =~= of_flavor(s, Flavor::Stable).to_multiset().add(
            of_flavor(s, Flavor::Ptb).to_multiset(),
        ).add(of_flavor(s, Flavor::Canary).to_multiset()).add(
            of_flavor(s, Flavor::Development).to_multiset(),
        ));
    }
}

/// `discover_sorted` is a stable sort on the flavor's position: what comes
/// out is a permutation of what went in, ordered Stable, PTB, Canary,
/// Development, and the installs of each flavor keep their order.
pub proof fn lemma_sort_by_flavor_is_stable(s: Seq<Install>)
    ensures
        by_flavor(s).to_multiset() == s.to_multiset(),
        forall|i: int, j: int|
            0 <= i < j < by_flavor(s).len() ==> flavor_rank(#[trigger] by_flavor(s)[i].flavor)
                <= flavor_rank(#[trigger] by_flavor(s)[j].flavor),
        forall|f: Flavor| #[trigger] of_flavor(by_flavor(s), f) == of_flavor(s, f),
{
    broadcast use vstd::seq_lib::lemma_multiset_commutative;

    let a = of_flavor(s, Flavor::Stable);
    let b = of_flavor(s, Flavor::Ptb);
    let c = of_flavor(s, Flavor::Canary);
    let d = of_flavor(s, Flavor::Development);
    let r = by_flavor(s);
    lemma_groups_make_the_whole(s);
    assert(r == a + b + c + d);
    assert(r.to_multiset() == (a + b + c).to_multiset().add(d.to_multiset()));
    assert((a + b + c).to_multiset() == (a + b).to_multiset().add(c.to_multiset()));
    lemma_split_by_flavor(s, Flavor::Stable);
    lemma_split_by_flavor(s, Flavor::Ptb);
    lemma_split_by_flavor(s, Flavor::Canary);
    lemma_split_by_flavor(s, Flavor::Development);
    assert forall|k: int| 0 <= k < r.len() implies flavor_rank(#[trigger] r[k].flavor) == if k < a.len() {
        0int
    } else if k < a.len() + b.len() {
        1int
    } else if k < a.len() + b.len() + c.len() {
        2int
    } else {
        3int
    } by {
        if k < a.len() {
            assert(r[k] == a[k]);
        } else if k < a.len() + b.len() {
            assert(r[k] == b[k - a.len()]);
        } else if k < a.len() + b.len() + c.len() {
            assert(r[k] == c[k - a.len() - b.len()]);
        } else {
            assert(r[k] == d[k - a.len() - b.len() - c.len()]);
        }
    }
    assert forall|f: Flavor| #[trigger] of_flavor(r, f) == of_flavor(s, f) by {
        lemma_of_flavor_add(a + b + c, d, f);
        lemma_of_flavor_add(a + b, c, f);
        lemma_of_flavor_add(a, b, f);
        lemma_of_flavor_twice(s, f, Flavor::Stable);
        lemma_of_flavor_twice(s, f, Flavor::Ptb);
        lemma_of_flavor_twice(s, f, Flavor::Canary);
        lemma_of_flavor_twice(s, f, Flavor::Development);
        match f {
            Flavor::Stable => {
                assert(of_flavor(r, f) =~= of_flavor(s, f));
            },
            Flavor::Ptb => {
                assert(of_flavor(r, f) =~= of_flavor(s, f));
            },
            Flavor::Canary => {
                assert(of_flavor(r, f) =~= of_flavor(s, f));
            },
            Flavor::Development => {
                assert(of_flavor(r, f) =~= of_flavor(s, f));
            },
        }
    }
}

/// The data directory names are plain file names.
proof fn lemma_data_dir_names_plain(f: Flavor)
    ensures
        plain_name(spec_data_dir_name(f)),
{
    reveal_strlit("discord");
    reveal_strlit("discordptb");
    reveal_strlit("discordcanary");
    reveal_strlit("discorddevelopment");
    assert(spec_data_dir_name(f).len() > 2 && spec_data_dir_name(f)[0] == 'd');
}

/// A Snap install is started again by `snap run` with the snap it lives
/// in: for every Linux candidate packaged as a Snap, the launcher runs
/// `snap` with `run` and the name its data directory ends in (the snap's
/// name, as in `~/snap/<name>/current/.config/<name>`).
pub proof fn lemma_snap_runs_its_own_snap(home: Seq<char>, config: Seq<char>, cache: Seq<char>, fs: Seq<Flavor>)
    ensures
        forall|k: int|
            0 <= k < layout_for(Platform::Linux, home, config, cache, fs).len()
                && (#[trigger] layout_for(Platform::Linux, home, config, cache, fs)[k]).packaging
                == Packaging::Snap ==> {
                let c = layout_for(Platform::Linux, home, config, cache, fs)[k];
                &&& spec_file_name(c.data_dir) is Some
                &&& c.launcher == LauncherModel::OnPath {
                    programs: seq!["snap"@],
                    args: seq!["run"@, spec_file_name(c.data_dir)->Some_0],
                }
            },
    decreases fs.len(),
{
    if fs.len() > 0 {
        lemma_snap_runs_its_own_snap(home, config, cache, fs.drop_last());
        let init = layout_for(Platform::Linux, home, config, cache, fs.drop_last());
        let all = layout_for(Platform::Linux, home, config, cache, fs);
        let f = fs.last();
        let name = spec_data_dir_name(f);
        lemma_data_dir_names_plain(f);
        let base = spec_join(spec_join(spec_join(home, "snap"@), name), "current/.config"@);
        lemma_join_components(base, name);
        let dd = spec_join(base, name);
        assert(spec_file_name(dd) == Some(name));
        assert forall|k: int|
            0 <= k < all.len() && (#[trigger] all[k]).packaging == Packaging::Snap implies {
                &&& spec_file_name(all[k].data_dir) is Some
                &&& all[k].launcher == LauncherModel::OnPath {
                    programs: seq!["snap"@],
                    args: seq!["run"@, spec_file_name(all[k].data_dir)->Some_0],
                }
            } by {
            if k < init.len() {
                assert(all[k] == init[k]);
            } else {
                let own = linux_for(home, config, cache, f);
                assert(all[k] == own[k - init.len()]);
                assert(k - init.len() == 2);
                assert(own[2].data_dir == dd);
            }
        }
    }
}

} // verus!
