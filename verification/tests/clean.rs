use discord_desktop_fixer::clean::{clean, Answer, Cleaner, Item, Outcome, Report, Request, Stat};
use discord_desktop_fixer::discord::{
    never_deletable, versioned_module_dirs, DirEntryFacts, Flavor, Install, Packaging, Scope,
};
use std::collections::BTreeMap;

#[derive(Clone, Debug)]
enum Node {
    Dir,
    File(u64),
    Link(String),
}

/// A small in-memory file system that answers a cleaner's requests the way
/// a Unix disk would.
struct Disk {
    nodes: BTreeMap<String, Node>,
    locked: Vec<String>,
}

fn components(p: &str) -> Vec<String> {
    p.split('/').filter(|c| !c.is_empty() && *c != ".").map(|c| c.to_string()).collect()
}

fn render(c: &[String]) -> String {
    format!("/{}", c.join("/"))
}

impl Disk {
    fn new() -> Disk {
        let mut nodes = BTreeMap::new();
        nodes.insert("/".to_string(), Node::Dir);
        Disk { nodes, locked: Vec::new() }
    }

    fn mkdir_all(&mut self, p: &str) {
        let mut cur: Vec<String> = Vec::new();
        for c in components(p) {
            cur.push(c);
            self.nodes.entry(render(&cur)).or_insert(Node::Dir);
        }
    }

    fn write(&mut self, p: &str, len: u64) {
        let mut c = components(p);
        c.pop();
        self.mkdir_all(&render(&c));
        self.nodes.insert(p.to_string(), Node::File(len));
    }

    fn link(&mut self, p: &str, target: &str) {
        self.nodes.insert(p.to_string(), Node::Link(target.to_string()));
    }

    fn remove_all(&mut self, p: &str) {
        let prefix = format!("{p}/");
        self.nodes.retain(|k, _| k != p && !k.starts_with(&prefix));
    }

    /// Resolves `p` physically, following links except, unless asked, the
    /// last component. `None` where a component on the way is missing.
    fn resolve(&self, p: &str, follow_last: bool) -> Option<String> {
        let comps = components(p);
        let mut cur: Vec<String> = Vec::new();
        for (i, c) in comps.iter().enumerate() {
            let last = i + 1 == comps.len();
            if c == ".." {
                cur.pop();
                continue;
            }
            cur.push(c.clone());
            match self.nodes.get(&render(&cur)) {
                None => {
                    if last {
                        return Some(render(&cur));
                    }
                    return None;
                }
                Some(Node::Link(t)) if !last || follow_last => {
                    let r = self.resolve(t, true)?;
                    cur = components(&r);
                }
                Some(Node::File(_)) if !last => return None,
                _ => {}
            }
        }
        Some(render(&cur))
    }

    fn is_there(&self, p: &str) -> bool {
        match self.resolve(p, true) {
            Some(r) => self.nodes.contains_key(&r),
            None => false,
        }
    }

    fn stat(&self, p: &str) -> Stat {
        let node = self.resolve(p, false).and_then(|r| self.nodes.get(&r).cloned());
        match node {
            None => Stat::Missing,
            Some(Node::Dir) => Stat::Found { is_dir: true, is_symlink: false },
            Some(Node::File(_)) => Stat::Found { is_dir: false, is_symlink: false },
            Some(Node::Link(_)) => Stat::Found { is_dir: false, is_symlink: true },
        }
    }

    fn canonicalize(&self, p: &str) -> Result<String, String> {
        match self.resolve(p, true) {
            Some(r) if self.nodes.contains_key(&r) => Ok(r),
            _ => Err("No such file or directory (os error 2)".to_string()),
        }
    }

    fn measure(&self, p: &str) -> u64 {
        let Some(r) = self.resolve(p, false) else { return 0 };
        let prefix = format!("{r}/");
        self.nodes
            .iter()
            .filter(|(k, _)| **k == r || k.starts_with(&prefix))
            .map(|(_, n)| match n {
                Node::File(len) => *len,
                _ => 0,
            })
            .sum()
    }

    fn remove(&mut self, p: &str) -> Result<(), String> {
        if self.locked.iter().any(|l| l == p) {
            return Err("Device or resource busy (os error 16)".to_string());
        }
        let r = self.resolve(p, false).ok_or_else(|| "No such file or directory".to_string())?;
        self.remove_all(&r);
        Ok(())
    }

    fn entries(&self, dir: &str) -> Vec<DirEntryFacts> {
        let prefix = format!("{dir}/");
        let mut out = Vec::new();
        for (k, n) in &self.nodes {
            if let Some(rest) = k.strip_prefix(&prefix) {
                if !rest.contains('/') {
                    out.push(DirEntryFacts {
                        name: Some(rest.to_string()),
                        is_dir: matches!(n, Node::Dir),
                        has_modules: matches!(
                            self.nodes.get(&format!("{k}/modules")),
                            Some(Node::Dir)
                        ),
                    });
                }
            }
        }
        out
    }
}

/// Runs a clean to its end against the disk.
fn drive(disk: &mut Disk, cleaner: Cleaner) -> Report {
    let mut c = cleaner;
    loop {
        let answer = match c.request() {
            Request::Canonicalize(p) => Answer::Canonical(disk.canonicalize(&p)),
            Request::Stat(p) => Answer::Stat(disk.stat(&p)),
            Request::Measure(p) => Answer::Size(disk.measure(&p)),
            Request::Remove { path, .. } => Answer::Removal(disk.remove(&path)),
            Request::Finished => return c.into_report(),
        };
        c = c.answer(answer);
    }
}

/// A clean of `install` as the tool runs it: the per-version
/// module stores are looked for in the data directory first.
fn run_clean(disk: &mut Disk, install: &Install, scope: Scope, dry_run: bool) -> Report {
    let versioned = versioned_module_dirs(&install.data_dir, &disk.entries(&install.data_dir));
    let cleaner = clean(install, scope, dry_run, &versioned);
    drive(disk, cleaner)
}

/// A clean that is also handed `extra` as targets.
fn run_clean_with(disk: &mut Disk, install: &Install, extra: Vec<String>, dry_run: bool) -> Report {
    let cleaner = clean(install, Scope::Deep, dry_run, &extra);
    drive(disk, cleaner)
}

const ROOT: &str = "/tmp/fixture";

/// A fixture mirroring the layout of a real macOS install, including the
/// directories holding the login.
fn fixture(disk: &mut Disk) -> Install {
    let data_dir = format!("{ROOT}/discord");
    for dir in [
        "Cache",
        "Code Cache",
        "GPUCache",
        "DawnGraphiteCache",
        "DawnWebGPUCache",
        "blob_storage",
        "Crashpad",
        "logs",
        "sentry",
        "Shared Dictionary",
        "Service Worker",
        "Session Storage",
        "modules",
        "Local Storage",
        "Cookies",
    ] {
        disk.write(&format!("{data_dir}/{dir}/blob.bin"), 1024);
    }
    disk.write(&format!("{data_dir}/settings.json"), 2);
    disk.write(&format!("{data_dir}/quotes.json"), 2);
    disk.write(&format!("{ROOT}/Caches/com.hnc.Discord/x.bin"), 2048);

    Install {
        flavor: Flavor::Stable,
        packaging: Packaging::Native,
        data_dir,
        extra_cache_dirs: vec![format!("{ROOT}/Caches/com.hnc.Discord")],
        extra_deep_cache_dirs: Vec::new(),
        launch: None,
    }
}

fn item_for<'a>(report: &'a Report, path: &str) -> &'a Item {
    report.items.iter().find(|i| i.path == path).expect("the target is in the report")
}

#[test]
fn never_deletes_auth_or_settings() {
    for scope in [Scope::Safe, Scope::Deep] {
        let mut disk = Disk::new();
        let install = fixture(&mut disk);

        run_clean(&mut disk, &install, scope, false);

        for survivor in ["Local Storage", "Cookies", "settings.json", "quotes.json"] {
            assert!(
                disk.is_there(&format!("{}/{survivor}", install.data_dir)),
                "{survivor} was deleted by a {scope:?} clean"
            );
        }
    }
}

#[test]
fn safe_clean_removes_caches_but_leaves_deep_targets() {
    let mut disk = Disk::new();
    let install = fixture(&mut disk);

    let report = run_clean(&mut disk, &install, Scope::Safe, false);

    assert!(!disk.is_there(&format!("{}/Cache", install.data_dir)));
    assert!(!disk.is_there(&format!("{}/DawnGraphiteCache", install.data_dir)));
    assert!(!disk.is_there(&format!("{ROOT}/Caches/com.hnc.Discord")));
    // Deep-only targets survive a safe clean.
    assert!(disk.is_there(&format!("{}/modules", install.data_dir)));
    assert!(disk.is_there(&format!("{}/Service Worker", install.data_dir)));
    assert!(report.bytes_freed() > 0);
    assert!(report.problems().is_empty(), "{:?}", report.problems());
}

#[test]
fn deep_clean_removes_modules_and_service_worker() {
    let mut disk = Disk::new();
    let install = fixture(&mut disk);

    run_clean(&mut disk, &install, Scope::Deep, false);

    assert!(!disk.is_there(&format!("{}/modules", install.data_dir)));
    assert!(!disk.is_there(&format!("{}/Service Worker", install.data_dir)));
}

#[test]
fn dry_run_changes_nothing_but_still_measures() {
    let mut disk = Disk::new();
    let install = fixture(&mut disk);

    let report = run_clean(&mut disk, &install, Scope::Deep, true);

    assert!(disk.is_there(&format!("{}/Cache", install.data_dir)));
    assert!(disk.is_there(&format!("{}/modules", install.data_dir)));
    assert!(report.bytes_freed() > 0, "dry run should still report sizes");
}

#[test]
fn missing_targets_are_reported_not_failed() {
    let mut disk = Disk::new();
    let install = fixture(&mut disk);
    // ShaderCache is in the safe list but absent from the fixture, as it is
    // on a real modern install.
    let report = run_clean(&mut disk, &install, Scope::Safe, false);
    let shader = report
        .items
        .iter()
        .find(|i| i.path.ends_with("/ShaderCache"))
        .expect("ShaderCache should appear in the report");
    assert_eq!(shader.outcome, Outcome::NotPresent);
}

#[test]
fn refuses_a_symlink_escaping_the_data_dir() {
    let mut disk = Disk::new();
    let install = fixture(&mut disk);

    let precious = format!("{ROOT}/precious");
    disk.write(&format!("{precious}/irreplaceable.txt"), 5);

    // Replace a legitimate cache target with a link pointing out of the tree.
    let target = format!("{}/GPUCache", install.data_dir);
    disk.remove_all(&target);
    disk.link(&target, &precious);

    let report = run_clean(&mut disk, &install, Scope::Safe, false);

    assert!(
        disk.is_there(&format!("{precious}/irreplaceable.txt")),
        "followed a symlink out of the tree"
    );
    let item = item_for(&report, &target);
    assert!(matches!(item.outcome, Outcome::Refused(_)), "{:?}", item.outcome);
}

#[test]
fn refuses_targets_outside_the_allowed_parents() {
    let mut disk = Disk::new();
    let install = fixture(&mut disk);

    let victim = format!("{ROOT}/elsewhere/Cache");
    disk.mkdir_all(&victim);

    let report = run_clean_with(&mut disk, &install, vec![victim.clone()], false);

    assert!(matches!(item_for(&report, &victim).outcome, Outcome::Refused(_)));
    assert!(disk.is_there(&victim));
}

#[test]
fn refuses_the_data_dir_itself_and_traversal_out_of_it() {
    let mut disk = Disk::new();
    let install = fixture(&mut disk);

    // The root of the install is not a child of any allowed parent.
    let report = run_clean_with(&mut disk, &install, vec![install.data_dir.clone()], false);
    assert!(matches!(item_for(&report, &install.data_dir).outcome, Outcome::Refused(_)));
    assert!(disk.is_there(&install.data_dir));

    // `..` climbs out, so the canonical parent stops matching. A dry run,
    // so that `Cache` is still there to be climbed through.
    let mut disk = Disk::new();
    let install = fixture(&mut disk);
    let traversal = format!("{}/Cache/../../Caches", install.data_dir);
    let report = run_clean_with(&mut disk, &install, vec![traversal.clone()], true);
    assert!(matches!(item_for(&report, &traversal).outcome, Outcome::Refused(_)));
    assert!(disk.is_there(&format!("{ROOT}/Caches")));
}

#[test]
fn refuses_deny_listed_names_even_when_asked_directly() {
    for name in never_deletable() {
        let mut disk = Disk::new();
        let install = fixture(&mut disk);
        let path = format!("{}/{name}", install.data_dir);
        if !disk.is_there(&path) {
            continue;
        }
        let report = run_clean_with(&mut disk, &install, vec![path.clone()], false);
        assert!(
            matches!(item_for(&report, &path).outcome, Outcome::Refused(_)),
            "{name} was not refused"
        );
        assert!(disk.is_there(&path));
    }
}

#[test]
fn refusals_say_why() {
    let mut disk = Disk::new();
    let install = fixture(&mut disk);
    let cookies = format!("{}/Cookies", install.data_dir);
    let elsewhere = format!("{ROOT}/elsewhere/Cache");
    disk.mkdir_all(&elsewhere);
    let report = run_clean_with(&mut disk, &install, vec![cookies.clone(), elsewhere.clone()], true);
    assert_eq!(
        item_for(&report, &cookies).outcome,
        Outcome::Refused("Cookies is on the never-delete list".to_string())
    );
    assert_eq!(
        item_for(&report, &elsewhere).outcome,
        Outcome::Refused(format!("{ROOT}/elsewhere is outside every known Discord directory"))
    );
}

#[test]
fn one_failure_does_not_stop_the_rest() {
    let mut disk = Disk::new();
    let install = fixture(&mut disk);
    let code_cache = format!("{}/Code Cache", install.data_dir);
    disk.locked.push(code_cache.clone());

    let report = run_clean(&mut disk, &install, Scope::Safe, false);

    assert!(matches!(item_for(&report, &code_cache).outcome, Outcome::Failed(_)));
    assert!(!disk.is_there(&format!("{}/GPUCache", install.data_dir)));
    assert!(!disk.is_there(&format!("{ROOT}/Caches/com.hnc.Discord")));
    assert_eq!(report.problems().len(), 1);
    // Every target has exactly one item, in order.
    let names = Scope::Safe.target_names();
    assert_eq!(report.items.len(), names.len() + 1);
    for (item, name) in report.items.iter().zip(names.iter()) {
        assert_eq!(item.path, format!("{}/{name}", install.data_dir));
    }
}

#[test]
fn sizes_count_files_only() {
    let mut disk = Disk::new();
    let install = fixture(&mut disk);
    disk.write(&format!("{}/Cache/nested/deeper.bin", install.data_dir), 4096);
    disk.link(&format!("{}/Cache/out", install.data_dir), &format!("{ROOT}/Caches"));

    let report = run_clean(&mut disk, &install, Scope::Safe, true);

    assert_eq!(
        item_for(&report, &format!("{}/Cache", install.data_dir)).outcome,
        Outcome::Removed { bytes: 1024 + 4096 }
    );
    // Ten 1 KB caches in the data directory, the nested file, and 2 KB in
    // the extra one.
    assert_eq!(report.bytes_freed(), 10 * 1024 + 4096 + 2048);
    assert_eq!(report.removed_count(), 11);
}

#[test]
fn reports_merge_in_order() {
    let mut a = Report::default();
    a.items.push(Item { path: "/a".to_string(), outcome: Outcome::Removed { bytes: 3 } });
    let mut b = Report::default();
    b.items.push(Item { path: "/b".to_string(), outcome: Outcome::Failed("busy".to_string()) });
    b.items.push(Item { path: "/c".to_string(), outcome: Outcome::NotPresent });
    a.merge(b);
    let paths: Vec<&str> = a.items.iter().map(|i| i.path.as_str()).collect();
    assert_eq!(paths, vec!["/a", "/b", "/c"]);
    assert_eq!(a.bytes_freed(), 3);
    assert_eq!(a.removed_count(), 1);
    assert_eq!(a.problems().len(), 1);
    assert_eq!(a.problems()[0].path, "/b");
    assert_eq!(a.checked_bytes_freed(), Some(3));
}

#[test]
fn byte_totals_that_overflow_are_detected() {
    let mut a = Report::default();
    a.items.push(Item { path: "/a".to_string(), outcome: Outcome::Removed { bytes: u64::MAX } });
    a.items.push(Item { path: "/b".to_string(), outcome: Outcome::Removed { bytes: 1 } });
    assert_eq!(a.checked_bytes_freed(), None);
}

#[test]
fn an_unreadable_target_is_a_failure() {
    let install = Install {
        flavor: Flavor::Stable,
        packaging: Packaging::Native,
        data_dir: "/d".to_string(),
        extra_cache_dirs: Vec::new(),
        extra_deep_cache_dirs: Vec::new(),
        launch: None,
    };
    let mut c = clean(&install, Scope::Safe, false, &Vec::new());
    loop {
        let answer = match c.request() {
            Request::Canonicalize(p) => Answer::Canonical(Ok(p)),
            Request::Stat(_) => Answer::Stat(Stat::Unreadable("Permission denied".to_string())),
            Request::Finished => break,
            _ => panic!("nothing past the stat is asked for"),
        };
        c = c.answer(answer);
    }
    let report = c.into_report();
    assert_eq!(report.items.len(), Scope::Safe.target_names().len());
    assert!(report
        .items
        .iter()
        .all(|i| i.outcome == Outcome::Failed("Permission denied".to_string())));
}

#[test]
fn a_dry_run_rehearses_the_real_one() {
    for scope in [Scope::Safe, Scope::Deep] {
        let mut dry_disk = Disk::new();
        let install = fixture(&mut dry_disk);
        let mut real_disk = Disk::new();
        fixture(&mut real_disk);

        let dry = run_clean(&mut dry_disk, &install, scope, true);
        let real = run_clean(&mut real_disk, &install, scope, false);

        assert_eq!(dry.items.len(), real.items.len());
        for (d, r) in dry.items.iter().zip(real.items.iter()) {
            assert_eq!(d.path, r.path);
            assert_eq!(matches!(d.outcome, Outcome::Refused(_)), matches!(r.outcome, Outcome::Refused(_)));
            assert_eq!(d.outcome == Outcome::NotPresent, r.outcome == Outcome::NotPresent);
            if let Outcome::Removed { bytes } = r.outcome {
                assert_eq!(d.outcome, Outcome::Removed { bytes });
            }
        }
        assert_eq!(dry.bytes_freed(), real.bytes_freed());
    }
}
