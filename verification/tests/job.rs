use discord_desktop_fixer::clean::{Item, Outcome, Report};
use discord_desktop_fixer::discord::{Flavor, Install, Packaging, Scope};
use discord_desktop_fixer::job::{
    describe, describe_kill, run, Job, JobAction, JobEvent, Options, Step, Summary,
};
use discord_desktop_fixer::kill::KillReport;
use std::time::Duration;

fn install(flavor: Flavor, packaging: Packaging) -> Install {
    Install {
        flavor,
        packaging,
        data_dir: format!("/home/a/.config/{}", flavor.data_dir_name()),
        extra_cache_dirs: Vec::new(),
        extra_deep_cache_dirs: Vec::new(),
        launch: None,
    }
}

fn lines(steps: Vec<Step>) -> Vec<String> {
    steps.into_iter().map(|s| s.0).collect()
}

fn report(items: Vec<(&str, Outcome)>) -> Report {
    let mut r = Report::default();
    for (path, outcome) in items {
        r.items.push(Item { path: path.to_string(), outcome });
    }
    r
}

fn step(job: Job, e: JobEvent) -> (Job, Vec<String>) {
    let (job, steps) = job.on_event(e);
    (job, lines(steps))
}

fn running(survivors: usize) -> KillReport {
    KillReport { was_running: true, stopped_gracefully: 2, force_killed: 1, survivors }
}

#[test]
fn a_fix_goes_install_by_install() {
    let installs = vec![
        install(Flavor::Stable, Packaging::Native),
        install(Flavor::Ptb, Packaging::Flatpak),
    ];
    let options = Options { scope: Scope::Safe, relaunch: true, dry_run: false };
    let (job, first) = run(&installs, options);
    assert_eq!(lines(first), vec!["Stopping Discord…"]);
    assert_eq!(job.action(), JobAction::Stop(0));

    let (job, s) = step(job, JobEvent::Stopped(running(0)));
    assert_eq!(s, vec!["Stopped 3 Discord process(es) (1 forced)", "Clearing Discord caches…"]);
    assert_eq!(job.action(), JobAction::Clean(0));

    let cleaned = report(vec![
        ("/d/Cache", Outcome::Removed { bytes: 1024 }),
        ("/d/Cookies", Outcome::Refused("Cookies is on the never-delete list".to_string())),
        ("/d/logs", Outcome::NotPresent),
    ]);
    let (job, s) = step(job, JobEvent::Cleaned(cleaned));
    assert_eq!(s, vec!["Cleared 1.00 KB (1 items)", "Reopening Discord…"]);
    assert_eq!(job.action(), JobAction::Launch(0));

    let (job, s) = step(job, JobEvent::Launched(Err("failed to start Discord".to_string())));
    assert_eq!(s, vec!["Stopping Discord PTB (Flatpak)…"]);
    assert_eq!(job.action(), JobAction::Stop(1));

    let (job, s) = step(job, JobEvent::Stopped(KillReport::default()));
    assert_eq!(
        s,
        vec!["Discord PTB (Flatpak) wasn't running", "Clearing Discord PTB (Flatpak) caches…"]
    );
    let (job, s) = step(job, JobEvent::Cleaned(Report::default()));
    // It was not running, so it is not reopened.
    assert_eq!(s, vec!["Cleared 0 B (0 items)"]);
    assert_eq!(job.action(), JobAction::Finished);

    let summary = job.finish(Duration::from_millis(1500));
    assert_eq!(summary.report.items.len(), 3);
    assert!(!summary.relaunched);
    assert_eq!(
        summary.warnings,
        vec![
            "/d/Cookies: skipped — Cookies is on the never-delete list".to_string(),
            "Couldn't reopen Discord: failed to start Discord".to_string(),
        ]
    );
    assert_eq!(summary.elapsed, Duration::from_millis(1500));
    assert_eq!(summary.headline(false), "Cleared 1 items, freeing 1.00 KB");
}

#[test]
fn survivors_are_warned_about() {
    let installs = vec![install(Flavor::Canary, Packaging::Native)];
    let options = Options { scope: Scope::Deep, relaunch: true, dry_run: false };
    let (job, _) = run(&installs, options);
    let (job, s) = step(job, JobEvent::Stopped(running(2)));
    assert_eq!(
        s,
        vec![
            "Stopped 3 Discord Canary process(es) (1 forced)",
            "Clearing Discord Canary caches and stored modules…",
        ]
    );
    let (job, _) = step(job, JobEvent::Cleaned(Report::default()));
    let (job, s) = step(job, JobEvent::Launched(Ok(())));
    assert!(s.is_empty());
    let summary = job.finish(Duration::ZERO);
    assert!(summary.relaunched);
    assert_eq!(
        summary.warnings,
        vec!["2 process(es) from Discord Canary wouldn't stop; some files may be locked".to_string()]
    );
}

#[test]
fn a_dry_run_or_no_relaunch_reopens_nothing() {
    for options in [
        Options { scope: Scope::Safe, relaunch: true, dry_run: true },
        Options { scope: Scope::Safe, relaunch: false, dry_run: false },
    ] {
        let installs = vec![install(Flavor::Stable, Packaging::Native)];
        let (job, _) = run(&installs, options);
        let (job, _) = step(job, JobEvent::Stopped(running(0)));
        let (job, s) = step(job, JobEvent::Cleaned(Report::default()));
        assert_eq!(s, vec!["Cleared 0 B (0 items)"]);
        assert_eq!(job.action(), JobAction::Finished);
    }
}

#[test]
fn nothing_to_fix_finishes_at_once() {
    let options = Options { scope: Scope::Safe, relaunch: true, dry_run: false };
    let (job, first) = run(&Vec::new(), options);
    assert!(first.is_empty());
    assert_eq!(job.action(), JobAction::Finished);
    let summary = job.finish(Duration::ZERO);
    assert_eq!(
        summary.headline(false),
        "Nothing to clear — Discord's caches were already empty"
    );
}

#[test]
fn an_event_out_of_turn_changes_nothing() {
    let installs = vec![install(Flavor::Stable, Packaging::Native)];
    let options = Options { scope: Scope::Safe, relaunch: true, dry_run: false };
    let (job, _) = run(&installs, options);
    let (job, s) = step(job, JobEvent::Cleaned(Report::default()));
    assert!(s.is_empty());
    assert_eq!(job.action(), JobAction::Stop(0));
}

#[test]
fn headlines_read_well() {
    let summary = Summary {
        report: report(vec![
            ("/a", Outcome::Removed { bytes: 1024 }),
            ("/b", Outcome::Removed { bytes: 512 }),
            ("/c", Outcome::NotPresent),
        ]),
        warnings: Vec::new(),
        elapsed: Duration::ZERO,
        relaunched: false,
    };
    assert_eq!(summary.bytes_freed(), 1536);
    assert_eq!(summary.headline(true), "Would clear 2 items (1.50 KB)");
    assert_eq!(summary.headline(false), "Cleared 2 items, freeing 1.50 KB");
}

#[test]
fn kills_and_outcomes_in_words() {
    assert_eq!(describe_kill("Discord", &KillReport::default()), "Discord wasn't running");
    let polite = KillReport { was_running: true, stopped_gracefully: 4, force_killed: 0, survivors: 0 };
    assert_eq!(describe_kill("Discord", &polite), "Stopped 4 Discord process(es)");
    assert_eq!(describe(&Outcome::Refused("why".to_string())), "skipped — why");
    assert_eq!(describe(&Outcome::Failed("busy".to_string())), "couldn't delete — busy");
    assert_eq!(describe(&Outcome::Removed { bytes: 3 * 1024 * 1024 }), "removed 3.00 MB");
    assert_eq!(describe(&Outcome::NotPresent), "not present");
}

#[test]
fn an_empty_summary_and_its_copy() {
    let mut summary = Summary::default();
    assert!(summary.report.items.is_empty());
    assert!(summary.warnings.is_empty());
    assert!(!summary.relaunched);
    assert_eq!(summary.elapsed, Duration::ZERO);
    summary.warnings.push("w".to_string());
    let copy = summary.clone();
    assert_eq!(copy.warnings, vec!["w".to_string()]);
    assert_eq!(copy.elapsed, summary.elapsed);
}
