use discord_desktop_fixer::discord::{Flavor, TargetOs};
use discord_desktop_fixer::kill::{matching, stop, KillReport, StopAction, StopEvent};

#[test]
fn a_polite_stop_then_the_lock() {
    let s = stop(false);
    assert_eq!(s.action(), StopAction::FindProcesses);
    let s = s.on_event(StopEvent::Counted(3));
    assert_eq!(s.action(), StopAction::Terminate);
    let s = s.on_event(StopEvent::Counted(0));
    assert_eq!(s.action(), StopAction::AwaitLockRelease);
    let s = s.on_event(StopEvent::LockWaited);
    assert_eq!(s.action(), StopAction::Finished);
    let r = s.report();
    assert_eq!(
        r,
        KillReport { was_running: true, stopped_gracefully: 3, force_killed: 0, survivors: 0 }
    );
    assert!(r.all_stopped());
}

#[test]
fn stubborn_processes_are_killed_and_survivors_counted() {
    let s = stop(false).on_event(StopEvent::Counted(5));
    let s = s.on_event(StopEvent::Counted(2));
    assert_eq!(s.action(), StopAction::ForceKill);
    let s = s.on_event(StopEvent::Counted(1));
    // Someone is still alive: no wait for the lock.
    assert_eq!(s.action(), StopAction::Finished);
    let r = s.report();
    assert_eq!(
        r,
        KillReport { was_running: true, stopped_gracefully: 3, force_killed: 1, survivors: 1 }
    );
    assert!(!r.all_stopped());
}

#[test]
fn nothing_running_means_nothing_to_do() {
    let s = stop(false).on_event(StopEvent::Counted(0));
    assert_eq!(s.action(), StopAction::Finished);
    assert_eq!(s.report(), KillReport::default());
    assert!(!s.report().was_running);
}

#[test]
fn a_dry_run_signals_nothing() {
    let s = stop(true).on_event(StopEvent::Counted(4));
    assert_eq!(s.action(), StopAction::Finished);
    assert_eq!(
        s.report(),
        KillReport { was_running: true, stopped_gracefully: 4, force_killed: 0, survivors: 0 }
    );
}

#[test]
fn only_the_flavors_own_executables_match() {
    let exes = vec![
        Some("/usr/share/discord/Discord".to_string()),
        None,
        Some("/usr/bin/grep".to_string()),
        Some("/usr/share/discord-canary/DiscordCanary".to_string()),
        Some("/opt/discord/Discord Helper (Renderer)".to_string()),
    ];
    assert_eq!(matching(Flavor::Stable, TargetOs::Other, &exes), vec![0, 4]);
    assert_eq!(matching(Flavor::Canary, TargetOs::Other, &exes), vec![3]);
}
