use discord_desktop_fixer::discord::{Flavor, Install, Packaging, Scope};
use discord_desktop_fixer::gui::{attention_header_of, detail_lines_of, display_name, App, Msg, Screen};
use discord_desktop_fixer::job::{Options, Summary};
use discord_desktop_fixer::clean::{Item, Outcome, Report};
use std::time::Duration;

fn install(flavor: Flavor) -> Install {
    Install {
        flavor,
        packaging: Packaging::Native,
        data_dir: format!("/h/{}", flavor.data_dir_name()),
        extra_cache_dirs: vec!["/h/cache".to_string()],
        extra_deep_cache_dirs: Vec::new(),
        launch: None,
    }
}

#[test]
fn everything_is_chosen_at_first() {
    let options = Options { scope: Scope::Deep, relaunch: false, dry_run: true };
    let mut app = App::new(vec![install(Flavor::Stable), install(Flavor::Ptb)], options);
    assert_eq!(app.selected, vec![true, true]);
    assert!(app.deep);
    assert_eq!(app.options(), options);
    assert!(app.any_chosen());
    app.selected[0] = false;
    let chosen = app.chosen();
    assert_eq!(chosen.len(), 1);
    assert_eq!(chosen[0].flavor, Flavor::Ptb);
    assert_eq!(chosen[0].extra_cache_dirs, vec!["/h/cache".to_string()]);
    app.selected[1] = false;
    assert!(!app.any_chosen());
    app.deep = false;
    assert_eq!(app.options().scope, Scope::Safe);
}

#[test]
fn progress_is_pumped_until_done() {
    let options = Options { scope: Scope::Safe, relaunch: true, dry_run: false };
    let mut app = App::new(vec![install(Flavor::Stable)], options);
    // Nothing happens while idle.
    app.pump(vec![Msg::Step("x".to_string())]);
    assert!(matches!(app.screen, Screen::Idle));
    app.start();
    app.pump(vec![Msg::Step("one".to_string()), Msg::Step("two".to_string())]);
    match &app.screen {
        Screen::Running { steps } => assert_eq!(steps, &vec!["one".to_string(), "two".to_string()]),
        _ => panic!("still running"),
    }
    let summary = Summary {
        report: Report::default(),
        warnings: vec!["w".to_string()],
        elapsed: Duration::ZERO,
        relaunched: true,
    };
    app.pump(vec![Msg::Step("three".to_string()), Msg::Done(Box::new(summary))]);
    match &app.screen {
        Screen::Done { summary, dry_run } => {
            assert!(summary.relaunched);
            assert!(!dry_run);
        }
        _ => panic!("done"),
    }
}

#[test]
fn items_are_shown_by_their_last_component() {
    assert_eq!(display_name("/h/discord/Code Cache"), "Code Cache");
    assert_eq!(display_name("/"), "/");
    assert_eq!(display_name("/h/.."), "/h/..");
}

#[test]
fn the_done_screen_lines() {
    assert_eq!(attention_header_of(2), "2 thing(s) needed attention");
    let mut report = Report::default();
    report.items.push(Item { path: "/h/discord/Code Cache".to_string(), outcome: Outcome::Removed { bytes: 2048 } });
    report.items.push(Item { path: "/h/discord/logs".to_string(), outcome: Outcome::NotPresent });
    report.items.push(Item { path: "/h/discord/GPUCache".to_string(), outcome: Outcome::Removed { bytes: 10 } });
    assert_eq!(
        detail_lines_of(&report),
        vec!["Code Cache  —  2.00 KB".to_string(), "GPUCache  —  10 B".to_string()]
    );
}
