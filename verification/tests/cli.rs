use discord_desktop_fixer::clean::{Item, Outcome, Report};
use discord_desktop_fixer::cli::{
    found_line, parse_args, removal_lines_of, unknown_option_message, Command, HELP,
};
use discord_desktop_fixer::discord::{Flavor, Install, Packaging, Scope};
use discord_desktop_fixer::job::Options;

fn args(a: &[&str]) -> Vec<String> {
    a.iter().map(|s| s.to_string()).collect()
}

fn run_of(c: Command) -> (Options, bool) {
    match c {
        Command::Run { options, cli } => (options, cli),
        other => panic!("expected a run, got {other:?}"),
    }
}

#[test]
fn no_arguments_open_the_window() {
    let (options, cli) = run_of(parse_args(&args(&[])));
    assert_eq!(options, Options { scope: Scope::Safe, relaunch: true, dry_run: false });
    assert!(!cli);
}

#[test]
fn options_combine() {
    let (options, cli) = run_of(parse_args(&args(&["--deep", "--no-relaunch", "--cli"])));
    assert_eq!(options, Options { scope: Scope::Deep, relaunch: false, dry_run: false });
    assert!(cli);
    // A dry run implies the terminal.
    let (options, cli) = run_of(parse_args(&args(&["--dry-run"])));
    assert!(options.dry_run);
    assert!(cli);
}

#[test]
fn help_and_version_win() {
    assert!(matches!(parse_args(&args(&["--bogus", "-h"])), Command::Help));
    assert!(matches!(parse_args(&args(&["--help"])), Command::Help));
    assert!(matches!(parse_args(&args(&["--cli", "-V"])), Command::Version));
    assert!(matches!(parse_args(&args(&["--version", "--help"])), Command::Help));
}

#[test]
fn the_first_unknown_argument_is_refused() {
    match parse_args(&args(&["--cli", "--fast", "--slow"])) {
        Command::Unknown(a) => assert_eq!(a, "--fast"),
        other => panic!("{other:?}"),
    }
    let m = unknown_option_message("--fast");
    assert!(m.starts_with("unrecognised option: --fast\n\nDiscord Desktop Fixer — clears"));
    assert!(m.ends_with("-V, --version    Print version\n"));
    assert_eq!(m.len(), "unrecognised option: --fast\n\n".len() + HELP.len());
}

#[test]
fn terminal_lines() {
    let install = Install {
        flavor: Flavor::Stable,
        packaging: Packaging::Snap,
        data_dir: "/home/a/snap/discord/current/.config/discord".to_string(),
        extra_cache_dirs: Vec::new(),
        extra_deep_cache_dirs: Vec::new(),
        launch: None,
    };
    assert_eq!(
        found_line(&install),
        "Found Discord (Snap) at /home/a/snap/discord/current/.config/discord"
    );
    let mut report = Report::default();
    report.items.push(Item { path: "/d/Cache".to_string(), outcome: Outcome::Removed { bytes: 1024 } });
    report.items.push(Item { path: "/d/logs".to_string(), outcome: Outcome::NotPresent });
    report.items.push(Item {
        path: "/d/modules".to_string(),
        outcome: Outcome::Removed { bytes: 300 * 1024 * 1024 * 1024 },
    });
    assert_eq!(
        removal_lines_of(&report),
        vec!["     1.00 KB  /d/Cache".to_string(), "   300.00 GB  /d/modules".to_string()]
    );
}
