use discord_desktop_fixer::discord::{Flavor, Install, LaunchSpec, Packaging};
use discord_desktop_fixer::launch::{exit_failure, launch, launch_result, start_failure};

fn with(launch: Option<LaunchSpec>, packaging: Packaging) -> Install {
    Install {
        flavor: Flavor::Stable,
        packaging,
        data_dir: "/d".to_string(),
        extra_cache_dirs: Vec::new(),
        extra_deep_cache_dirs: Vec::new(),
        launch,
    }
}

#[test]
fn macos_opens_the_bundle() {
    let plan = launch(&with(Some(LaunchSpec::MacOsBundleId("com.hnc.Discord")), Packaging::Native)).unwrap();
    assert_eq!(plan.program, "open");
    assert_eq!(plan.args, vec!["-b".to_string(), "com.hnc.Discord".to_string()]);
    assert!(plan.wait_for_exit);
}

#[test]
fn windows_goes_through_the_squirrel_stub() {
    let spec = LaunchSpec::WindowsSquirrel {
        update_exe: "C:/Users/a/AppData/Local/Discord/Update.exe".to_string(),
        exe_name: "Discord.exe".to_string(),
    };
    let plan = launch(&with(Some(spec), Packaging::Native)).unwrap();
    assert_eq!(plan.program, "C:/Users/a/AppData/Local/Discord/Update.exe");
    assert_eq!(plan.args, vec!["--processStart".to_string(), "Discord.exe".to_string()]);
    assert!(plan.wait_for_exit);
}

#[test]
fn a_command_is_run_as_given_and_left_running() {
    let spec = LaunchSpec::Command {
        program: "/usr/bin/flatpak".to_string(),
        args: vec!["run".to_string(), "com.discordapp.Discord".to_string()],
    };
    let plan = launch(&with(Some(spec), Packaging::Flatpak)).unwrap();
    assert_eq!(plan.program, "/usr/bin/flatpak");
    assert_eq!(plan.args, vec!["run".to_string(), "com.discordapp.Discord".to_string()]);
    assert!(!plan.wait_for_exit);
}

#[test]
fn no_launcher_is_an_error() {
    let err = launch(&with(None, Packaging::Snap)).unwrap_err();
    assert_eq!(err, "couldn't work out how to start Discord (Snap)");
    assert_eq!(start_failure("Discord"), "failed to start Discord");
    assert_eq!(
        exit_failure("Discord", "exit status: 1"),
        "Discord failed to start (exit status: 1)"
    );
}

#[test]
fn launch_results() {
    let waits = launch(&with(Some(LaunchSpec::MacOsBundleId("com.hnc.Discord")), Packaging::Native)).unwrap();
    assert_eq!(launch_result("Discord", &waits, true, true, "exit status: 0"), Ok(()));
    assert_eq!(
        launch_result("Discord", &waits, true, false, "exit status: 1"),
        Err("Discord failed to start (exit status: 1)".to_string())
    );
    assert_eq!(
        launch_result("Discord", &waits, false, false, ""),
        Err("failed to start Discord".to_string())
    );
    let spec = LaunchSpec::Command { program: "/usr/bin/discord".to_string(), args: Vec::new() };
    let runs = launch(&with(Some(spec), Packaging::Native)).unwrap();
    assert_eq!(launch_result("Discord", &runs, true, false, ""), Ok(()));
    assert_eq!(launch_result("Discord", &runs, false, false, ""), Err("failed to start Discord".to_string()));
}
