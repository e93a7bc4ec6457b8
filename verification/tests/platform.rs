use discord_desktop_fixer::discord::{Flavor, Install, LaunchSpec, Packaging};
use discord_desktop_fixer::platform::{
    assemble, discover, discover_sorted, flatpak_app_id, install_dir_name, layout, roots_from,
    Launcher, Platform, Probed,
};

fn bare(flavor: Flavor, dir: &str) -> Install {
    Install {
        flavor,
        packaging: Packaging::Native,
        data_dir: dir.to_string(),
        extra_cache_dirs: Vec::new(),
        extra_deep_cache_dirs: Vec::new(),
        launch: None,
    }
}

#[test]
fn stable_comes_first_and_order_is_kept() {
    let installs = vec![
        bare(Flavor::Canary, "c1"),
        bare(Flavor::Stable, "s1"),
        bare(Flavor::Development, "d1"),
        bare(Flavor::Canary, "c2"),
        bare(Flavor::Stable, "s2"),
        bare(Flavor::Ptb, "p1"),
    ];
    let sorted = discover_sorted(installs);
    let dirs: Vec<&str> = sorted.iter().map(|i| i.data_dir.as_str()).collect();
    assert_eq!(dirs, vec!["s1", "s2", "p1", "c1", "c2", "d1"]);
}

#[test]
fn linux_layout() {
    let c = layout(Platform::Linux, "/home/a", "/home/a/.config", "/home/a/.cache", );
    assert_eq!(c.len(), 12);
    assert_eq!(c[0].data_dir, "/home/a/.config/discord");
    assert_eq!(c[0].extra_cache_dirs, vec!["/home/a/.cache/discord".to_string()]);
    match &c[0].launcher {
        Launcher::OnPath { programs, args } => {
            assert_eq!(programs, &vec!["Discord".to_string(), "discord".to_string()]);
            assert!(args.is_empty());
        }
        other => panic!("{other:?}"),
    }
    assert_eq!(c[1].packaging, Packaging::Flatpak);
    assert_eq!(c[1].data_dir, "/home/a/.var/app/com.discordapp.Discord/config/discord");
    assert_eq!(
        c[1].extra_cache_dirs,
        vec!["/home/a/.var/app/com.discordapp.Discord/cache/discord".to_string()]
    );
    assert_eq!(c[2].packaging, Packaging::Snap);
    assert_eq!(c[2].data_dir, "/home/a/snap/discord/current/.config/discord");
    assert_eq!(c[3].flavor, Flavor::Ptb);
    assert_eq!(c[3].data_dir, "/home/a/.config/discordptb");
    match &c[3].launcher {
        Launcher::OnPath { programs, .. } => {
            assert_eq!(programs, &vec!["DiscordPTB".to_string(), "discordptb".to_string()])
        }
        other => panic!("{other:?}"),
    }
}

#[test]
fn macos_layout() {
    let c = layout(Platform::MacOs, "/Users/a", "", "");
    assert_eq!(c.len(), 4);
    assert_eq!(c[2].data_dir, "/Users/a/Library/Application Support/discordcanary");
    assert_eq!(
        c[2].extra_cache_dirs,
        vec![
            "/Users/a/Library/Caches/com.hnc.DiscordCanary".to_string(),
            "/Users/a/Library/Caches/com.hnc.DiscordCanary.ShipIt".to_string(),
            "/Users/a/Library/Saved Application State/com.hnc.DiscordCanary.savedState".to_string(),
        ]
    );
    assert!(matches!(c[2].launcher, Launcher::Bundle("com.hnc.DiscordCanary")));
}

#[test]
fn windows_layout() {
    let c = layout(Platform::Windows, "C:/Users/a/AppData/Roaming", "C:/Users/a/AppData/Local", "");
    assert_eq!(c.len(), 4);
    assert_eq!(c[1].data_dir, "C:/Users/a/AppData/Roaming/discordptb");
    assert_eq!(
        c[1].extra_deep_cache_dirs,
        vec!["C:/Users/a/AppData/Local/DiscordPTB/packages".to_string()]
    );
    match &c[1].launcher {
        Launcher::Squirrel { update_exe, exe_name } => {
            assert_eq!(update_exe, "C:/Users/a/AppData/Local/DiscordPTB/Update.exe");
            assert_eq!(exe_name, "DiscordPTB.exe");
        }
        other => panic!("{other:?}"),
    }
}

#[test]
fn only_what_is_there_is_kept() {
    let c = layout(Platform::MacOs, "/Users/a", "", "");
    let present = Probed {
        data_dir: true,
        extra_cache_dirs: vec![true, false, true],
        extra_deep_cache_dirs: Vec::new(),
        program: None,
    };
    let absent = Probed { data_dir: false, ..present.clone() };
    let i = assemble(&c[0], &present).unwrap();
    assert_eq!(
        i.extra_cache_dirs,
        vec![
            "/Users/a/Library/Caches/com.hnc.Discord".to_string(),
            "/Users/a/Library/Saved Application State/com.hnc.Discord.savedState".to_string(),
        ]
    );
    assert!(matches!(i.launch, Some(LaunchSpec::MacOsBundleId("com.hnc.Discord"))));
    assert!(assemble(&c[0], &absent).is_none());

    let probes = vec![absent.clone(), present.clone(), absent.clone(), present.clone()];
    let found = discover(&c, &probes);
    let flavors: Vec<Flavor> = found.iter().map(|i| i.flavor).collect();
    assert_eq!(flavors, vec![Flavor::Ptb, Flavor::Development]);
}

#[test]
fn launchers_need_a_program() {
    let c = layout(Platform::Linux, "/h", "/h/.config", "/h/.cache");
    let flatpak = &c[1];
    let none = Probed {
        data_dir: true,
        extra_cache_dirs: vec![false],
        extra_deep_cache_dirs: Vec::new(),
        program: None,
    };
    assert!(assemble(flatpak, &none).unwrap().launch.is_none());
    let found = Probed { program: Some("/usr/bin/flatpak".to_string()), ..none };
    match assemble(flatpak, &found).unwrap().launch {
        Some(LaunchSpec::Command { program, args }) => {
            assert_eq!(program, "/usr/bin/flatpak");
            assert_eq!(args, vec!["run".to_string(), "com.discordapp.Discord".to_string()]);
        }
        other => panic!("{other:?}"),
    }
}

#[test]
fn roots_fall_back_under_home() {
    let r = roots_from(Platform::Linux, Some("/h".to_string()), None, Some("/c".to_string()), None);
    assert_eq!(r, Some(("/h".to_string(), "/h/.config".to_string(), "/c".to_string())));
    assert_eq!(roots_from(Platform::Linux, None, Some("/x".to_string()), None, None), None);
    assert_eq!(
        roots_from(Platform::Windows, None, Some("R".to_string()), None, None),
        None
    );
    assert_eq!(
        roots_from(Platform::Windows, None, Some("R".to_string()), None, Some("L".to_string())),
        Some(("R".to_string(), "L".to_string(), String::new()))
    );
}

#[test]
fn names_per_flavor() {
    assert_eq!(flatpak_app_id(Flavor::Canary), "com.discordapp.DiscordCanary");
    assert_eq!(install_dir_name(Flavor::Development), "DiscordDevelopment");
}
