use discord_desktop_fixer::discord::{
    is_never_deletable, looks_like_version, versioned_module_dirs, DirEntryFacts, Flavor, Install,
    Packaging, Scope, TargetOs,
};

#[test]
fn deletable_lists_never_overlap_the_deny_list() {
    for name in Scope::Deep.target_names() {
        assert!(
            !is_never_deletable(name),
            "{name} is scheduled for deletion but is on the NEVER list"
        );
    }
}

#[test]
fn safe_is_a_subset_of_deep() {
    let deep = Scope::Deep.target_names();
    for name in Scope::Safe.target_names() {
        assert!(deep.contains(&name), "{name} missing from deep clean");
    }
}

#[test]
fn target_names_are_unique() {
    let mut names = Scope::Deep.target_names();
    let before = names.len();
    names.sort_unstable();
    names.dedup();
    assert_eq!(before, names.len(), "duplicate entries in target lists");
}

#[test]
fn matches_real_macos_process_names() {
    let f = Flavor::Stable;
    let os = TargetOs::MacOs;
    assert!(f.matches_process("/Applications/Discord.app/Contents/MacOS/Discord", os));
    assert!(f.matches_process("/Applications/Discord.app/Contents/Frameworks/Discord Helper (GPU).app/Contents/MacOS/Discord Helper (GPU)", os));
    assert!(f.matches_process(
        "/Applications/Discord.app/Contents/Frameworks/chrome_crashpad_handler",
        os
    ));
}

#[test]
fn does_not_match_unrelated_processes() {
    for os in [TargetOs::MacOs, TargetOs::Other] {
        let f = Flavor::Stable;
        // The `pkill -f Discord` failure mode: a path that merely mentions Discord.
        assert!(!f.matches_process("/usr/local/bin/node", os));
        assert!(!f.matches_process("/Users/me/dev/discord-fixer/target/debug/nvim", os));
        assert!(!f.matches_process("/Applications/Discordo.app/Contents/MacOS/Discordo", os));
        // Canary is a different install and must not be swept up by Stable.
        assert!(!f.matches_process(
            "/Applications/Discord Canary.app/Contents/MacOS/Discord Canary",
            os
        ));
    }
}

#[test]
fn recognises_host_version_directory_names() {
    assert!(looks_like_version("0.0.402"));
    assert!(looks_like_version("1.0"));
    assert!(!looks_like_version("modules"));
    assert!(!looks_like_version("0.0.402-canary"));
    assert!(!looks_like_version("0..1"));
    assert!(!looks_like_version("402"));
    assert!(!looks_like_version(""));
}

fn entry(name: &str, is_dir: bool, has_modules: bool) -> DirEntryFacts {
    DirEntryFacts { name: Some(name.to_string()), is_dir, has_modules }
}

#[test]
fn versioned_modules_are_deep_only_and_need_a_modules_child() {
    let data_dir = "/tmp/fixture/discord".to_string();
    // `0.0.402` holds `modules`; `9.9.9` holds something else.
    let entries = vec![entry("0.0.402", true, true), entry("9.9.9", true, false)];
    let versioned = versioned_module_dirs(&data_dir, &entries);

    let install = Install {
        flavor: Flavor::Stable,
        packaging: Packaging::Native,
        data_dir: data_dir.clone(),
        extra_cache_dirs: Vec::new(),
        extra_deep_cache_dirs: Vec::new(),
        launch: None,
    };

    let v = "/tmp/fixture/discord/0.0.402".to_string();
    assert!(!install.targets(Scope::Safe, &versioned).contains(&v));
    let deep = install.targets(Scope::Deep, &versioned);
    assert!(deep.contains(&v));
    assert!(!deep.contains(&"/tmp/fixture/discord/9.9.9".to_string()));
}

#[test]
fn flavors_have_distinct_identities() {
    for a in Flavor::all() {
        for b in Flavor::all() {
            if a != b {
                assert_ne!(a.data_dir_name(), b.data_dir_name());
                assert_ne!(a.macos_bundle_id(), b.macos_bundle_id());
            }
        }
    }
}

#[test]
fn version_directories_need_a_directory_and_a_plain_name() {
    let entries = vec![
        entry("1.2.3", false, true),
        DirEntryFacts { name: None, is_dir: true, has_modules: true },
        entry("1.2", true, true),
        entry("beta.1", true, true),
    ];
    assert_eq!(versioned_module_dirs("/d", &entries), vec!["/d/1.2".to_string()]);
}

#[test]
fn labels_name_the_packaging() {
    let mut install = Install {
        flavor: Flavor::Canary,
        packaging: Packaging::Native,
        data_dir: "/home/a/.config/discordcanary".to_string(),
        extra_cache_dirs: Vec::new(),
        extra_deep_cache_dirs: Vec::new(),
        launch: None,
    };
    assert_eq!(install.label(), "Discord Canary");
    install.packaging = Packaging::Flatpak;
    assert_eq!(install.label(), "Discord Canary (Flatpak)");
    install.packaging = Packaging::Snap;
    assert_eq!(install.label(), "Discord Canary (Snap)");
}

#[test]
fn allowed_parents_are_sorted_and_unique() {
    let install = Install {
        flavor: Flavor::Stable,
        packaging: Packaging::Native,
        data_dir: "/u/Library/Application Support/discord".to_string(),
        extra_cache_dirs: vec![
            "/u/Library/Caches/com.hnc.Discord".to_string(),
            "/u/Library/Caches/com.hnc.Discord.ShipIt".to_string(),
            "/u/Library/Saved Application State/com.hnc.Discord.savedState".to_string(),
        ],
        extra_deep_cache_dirs: Vec::new(),
        launch: None,
    };
    assert_eq!(
        install.allowed_parents(),
        vec![
            "/u/Library/Application Support/discord".to_string(),
            "/u/Library/Caches".to_string(),
            "/u/Library/Saved Application State".to_string(),
        ]
    );
}

#[test]
fn never_list_is_case_insensitive() {
    assert!(is_never_deletable("Local Storage"));
    assert!(is_never_deletable("local storage"));
    assert!(is_never_deletable("COOKIES"));
    assert!(is_never_deletable("Settings.JSON"));
    assert!(!is_never_deletable("Cache"));
    assert!(!is_never_deletable("Cookies2"));
}

#[test]
fn process_names_on_windows_and_linux() {
    let os = TargetOs::Other;
    assert!(Flavor::Stable.matches_process("C:/Users/a/AppData/Local/Discord/app-1.0.9/Discord.exe", os));
    assert!(Flavor::Ptb.matches_process("/usr/share/discord-ptb/DiscordPTB", os));
    assert!(!Flavor::Stable.matches_process("/usr/share/discord-ptb/DiscordPTB", os));
    assert!(Flavor::Stable.matches_process("/home/a/.config/discord/chrome_crashpad_handler", os));
    assert!(!Flavor::Canary.matches_process("/home/a/.config/discord/chrome_crashpad_handler", os));
    assert_eq!(Flavor::Ptb.process_stem(os), "DiscordPTB");
    assert_eq!(Flavor::Ptb.process_stem(TargetOs::MacOs), "Discord PTB");
}

#[test]
fn no_flavor_takes_another_flavors_executable() {
    for os in [TargetOs::MacOs, TargetOs::Other] {
        for a in Flavor::all() {
            for b in Flavor::all() {
                let exe = format!("/opt/x/{}", b.process_stem(os));
                assert_eq!(a.matches_process(&exe, os), a == b, "{a:?} {b:?} {os:?}");
            }
        }
    }
}

#[test]
fn helpers_belong_to_one_flavor() {
    for os in [TargetOs::MacOs, TargetOs::Other] {
        for a in Flavor::all() {
            for b in Flavor::all() {
                for suffix in [" Helper", " Helper (GPU)", " Helper (Renderer).exe"] {
                    let exe = format!("/opt/x/{}{suffix}", b.process_stem(os));
                    assert_eq!(a.matches_process(&exe, os), a == b, "{exe} {a:?} {os:?}");
                }
            }
        }
    }
}
