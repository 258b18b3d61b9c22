use linux_cmd_dashboard::runtime_env::{clean_appdir_path_list, terminal_environment_from};

#[test]
fn terminal_environment_removes_appimage_wrapper_state() {
    let env = terminal_environment_from(
        &[
            ("APPDIR", "/home/me/.local/opt/linux-cmd-dashboard"),
            (
                "APPIMAGE",
                "/home/me/.local/bin/linux-cmd-dashboard.AppImage",
            ),
            ("ARGV0", "linux-cmd-dashboard"),
            ("OWD", "/home/me"),
            ("HOME", "/home/me"),
        ],
        Some("/home/me/.local/opt/linux-cmd-dashboard"),
    );

    assert_eq!(env, vec!["HOME=/home/me"]);
}

#[test]
fn terminal_environment_strips_only_bundled_library_paths() {
    let env = terminal_environment_from(
        &[
            (
                "LD_LIBRARY_PATH",
                "/home/me/.local/opt/linux-cmd-dashboard/usr/lib:/opt/dev/lib",
            ),
            (
                "XDG_DATA_DIRS",
                "/home/me/.local/opt/linux-cmd-dashboard/usr/share:/usr/local/share:/usr/share",
            ),
            ("PATH", "/usr/local/bin:/usr/bin"),
        ],
        Some("/home/me/.local/opt/linux-cmd-dashboard"),
    );

    assert_eq!(
        env,
        vec![
            "LD_LIBRARY_PATH=/opt/dev/lib",
            "XDG_DATA_DIRS=/usr/local/share:/usr/share",
            "PATH=/usr/local/bin:/usr/bin",
        ]
    );
}

#[test]
fn terminal_environment_drops_empty_path_lists_after_cleaning() {
    let env = terminal_environment_from(
        &[
            (
                "LD_LIBRARY_PATH",
                "/home/me/.local/opt/linux-cmd-dashboard/usr/lib",
            ),
            (
                "XDG_DATA_DIRS",
                "/home/me/.local/opt/linux-cmd-dashboard/usr/share",
            ),
            ("SHELL", "/usr/bin/fish"),
        ],
        Some("/home/me/.local/opt/linux-cmd-dashboard"),
    );

    assert_eq!(env, vec!["SHELL=/usr/bin/fish"]);
}

#[test]
fn terminal_environment_preserves_library_paths_without_appdir() {
    let env = terminal_environment_from(
        &[
            ("LD_LIBRARY_PATH", "/opt/dev/lib"),
            ("XDG_DATA_DIRS", "/usr/local/share:/usr/share"),
        ],
        None,
    );

    assert_eq!(
        env,
        vec![
            "LD_LIBRARY_PATH=/opt/dev/lib",
            "XDG_DATA_DIRS=/usr/local/share:/usr/share",
        ]
    );
}

#[test]
fn equivalent_spellings_of_the_bundled_path_are_removed() {
    let env = terminal_environment_from(
        &[(
            "LD_LIBRARY_PATH",
            "/app//usr/lib/:/app/./usr/lib:/app/usr/lib64:/opt/lib",
        )],
        Some("/app/"),
    );

    assert_eq!(env, vec!["LD_LIBRARY_PATH=/app/usr/lib64:/opt/lib"]);
}

#[test]
fn empty_entries_are_dropped_when_cleaning() {
    let env = terminal_environment_from(
        &[("XDG_DATA_DIRS", "::/usr/share::/app/usr/share:")],
        Some("/app"),
    );

    assert_eq!(env, vec!["XDG_DATA_DIRS=/usr/share"]);
}

#[test]
fn wrapper_variables_are_dropped_without_appdir() {
    let env = terminal_environment_from(
        &[
            ("OWD", "/tmp"),
            ("LD_LIBRARY_PATH", ""),
            ("TERM", "xterm-256color"),
            ("ARGV0", "x"),
        ],
        None,
    );

    assert_eq!(env, vec!["LD_LIBRARY_PATH=", "TERM=xterm-256color"]);
}

#[test]
fn other_variables_are_not_cleaned() {
    let env = terminal_environment_from(
        &[("PATH", "/app/usr/lib::/bin"), ("LD_PRELOAD", "/app/usr/lib")],
        Some("/app"),
    );

    assert_eq!(env, vec!["PATH=/app/usr/lib::/bin", "LD_PRELOAD=/app/usr/lib"]);
}

#[test]
fn cleaning_twice_changes_nothing() {
    let vars = [
        ("LD_LIBRARY_PATH", "/app/usr/lib:/opt/lib::/usr/lib"),
        ("HOME", "/home/me"),
    ];
    let once = terminal_environment_from(&vars, Some("/app"));
    let pairs: Vec<(String, String)> = once
        .iter()
        .map(|line| {
            let (key, value) = line.split_once('=').unwrap();
            (key.to_string(), value.to_string())
        })
        .collect();
    let borrowed: Vec<(&str, &str)> = pairs
        .iter()
        .map(|(key, value)| (key.as_str(), value.as_str()))
        .collect();
    let twice = terminal_environment_from(&borrowed, Some("/app"));

    assert_eq!(once, vec!["LD_LIBRARY_PATH=/opt/lib:/usr/lib", "HOME=/home/me"]);
    assert_eq!(twice, once);
}

fn chars(s: &str) -> Vec<char> {
    s.chars().collect()
}

#[test]
fn cleaning_a_cleaned_list_returns_it_unchanged() {
    let appdir = chars("/app");
    let relative = chars("usr/lib");
    let once = clean_appdir_path_list(
        &chars("/app/usr/lib::/opt/lib:/app//usr/lib/:/usr/lib"),
        Some(&appdir),
        &relative,
    )
    .unwrap();
    assert_eq!(once, chars("/opt/lib:/usr/lib"));
    let twice = clean_appdir_path_list(&once, Some(&appdir), &relative).unwrap();
    assert_eq!(twice, once);
    assert_eq!(clean_appdir_path_list(&chars("/app/usr/lib"), Some(&appdir), &relative), None);
    assert_eq!(clean_appdir_path_list(&chars(""), None, &relative), Some(chars("")));
}

#[test]
fn bundled_directory_is_joined_as_paths_join() {
    let a = chars("a");
    assert_eq!(clean_appdir_path_list(&chars("a"), Some(&a), &chars("")), None);
    // An absolute relative part replaces the directory, as `Path::join` does.
    assert_eq!(clean_appdir_path_list(&chars("a:/:b"), Some(&a), &chars("//")), Some(chars("a:b")));
    assert_eq!(
        clean_appdir_path_list(&chars("a/x:a/y"), Some(&a), &chars("./x")),
        Some(chars("a/y"))
    );
    let app = chars("/app");
    assert_eq!(
        clean_appdir_path_list(&chars("/app/usr/lib:/lib"), Some(&app), &chars("usr//lib")),
        Some(chars("/lib"))
    );
    assert_eq!(
        clean_appdir_path_list(&chars("/lib:/opt"), Some(&app), &chars("/lib")),
        Some(chars("/opt"))
    );
    assert_eq!(clean_appdir_path_list(&chars("x:y"), Some(&chars("")), &chars("x")), Some(chars("y")));
}
