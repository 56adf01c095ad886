use dsh_desktop::env_detect::{
    child_path, detect, install_exit_message, is_absolute_str, join_path_str, login_shell_path, nvm_bin_dirs,
    parse_version, version_from_output, version_less, DetectNext, DetectQuery, DetectReply,
    Toolchain,
};

fn strings(v: &[&str]) -> Vec<String> {
    v.iter().map(|s| s.to_string()).collect()
}

#[test]
fn join_adds_one_separator() {
    assert_eq!(join_path_str("/Users/me", ".local/bin"), "/Users/me/.local/bin");
    assert_eq!(join_path_str("/Users/me/", ".local/bin"), "/Users/me/.local/bin");
    assert_eq!(join_path_str("", ".local/bin"), ".local/bin");
}

#[test]
fn nvm_directory_names_as_versions() {
    assert_eq!(parse_version("v24.16.0"), Some(vec![24, 16, 0]));
    assert_eq!(parse_version("v8"), Some(vec![8]));
    assert_eq!(parse_version("v+1.2"), Some(vec![1, 2]));
    assert_eq!(parse_version("24.16.0"), None);
    assert_eq!(parse_version("v"), None);
    assert_eq!(parse_version("v1..2"), None);
    assert_eq!(parse_version("v1.2."), None);
    assert_eq!(parse_version("vx"), None);
    assert_eq!(parse_version(".DS_Store"), None);
}

#[test]
fn version_order_is_vec_order() {
    let cases: Vec<(Vec<u64>, Vec<u64>)> = vec![
        (vec![20, 1], vec![20, 2]),
        (vec![20], vec![20, 0]),
        (vec![9, 9], vec![10]),
        (vec![1, 2], vec![1, 2]),
        (vec![], vec![0]),
    ];
    for (a, b) in cases {
        assert_eq!(version_less(&a, &b), a < b);
        assert_eq!(version_less(&b, &a), b < a);
    }
}

#[test]
fn nvm_bins_newest_first_and_stable() {
    let entries: Vec<(String, String)> = vec![
        ("v18.20.4".to_string(), "/h/.nvm/versions/node/v18.20.4".to_string()),
        ("v24.16.0".to_string(), "/h/.nvm/versions/node/v24.16.0".to_string()),
        ("notes.txt".to_string(), "/h/.nvm/versions/node/notes.txt".to_string()),
        ("v20.1.0".to_string(), "/h/.nvm/versions/node/v20.1.0".to_string()),
        ("v24.16.00".to_string(), "/h/.nvm/versions/node/v24.16.00".to_string()),
        ("v9.0.0".to_string(), "/h/.nvm/versions/node/v9.0.0".to_string()),
    ];
    assert_eq!(
        nvm_bin_dirs(&entries),
        strings(&[
            "/h/.nvm/versions/node/v24.16.0/bin",
            "/h/.nvm/versions/node/v24.16.00/bin",
            "/h/.nvm/versions/node/v20.1.0/bin",
            "/h/.nvm/versions/node/v18.20.4/bin",
            "/h/.nvm/versions/node/v9.0.0/bin",
        ])
    );
}

#[test]
fn child_path_puts_candidates_first() {
    let dirs = strings(&["/opt/homebrew/bin", "/usr/local/bin"]);
    assert_eq!(
        child_path(&dirs, &Some("/custom/bin".to_string())),
        "/opt/homebrew/bin:/usr/local/bin:/usr/bin:/bin:/usr/sbin:/sbin:/custom/bin"
    );
    assert_eq!(child_path(&Vec::new(), &None), "/usr/bin:/bin:/usr/sbin:/sbin");
}

#[test]
fn printed_version_is_trimmed_output() {
    assert_eq!(version_from_output(true, " 0.1.5-rc.1\n"), Some("0.1.5-rc.1".to_string()));
    assert_eq!(version_from_output(false, "0.1.5\n"), None);
    assert_eq!(version_from_output(true, " \n"), None);
}

#[test]
fn login_shell_answer_is_last_absolute_line() {
    assert_eq!(
        login_shell_path("Welcome!\n/usr/local/bin/dsh\n"),
        Some("/usr/local/bin/dsh".to_string())
    );
    assert_eq!(login_shell_path("  /a/dsh  \n/b/dsh\nnot found\n"), Some("/b/dsh".to_string()));
    assert_eq!(login_shell_path("dsh not found\n"), None);
    assert_eq!(login_shell_path(""), None);
}

#[test]
fn install_exit_messages() {
    assert_eq!(install_exit_message(Some(1)), "npm 退出码 Some(1)");
    assert_eq!(install_exit_message(Some(-2)), "npm 退出码 Some(-2)");
    assert_eq!(install_exit_message(None), "npm 退出码 None");
    assert_eq!(install_exit_message(Some(i32::MIN)), format!("npm 退出码 {:?}", Some(i32::MIN)));
}

#[test]
fn usable_dsh_needs_a_version() {
    let tc = Toolchain { dsh: Some("/usr/local/bin/dsh".to_string()), npm: None, bin_dirs: Vec::new() };
    assert_eq!(tc.usable_dsh(&Some("0.1.5".to_string())), Some("/usr/local/bin/dsh".to_string()));
    assert_eq!(tc.usable_dsh(&None), None);
    let missing = Toolchain { dsh: None, npm: None, bin_dirs: Vec::new() };
    assert_eq!(missing.usable_dsh(&Some("0.1.5".to_string())), None);
}

fn ask(next: DetectNext) -> (dsh_desktop::env_detect::DetectStage, DetectQuery) {
    match next {
        DetectNext::Ask(stage, query) => (stage, query),
        DetectNext::Done(_) => panic!("detection ended early"),
    }
}

#[test]
fn detection_finds_dsh_in_first_directory_and_npm_beside_it() {
    let (stage, query) = ask(detect(&Some("/Users/me".to_string())));
    match query {
        DetectQuery::ListDir(p) => assert_eq!(p, "/Users/me/.nvm/versions/node"),
        _ => panic!("expected ListDir"),
    }
    let entries = vec![("v20.1.0".to_string(), "/Users/me/.nvm/versions/node/v20.1.0".to_string())];
    let (stage, query) = ask(stage.step(DetectReply::Entries(entries)));
    let candidates = match query {
        DetectQuery::Directories(c) => c,
        _ => panic!("expected Directories"),
    };
    assert_eq!(
        candidates,
        strings(&[
            "/Users/me/.nvm/versions/node/v20.1.0/bin",
            "/opt/homebrew/bin",
            "/usr/local/bin",
            "/Users/me/.hermes/node/bin",
            "/Users/me/.local/bin",
        ])
    );
    let (stage, query) = ask(stage.step(DetectReply::Present(vec![true, false, true, false, true])));
    match query {
        DetectQuery::Files(paths) => assert_eq!(
            paths,
            strings(&[
                "/Users/me/.nvm/versions/node/v20.1.0/bin/dsh",
                "/usr/local/bin/dsh",
                "/Users/me/.local/bin/dsh",
            ])
        ),
        _ => panic!("expected Files"),
    }
    let (stage, query) = ask(stage.step(DetectReply::Present(vec![false, true, true])));
    match query {
        DetectQuery::Files(paths) => assert_eq!(
            paths,
            strings(&[
                "/usr/local/bin/npm",
                "/Users/me/.nvm/versions/node/v20.1.0/bin/npm",
                "/usr/local/bin/npm",
                "/Users/me/.local/bin/npm",
            ])
        ),
        _ => panic!("expected Files"),
    }
    match stage.step(DetectReply::Present(vec![false, true, true, false])) {
        DetectNext::Done(tc) => {
            assert_eq!(tc.dsh, Some("/usr/local/bin/dsh".to_string()));
            assert_eq!(tc.npm, Some("/Users/me/.nvm/versions/node/v20.1.0/bin/npm".to_string()));
            assert_eq!(
                tc.bin_dirs,
                strings(&["/Users/me/.nvm/versions/node/v20.1.0/bin", "/usr/local/bin", "/Users/me/.local/bin"])
            );
        },
        DetectNext::Ask(..) => panic!("expected the result"),
    }
}

#[test]
fn detection_falls_back_to_the_login_shell() {
    let (stage, query) = ask(detect(&None));
    match query {
        DetectQuery::Directories(c) => assert_eq!(c, strings(&["/opt/homebrew/bin", "/usr/local/bin"])),
        _ => panic!("expected Directories"),
    }
    let (stage, _) = ask(stage.step(DetectReply::Present(vec![false, false])));
    let (stage, query) = ask(stage.step(DetectReply::Present(Vec::new())));
    match query {
        DetectQuery::LoginShell(script) => assert_eq!(script, "command -v dsh"),
        _ => panic!("expected LoginShell"),
    }
    let (stage, query) = ask(stage.step(DetectReply::Shell(Some("hello\n/Users/me/bin/dsh\n".to_string()))));
    match query {
        DetectQuery::Files(paths) => assert_eq!(paths, strings(&["/Users/me/bin/npm"])),
        _ => panic!("expected Files"),
    }
    let (stage, query) = ask(stage.step(DetectReply::Present(vec![false])));
    match query {
        DetectQuery::LoginShell(script) => assert_eq!(script, "command -v npm"),
        _ => panic!("expected LoginShell"),
    }
    match stage.step(DetectReply::Shell(None)) {
        DetectNext::Done(tc) => {
            assert_eq!(tc.dsh, Some("/Users/me/bin/dsh".to_string()));
            assert_eq!(tc.npm, None);
            assert!(tc.bin_dirs.is_empty());
        },
        DetectNext::Ask(..) => panic!("expected the result"),
    }
}

#[test]
fn detection_without_a_usable_home_looks_only_at_absolute_places() {
    for home in [Some(String::new()), Some("relative/home".to_string())] {
        let (stage, query) = ask(detect(&home));
        match query {
            DetectQuery::Directories(c) => assert_eq!(c, strings(&["/opt/homebrew/bin", "/usr/local/bin"])),
            _ => panic!("expected Directories"),
        }
        let (_, query) = ask(stage.step(DetectReply::Present(vec![false, true])));
        match query {
            DetectQuery::Files(paths) => assert_eq!(paths, strings(&["/usr/local/bin/dsh"])),
            _ => panic!("expected Files"),
        }
    }
}

#[test]
fn detection_leaves_out_relative_nvm_directories() {
    let (stage, _) = ask(detect(&Some("/Users/me".to_string())));
    let entries = vec![
        ("v22.0.0".to_string(), "elsewhere/v22.0.0".to_string()),
        ("v20.1.0".to_string(), "/Users/me/.nvm/versions/node/v20.1.0".to_string()),
    ];
    let (_, query) = ask(stage.step(DetectReply::Entries(entries)));
    match query {
        DetectQuery::Directories(c) => assert_eq!(
            c,
            strings(&[
                "/Users/me/.nvm/versions/node/v20.1.0/bin",
                "/opt/homebrew/bin",
                "/usr/local/bin",
                "/Users/me/.hermes/node/bin",
                "/Users/me/.local/bin",
            ])
        ),
        _ => panic!("expected Directories"),
    }
}

#[test]
fn login_shell_answer_must_be_absolute() {
    let (stage, _) = ask(detect(&None));
    let (stage, _) = ask(stage.step(DetectReply::Present(vec![false, false])));
    let (stage, _) = ask(stage.step(DetectReply::Present(Vec::new())));
    let (stage, query) = ask(stage.step(DetectReply::Shell(Some("dsh\nbin/dsh\n".to_string()))));
    match query {
        DetectQuery::Files(paths) => assert!(paths.is_empty()),
        _ => panic!("expected Files"),
    }
    let (stage, _) = ask(stage.step(DetectReply::Present(Vec::new())));
    match stage.step(DetectReply::Shell(Some("npm\n".to_string()))) {
        DetectNext::Done(tc) => {
            assert_eq!(tc.dsh, None);
            assert_eq!(tc.npm, None);
        },
        DetectNext::Ask(..) => panic!("expected the result"),
    }
}

#[test]
fn version_names_read_back() {
    for ns in [vec![0u64], vec![24, 16, 0], vec![u64::MAX, 7], vec![1, 2, 3, 4, 5]] {
        let name = format!("v{}", ns.iter().map(|n| n.to_string()).collect::<Vec<_>>().join("."));
        assert_eq!(parse_version(&name), Some(ns));
    }
}

#[test]
fn absolute_paths_begin_with_a_slash() {
    assert!(is_absolute_str("/usr/local/bin"));
    assert!(is_absolute_str("/"));
    assert!(!is_absolute_str(""));
    assert!(!is_absolute_str(".local/bin"));
    assert!(!is_absolute_str("~/bin"));
}
