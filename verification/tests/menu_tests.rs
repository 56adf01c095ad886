use dsh_desktop::env_detect::Toolchain;
use dsh_desktop::menu::{
    check_updates, check_updates_id, is_check_updates_event, prefer_chinese, push_tail, texts,
    UpdateEvent, UpdateFailure, UpdateRequest, UpdateStage, UpdateStep, TAIL_LINES,
};

fn parts(s: UpdateStep) -> (Vec<String>, bool, Option<(UpdateStage, UpdateRequest)>) {
    (s.notices, s.restart, s.next)
}

#[test]
fn language_from_apple_languages() {
    assert!(prefer_chinese(&Some("(\n    \"zh-Hans-CN\",\n    \"en-CN\"\n)\n".to_string())));
    assert!(!prefer_chinese(&Some("(\n    \"en-CN\",\n    \"zh-Hans-CN\"\n)\n".to_string())));
    assert!(!prefer_chinese(&Some("(\n    \"z\"\n)".to_string())));
    assert!(!prefer_chinese(&Some("no quotes".to_string())));
    assert!(!prefer_chinese(&Some("\"zh".to_string())));
    assert!(!prefer_chinese(&None));
}

#[test]
fn texts_in_both_languages() {
    let zh = texts(true);
    assert_eq!(zh.check_updates, "检查更新…");
    assert_eq!(zh.update_failed, "更新失败：{error}");
    let en = texts(false);
    assert_eq!(en.check_updates, "Check for Updates…");
    assert_eq!(en.app_name, "DeepSeek Harness");
    assert_eq!(en.btn_ok, "OK");
}

#[test]
fn menu_event_id() {
    assert_eq!(check_updates_id(), "check-updates");
    assert!(is_check_updates_event("check-updates"));
    assert!(!is_check_updates_event("quit"));
}

#[test]
fn tail_keeps_the_last_twenty_lines() {
    let mut tail = Vec::new();
    for i in 0..25 {
        push_tail(&mut tail, format!("line {i}"));
    }
    assert_eq!(TAIL_LINES, 20);
    assert_eq!(tail.len(), 20);
    assert_eq!(tail[0], "line 5");
    assert_eq!(tail[19], "line 24");
}

fn with_tools(dsh: Option<&str>, npm: Option<&str>) -> Toolchain {
    Toolchain { dsh: dsh.map(str::to_string), npm: npm.map(str::to_string), bin_dirs: vec!["/b".to_string()] }
}

#[test]
fn update_check_up_to_date() {
    let t = texts(false);
    let (_, _, next) = parts(check_updates());
    let (stage, request) = next.unwrap();
    assert!(matches!(request, UpdateRequest::Detect));
    let (_, _, next) = parts(stage.step(&t, UpdateEvent::Detected(with_tools(Some("/b/dsh"), Some("/b/npm")))));
    let (stage, request) = next.unwrap();
    match request {
        UpdateRequest::LocalVersion { dsh, .. } => assert_eq!(dsh, "/b/dsh"),
        _ => panic!("expected the local version"),
    }
    let (_, _, next) = parts(stage.step(&t, UpdateEvent::Version(Some("0.1.5".to_string()))));
    let (stage, request) = next.unwrap();
    match request {
        UpdateRequest::LatestVersion { npm, .. } => assert_eq!(npm, "/b/npm"),
        _ => panic!("expected the latest version"),
    }
    let (notices, restart, next) = parts(stage.step(&t, UpdateEvent::Version(Some("0.1.5".to_string()))));
    assert_eq!(notices, vec!["You're up to date (0.1.5).".to_string()]);
    assert!(!restart && next.is_none());
}

#[test]
fn update_check_missing_pieces() {
    let t = texts(true);
    let (notices, _, next) = parts(UpdateStage::Detecting.step(&t, UpdateEvent::Detected(with_tools(None, Some("/b/npm")))));
    assert_eq!(notices, vec!["未检测到 dsh 安装，无法检查更新。".to_string()]);
    assert!(next.is_none());
    let stage = UpdateStage::ReadingLocal { found_npm: None, bin_dirs: Vec::new() };
    let (notices, _, _) = parts(stage.step(&t, UpdateEvent::Version(Some("0.1.5".to_string()))));
    assert_eq!(notices, vec!["检查失败，请检查网络后重试。".to_string()]);
    let stage = UpdateStage::ReadingLocal { found_npm: Some("/b/npm".to_string()), bin_dirs: Vec::new() };
    let (notices, _, _) = parts(stage.step(&t, UpdateEvent::Version(None)));
    assert_eq!(notices, vec!["未检测到 dsh 安装，无法检查更新。".to_string()]);
    let stage = UpdateStage::ReadingLatest { npm: "/b/npm".to_string(), bin_dirs: Vec::new(), local: "0.1.5".to_string() };
    let (notices, _, _) = parts(stage.step(&t, UpdateEvent::Version(None)));
    assert_eq!(notices, vec!["检查失败，请检查网络后重试。".to_string()]);
}

#[test]
fn update_offered_confirmed_and_done() {
    let t = texts(true);
    let stage = UpdateStage::ReadingLatest { npm: "/b/npm".to_string(), bin_dirs: vec!["/b".to_string()], local: "0.1.5-rc.1".to_string() };
    let (notices, _, next) = parts(stage.step(&t, UpdateEvent::Version(Some("0.1.4".to_string()))));
    assert!(notices.is_empty());
    let (stage, request) = next.unwrap();
    match request {
        UpdateRequest::Confirm { message } => assert_eq!(message, "npm 上的版本是 0.1.4，你当前安装的是 0.1.5-rc.1。"),
        _ => panic!("expected the question"),
    }
    let (_, _, next) = parts(stage.step(&t, UpdateEvent::Confirmed(true)));
    let (stage, request) = next.unwrap();
    match request {
        UpdateRequest::Update { npm, bin_dirs } => {
            assert_eq!(npm, "/b/npm");
            assert_eq!(bin_dirs, vec!["/b".to_string()]);
        },
        _ => panic!("expected the update"),
    }
    let (notices, restart, next) = parts(stage.step(&t, UpdateEvent::Updated(Ok(()))));
    assert_eq!(notices, vec!["更新完成，点击确定重启应用。".to_string()]);
    assert!(restart && next.is_none());
}

#[test]
fn update_declined_or_failed() {
    let t = texts(false);
    let stage = UpdateStage::Confirming { npm: "/b/npm".to_string(), bin_dirs: Vec::new() };
    let (notices, restart, next) = parts(stage.step(&t, UpdateEvent::Confirmed(false)));
    assert!(notices.is_empty() && !restart && next.is_none());
    let failure = UpdateFailure { error: "npm 退出码 Some(1)".to_string(), tail: vec!["npm ERR! a".to_string(), "npm ERR! b".to_string()] };
    let (notices, restart, _) = parts(UpdateStage::Updating.step(&t, UpdateEvent::Updated(Err(failure))));
    assert_eq!(notices, vec!["Update failed: npm 退出码 Some(1)\nnpm ERR! a\nnpm ERR! b".to_string()]);
    assert!(!restart);
    let failure = UpdateFailure { error: "spawn failed".to_string(), tail: Vec::new() };
    let (notices, _, _) = parts(UpdateStage::Updating.step(&t, UpdateEvent::Updated(Err(failure))));
    assert_eq!(notices, vec!["Update failed: spawn failed".to_string()]);
}
