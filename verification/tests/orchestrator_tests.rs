use dsh_desktop::cookie_auth::{CredentialRecord, SecretError, COOKIE_MAX_AGE_MS};
use dsh_desktop::env_detect::Toolchain;
use dsh_desktop::instance::DshInstance;
use dsh_desktop::orchestrator::{
    orchestrate, splash_remaining, spawned_port, Event, Request, Stage, Status, Step,
    MIN_SPLASH_NANOS,
};

fn toolchain(dsh: Option<&str>, npm: Option<&str>) -> Toolchain {
    Toolchain {
        dsh: dsh.map(str::to_string),
        npm: npm.map(str::to_string),
        bin_dirs: vec!["/usr/local/bin".to_string()],
    }
}

fn split(step: Step) -> (Vec<Status>, Option<(Stage, Request)>) {
    (step.statuses, step.next)
}

fn records() -> Vec<(String, CredentialRecord)> {
    vec![(
        "client-connection/browser-session".to_string(),
        CredentialRecord {
            kind: "grant".to_string(),
            version: 1,
            secret: "AAECAwQFBgcICQoLDA0ODxAREhMUFRYXGBkaGxwdHh8".to_string(),
        },
    )]
}

fn error_message(statuses: &[Status]) -> String {
    match statuses {
        [Status::Error { message }] => message.clone(),
        _ => panic!("expected one error status"),
    }
}

#[test]
fn start_shows_checking_and_detects() {
    let (statuses, next) = split(orchestrate());
    assert!(matches!(statuses.as_slice(), [Status::Checking]));
    assert!(matches!(next, Some((Stage::Detecting, Request::Detect))));
}

#[test]
fn usable_dsh_goes_to_probing() {
    let event = Event::Detected { toolchain: toolchain(Some("/usr/local/bin/dsh"), None), version: Some("0.1.5".to_string()) };
    let (statuses, next) = split(Stage::Detecting.step(event));
    assert!(statuses.is_empty());
    match next {
        Some((Stage::Probing { dsh, .. }, Request::Probe)) => assert_eq!(dsh, "/usr/local/bin/dsh"),
        _ => panic!("expected probing"),
    }
}

#[test]
fn missing_dsh_without_npm_asks_for_node() {
    let event = Event::Detected { toolchain: toolchain(None, None), version: None };
    let (statuses, next) = split(Stage::Detecting.step(event));
    assert!(matches!(statuses.as_slice(), [Status::NeedInstall { has_npm: false }]));
    assert!(next.is_none());
}

#[test]
fn install_flow() {
    let event = Event::Detected { toolchain: toolchain(Some("/x/dsh"), Some("/usr/local/bin/npm")), version: None };
    let (statuses, next) = split(Stage::Detecting.step(event));
    assert!(matches!(statuses.as_slice(), [Status::NeedInstall { has_npm: true }]));
    let (stage, request) = next.unwrap();
    assert!(matches!(request, Request::AskInstall));
    let (statuses, next) = split(stage.step(Event::InstallAnswer(true)));
    assert!(matches!(statuses.as_slice(), [Status::Installing { line: None }]));
    let (stage, request) = next.unwrap();
    match request {
        Request::Install { npm, bin_dirs } => {
            assert_eq!(npm, "/usr/local/bin/npm");
            assert_eq!(bin_dirs, vec!["/usr/local/bin".to_string()]);
        },
        _ => panic!("expected install"),
    }
    let (statuses, next) = split(stage.step(Event::Installed(Err("npm 退出码 Some(1)".to_string()))));
    assert_eq!(error_message(&statuses), "自动安装 dsh 失败：npm 退出码 Some(1)");
    assert!(next.is_none());

    let (statuses, next) = split(Stage::Installing.step(Event::Installed(Ok(()))));
    assert!(matches!(statuses.as_slice(), [Status::Checking]));
    let (stage, _) = next.unwrap();
    let (statuses, next) = split(stage.step(Event::Detected { toolchain: toolchain(None, None), version: None }));
    assert_eq!(error_message(&statuses), "安装完成后仍找不到 dsh，请检查 Node 环境后重试");
    assert!(next.is_none());
}

#[test]
fn declined_install_ends_quietly() {
    let stage = Stage::AwaitingInstallAnswer { npm: "/n".to_string(), bin_dirs: Vec::new() };
    let (statuses, next) = split(stage.step(Event::InstallAnswer(false)));
    assert!(statuses.is_empty() && next.is_none());
}

fn probing() -> Stage {
    Stage::Probing { dsh: "/usr/local/bin/dsh".to_string(), bin_dirs: vec!["/usr/local/bin".to_string()] }
}

#[test]
fn no_instance_spawns_our_own() {
    let (statuses, next) = split(probing().step(Event::Probed(Vec::new())));
    assert!(statuses.is_empty());
    match next {
        Some((Stage::Spawning, Request::Spawn { dsh, .. })) => assert_eq!(dsh, "/usr/local/bin/dsh"),
        _ => panic!("expected spawn"),
    }
}

#[test]
fn one_instance_is_reused() {
    let (statuses, next) = split(probing().step(Event::Probed(vec![DshInstance { pid: 7, port: 3080 }])));
    assert!(statuses.is_empty());
    assert!(matches!(next, Some((Stage::LoadingCredentials { port: 3080, spawned: false }, Request::LoadCredentials))));
}

#[test]
fn several_instances_are_offered() {
    let list = vec![DshInstance { pid: 7, port: 3080 }, DshInstance { pid: 9, port: 4000 }];
    let (statuses, next) = split(probing().step(Event::Probed(list.clone())));
    match statuses.as_slice() {
        [Status::PickInstance { instances }] => assert_eq!(instances, &list),
        _ => panic!("expected the picker"),
    }
    let (stage, request) = next.unwrap();
    assert!(matches!(request, Request::AskPick));
    assert!(matches!(stage, Stage::Picking { first_port: 3080 }));
    let (_, next) = split(Stage::Picking { first_port: 3080 }.step(Event::Picked(Some(4000))));
    assert!(matches!(next, Some((Stage::LoadingCredentials { port: 4000, spawned: false }, _))));
    let (_, next) = split(Stage::Picking { first_port: 3080 }.step(Event::Picked(None)));
    assert!(matches!(next, Some((Stage::LoadingCredentials { port: 3080, spawned: false }, _))));
}

#[test]
fn spawned_instance_is_attached_by_its_port() {
    let (_, next) = split(Stage::Spawning.step(Event::Spawned(Ok("http://127.0.0.1:51234/?token=abc".to_string()))));
    assert!(matches!(next, Some((Stage::LoadingCredentials { port: 51234, spawned: true }, _))));
    let (statuses, next) = split(Stage::Spawning.step(Event::Spawned(Ok("not a url".to_string()))));
    assert_eq!(error_message(&statuses), "dsh 打印的就绪地址里读不出端口（地址带登录凭证，已省略原文）");
    assert!(next.is_none());
    let (statuses, _) = split(Stage::Spawning.step(Event::Spawned(Err("等待 dsh web 就绪超时（60 秒）".to_string()))));
    assert_eq!(error_message(&statuses), "等待 dsh web 就绪超时（60 秒）");
}

#[test]
fn attach_checks_the_cookie_then_opens_the_page() {
    let stage = Stage::LoadingCredentials { port: 3080, spawned: false };
    let (statuses, next) = split(stage.step(Event::Credentials { loaded: Ok(records()), now_ms: 1_700_000_000_000 }));
    assert!(statuses.is_empty());
    let (stage, request) = next.unwrap();
    match request {
        Request::CheckCookie { port, request } => {
            assert_eq!(port, 3080);
            assert_eq!(
                request,
                "GET / HTTP/1.1\r\nHost: 127.0.0.1:3080\r\nCookie: dsh-auth-VPhEEcLKeqRDBoBalzN2Nm7CnfxKhLE00pKIDWxt1sw=v1.eyJhdXRob3JpdHkiOiIxMjcuMC4wLjE6MzA4MCIsImV4cGlyZXNBdCI6MTcwMjU5MjAwMDAwMCwiaXNzdWVkQXQiOjE3MDAwMDAwMDAwMDAsInZlcnNpb24iOjF9.7-Hj3G0g0K03Mtm4fIjKnwaxma0Ivbf1pxoDyzfG7rI\r\nConnection: close\r\n\r\n"
            );
        },
        _ => panic!("expected the cookie check"),
    }
    let expires_ms = match &stage {
        Stage::CheckingCookie { expires_at_ms, .. } => *expires_at_ms,
        _ => panic!("expected CheckingCookie"),
    };
    assert_eq!(expires_ms, 1_702_592_000_000);
    let (statuses, next) = split(stage.step(Event::CookieChecked(Some("HTTP/1.1 200 OK\r\n".to_string()))));
    assert!(statuses.is_empty());
    let (stage, request) = next.unwrap();
    match request {
        Request::OpenPage { name, value, domain, path, http_only, expires_secs, url } => {
            assert_eq!(name, "dsh-auth-VPhEEcLKeqRDBoBalzN2Nm7CnfxKhLE00pKIDWxt1sw");
            assert!(value.starts_with("v1."));
            assert_eq!(domain, "127.0.0.1");
            assert_eq!(path, "/");
            assert!(http_only);
            assert_eq!(expires_secs, 1_702_592_000);
            assert_eq!(url, "http://127.0.0.1:3080/");
        },
        _ => panic!("expected the page"),
    }
    let (statuses, next) = split(stage.step(Event::Opened(Ok(()))));
    assert!(statuses.is_empty() && next.is_none());
}

#[test]
fn refused_cookie_is_reported() {
    let stage = Stage::CheckingCookie {
        port: 3080,
        spawned: false,
        name: "n".to_string(),
        value: "v".to_string(),
        expires_at_ms: 0,
    };
    let (statuses, next) = split(stage.step(Event::CookieChecked(Some("HTTP/1.1 401 Unauthorized\r\n".to_string()))));
    match statuses.as_slice() {
        [Status::ReuseFailed { port, message }] => {
            assert_eq!(*port, 3080);
            assert_eq!(message, "自签 cookie 未被接受（dsh 可能升级改了认证格式）");
        },
        _ => panic!("expected reuse_failed"),
    }
    assert!(next.is_none());
}

#[test]
fn attach_failures_of_our_own_instance_are_errors() {
    let stage = Stage::LoadingCredentials { port: 51234, spawned: true };
    let (statuses, _) = split(stage.step(Event::Credentials { loaded: Err(SecretError::NoHome), now_ms: 0 }));
    assert_eq!(error_message(&statuses), "接入自起的 dsh web（127.0.0.1:51234）失败：HOME 环境变量缺失");
    let stage = Stage::Opening { port: 51234, spawned: true };
    let (statuses, _) = split(stage.step(Event::Opened(Err("navigate failed".to_string()))));
    assert_eq!(error_message(&statuses), "接入自起的 dsh web（127.0.0.1:51234）失败：navigate failed");
    let stage = Stage::LoadingCredentials { port: 3080, spawned: false };
    let (statuses, _) = split(stage.step(Event::Credentials { loaded: Ok(Vec::new()), now_ms: 0 }));
    match statuses.as_slice() {
        [Status::ReuseFailed { port: 3080, message }] => assert_eq!(message, "凭证文件里没有浏览器会话记录"),
        _ => panic!("expected reuse_failed"),
    }
}

#[test]
fn clock_past_the_cookie_limit_fails_the_attach() {
    let stage = Stage::LoadingCredentials { port: 3080, spawned: false };
    let (statuses, next) = split(stage.step(Event::Credentials { loaded: Ok(records()), now_ms: u64::MAX }));
    match statuses.as_slice() {
        [Status::ReuseFailed { port: 3080, message }] => assert_eq!(message, "系统时钟超出范围，无法签发会话 cookie"),
        _ => panic!("expected reuse_failed"),
    }
    assert!(next.is_none());
    let stage = Stage::LoadingCredentials { port: 51234, spawned: true };
    let (statuses, _) = split(stage.step(Event::Credentials { loaded: Ok(records()), now_ms: u64::MAX }));
    assert_eq!(
        error_message(&statuses),
        "接入自起的 dsh web（127.0.0.1:51234）失败：系统时钟超出范围，无法签发会话 cookie"
    );
    let limit = u64::MAX - COOKIE_MAX_AGE_MS;
    let stage = Stage::LoadingCredentials { port: 3080, spawned: false };
    let (statuses, next) = split(stage.step(Event::Credentials { loaded: Ok(records()), now_ms: limit }));
    assert!(statuses.is_empty());
    assert!(matches!(next, Some((Stage::CheckingCookie { expires_at_ms: u64::MAX, .. }, Request::CheckCookie { .. }))));
}

#[test]
fn unexpected_outcome_ends_quietly() {
    let (statuses, next) = split(Stage::Detecting.step(Event::InstallAnswer(true)));
    assert!(statuses.is_empty() && next.is_none());
}

#[test]
fn ready_address_port() {
    assert_eq!(spawned_port("http://127.0.0.1:51234/?token=abc"), Some(51234));
    assert_eq!(spawned_port("http://127.0.0.1/"), None);
    assert_eq!(spawned_port("http://127.0.0.1:80/"), None);
    assert_eq!(spawned_port("garbage"), None);
}

#[test]
fn splash_plays_at_least_its_minimum() {
    assert_eq!(MIN_SPLASH_NANOS, 3_400_000_000);
    assert_eq!(splash_remaining(400_000_000), Some(3_000_000_000));
    assert_eq!(splash_remaining(MIN_SPLASH_NANOS), Some(0));
    assert_eq!(splash_remaining(MIN_SPLASH_NANOS + 1), None);
}

#[test]
fn ready_address_token_is_never_shown() {
    let with_token = "http://127.0.0.1:51234/?token=s3cr3t";
    let other_token = "http://127.0.0.1:51234/?token=other";
    let (statuses, next) = split(Stage::Spawning.step(Event::Spawned(Ok(with_token.to_string()))));
    assert!(statuses.is_empty());
    assert!(matches!(next, Some((Stage::LoadingCredentials { port: 51234, spawned: true }, Request::LoadCredentials))));
    let (statuses, next) = split(Stage::Spawning.step(Event::Spawned(Ok(other_token.to_string()))));
    assert!(statuses.is_empty());
    assert!(matches!(next, Some((Stage::LoadingCredentials { port: 51234, spawned: true }, Request::LoadCredentials))));
    let (statuses, _) = split(Stage::Spawning.step(Event::Spawned(Ok("127.0.0.1/?token=s3cr3t".to_string()))));
    let message = error_message(&statuses);
    assert!(!message.contains("s3cr3t"));
    assert_eq!(message, "dsh 打印的就绪地址里读不出端口（地址带登录凭证，已省略原文）");
}
