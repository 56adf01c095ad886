use dsh_desktop::launcher::{ready_url, spawn_args, spawn_timeout_message, SPAWN_TIMEOUT_SECS};

#[test]
fn ready_line_gives_the_address() {
    assert_eq!(
        ready_url("dsh web: http://127.0.0.1:51234/?token=abc http://192.168.1.2:51234/"),
        Some("http://127.0.0.1:51234/?token=abc".to_string())
    );
    assert_eq!(ready_url("dsh web: http://127.0.0.1:1/"), Some("http://127.0.0.1:1/".to_string()));
    assert_eq!(ready_url("starting dsh web: http://x/"), None);
    assert_eq!(ready_url("dsh web:   "), None);
    assert_eq!(ready_url(""), None);
}

#[test]
fn spawn_arguments() {
    assert_eq!(spawn_args(), vec!["web", "--no-open", "--port", "0"]);
}

#[test]
fn timeout_message() {
    assert_eq!(SPAWN_TIMEOUT_SECS, 60);
    assert_eq!(spawn_timeout_message(60), "等待 dsh web 就绪超时（60 秒）");
}
