use dsh_desktop::cookie_auth::{
    browser_session_secret, build_session_cookie, cookie_at_clock, signed_value, cookie_check_request, credentials_path,
    session_cookie_at, verify_cookie, CredentialRecord, SecretError, COOKIE_MAX_AGE_MS,
};

const SECRET_B64: &str = "AAECAwQFBgcICQoLDA0ODxAREhMUFRYXGBkaGxwdHh8";
const RECORD_KEY: &str = "client-connection/browser-session";

fn secret() -> [u8; 32] {
    let mut s = [0u8; 32];
    for (i, b) in s.iter_mut().enumerate() {
        *b = i as u8;
    }
    s
}

fn record(kind: &str, version: u32, secret: &str) -> CredentialRecord {
    CredentialRecord { kind: kind.to_string(), version, secret: secret.to_string() }
}

#[test]
fn secret_is_read_from_the_browser_session_record() {
    let records = vec![
        ("other/record".to_string(), record("grant", 1, "AAAA")),
        (RECORD_KEY.to_string(), record("grant", 1, SECRET_B64)),
    ];
    match browser_session_secret(&records) {
        Ok(s) => assert_eq!(s, secret()),
        Err(e) => panic!("unexpected error: {}", e.message()),
    }
}

#[test]
fn secret_errors() {
    let missing = vec![("other/record".to_string(), record("grant", 1, SECRET_B64))];
    assert!(matches!(browser_session_secret(&missing), Err(SecretError::MissingRecord)));

    let wrong_kind = vec![(RECORD_KEY.to_string(), record("token", 1, SECRET_B64))];
    assert!(matches!(browser_session_secret(&wrong_kind), Err(SecretError::UnsupportedFormat)));

    let wrong_version = vec![(RECORD_KEY.to_string(), record("grant", 2, SECRET_B64))];
    assert!(matches!(browser_session_secret(&wrong_version), Err(SecretError::UnsupportedFormat)));

    let bad = vec![(RECORD_KEY.to_string(), record("grant", 1, "not base64!"))];
    match browser_session_secret(&bad) {
        Err(SecretError::BadEncoding(text)) => assert!(!text.is_empty()),
        _ => panic!("expected BadEncoding"),
    }

    let short = vec![(RECORD_KEY.to_string(), record("grant", 1, "AAECAw"))];
    assert!(matches!(browser_session_secret(&short), Err(SecretError::WrongLength)));
}

#[test]
fn secret_error_messages() {
    assert_eq!(SecretError::NoHome.message(), "HOME 环境变量缺失");
    assert_eq!(
        SecretError::Unreadable("/h/.dsh/.credentials.yaml".to_string()).message(),
        "读取凭证文件失败：/h/.dsh/.credentials.yaml"
    );
    assert_eq!(SecretError::NotYaml.message(), "凭证文件不是合法的 YAML");
    assert_eq!(SecretError::MissingRecord.message(), "凭证文件里没有浏览器会话记录");
    assert_eq!(
        SecretError::UnsupportedFormat.message(),
        "浏览器会话记录格式不受支持（dsh 可能升级改了格式）"
    );
    assert_eq!(SecretError::BadEncoding("Invalid byte".to_string()).message(), "Invalid byte");
    assert_eq!(SecretError::WrongLength.message(), "签名密钥解码后不是 32 字节");
}

#[test]
fn cookie_in_the_dsh_session_format() {
    let c = session_cookie_at(&secret(), "127.0.0.1:3080", 1_700_000_000_000);
    assert_eq!(c.name, "dsh-auth-VPhEEcLKeqRDBoBalzN2Nm7CnfxKhLE00pKIDWxt1sw");
    assert_eq!(
        c.value,
        "v1.eyJhdXRob3JpdHkiOiIxMjcuMC4wLjE6MzA4MCIsImV4cGlyZXNBdCI6MTcwMjU5MjAwMDAwMCwiaXNzdWVkQXQiOjE3MDAwMDAwMDAwMDAsInZlcnNpb24iOjF9.7-Hj3G0g0K03Mtm4fIjKnwaxma0Ivbf1pxoDyzfG7rI"
    );
    assert_eq!(c.expires_at_ms, 1_702_592_000_000);
    let parts: Vec<&str> = c.value.split('.').collect();
    assert_eq!(parts.len(), 3);
    assert_eq!(parts[0], "v1");
}

#[test]
fn cookie_payload_escapes_the_authority_as_json() {
    let c = session_cookie_at(&secret(), "h\"o\\st\u{e9}", 5);
    assert_eq!(c.name, "dsh-auth-gVr4VnDUrZIoLposDw8eV78E-U6Ecu4WcclnC762Cj0");
    assert_eq!(
        c.value,
        "v1.eyJhdXRob3JpdHkiOiJoXCJvXFxzdMOpIiwiZXhwaXJlc0F0IjoyNTkyMDAwMDA1LCJpc3N1ZWRBdCI6NSwidmVyc2lvbiI6MX0.J6ix07YDKL5Q5SA3RP5EthmY93QgJYAPPNPso2XP5dc"
    );
    assert_eq!(c.expires_at_ms, 2_592_000_005);
}

#[test]
fn cookie_built_now_expires_in_thirty_days() {
    let (name, value, expires) = build_session_cookie(&secret(), "127.0.0.1:3080").unwrap();
    assert_eq!(name, "dsh-auth-VPhEEcLKeqRDBoBalzN2Nm7CnfxKhLE00pKIDWxt1sw");
    assert!(value.starts_with("v1."));
    assert_eq!(COOKIE_MAX_AGE_MS, 30 * 24 * 60 * 60 * 1000);
    assert!(expires > COOKIE_MAX_AGE_MS);
}

#[test]
fn check_request_text() {
    assert_eq!(
        cookie_check_request("127.0.0.1:3080", "dsh-auth-x", "v1.a.b"),
        "GET / HTTP/1.1\r\nHost: 127.0.0.1:3080\r\nCookie: dsh-auth-x=v1.a.b\r\nConnection: close\r\n\r\n"
    );
}

#[test]
fn status_200_accepts_the_cookie() {
    assert!(verify_cookie(&Some("HTTP/1.1 200 OK\r\n".to_string())));
    assert!(!verify_cookie(&Some("HTTP/1.1 401 Unauthorized\r\n".to_string())));
    assert!(!verify_cookie(&Some("HTTP/1.1 2000\r\n".to_string())));
    assert!(!verify_cookie(&Some("".to_string())));
    assert!(!verify_cookie(&None));
}

#[test]
fn credentials_file_location() {
    assert_eq!(credentials_path("/Users/me"), "/Users/me/.dsh/.credentials.yaml");
}

#[test]
fn cookie_payload_escapes_control_characters() {
    let c = session_cookie_at(&secret(), "a\u{1}\tb\u{1f}", 7);
    assert_eq!(c.name, "dsh-auth-JIOHIiagbPt18756Ss0sUs6GcBikOkoR__6gG8Fpmgg");
    assert_eq!(
        c.value,
        "v1.eyJhdXRob3JpdHkiOiJhXHUwMDAxXHRiXHUwMDFmIiwiZXhwaXJlc0F0IjoyNTkyMDAwMDA3LCJpc3N1ZWRBdCI6NywidmVyc2lvbiI6MX0.Hs7FWmn3lC3b9h5rDKIpt_3jmJduKYyxXNeow8eeJhQ"
    );
    assert_eq!(c.expires_at_ms, 2_592_000_007);
}

#[test]
fn cookie_at_a_clock_reading() {
    let c = cookie_at_clock(&secret(), "127.0.0.1:3080", 1_700_000_000_000).unwrap();
    assert_eq!(c.name, "dsh-auth-VPhEEcLKeqRDBoBalzN2Nm7CnfxKhLE00pKIDWxt1sw");
    assert_eq!(c.name.len(), 52);
    assert_eq!(
        c.value,
        "v1.eyJhdXRob3JpdHkiOiIxMjcuMC4wLjE6MzA4MCIsImV4cGlyZXNBdCI6MTcwMjU5MjAwMDAwMCwiaXNzdWVkQXQiOjE3MDAwMDAwMDAwMDAsInZlcnNpb24iOjF9.7-Hj3G0g0K03Mtm4fIjKnwaxma0Ivbf1pxoDyzfG7rI"
    );
    assert_eq!(c.expires_at_ms, 1_702_592_000_000);
    let last = cookie_at_clock(&secret(), "h", u64::MAX - COOKIE_MAX_AGE_MS).unwrap();
    assert_eq!(last.expires_at_ms, u64::MAX);
    assert!(cookie_at_clock(&secret(), "h", u64::MAX - COOKIE_MAX_AGE_MS + 1).is_none());
    assert!(cookie_at_clock(&secret(), "h", u64::MAX).is_none());
}

#[test]
fn cookie_name_depends_on_the_authority_alone() {
    let a = session_cookie_at(&secret(), "127.0.0.1:3080", 1);
    let b = session_cookie_at(&[7u8; 32], "127.0.0.1:3080", 99);
    assert_eq!(a.name, b.name);
    assert_eq!(a.name.len(), 52);
    let c = session_cookie_at(&secret(), "127.0.0.1:3081", 1);
    assert_ne!(a.name, c.name);
    assert_eq!(c.name.len(), 52);
}

#[test]
fn payload_is_signed_in_three_parts() {
    let payload = "{\"authority\":\"127.0.0.1:3080\",\"expiresAt\":1702592000000,\"issuedAt\":1700000000000,\"version\":1}";
    assert_eq!(
        signed_value(&secret(), payload),
        "v1.eyJhdXRob3JpdHkiOiIxMjcuMC4wLjE6MzA4MCIsImV4cGlyZXNBdCI6MTcwMjU5MjAwMDAwMCwiaXNzdWVkQXQiOjE3MDAwMDAwMDAwMDAsInZlcnNpb24iOjF9.7-Hj3G0g0K03Mtm4fIjKnwaxma0Ivbf1pxoDyzfG7rI"
    );
    let v = signed_value(&secret(), "");
    assert_eq!(v.split('.').count(), 3);
    assert!(v.starts_with("v1.."));
}
