//! A session cookie of our own signing, in the browser session format of the
//! dsh client connection, so that a `dsh web` that already runs accepts this
//! window without a second login: the signing secret read from the
//! credentials record, the cookie name and value, the request that checks it
//! and the reading of the answer.

use vstd::prelude::*;

use base64::Engine;
use hmac::Mac;
use sha2::Digest;

use vstd::utf8::encode_utf8;

use crate::text::{
    chars_of, fields, fields_of, lemma_split_three, split, starts_with_chars, string_of,
    text_concat,
};

verus! {

// ---------------------------------------------------------------------------
// Outside functions
// ---------------------------------------------------------------------------

/// The SHA-256 digest of `data`.
pub uninterp spec fn sha256(data: Seq<u8>) -> Seq<u8>;

/// HMAC-SHA256 of `message` under `key`.
pub uninterp spec fn hmac_sha256(key: Seq<u8>, message: Seq<u8>) -> Seq<u8>;

/// `data` in the URL-safe base64 alphabet without padding.
pub uninterp spec fn base64url(data: Seq<u8>) -> Seq<char>;

/// What URL-safe base64 without padding decodes `text` to, where it is
/// valid.
pub uninterp spec fn base64url_decoded(text: Seq<char>) -> Option<Seq<u8>>;

/// The text `serde_json` writes for the object of the number `n1` under
/// `k1`, the string `text` under `text_key`, and the numbers `n2` and `n3`
/// under `k2` and `k3`, the members inserted in that order.
pub uninterp spec fn json_object_text(
    k1: Seq<char>,
    n1: u64,
    text_key: Seq<char>,
    text: Seq<char>,
    k2: Seq<char>,
    n2: u64,
    k3: Seq<char>,
    n3: u64,
) -> Seq<char>;

/// The URL-safe base64 alphabet: `A`-`Z`, `a`-`z`, `0`-`9`, `-` and `_`.
pub open spec fn is_url_safe_char(c: char) -> bool {
    ||| 'A' <= c <= 'Z'
    ||| 'a' <= c <= 'z'
    ||| '0' <= c <= '9'
    ||| c == '-'
    ||| c == '_'
}

/// `sha2::Sha256::digest`: the 32-byte SHA-256 digest of `data`.
#[verifier::external_body]
fn sha256_of(data: &[u8]) -> (res: Vec<u8>)
    ensures
        res@ == sha256(data@),
        res@.len() == 32,
{
    sha2::Sha256::digest(data).to_vec()
}

/// `hmac::Hmac<Sha256>` keyed with `key` (`new_from_slice` takes a key of
/// any length), fed `message`: the 32-byte tag.
#[verifier::external_body]
fn hmac_sha256_of(key: &[u8; 32], message: &[u8]) -> (res: Vec<u8>)
    ensures
        res@ == hmac_sha256(key@, message@),
        res@.len() == 32,
{
    let mut mac = <hmac::Hmac<sha2::Sha256> as hmac::Mac>::new_from_slice(key).unwrap();
    mac.update(message);
    mac.finalize().into_bytes().to_vec()
}

/// `base64::engine::general_purpose::URL_SAFE_NO_PAD.encode`: the encoding
/// of `data`, made of characters of the URL-safe alphabet only, four
/// characters for each three bytes and, without padding, two or three for a
/// last one or two bytes (`encoded_len`). (The crate
/// panics only where the encoded length overflows `usize`, which no slice,
/// at most `isize::MAX` bytes long, reaches.)
#[verifier::external_body]
fn base64url_of(data: &[u8]) -> (res: String)
    ensures
        res@ == base64url(data@),
        res@.len() == (4 * data@.len() + 2) / 3,
        forall|i: int| 0 <= i < res@.len() ==> is_url_safe_char(#[trigger] res@[i]),
{
    base64::engine::general_purpose::URL_SAFE_NO_PAD.encode(data)
}

#[verifier::external_type_specification]
#[verifier::external_body]
pub struct ExDecodeError(base64::DecodeError);

/// `base64::engine::general_purpose::URL_SAFE_NO_PAD.decode` of the text
/// `text`: `Ok` exactly where it is valid URL-safe base64 without padding.
#[verifier::external_body]
fn base64url_decode(text: &str) -> (res: Result<Vec<u8>, base64::DecodeError>)
    ensures
        res is Ok <==> base64url_decoded(text@) is Some,
        res matches Ok(bytes) ==> bytes@ == base64url_decoded(text@)->0,
{
    base64::engine::general_purpose::URL_SAFE_NO_PAD.decode(text)
}

/// The `Display` text of a `base64::DecodeError`. Nothing is stated of the
/// text.
#[verifier::external_body]
fn decode_error_text(e: &base64::DecodeError) -> String {
    e.to_string()
}

/// `serde_json`: a `Map` with the members inserted in argument order, each
/// number a `Value` number and the text a `Value` string, written by the
/// `Display` of `Value::Object` (what `json!(..).to_string()` does). Which
/// order the members come out in is not stated: it is that of the `Map`,
/// by key unless serde_json's `preserve_order` feature is on.
#[verifier::external_body]
fn json_object_of(k1: &str, n1: u64, text_key: &str, text: &str, k2: &str, n2: u64, k3: &str, n3: u64) -> (res: String)
    ensures
        res@ == json_object_text(k1@, n1, text_key@, text@, k2@, n2, k3@, n3),
{
    let mut object = serde_json::Map::new();
    object.insert(k1.to_string(), serde_json::Value::from(n1));
    object.insert(text_key.to_string(), serde_json::Value::from(text));
    object.insert(k2.to_string(), serde_json::Value::from(n2));
    object.insert(k3.to_string(), serde_json::Value::from(n3));
    serde_json::Value::Object(object).to_string()
}

/// `SystemTime::now()` in milliseconds since the Unix epoch, `0` for a clock
/// before the epoch. Nothing is stated of the value: it is the time.
#[verifier::external_body]
fn now_millis() -> u64 {
    std::time::SystemTime::now().duration_since(std::time::UNIX_EPOCH).map(
        |span| span.as_millis() as u64,
    ).unwrap_or(0)
}

// ---------------------------------------------------------------------------
// Credentials record
// ---------------------------------------------------------------------------

/// The browser session record of `~/.dsh/.credentials.yaml`, as far as it
/// is read.
pub struct CredentialRecord {
    /// The kind of record: `grant` in the format read here.
    pub kind: String,
    /// The version of its payload: `1` in the format read here.
    pub version: u32,
    /// The signing secret, in URL-safe base64 without padding.
    pub secret: String,
}

/// Why the signing secret could not be had.
pub enum SecretError {
    /// `HOME` is not set.
    NoHome,
    /// The credentials file at this path could not be read.
    Unreadable(String),
    /// The credentials file is not YAML of the expected shape.
    NotYaml,
    /// The file holds no browser session record.
    MissingRecord,
    /// The record is not a version 1 `grant`.
    UnsupportedFormat,
    /// The secret is not URL-safe base64; the decoder's message.
    BadEncoding(String),
    /// The secret does not decode to 32 bytes.
    WrongLength,
}

/// A [`SecretError`] without what it carries.
pub enum SecretErrorKind {
    NoHome,
    Unreadable,
    NotYaml,
    MissingRecord,
    UnsupportedFormat,
    BadEncoding,
    WrongLength,
}

impl SecretError {
    pub open spec fn kind(&self) -> SecretErrorKind {
        match self {
            SecretError::NoHome => SecretErrorKind::NoHome,
            SecretError::Unreadable(_) => SecretErrorKind::Unreadable,
            SecretError::NotYaml => SecretErrorKind::NotYaml,
            SecretError::MissingRecord => SecretErrorKind::MissingRecord,
            SecretError::UnsupportedFormat => SecretErrorKind::UnsupportedFormat,
            SecretError::BadEncoding(_) => SecretErrorKind::BadEncoding,
            SecretError::WrongLength => SecretErrorKind::WrongLength,
        }
    }
}

/// The key of the browser session record.
pub open spec fn record_key() -> Seq<char> {
    "client-connection/browser-session"@
}

/// The records `(key, kind, version, secret)`, as text and numbers.
pub open spec fn record_views(records: Seq<(String, CredentialRecord)>) -> Seq<(Seq<char>, Seq<char>, u32, Seq<char>)> {
    records.map_values(
        |r: (String, CredentialRecord)| (r.0@, r.1.kind@, r.1.version, r.1.secret@),
    )
}

/// The `(kind, version, secret)` of the first record under the browser
/// session key.
pub open spec fn session_record(records: Seq<(Seq<char>, Seq<char>, u32, Seq<char>)>) -> Option<(Seq<char>, u32, Seq<char>)>
    decreases records.len(),
{
    if records.len() == 0 {
        None
    } else if records[0].0 == record_key() {
        Some((records[0].1, records[0].2, records[0].3))
    } else {
        session_record(records.drop_first())
    }
}

/// The signing secret the records give: the browser session record must be
/// there, be a version 1 `grant`, and hold URL-safe base64 of 32 bytes.
pub open spec fn secret_outcome(records: Seq<(Seq<char>, Seq<char>, u32, Seq<char>)>) -> Result<Seq<u8>, SecretErrorKind> {
    match session_record(records) {
        None => Err(SecretErrorKind::MissingRecord),
        Some((kind, version, secret)) => if kind != "grant"@ || version != 1 {
            Err(SecretErrorKind::UnsupportedFormat)
        } else {
            match base64url_decoded(secret) {
                None => Err(SecretErrorKind::BadEncoding),
                Some(bytes) => if bytes.len() != 32 {
                    Err(SecretErrorKind::WrongLength)
                } else {
                    Ok(bytes)
                },
            }
        },
    }
}

fn same_text(a: &str, b: &str) -> (res: bool)
    ensures
        res == (a@ == b@),
{
    let x = chars_of(a);
    let y = chars_of(b);
    if x.len() != y.len() {
        return false;
    }
    let r = starts_with_chars(x.as_slice(), y.as_slice());
    proof {
        assert(x@.subrange(0, y@.len() as int) =~= x@);
    }
    r
}

/// The signing secret of the browser session, from the records of the
/// credentials file.
pub fn browser_session_secret(records: &Vec<(String, CredentialRecord)>) -> (res: Result<[u8; 32], SecretError>)
    ensures
        match res {
            Ok(secret) => secret_outcome(record_views(records@)) == Ok::<Seq<u8>, SecretErrorKind>(secret@),
            Err(e) => secret_outcome(record_views(records@)) == Err::<Seq<u8>, SecretErrorKind>(e.kind()),
        },
{
    let ghost rv = record_views(records@);
    let key = "client-connection/browser-session";
    proof {
        reveal_strlit("client-connection/browser-session");
    }
    let mut i: usize = 0;
    assert(rv.skip(0) =~= rv);
    while i < records.len()
        invariant
            i <= records.len(),
            rv == record_views(records@),
            key@ == record_key(),
            session_record(rv) == session_record(rv.skip(i as int)),
        ensures
            i <= records.len(),
            session_record(rv) == session_record(rv.skip(i as int)),
            i < records.len() ==> records@[i as int].0@ == record_key(),
        decreases records.len() - i,
    {
        assert(rv.skip(i as int)[0] == rv[i as int]);
        assert(rv.skip(i as int).drop_first() =~= rv.skip(i + 1));
        if same_text(records[i].0.as_str(), key) {
            break;
        }
        i += 1;
    }
    if i == records.len() {
        assert(rv.skip(i as int).len() == 0);
        return Err(SecretError::MissingRecord);
    }
    let record = &records[i].1;
    assert(rv.skip(i as int)[0] == rv[i as int]);
    assert(session_record(rv) == Some((record.kind@, record.version, record.secret@)));
    let grant = "grant";
    proof {
        reveal_strlit("grant");
    }
    if !same_text(record.kind.as_str(), grant) || record.version != 1 {
        return Err(SecretError::UnsupportedFormat);
    }
    let bytes = match base64url_decode(record.secret.as_str()) {
        Ok(bytes) => bytes,
        Err(e) => {
            return Err(SecretError::BadEncoding(decode_error_text(&e)));
        },
    };
    if bytes.len() != 32 {
        return Err(SecretError::WrongLength);
    }
    let mut secret = [0u8; 32];
    let mut k: usize = 0;
    while k < 32
        invariant
            k <= 32,
            bytes@.len() == 32,
            secret@.len() == 32,
            forall|j: int| 0 <= j < k ==> secret@[j] == bytes@[j],
        decreases 32 - k,
    {
        secret[k] = bytes[k];
        k += 1;
    }
    assert(secret@ =~= bytes@);
    Ok(secret)
}

/// How long a session cookie stays valid: 30 days in milliseconds, the
/// `cookieMaxAgeDays` default of dsh.
pub const COOKIE_MAX_AGE_MS: u64 = 2592000000;

pub open spec fn cookie_prefix() -> Seq<char> {
    seq!['d', 's', 'h', '-', 'a', 'u', 't', 'h', '-']
}

/// The cookie name for `authority`: `dsh-auth-` and the URL-safe base64 of
/// the SHA-256 of the authority.
pub open spec fn cookie_name(authority: Seq<char>) -> Seq<char> {
    cookie_prefix() + base64url(sha256(encode_utf8(authority)))
}

/// The signed claims, as `serde_json` writes the object `{"version": 1,
/// "authority": .., "issuedAt": .., "expiresAt": ..}`.
pub open spec fn cookie_payload(authority: Seq<char>, issued_at: u64, expires_at: u64) -> Seq<char> {
    json_object_text(
        "version"@,
        1,
        "authority"@,
        authority,
        "issuedAt"@,
        issued_at,
        "expiresAt"@,
        expires_at,
    )
}

/// The URL-safe base64 of the text `payload`.
pub open spec fn payload_body(payload: Seq<char>) -> Seq<char> {
    base64url(encode_utf8(payload))
}

/// The signed form of `payload`: `v1.`, its body, `.`, and the URL-safe
/// base64 of the HMAC-SHA256 under `secret` of the body text itself.
pub open spec fn signed(secret: Seq<u8>, payload: Seq<char>) -> Seq<char> {
    let body = payload_body(payload);
    seq!['v', '1', '.'] + body + seq!['.'] + base64url(hmac_sha256(secret, encode_utf8(body)))
}

/// The payload part of the cookie value: the URL-safe base64 of the JSON
/// claims.
pub open spec fn cookie_body(authority: Seq<char>, issued_at: u64, expires_at: u64) -> Seq<char> {
    payload_body(cookie_payload(authority, issued_at, expires_at))
}

/// The cookie value: the claims for `authority`, issued at `issued_at` and
/// expiring 30 days on, signed with `secret`.
pub open spec fn cookie_value(secret: Seq<u8>, authority: Seq<char>, issued_at: nat) -> Seq<char> {
    signed(
        secret,
        cookie_payload(authority, issued_at as u64, (issued_at + COOKIE_MAX_AGE_MS) as u64),
    )
}

/// A session cookie: its name, its value and when it expires (milliseconds
/// since the Unix epoch).
pub struct SessionCookie {
    pub name: String,
    pub value: String,
    pub expires_at_ms: u64,
}

/// The cookie signed with `secret` for `authority`, issued at `now_ms`.
pub open spec fn is_cookie_for(c: SessionCookie, secret: Seq<u8>, authority: Seq<char>, now_ms: nat) -> bool {
    &&& c.name@ == cookie_name(authority)
    &&& c.value@ == cookie_value(secret, authority, now_ms)
    &&& c.expires_at_ms == now_ms + COOKIE_MAX_AGE_MS
}

fn append_chars(out: &mut Vec<char>, more: &[char])
    ensures
        final(out)@ == old(out)@ + more@,
{
    let ghost before = out@;
    let mut i: usize = 0;
    while i < more.len()
        invariant
            i <= more.len(),
            out@ == before + more@.take(i as int),
        decreases more.len() - i,
    {
        out.push(more[i]);
        assert(before + more@.take(i as int).push(more@[i as int]) =~= before + more@.take(i + 1));
        i += 1;
    }
    assert(more@.take(more.len() as int) =~= more@);
}

fn append_str(out: &mut Vec<char>, more: &str)
    ensures
        final(out)@ == old(out)@ + more@,
{
    let cs = chars_of(more);
    append_chars(out, cs.as_slice());
}

/// `payload` signed with `secret`: `v1.<body>.<signature>`, three parts
/// that split at the dots, the body and signature being URL-safe base64.
pub fn signed_value(secret: &[u8; 32], payload: &str) -> (res: String)
    ensures
        res@ == signed(secret@, payload@),
        split(res@, '.') == seq![
            seq!['v', '1'],
            payload_body(payload@),
            base64url(hmac_sha256(secret@, encode_utf8(payload_body(payload@)))),
        ],
{
    let body = base64url_of(payload.as_bytes());
    let tag = hmac_sha256_of(secret, body.as_str().as_bytes());
    let signature = base64url_of(tag.as_slice());
    let mut value: Vec<char> = vec!['v', '1', '.'];
    append_str(&mut value, body.as_str());
    append_chars(&mut value, &['.']);
    append_str(&mut value, signature.as_str());
    assert(value@ =~= signed(secret@, payload@));
    proof {
        let v1 = seq!['v', '1'];
        assert(forall|i: int| 0 <= i < body@.len() ==> is_url_safe_char(#[trigger] body@[i]));
        assert(forall|i: int| 0 <= i < signature@.len() ==> is_url_safe_char(#[trigger] signature@[i]));
        lemma_split_three(v1, body@, signature@, '.');
        assert(value@ =~= v1 + seq!['.'] + body@ + seq!['.'] + signature@);
    }
    string_of(value.as_slice())
}

/// The session cookie for `authority`, signed with `secret`, issued at
/// `now_ms` and valid for 30 days.
pub fn session_cookie_at(secret: &[u8; 32], authority: &str, now_ms: u64) -> (res: SessionCookie)
    requires
        now_ms <= u64::MAX - COOKIE_MAX_AGE_MS,
    ensures
        is_cookie_for(res, secret@, authority@, now_ms as nat),
        res.name@.len() == 52,
        split(res.value@, '.') == seq![
            seq!['v', '1'],
            cookie_body(authority@, now_ms, (now_ms + COOKIE_MAX_AGE_MS) as u64),
            base64url(
                hmac_sha256(
                    secret@,
                    encode_utf8(cookie_body(authority@, now_ms, (now_ms + COOKIE_MAX_AGE_MS) as u64)),
                ),
            ),
        ],
{
    let expires_at = now_ms + COOKIE_MAX_AGE_MS;
    // name
    let digest = sha256_of(authority.as_bytes());
    let encoded_digest = base64url_of(digest.as_slice());
    let mut name: Vec<char> = vec!['d', 's', 'h', '-', 'a', 'u', 't', 'h', '-'];
    append_str(&mut name, encoded_digest.as_str());
    assert(name@ =~= cookie_name(authority@));
    assert(name@.len() == 52);
    // the claims, in the order the dsh client writes them
    let payload = json_object_of(
        "version",
        1,
        "authority",
        authority,
        "issuedAt",
        now_ms,
        "expiresAt",
        expires_at,
    );
    proof {
        reveal_strlit("version");
        reveal_strlit("authority");
        reveal_strlit("issuedAt");
        reveal_strlit("expiresAt");
    }
    assert(payload@ == cookie_payload(authority@, now_ms, expires_at));
    let value = signed_value(secret, payload.as_str());
    SessionCookie { name: string_of(name.as_slice()), value, expires_at_ms: expires_at }
}


impl SecretError {
    /// `m` is the text shown for this error.
    pub open spec fn message_is(&self, m: String) -> bool {
        match self {
            SecretError::NoHome => m@ == "HOME 环境变量缺失"@,
            SecretError::Unreadable(path) => m@ == "读取凭证文件失败："@ + path@,
            SecretError::NotYaml => m@ == "凭证文件不是合法的 YAML"@,
            SecretError::MissingRecord => m@ == "凭证文件里没有浏览器会话记录"@,
            SecretError::UnsupportedFormat => m@
                == "浏览器会话记录格式不受支持（dsh 可能升级改了格式）"@,
            SecretError::BadEncoding(text) => m@ == text@,
            SecretError::WrongLength => m@ == "签名密钥解码后不是 32 字节"@,
        }
    }

    /// The text shown for the error.
    pub fn message(&self) -> (res: String)
        ensures
            self.message_is(res),
    {
        match self {
            SecretError::NoHome => "HOME 环境变量缺失".to_string(),
            SecretError::Unreadable(path) => text_concat("读取凭证文件失败：", path.as_str()),
            SecretError::NotYaml => "凭证文件不是合法的 YAML".to_string(),
            SecretError::MissingRecord => "凭证文件里没有浏览器会话记录".to_string(),
            SecretError::UnsupportedFormat => "浏览器会话记录格式不受支持（dsh 可能升级改了格式）".to_string(),
            SecretError::BadEncoding(text) => text.clone(),
            SecretError::WrongLength => "签名密钥解码后不是 32 字节".to_string(),
        }
    }
}

/// The session cookie for `authority`, signed with `secret`, issued at the
/// clock reading `now_ms`: `None` exactly where the reading is so late that
/// the expiry 30 days on does not fit in a `u64`.
pub fn cookie_at_clock(secret: &[u8; 32], authority: &str, now_ms: u64) -> (res: Option<SessionCookie>)
    ensures
        res is None <==> now_ms > u64::MAX - COOKIE_MAX_AGE_MS,
        res matches Some(c) ==> is_cookie_for(c, secret@, authority@, now_ms as nat)
            && c.name@.len() == 52,
{
    if now_ms > u64::MAX - COOKIE_MAX_AGE_MS {
        None
    } else {
        Some(session_cookie_at(secret, authority, now_ms))
    }
}

/// The self-signed session cookie for `authority`, issued now: its name,
/// its value and when it expires, in milliseconds since the Unix epoch.
/// `None` only where the clock is so far ahead that the expiry does not fit
/// in a `u64` ([`cookie_at_clock`] states each result for a given reading).
pub fn build_session_cookie(secret: &[u8; 32], authority: &str) -> (res: Option<(String, String, u64)>)
    ensures
        res matches Some((name, value, expires)) ==> name@.len() == 52 && exists|now: nat|
            now + COOKIE_MAX_AGE_MS <= u64::MAX && #[trigger] is_cookie_for(
                SessionCookie { name, value, expires_at_ms: expires },
                secret@,
                authority@,
                now,
            ),
{
    let now = now_millis();
    match cookie_at_clock(secret, authority, now) {
        None => None,
        Some(c) => {
            let SessionCookie { name, value, expires_at_ms } = c;
            let res = Some((name, value, expires_at_ms));
            proof {
                let n = now as nat;
                assert(n + COOKIE_MAX_AGE_MS <= u64::MAX);
                assert(is_cookie_for(SessionCookie { name, value, expires_at_ms }, secret@, authority@, n));
                assert(res matches Some((nm, vl, ex)) && is_cookie_for(SessionCookie { name: nm, value: vl, expires_at_ms: ex }, secret@, authority@, n));
            }
            res
        },
    }
}

/// The request that checks a cookie against the instance at `authority`:
/// `GET /` with the cookie, the `Host` equal to the signed authority (the
/// server picks the cookie name by it), and the connection closed after.
pub open spec fn check_request(authority: Seq<char>, name: Seq<char>, value: Seq<char>) -> Seq<char> {
    "GET / HTTP/1.1\r\nHost: "@ + authority + "\r\nCookie: "@ + name + "="@ + value
        + "\r\nConnection: close\r\n\r\n"@
}

/// The HTTP request that checks the cookie `name=value` at `authority`.
pub fn cookie_check_request(authority: &str, name: &str, value: &str) -> (res: String)
    ensures
        res@ == check_request(authority@, name@, value@),
{
    let s = text_concat("GET / HTTP/1.1\r\nHost: ", authority);
    let s = text_concat(s.as_str(), "\r\nCookie: ");
    let s = text_concat(s.as_str(), name);
    let s = text_concat(s.as_str(), "=");
    let s = text_concat(s.as_str(), value);
    text_concat(s.as_str(), "\r\nConnection: close\r\n\r\n")
}

/// Whether the answer accepted the cookie: the status line that came back
/// has `200` as its second field. No status line (no connection, nothing
/// read) is a refusal.
pub open spec fn accepted(status_line: Option<Seq<char>>) -> bool {
    match status_line {
        Some(line) => fields(line).len() > 1 && fields(line)[1] == seq!['2', '0', '0'],
        None => false,
    }
}

/// Whether the instance accepted the self-signed cookie, from the status
/// line of its answer to [`cookie_check_request`], where one was read.
pub fn verify_cookie(status_line: &Option<String>) -> (res: bool)
    ensures
        res == accepted(match status_line {
            Some(l) => Some(l@),
            None => None,
        }),
{
    match status_line {
        Some(line) => {
            let chars = chars_of(line.as_str());
            let fs = fields_of(chars.as_slice());
            if fs.len() < 2 {
                return false;
            }
            let code = chars_of(fs[1].as_str());
            assert(code@ == fields(line@)[1]);
            let r = code.len() == 3 && code[0] == '2' && code[1] == '0' && code[2] == '0';
            proof {
                if r {
                    assert(code@ =~= seq!['2', '0', '0']);
                }
                if code@ == seq!['2', '0', '0'] {
                    assert(code@[0] == '2' && code@[1] == '0' && code@[2] == '0');
                }
            }
            r
        },
        None => false,
    }
}


/// Where the credentials file lies under the home directory `home`.
pub open spec fn credentials_path_of(home: Seq<char>) -> Seq<char> {
    crate::env_detect::join_path(
        crate::env_detect::join_path(home, seq!['.', 'd', 's', 'h']),
        ".credentials.yaml"@,
    )
}

/// The path of `~/.dsh/.credentials.yaml` for the home directory `home`.
pub fn credentials_path(home: &str) -> (res: String)
    ensures
        res@ == credentials_path_of(home@),
{
    let dir = crate::env_detect::join_path_str(home, ".dsh");
    proof {
        reveal_strlit(".dsh");
        assert(".dsh"@ =~= seq!['.', 'd', 's', 'h']);
    }
    crate::env_detect::join_path_str(dir.as_str(), ".credentials.yaml")
}

} // verus!
