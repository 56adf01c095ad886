//! The start-up sequence of the window: detect the tool chain (installing
//! `dsh` with the user's consent where it is missing), look for a `dsh web`
//! that already runs, then attach to it with a self-signed cookie or start
//! our own and attach to that.
//!
//! Every step that waits on the machine or the user is a request that the
//! caller performs; [`Stage::step`] turns its answer into what comes next.

use vstd::prelude::*;

use crate::cookie_auth::{
    accepted, browser_session_secret, check_request, cookie_at_clock, cookie_check_request,
    is_cookie_for, verify_cookie, CredentialRecord, SecretError, SessionCookie, COOKIE_MAX_AGE_MS,
};
use crate::env_detect::{opt_view, Toolchain};
use crate::instance::DshInstance;
use crate::text::{text_concat, decimal, decimal_string, views};

verus! {

// ---------------------------------------------------------------------------
// Outside functions
// ---------------------------------------------------------------------------

/// The explicit port of the URL `text` as the `url` crate parses it: `None`
/// where it does not parse or names no port other than its scheme's default.
pub uninterp spec fn url_port(text: Seq<char>) -> Option<u16>;

/// `url::Url::parse(text).ok()?.port()`.
#[verifier::external_body]
fn url_port_of(text: &str) -> (res: Option<u16>)
    ensures
        res == url_port(text@),
{
    url::Url::parse(text).ok()?.port()
}

/// The port that the address `ready_url`, announced by our own `dsh web`,
/// names.
pub fn spawned_port(ready_url: &str) -> (res: Option<u16>)
    ensures
        res == url_port(ready_url@),
{
    url_port_of(ready_url)
}

// ---------------------------------------------------------------------------
// Splash
// ---------------------------------------------------------------------------

/// The shortest time the start-up animation plays: 3.4 seconds, in
/// nanoseconds.
pub const MIN_SPLASH_NANOS: u128 = 3_400_000_000;

/// How much longer the animation must play after `elapsed_nanos`; `None`
/// once the shortest time has passed (`Duration::checked_sub`).
pub fn splash_remaining(elapsed_nanos: u128) -> (res: Option<u128>)
    ensures
        elapsed_nanos <= MIN_SPLASH_NANOS ==> res == Some((MIN_SPLASH_NANOS - elapsed_nanos) as u128),
        elapsed_nanos > MIN_SPLASH_NANOS ==> res is None,
{
    if elapsed_nanos <= MIN_SPLASH_NANOS {
        Some(MIN_SPLASH_NANOS - elapsed_nanos)
    } else {
        None
    }
}

// ---------------------------------------------------------------------------
// The state machine
// ---------------------------------------------------------------------------

/// What the status page is told (its `state`, with the data it shows).
pub enum Status {
    /// `checking`: detecting the tool chain.
    Checking,
    /// `need_install`: dsh is missing; `has_npm` says whether it can be
    /// installed automatically.
    NeedInstall { has_npm: bool },
    /// `installing`, with a line of npm output where there is one.
    Installing { line: Option<String> },
    /// `pick_instance`: several instances run; the user picks a port.
    PickInstance { instances: Vec<DshInstance> },
    /// `error`, with its message.
    Error { message: String },
    /// `reuse_failed`: attaching to the instance at `port` failed.
    ReuseFailed { port: u16, message: String },
}

/// Work that the caller performs, whose outcome it hands back as an
/// [`Event`].
pub enum Request {
    /// Detect the tool chain and run `dsh --version` where dsh was found:
    /// answered by `Detected`.
    Detect,
    /// Wait for the user's answer to the install question: `InstallAnswer`.
    AskInstall,
    /// Run `npm i -g @deepseek-ai/dsh`, showing each output line as an
    /// `Installing` status: `Installed`.
    Install { npm: String, bin_dirs: Vec<String> },
    /// Look for running `dsh web` instances: `Probed`.
    Probe,
    /// Wait for the port the user picks among the instances: `Picked`.
    AskPick,
    /// Start `dsh web --no-open --port 0`, keep the child as this app's own
    /// and wait for its address: `Spawned`.
    Spawn { dsh: String, bin_dirs: Vec<String> },
    /// Read `~/.dsh/.credentials.yaml` and the clock (milliseconds since the
    /// Unix epoch): `Credentials`.
    LoadCredentials,
    /// Send `request` to 127.0.0.1 at `port` and read the status line:
    /// `CookieChecked`.
    CheckCookie { port: u16, request: String },
    /// Store the cookie `name=value` in the window for `domain` and `path`,
    /// HTTP only where `http_only`, expiring at `expires_secs` (seconds since
    /// the Unix epoch); let the animation finish, then load `url`: `Opened`.
    OpenPage {
        name: String,
        value: String,
        domain: String,
        path: String,
        http_only: bool,
        expires_secs: i64,
        url: String,
    },
}

/// The outcome of a [`Request`].
pub enum Event {
    Detected { toolchain: Toolchain, version: Option<String> },
    InstallAnswer(bool),
    Installed(Result<(), String>),
    Probed(Vec<DshInstance>),
    Picked(Option<u16>),
    Spawned(Result<String, String>),
    /// The records of the credentials file, and the clock read with them.
    Credentials { loaded: Result<Vec<(String, CredentialRecord)>, SecretError>, now_ms: u64 },
    CookieChecked(Option<String>),
    Opened(Result<(), String>),
}

/// Where the start-up stands, waiting for the outcome of its request.
pub enum Stage {
    Detecting,
    AwaitingInstallAnswer { npm: String, bin_dirs: Vec<String> },
    Installing,
    Redetecting,
    Probing { dsh: String, bin_dirs: Vec<String> },
    Picking { first_port: u16 },
    Spawning,
    LoadingCredentials { port: u16, spawned: bool },
    CheckingCookie { port: u16, spawned: bool, name: String, value: String, expires_at_ms: u64 },
    Opening { port: u16, spawned: bool },
}

/// What comes next: statuses to show, in order, then the request to
/// perform and the stage that waits for its outcome; no request once the
/// start-up is over.
pub struct Step {
    pub statuses: Vec<Status>,
    pub next: Option<(Stage, Request)>,
}

pub open spec fn authority_of(port: u16) -> Seq<char> {
    "127.0.0.1:"@ + decimal(port as nat)
}

pub open spec fn page_url(port: u16) -> Seq<char> {
    "http://"@ + authority_of(port) + "/"@
}

/// The message when attaching to our own instance at `port` failed for
/// `reason`.
pub open spec fn spawned_attach_failure(port: u16, reason: Seq<char>) -> Seq<char> {
    "接入自起的 dsh web（"@ + authority_of(port) + "）失败："@ + reason
}

/// The message when the address our own `dsh web` announced names no port.
/// The address carries the login token, so it is not shown.
pub open spec fn unreadable_address_message() -> Seq<char> {
    "dsh 打印的就绪地址里读不出端口（地址带登录凭证，已省略原文）"@
}

/// The start-up ends after showing one status.
pub open spec fn ends_with_one(s: Step) -> bool {
    s.next is None && s.statuses@.len() == 1
}

/// Attaching to the instance at `port` failed for `reason`: a `reuse_failed`
/// status for an instance found running, an `error` for our own.
pub open spec fn fails_attach(s: Step, port: u16, spawned: bool, reason: Seq<char>) -> bool {
    &&& ends_with_one(s)
    &&& if spawned {
        s.statuses@[0] matches Status::Error { message } && message@ == spawned_attach_failure(
            port,
            reason,
        )
    } else {
        s.statuses@[0] matches Status::ReuseFailed { port: p, message } && p == port && message@
            == reason
    }
}

/// Attaching to the instance at `port` begins: read the credentials.
pub open spec fn begins_attach(s: Step, port: u16, spawned: bool) -> bool {
    &&& s.statuses@.len() == 0
    &&& s.next matches Some((stage, request)) && stage == (Stage::LoadingCredentials {
        port,
        spawned,
    }) && request is LoadCredentials
}

/// The tool chain is usable with `dsh`: look for running instances.
pub open spec fn begins_probe(s: Step, dsh: Seq<char>, bin_dirs: Seq<Seq<char>>) -> bool {
    &&& s.statuses@.len() == 0
    &&& s.next matches Some((stage, request)) && stage matches Stage::Probing { dsh: d, bin_dirs: b }
        && d@ == dsh && views(b@) == bin_dirs && request is Probe
}

/// The cookie check is under way at `stage`: the cookie signed with
/// `secret` at `now_ms` for the instance at `port`, and the request that
/// checks it.
pub open spec fn checks_cookie(stage: Stage, request: Request, port: u16, spawned: bool, secret: Seq<u8>, now_ms: u64) -> bool {
    match stage {
        Stage::CheckingCookie { port: p, spawned: sp, name, value, expires_at_ms } => match request {
            Request::CheckCookie { port: rp, request: text } => {
                &&& p == port
                &&& sp == spawned
                &&& rp == port
                &&& is_cookie_for(
                    SessionCookie { name, value, expires_at_ms },
                    secret,
                    authority_of(port),
                    now_ms as nat,
                )
                &&& text@ == check_request(authority_of(port), name@, value@)
            },
            _ => false,
        },
        _ => false,
    }
}

/// What one step does with the outcome `event` of the request that `stage`
/// waits for. An outcome of another request ends the start-up silently.
pub open spec fn transition(stage: Stage, event: Event, s: Step) -> bool {
    match (stage, event) {
        (Stage::Detecting, Event::Detected { toolchain, version }) => {
            if toolchain.dsh is Some && version is Some {
                begins_probe(s, toolchain.dsh->0@, views(toolchain.bin_dirs@))
            } else if toolchain.npm is Some {
                &&& s.statuses@.len() == 1
                &&& s.statuses@[0] == (Status::NeedInstall { has_npm: true })
                &&& s.next matches Some((stage, request)) && stage matches Stage::AwaitingInstallAnswer {
                    npm,
                    bin_dirs,
                } && npm@ == toolchain.npm->0@ && views(bin_dirs@) == views(toolchain.bin_dirs@)
                    && request is AskInstall
            } else {
                &&& ends_with_one(s)
                &&& s.statuses@[0] == (Status::NeedInstall { has_npm: false })
            }
        },
        (Stage::AwaitingInstallAnswer { npm, bin_dirs }, Event::InstallAnswer(yes)) => {
            if yes {
                &&& s.statuses@.len() == 1
                &&& s.statuses@[0] == (Status::Installing { line: None })
                &&& s.next matches Some((stage, request)) && stage is Installing && (match request {
                    Request::Install { npm: n, bin_dirs: b } => n@ == npm@ && views(b@) == views(
                        bin_dirs@,
                    ),
                    _ => false,
                })
            } else {
                s.next is None && s.statuses@.len() == 0
            }
        },
        (Stage::Installing, Event::Installed(outcome)) => match outcome {
            Ok(()) => {
                &&& s.statuses@.len() == 1
                &&& s.statuses@[0] == Status::Checking
                &&& s.next matches Some((stage, request)) && stage is Redetecting && request is Detect
            },
            Err(e) => {
                &&& ends_with_one(s)
                &&& s.statuses@[0] matches Status::Error { message } && message@ == "自动安装 dsh 失败："@
                    + e@
            },
        },
        (Stage::Redetecting, Event::Detected { toolchain, version }) => {
            if toolchain.dsh is Some && version is Some {
                begins_probe(s, toolchain.dsh->0@, views(toolchain.bin_dirs@))
            } else {
                &&& ends_with_one(s)
                &&& s.statuses@[0] matches Status::Error { message } && message@
                    == "安装完成后仍找不到 dsh，请检查 Node 环境后重试"@
            }
        },
        (Stage::Probing { dsh, bin_dirs }, Event::Probed(instances)) => {
            if instances@.len() == 0 {
                &&& s.statuses@.len() == 0
                &&& s.next matches Some((stage, request)) && stage is Spawning && (match request {
                    Request::Spawn { dsh: d, bin_dirs: b } => d@ == dsh@ && views(b@) == views(
                        bin_dirs@,
                    ),
                    _ => false,
                })
            } else if instances@.len() == 1 {
                begins_attach(s, instances@[0].port, false)
            } else {
                &&& s.statuses@.len() == 1
                &&& s.statuses@[0] matches Status::PickInstance { instances: shown } && shown@
                    == instances@
                &&& s.next matches Some((stage, request)) && stage == (Stage::Picking {
                    first_port: instances@[0].port,
                }) && request is AskPick
            }
        },
        (Stage::Picking { first_port }, Event::Picked(choice)) => begins_attach(
            s,
            match choice {
                Some(p) => p,
                None => first_port,
            },
            false,
        ),
        (Stage::Spawning, Event::Spawned(outcome)) => match outcome {
            Ok(url) => match url_port(url@) {
                Some(port) => begins_attach(s, port, true),
                None => {
                    &&& ends_with_one(s)
                    &&& s.statuses@[0] matches Status::Error { message } && message@
                        == unreadable_address_message()
                },
            },
            Err(e) => {
                &&& ends_with_one(s)
                &&& s.statuses@[0] matches Status::Error { message } && message == e
            },
        },
        (Stage::LoadingCredentials { port, spawned }, Event::Credentials { loaded, now_ms }) => match loaded {
            Err(e) => exists|m: String| e.message_is(m) && fails_attach(s, port, spawned, m@),
            Ok(records) => match crate::cookie_auth::secret_outcome(
                crate::cookie_auth::record_views(records@),
            ) {
                Err(kind) => exists|e: SecretError, m: String|
                    e.kind() == kind && e.message_is(m) && fails_attach(s, port, spawned, m@),
                Ok(secret) => if now_ms > u64::MAX - COOKIE_MAX_AGE_MS {
                    fails_attach(s, port, spawned, "系统时钟超出范围，无法签发会话 cookie"@)
                } else {
                    &&& s.statuses@.len() == 0
                    &&& s.next matches Some((stage, request)) && checks_cookie(
                        stage,
                        request,
                        port,
                        spawned,
                        secret,
                        now_ms,
                    )
                },
            },
        },
        (
            Stage::CheckingCookie { port, spawned, name, value, expires_at_ms },
            Event::CookieChecked(line),
        ) => {
            if accepted(opt_view(line)) {
                &&& s.statuses@.len() == 0
                &&& s.next matches Some((stage, request)) && stage == (Stage::Opening {
                    port,
                    spawned,
                }) && (match request {
                    Request::OpenPage { name: n, value: v, domain, path, http_only, expires_secs, url } => n@
                        == name@ && v@ == value@ && domain@ == "127.0.0.1"@ && path@ == "/"@
                        && http_only && expires_secs == expires_at_ms / 1000 && url@ == page_url(port),
                    _ => false,
                })
            } else {
                fails_attach(s, port, spawned, "自签 cookie 未被接受（dsh 可能升级改了认证格式）"@)
            }
        },
        (Stage::Opening { port, spawned }, Event::Opened(outcome)) => match outcome {
            Ok(()) => s.next is None && s.statuses@.len() == 0,
            Err(e) => fails_attach(s, port, spawned, e@),
        },
        _ => s.next is None && s.statuses@.len() == 0,
    }
}

fn only(status: Status) -> (res: Vec<Status>)
    ensures
        res@ == seq![status],
{
    let mut v: Vec<Status> = Vec::new();
    v.push(status);
    assert(v@ =~= seq![status]);
    v
}

fn finish(statuses: Vec<Status>) -> (res: Step)
    ensures
        res.next is None,
        res.statuses == statuses,
{
    Step { statuses, next: None }
}

fn authority_for(port: u16) -> (res: String)
    ensures
        res@ == authority_of(port),
{
    let n = decimal_string(port as u64);
    text_concat("127.0.0.1:", n.as_str())
}

fn attach_failed(port: u16, spawned: bool, reason: String) -> (res: Step)
    ensures
        fails_attach(res, port, spawned, reason@),
{
    if spawned {
        let a = authority_for(port);
        let m = text_concat("接入自起的 dsh web（", a.as_str());
        let m = text_concat(m.as_str(), "）失败：");
        let m = text_concat(m.as_str(), reason.as_str());
        finish(only(Status::Error { message: m }))
    } else {
        finish(only(Status::ReuseFailed { port, message: reason }))
    }
}

fn attach(port: u16, spawned: bool) -> (res: Step)
    ensures
        begins_attach(res, port, spawned),
{
    Step {
        statuses: Vec::new(),
        next: Some((Stage::LoadingCredentials { port, spawned }, Request::LoadCredentials)),
    }
}

fn probe(dsh: String, bin_dirs: Vec<String>) -> (res: Step)
    ensures
        begins_probe(res, dsh@, views(bin_dirs@)),
{
    Step { statuses: Vec::new(), next: Some((Stage::Probing { dsh, bin_dirs }, Request::Probe)) }
}

/// The start of the start-up: show `checking` and detect the tool chain.
pub fn orchestrate() -> (res: Step)
    ensures
        res.statuses@ == seq![Status::Checking],
        res.next matches Some((stage, request)) && stage is Detecting && request is Detect,
{
    Step { statuses: only(Status::Checking), next: Some((Stage::Detecting, Request::Detect)) }
}

impl Stage {
    /// The next step, given the outcome of the request this stage waits for.
    pub fn step(self, event: Event) -> (res: Step)
        ensures
            transition(self, event, res),
    {
        match (self, event) {
            (Stage::Detecting, Event::Detected { toolchain, version }) => {
                match toolchain.usable_dsh(&version) {
                    Some(dsh) => probe(dsh, toolchain.bin_dirs),
                    None => match toolchain.npm {
                        Some(npm) => Step {
                            statuses: only(Status::NeedInstall { has_npm: true }),
                            next: Some(
                                (
                                    Stage::AwaitingInstallAnswer { npm, bin_dirs: toolchain.bin_dirs },
                                    Request::AskInstall,
                                ),
                            ),
                        },
                        None => finish(only(Status::NeedInstall { has_npm: false })),
                    },
                }
            },
            (Stage::AwaitingInstallAnswer { npm, bin_dirs }, Event::InstallAnswer(yes)) => {
                if yes {
                    Step {
                        statuses: only(Status::Installing { line: None }),
                        next: Some((Stage::Installing, Request::Install { npm, bin_dirs })),
                    }
                } else {
                    finish(Vec::new())
                }
            },
            (Stage::Installing, Event::Installed(outcome)) => match outcome {
                Ok(()) => Step {
                    statuses: only(Status::Checking),
                    next: Some((Stage::Redetecting, Request::Detect)),
                },
                Err(e) => finish(
                    only(Status::Error { message: text_concat("自动安装 dsh 失败：", e.as_str()) }),
                ),
            },
            (Stage::Redetecting, Event::Detected { toolchain, version }) => {
                match toolchain.usable_dsh(&version) {
                    Some(dsh) => probe(dsh, toolchain.bin_dirs),
                    None => finish(
                        only(
                            Status::Error {
                                message: "安装完成后仍找不到 dsh，请检查 Node 环境后重试".to_string(),
                            },
                        ),
                    ),
                }
            },
            (Stage::Probing { dsh, bin_dirs }, Event::Probed(instances)) => {
                if instances.len() == 0 {
                    Step {
                        statuses: Vec::new(),
                        next: Some((Stage::Spawning, Request::Spawn { dsh, bin_dirs })),
                    }
                } else if instances.len() == 1 {
                    attach(instances[0].port, false)
                } else {
                    let first_port = instances[0].port;
                    Step {
                        statuses: only(Status::PickInstance { instances }),
                        next: Some((Stage::Picking { first_port }, Request::AskPick)),
                    }
                }
            },
            (Stage::Picking { first_port }, Event::Picked(choice)) => {
                let port = match choice {
                    Some(p) => p,
                    None => first_port,
                };
                attach(port, false)
            },
            (Stage::Spawning, Event::Spawned(outcome)) => match outcome {
                Ok(url) => match spawned_port(url.as_str()) {
                    Some(port) => attach(port, true),
                    None => finish(
                        only(
                            Status::Error {
                                message: "dsh 打印的就绪地址里读不出端口（地址带登录凭证，已省略原文）".to_string(),
                            },
                        ),
                    ),
                },
                Err(e) => finish(only(Status::Error { message: e })),
            },
            (Stage::LoadingCredentials { port, spawned }, Event::Credentials { loaded, now_ms }) => {
                let records = match loaded {
                    Err(e) => {
                        let m = e.message();
                        let res = attach_failed(port, spawned, m);
                        assert(e.message_is(m) && fails_attach(res, port, spawned, m@));
                        return res;
                    },
                    Ok(records) => records,
                };
                match browser_session_secret(&records) {
                    Err(e) => {
                        let m = e.message();
                        let res = attach_failed(port, spawned, m);
                        assert(e.message_is(m) && fails_attach(res, port, spawned, m@));
                        res
                    },
                    Ok(secret) => {
                        let authority = authority_for(port);
                        match cookie_at_clock(&secret, authority.as_str(), now_ms) {
                            None => attach_failed(
                                port,
                                spawned,
                                "系统时钟超出范围，无法签发会话 cookie".to_string(),
                            ),
                            Some(cookie) => {
                                let SessionCookie { name, value, expires_at_ms } = cookie;
                                let request = cookie_check_request(
                                    authority.as_str(),
                                    name.as_str(),
                                    value.as_str(),
                                );
                                let stage = Stage::CheckingCookie {
                                    port,
                                    spawned,
                                    name,
                                    value,
                                    expires_at_ms,
                                };
                                let req = Request::CheckCookie { port, request };
                                assert(checks_cookie(stage, req, port, spawned, secret@, now_ms));
                                Step { statuses: Vec::new(), next: Some((stage, req)) }
                            },
                        }
                    },
                }
            },
            (
                Stage::CheckingCookie { port, spawned, name, value, expires_at_ms },
                Event::CookieChecked(line),
            ) => {
                if verify_cookie(&line) {
                    let a = authority_for(port);
                    let url = text_concat("http://", a.as_str());
                    let url = text_concat(url.as_str(), "/");
                    let secs = (expires_at_ms / 1000) as i64;
                    Step {
                        statuses: Vec::new(),
                        next: Some(
                            (
                                Stage::Opening { port, spawned },
                                Request::OpenPage {
                                    name,
                                    value,
                                    domain: "127.0.0.1".to_string(),
                                    path: "/".to_string(),
                                    http_only: true,
                                    expires_secs: secs,
                                    url,
                                },
                            ),
                        ),
                    }
                } else {
                    attach_failed(
                        port,
                        spawned,
                        "自签 cookie 未被接受（dsh 可能升级改了认证格式）".to_string(),
                    )
                }
            },
            (Stage::Opening { port, spawned }, Event::Opened(outcome)) => match outcome {
                Ok(()) => finish(Vec::new()),
                Err(e) => attach_failed(port, spawned, e),
            },
            _ => finish(Vec::new()),
        }
    }
}


// ---------------------------------------------------------------------------
// Laws of the start-up
// ---------------------------------------------------------------------------

/// A page is loaded only once the instance has accepted the self-signed
/// cookie: a step that asks to open the page comes from a cookie check
/// whose answer was `200`, for the same port.
pub proof fn lemma_page_opens_only_after_acceptance(stage: Stage, event: Event, s: Step)
    requires
        transition(stage, event, s),
        s.next matches Some((_, request)) && request is OpenPage,
    ensures
        stage is CheckingCookie,
        event matches Event::CookieChecked(line) && accepted(opt_view(line)),
        s.next matches Some((next_stage, _)) && next_stage == (Stage::Opening {
            port: stage->CheckingCookie_port,
            spawned: stage->CheckingCookie_spawned,
        }),
{
}

/// A refused cookie never opens the page: the start-up ends with one
/// failure status, `reuse_failed` for an instance that was found running.
pub proof fn lemma_refused_cookie_reports_failure(
    port: u16,
    spawned: bool,
    name: String,
    value: String,
    expires_at_ms: u64,
    line: Option<String>,
    s: Step,
)
    requires
        transition(
            Stage::CheckingCookie { port, spawned, name, value, expires_at_ms },
            Event::CookieChecked(line),
            s,
        ),
        !accepted(opt_view(line)),
    ensures
        s.next is None,
        s.statuses@.len() == 1,
        !spawned ==> (s.statuses@[0] matches Status::ReuseFailed { port: p, .. } && p == port),
        spawned ==> s.statuses@[0] is Error,
{
}

/// Our own `dsh web` is started only when no instance runs: a step that
/// asks to spawn comes from the probe, and the probe found nothing.
pub proof fn lemma_spawns_only_without_instances(stage: Stage, event: Event, s: Step)
    requires
        transition(stage, event, s),
        s.next matches Some((_, request)) && request is Spawn,
    ensures
        stage is Probing,
        event matches Event::Probed(instances) && instances@.len() == 0,
{
}

/// Instances that run are attached to, never duplicated: one instance is
/// attached to directly; several are offered to the user, and without an
/// answer the first (the lowest port) is taken.
pub proof fn lemma_instances_are_reused(dsh: String, bin_dirs: Vec<String>, instances: Vec<DshInstance>, s: Step)
    requires
        transition(Stage::Probing { dsh, bin_dirs }, Event::Probed(instances), s),
        instances@.len() > 0,
    ensures
        !(s.next matches Some((_, request)) && request is Spawn),
        instances@.len() == 1 ==> begins_attach(s, instances@[0].port, false),
        instances@.len() > 1 ==> (s.next matches Some((stage, request)) && request is AskPick
            && stage == (Stage::Picking { first_port: instances@[0].port })),
{
}

/// When the user closes the picker without a choice, the first instance is
/// attached to; a choice is attached to as chosen.
pub proof fn lemma_pick_defaults_to_first(first_port: u16, choice: Option<u16>, s: Step)
    requires
        transition(Stage::Picking { first_port }, Event::Picked(choice), s),
    ensures
        begins_attach(
            s,
            match choice {
                Some(p) => p,
                None => first_port,
            },
            false,
        ),
{
}

/// The address our own `dsh web` announces carries its login token and is
/// never shown: once it is reported, the only status that can come is the
/// fixed one for an address without a port, and the start-up goes on
/// holding the port alone, so no later status can hold the address.
pub proof fn lemma_ready_address_is_not_shown(url: String, s: Step)
    requires
        transition(Stage::Spawning, Event::Spawned(Ok(url)), s),
    ensures
        forall|i: int|
            0 <= i < s.statuses@.len() ==> (#[trigger] s.statuses@[i] matches Status::Error {
                message,
            } && message@ == unreadable_address_message()),
        s.next matches Some((stage, request)) ==> url_port(url@) matches Some(port) && stage == (
        Stage::LoadingCredentials { port, spawned: true }) && request is LoadCredentials,
{
}

/// What follows a spawn depends on the announced address through its port
/// alone: two addresses that name the same port (the same address with
/// another login token, say) give the same statuses and the same next
/// stage and request.
pub proof fn lemma_ready_address_counts_by_port(first: String, second: String, s1: Step, s2: Step)
    requires
        transition(Stage::Spawning, Event::Spawned(Ok(first)), s1),
        transition(Stage::Spawning, Event::Spawned(Ok(second)), s2),
        url_port(first@) == url_port(second@),
    ensures
        s1.next == s2.next,
        s1.statuses@.len() == s2.statuses@.len(),
        forall|i: int|
            0 <= i < s1.statuses@.len() ==> (#[trigger] s1.statuses@[i] matches Status::Error {
                message: a,
            } && s2.statuses@[i] matches Status::Error { message: b } && a@ == b@),
{
    lemma_ready_address_is_not_shown(first, s1);
    lemma_ready_address_is_not_shown(second, s2);
}

/// When detection gives no usable dsh, whether the install is offered
/// depends on npm alone: the one status says whether npm was found, and the
/// install question is asked, for that npm, exactly where it was found.
pub proof fn lemma_install_offered_exactly_with_npm(toolchain: Toolchain, version: Option<String>, s: Step)
    requires
        transition(Stage::Detecting, Event::Detected { toolchain, version }, s),
        !(toolchain.dsh is Some && version is Some),
    ensures
        s.statuses@ == seq![Status::NeedInstall { has_npm: toolchain.npm is Some }],
        s.next is Some <==> toolchain.npm is Some,
        s.next matches Some((stage, request)) ==> (stage matches Stage::AwaitingInstallAnswer {
            npm,
            ..
        } && toolchain.npm matches Some(found) && npm@ == found@ && request is AskInstall),
{
}

/// A cookie that the instance accepted always opens the page, for an
/// instance found running and for our own alike: no status, and the page
/// `http://127.0.0.1:<port>/` is opened with that cookie.
pub proof fn lemma_accepted_cookie_opens_page(
    port: u16,
    spawned: bool,
    name: String,
    value: String,
    expires_at_ms: u64,
    line: Option<String>,
    s: Step,
)
    requires
        transition(
            Stage::CheckingCookie { port, spawned, name, value, expires_at_ms },
            Event::CookieChecked(line),
            s,
        ),
        accepted(opt_view(line)),
    ensures
        s.statuses@.len() == 0,
        s.next matches Some((stage, request)) && stage == (Stage::Opening { port, spawned }) && (
        request matches Request::OpenPage { name: n, value: v, url, .. } && n@ == name@ && v@
            == value@ && url@ == seq!['h', 't', 't', 'p', ':', '/', '/', '1', '2', '7', '.', '0', '.', '0', '.', '1', ':']
            + decimal(port as nat) + seq!['/']),
{
    assert("http://"@ + authority_of(port) + "/"@ =~= seq!['h', 't', 't', 'p', ':', '/', '/', '1', '2', '7', '.', '0', '.', '0', '.', '1', ':']
        + decimal(port as nat) + seq!['/']) by {
        reveal_strlit("http://");
        reveal_strlit("127.0.0.1:");
        reveal_strlit("/");
    }
}

/// A usable dsh (found, and `dsh --version` worked) goes straight on to
/// looking for running instances with that dsh and those directories, at
/// the start and again after an install.
pub proof fn lemma_usable_dsh_is_probed(stage: Stage, toolchain: Toolchain, version: Option<String>, s: Step)
    requires
        stage is Detecting || stage is Redetecting,
        transition(stage, Event::Detected { toolchain, version }, s),
        toolchain.dsh is Some,
        version is Some,
    ensures
        s.statuses@.len() == 0,
        s.next matches Some((next_stage, request)) && next_stage matches Stage::Probing { dsh, bin_dirs }
            && toolchain.dsh matches Some(found) && dsh@ == found@ && views(bin_dirs@) == views(
            toolchain.bin_dirs@,
        ) && request is Probe,
{
}

/// Where no instance runs, our own `dsh web` is started, with the dsh and
/// the directories that detection found.
pub proof fn lemma_spawns_when_none_runs(dsh: String, bin_dirs: Vec<String>, instances: Vec<DshInstance>, s: Step)
    requires
        transition(Stage::Probing { dsh, bin_dirs }, Event::Probed(instances), s),
        instances@.len() == 0,
    ensures
        s.statuses@.len() == 0,
        s.next matches Some((next_stage, request)) && next_stage is Spawning && (
        request matches Request::Spawn { dsh: d, bin_dirs: b } && d@ == dsh@ && views(b@)
            == views(bin_dirs@)),
{
}

/// The answer to the install question is followed: yes runs the installer
/// with the npm that was found; no ends the start-up without a word.
pub proof fn lemma_install_answer_followed(npm: String, bin_dirs: Vec<String>, yes: bool, s: Step)
    requires
        transition(Stage::AwaitingInstallAnswer { npm, bin_dirs }, Event::InstallAnswer(yes), s),
    ensures
        yes ==> (s.next matches Some((next_stage, request)) && next_stage is Installing && (
        request matches Request::Install { npm: n, bin_dirs: b } && n@ == npm@ && views(b@)
            == views(bin_dirs@))),
        !yes ==> s.next is None && s.statuses@.len() == 0,
{
}

/// A finished install is followed by a new detection; a failed one ends
/// the start-up with an error.
pub proof fn lemma_install_then_detect_again(outcome: Result<(), String>, s: Step)
    requires
        transition(Stage::Installing, Event::Installed(outcome), s),
    ensures
        outcome is Ok ==> (s.next matches Some((next_stage, request)) && next_stage is Redetecting
            && request is Detect),
        outcome is Err ==> s.next is None && s.statuses@.len() == 1 && s.statuses@[0] is Error,
{
}

/// dsh is installed only with the user's consent: a step that asks to run
/// the installer comes from the install question, answered yes.
pub proof fn lemma_installs_only_with_consent(stage: Stage, event: Event, s: Step)
    requires
        transition(stage, event, s),
        s.next matches Some((_, request)) && request is Install,
    ensures
        stage is AwaitingInstallAnswer,
        event == Event::InstallAnswer(true),
{
}

} // verus!
