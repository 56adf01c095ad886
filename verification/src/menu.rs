//! The application menu in English or Chinese, after the system's first
//! preferred language, and its "Check for Updates…" item: compare the
//! installed `dsh --version` with the version of @deepseek-ai/dsh on npm, and
//! on the user's consent update it and restart.

use vstd::prelude::*;

use crate::env_detect::{opt_view, Toolchain};
use crate::text::{
    chars_of, copy_strings, join_strings, joined, replace_chars, replaced, starts_with, string_of,
    text_concat, views,
};

verus! {

/// The id of the "Check for Updates…" menu item.
pub fn check_updates_id() -> (res: &'static str)
    ensures
        res@ == "check-updates"@,
{
    "check-updates"
}

/// Whether the menu event with id `id` is "Check for Updates…".
pub fn is_check_updates_event(id: &str) -> (res: bool)
    ensures
        res == (id@ == "check-updates"@),
{
    let a = chars_of(id);
    let b = chars_of("check-updates");
    if a.len() != b.len() {
        return false;
    }
    let mut i: usize = 0;
    while i < a.len()
        invariant
            a.len() == b.len(),
            a@ == id@,
            b@ == "check-updates"@,
            i <= a.len(),
            forall|k: int| 0 <= k < i ==> a@[k] == b@[k],
        decreases a.len() - i,
    {
        if a[i] != b[i] {
            assert(a@[i as int] != b@[i as int]);
            return false;
        }
        i += 1;
    }
    assert(a@ =~= b@);
    true
}

// ---------------------------------------------------------------------------
// Language
// ---------------------------------------------------------------------------

/// The index of the first `"` in `s` at or after `from`.
pub open spec fn quote_from(s: Seq<char>, from: int) -> Option<int>
    decreases s.len() - from,
{
    if from < 0 || from >= s.len() {
        None
    } else if s[from] == '"' {
        Some(from)
    } else {
        quote_from(s, from + 1)
    }
}

/// Whether the output of `defaults read -g AppleLanguages`, a list such as
/// `( "zh-Hans-CN", "en-CN" )`, starts with a Chinese language: the text
/// between its first two double quotes begins with `zh`. No output (the
/// command did not run) means no.
pub open spec fn prefers_chinese(output: Option<Seq<char>>) -> bool {
    match output {
        None => false,
        Some(s) => match quote_from(s, 0) {
            None => false,
            Some(start) => match quote_from(s, start + 1) {
                None => false,
                Some(end) => starts_with(s.subrange(start + 1, end), seq!['z', 'h']),
            },
        },
    }
}

fn find_quote(s: &Vec<char>, from: usize) -> (res: Option<usize>)
    ensures
        (match res {
            Some(i) => Some(i as int),
            None => None,
        }) == quote_from(s@, from as int),
        res matches Some(i) ==> from <= i < s@.len() && s@[i as int] == '"',
{
    let mut i = from;
    while i < s.len()
        invariant
            from <= i,
            quote_from(s@, from as int) == quote_from(s@, i as int),
        decreases s.len() - i,
    {
        if s[i] == '"' {
            assert(quote_from(s@, i as int) == Some(i as int));
            return Some(i);
        }
        i += 1;
    }
    None
}

/// Whether the system's first preferred language is Chinese, from what
/// `defaults read -g AppleLanguages` printed, where it ran.
pub fn prefer_chinese(output: &Option<String>) -> (res: bool)
    ensures
        res == prefers_chinese(opt_view(*output)),
{
    match output {
        None => false,
        Some(out) => {
            let s = chars_of(out.as_str());
            assert(opt_view(*output) == Some(s@));
            match find_quote(&s, 0) {
                None => false,
                Some(start) => match find_quote(&s, start + 1) {
                    None => {
                        assert(quote_from(s@, start + 1) is None);
                        false
                    },
                    Some(end) => {
                        let r = end - start > 2 && s[start + 1] == 'z' && s[start + 2] == 'h';
                        proof {
                            let inner = s@.subrange(start + 1, end as int);
                            if r {
                                assert(inner.take(2) =~= seq!['z', 'h']);
                            }
                            if starts_with(inner, seq!['z', 'h']) {
                                assert(inner.take(2)[0] == 'z' && inner.take(2)[1] == 'h');
                                assert(inner[0] == 'z' && inner[1] == 'h');
                            }
                            assert(r == starts_with(inner, seq!['z', 'h']));
                            assert(quote_from(s@, 0) == Some(start as int));
                            assert(quote_from(s@, start + 1) == Some(end as int));
                            assert(r == prefers_chinese(opt_view(*output)));
                        }
                        r
                    },
                },
            }
        },
    }
}

/// Every text of the menu and of the update dialogs, in one language.
pub struct Texts {
    pub app_name: &'static str,
    pub check_updates: &'static str,
    pub about: &'static str,
    pub services: &'static str,
    pub hide: &'static str,
    pub hide_others: &'static str,
    pub quit: &'static str,
    pub file: &'static str,
    pub close_window: &'static str,
    pub edit: &'static str,
    pub undo: &'static str,
    pub redo: &'static str,
    pub cut: &'static str,
    pub copy: &'static str,
    pub paste: &'static str,
    pub select_all: &'static str,
    pub dialog_title: &'static str,
    /// Holds `{v}`.
    pub up_to_date: &'static str,
    /// Holds `{latest}` and `{local}`.
    pub update_available: &'static str,
    pub not_installed: &'static str,
    pub check_failed: &'static str,
    pub btn_update: &'static str,
    pub btn_cancel: &'static str,
    pub btn_ok: &'static str,
    pub update_done: &'static str,
    /// Holds `{error}`.
    pub update_failed: &'static str,
}

pub open spec fn english() -> Texts {
    Texts {
        app_name: "DeepSeek Harness",
        check_updates: "Check for Updates…",
        about: "About DeepSeek Harness",
        services: "Services",
        hide: "Hide DeepSeek Harness",
        hide_others: "Hide Others",
        quit: "Quit DeepSeek Harness",
        file: "File",
        close_window: "Close Window",
        edit: "Edit",
        undo: "Undo",
        redo: "Redo",
        cut: "Cut",
        copy: "Copy",
        paste: "Paste",
        select_all: "Select All",
        dialog_title: "Check for Updates",
        up_to_date: "You're up to date ({v}).",
        update_available: "The version on npm is {latest}; you have {local} installed.",
        not_installed: "No dsh installation detected; cannot check for updates.",
        check_failed: "Update check failed. Check your network connection and try again.",
        btn_update: "Update",
        btn_cancel: "Cancel",
        btn_ok: "OK",
        update_done: "Update complete. Click OK to restart the app.",
        update_failed: "Update failed: {error}",
    }
}

pub open spec fn chinese() -> Texts {
    Texts {
        app_name: "DeepSeek Harness",
        check_updates: "检查更新…",
        about: "关于 DeepSeek Harness",
        services: "服务",
        hide: "隐藏 DeepSeek Harness",
        hide_others: "隐藏其他",
        quit: "退出 DeepSeek Harness",
        file: "文件",
        close_window: "关闭窗口",
        edit: "编辑",
        undo: "撤销",
        redo: "重做",
        cut: "剪切",
        copy: "拷贝",
        paste: "粘贴",
        select_all: "全选",
        dialog_title: "检查更新",
        up_to_date: "已是最新版本（{v}）。",
        update_available: "npm 上的版本是 {latest}，你当前安装的是 {local}。",
        not_installed: "未检测到 dsh 安装，无法检查更新。",
        check_failed: "检查失败，请检查网络后重试。",
        btn_update: "更新",
        btn_cancel: "取消",
        btn_ok: "确定",
        update_done: "更新完成，点击确定重启应用。",
        update_failed: "更新失败：{error}",
    }
}

/// The texts in Chinese where the system prefers Chinese, else in English.
pub fn texts(prefer_chinese: bool) -> (res: Texts)
    ensures
        res == (if prefer_chinese {
            chinese()
        } else {
            english()
        }),
{
    if prefer_chinese {
        Texts {
            app_name: "DeepSeek Harness",
            check_updates: "检查更新…",
            about: "关于 DeepSeek Harness",
            services: "服务",
            hide: "隐藏 DeepSeek Harness",
            hide_others: "隐藏其他",
            quit: "退出 DeepSeek Harness",
            file: "文件",
            close_window: "关闭窗口",
            edit: "编辑",
            undo: "撤销",
            redo: "重做",
            cut: "剪切",
            copy: "拷贝",
            paste: "粘贴",
            select_all: "全选",
            dialog_title: "检查更新",
            up_to_date: "已是最新版本（{v}）。",
            update_available: "npm 上的版本是 {latest}，你当前安装的是 {local}。",
            not_installed: "未检测到 dsh 安装，无法检查更新。",
            check_failed: "检查失败，请检查网络后重试。",
            btn_update: "更新",
            btn_cancel: "取消",
            btn_ok: "确定",
            update_done: "更新完成，点击确定重启应用。",
            update_failed: "更新失败：{error}",
        }
    } else {
        Texts {
            app_name: "DeepSeek Harness",
            check_updates: "Check for Updates…",
            about: "About DeepSeek Harness",
            services: "Services",
            hide: "Hide DeepSeek Harness",
            hide_others: "Hide Others",
            quit: "Quit DeepSeek Harness",
            file: "File",
            close_window: "Close Window",
            edit: "Edit",
            undo: "Undo",
            redo: "Redo",
            cut: "Cut",
            copy: "Copy",
            paste: "Paste",
            select_all: "Select All",
            dialog_title: "Check for Updates",
            up_to_date: "You're up to date ({v}).",
            update_available: "The version on npm is {latest}; you have {local} installed.",
            not_installed: "No dsh installation detected; cannot check for updates.",
            check_failed: "Update check failed. Check your network connection and try again.",
            btn_update: "Update",
            btn_cancel: "Cancel",
            btn_ok: "OK",
            update_done: "Update complete. Click OK to restart the app.",
            update_failed: "Update failed: {error}",
        }
    }
}


// ---------------------------------------------------------------------------
// npm output tail
// ---------------------------------------------------------------------------

/// How many lines of npm output a failed update shows.
pub const TAIL_LINES: usize = 20;

/// The kept tail after one more line: the line added, the oldest dropped
/// once there are more than [`TAIL_LINES`].
pub open spec fn tail_push(tail: Seq<Seq<char>>, line: Seq<char>) -> Seq<Seq<char>> {
    let n = tail.push(line);
    if n.len() > TAIL_LINES {
        n.drop_first()
    } else {
        n
    }
}

/// The last [`TAIL_LINES`] of `all` (all of them where there are fewer).
pub open spec fn last_lines(all: Seq<Seq<char>>) -> Seq<Seq<char>> {
    if all.len() > TAIL_LINES {
        all.skip(all.len() - TAIL_LINES)
    } else {
        all
    }
}

/// Adds a line of npm output to the kept tail.
pub fn push_tail(tail: &mut Vec<String>, line: String)
    ensures
        views(final(tail)@) == tail_push(views(old(tail)@), line@),
{
    let ghost before = tail@;
    tail.push(line);
    assert(views(tail@) =~= views(before).push(line@));
    if tail.len() > TAIL_LINES {
        let ghost full = tail@;
        tail.remove(0);
        assert(views(tail@) =~= views(full).drop_first());
    }
}

/// Keeping the tail line by line keeps the last [`TAIL_LINES`] lines of all
/// the output: adding a line to the last lines of `all` gives the last lines
/// of `all` with the line.
pub proof fn lemma_tail_keeps_last_lines(all: Seq<Seq<char>>, line: Seq<char>)
    ensures
        tail_push(last_lines(all), line) == last_lines(all.push(line)),
{
    let n = all.push(line);
    if all.len() > TAIL_LINES {
        assert(last_lines(all).push(line).drop_first() =~= n.skip(n.len() - TAIL_LINES));
    } else if all.len() == TAIL_LINES {
        assert(all.push(line).drop_first() =~= n.skip(n.len() - TAIL_LINES));
    } else {
    }
}

// ---------------------------------------------------------------------------
// Checking for updates
// ---------------------------------------------------------------------------

/// Why an update failed: the error and the last lines npm printed.
pub struct UpdateFailure {
    pub error: String,
    pub tail: Vec<String>,
}

/// Work that the update check hands to the caller.
pub enum UpdateRequest {
    /// Detect the tool chain: answered by `Detected`.
    Detect,
    /// Run `dsh --version`: `Version`.
    LocalVersion { dsh: String, bin_dirs: Vec<String> },
    /// Run `npm view @deepseek-ai/dsh version`: `Version`.
    LatestVersion { npm: String, bin_dirs: Vec<String> },
    /// Ask with Update / Cancel buttons: `Confirmed`.
    Confirm { message: String },
    /// Run `npm i -g @deepseek-ai/dsh`, keeping the last output lines with
    /// [`push_tail`]: `Updated`.
    Update { npm: String, bin_dirs: Vec<String> },
}

/// The outcome of an [`UpdateRequest`].
pub enum UpdateEvent {
    Detected(Toolchain),
    Version(Option<String>),
    Confirmed(bool),
    Updated(Result<(), UpdateFailure>),
}

/// Where the update check stands.
pub enum UpdateStage {
    Detecting,
    ReadingLocal { found_npm: Option<String>, bin_dirs: Vec<String> },
    ReadingLatest { npm: String, bin_dirs: Vec<String>, local: String },
    Confirming { npm: String, bin_dirs: Vec<String> },
    Updating,
}

/// What comes next: messages to show (each with an OK button), in order;
/// whether to end this app's own dsh and restart; and the next request.
pub struct UpdateStep {
    pub notices: Vec<String>,
    pub restart: bool,
    pub next: Option<(UpdateStage, UpdateRequest)>,
}

pub open spec fn ends_with_notice(s: UpdateStep, text: Seq<char>) -> bool {
    &&& s.next is None
    &&& !s.restart
    &&& s.notices@.len() == 1
    &&& s.notices@[0]@ == text
}

pub open spec fn ends_quietly(s: UpdateStep) -> bool {
    s.next is None && !s.restart && s.notices@.len() == 0
}

pub open spec fn asks(s: UpdateStep) -> bool {
    !s.restart && s.notices@.len() == 0 && s.next is Some
}

/// The detail of a failed update: the error, then the kept output lines.
pub open spec fn failure_detail(error: Seq<char>, tail: Seq<Seq<char>>) -> Seq<char> {
    if tail.len() == 0 {
        error
    } else {
        error + seq!['\n'] + joined(tail, seq!['\n'])
    }
}

/// What one step of the update check does with the outcome `event` of the
/// request that `stage` waits for, in the language of `t`.
pub open spec fn update_transition(stage: UpdateStage, t: Texts, event: UpdateEvent, s: UpdateStep) -> bool {
    match (stage, event) {
        (UpdateStage::Detecting, UpdateEvent::Detected(tc)) => match tc.dsh {
            Some(dsh) => asks(s) && (match s.next {
                Some(
                    (
                        UpdateStage::ReadingLocal { found_npm, bin_dirs },
                        UpdateRequest::LocalVersion { dsh: d, bin_dirs: b },
                    ),
                ) => opt_view(found_npm) == opt_view(tc.npm) && views(bin_dirs@) == views(tc.bin_dirs@)
                    && d@ == dsh@ && views(b@) == views(tc.bin_dirs@),
                _ => false,
            }),
            None => ends_with_notice(s, t.not_installed@),
        },
        (UpdateStage::ReadingLocal { found_npm, bin_dirs }, UpdateEvent::Version(v)) => match (v, found_npm) {
            (None, _) => ends_with_notice(s, t.not_installed@),
            (Some(_), None) => ends_with_notice(s, t.check_failed@),
            (Some(local), Some(npm)) => asks(s) && (match s.next {
                Some(
                    (
                        UpdateStage::ReadingLatest { npm: n, bin_dirs: b, local: l },
                        UpdateRequest::LatestVersion { npm: rn, bin_dirs: rb },
                    ),
                ) => n@ == npm@ && views(b@) == views(bin_dirs@) && l@ == local@ && rn@ == npm@
                    && views(rb@) == views(bin_dirs@),
                _ => false,
            }),
        },
        (UpdateStage::ReadingLatest { npm, bin_dirs, local }, UpdateEvent::Version(v)) => match v {
            None => ends_with_notice(s, t.check_failed@),
            Some(latest) => if latest@ == local@ {
                ends_with_notice(s, replaced(t.up_to_date@, "{v}"@, local@))
            } else {
                asks(s) && (match s.next {
                    Some(
                        (
                            UpdateStage::Confirming { npm: n, bin_dirs: b },
                            UpdateRequest::Confirm { message },
                        ),
                    ) => n@ == npm@ && views(b@) == views(bin_dirs@) && message@ == replaced(
                        replaced(t.update_available@, "{latest}"@, latest@),
                        "{local}"@,
                        local@,
                    ),
                    _ => false,
                })
            },
        },
        (UpdateStage::Confirming { npm, bin_dirs }, UpdateEvent::Confirmed(yes)) => if yes {
            asks(s) && (match s.next {
                Some((UpdateStage::Updating, UpdateRequest::Update { npm: n, bin_dirs: b })) => n@
                    == npm@ && views(b@) == views(bin_dirs@),
                _ => false,
            })
        } else {
            ends_quietly(s)
        },
        (UpdateStage::Updating, UpdateEvent::Updated(outcome)) => match outcome {
            Ok(()) => s.next is None && s.restart && s.notices@.len() == 1 && s.notices@[0]@
                == t.update_done@,
            Err(f) => ends_with_notice(
                s,
                replaced(t.update_failed@, "{error}"@, failure_detail(f.error@, views(f.tail@))),
            ),
        },
        _ => ends_quietly(s),
    }
}

fn notice(text: String) -> (res: UpdateStep)
    ensures
        ends_with_notice(res, text@),
{
    let mut notices: Vec<String> = Vec::new();
    notices.push(text);
    UpdateStep { notices, restart: false, next: None }
}

fn quiet() -> (res: UpdateStep)
    ensures
        ends_quietly(res),
{
    UpdateStep { notices: Vec::new(), restart: false, next: None }
}

fn ask(stage: UpdateStage, request: UpdateRequest) -> (res: UpdateStep)
    ensures
        asks(res),
        res.next == Some((stage, request)),
{
    UpdateStep { notices: Vec::new(), restart: false, next: Some((stage, request)) }
}

/// `template` with `pat` replaced by `value`.
fn fill(template: &str, pat: &str, value: &str) -> (res: String)
    requires
        pat@.len() > 0,
    ensures
        res@ == replaced(template@, pat@, value@),
{
    let t = chars_of(template);
    let p = chars_of(pat);
    let v = chars_of(value);
    let r = replace_chars(t.as_slice(), p.as_slice(), v.as_slice());
    string_of(r.as_slice())
}

/// The start of the update check: detect the tool chain.
pub fn check_updates() -> (res: UpdateStep)
    ensures
        asks(res),
        res.next matches Some((stage, request)) && stage is Detecting && request is Detect,
{
    ask(UpdateStage::Detecting, UpdateRequest::Detect)
}

impl UpdateStage {
    /// The next step of the update check, given the outcome of the request
    /// this stage waits for, with the texts `t`.
    pub fn step(self, t: &Texts, event: UpdateEvent) -> (res: UpdateStep)
        ensures
            update_transition(self, *t, event, res),
    {
        let ghost s0 = self;
        let ghost e0 = event;
        match (self, event) {
            (UpdateStage::Detecting, UpdateEvent::Detected(tc)) => match tc.dsh {
                Some(dsh) => {
                    let b = copy_strings(&tc.bin_dirs);
                    let res = ask(
                        UpdateStage::ReadingLocal { found_npm: tc.npm, bin_dirs: tc.bin_dirs },
                        UpdateRequest::LocalVersion { dsh, bin_dirs: b },
                    );
                    assert(update_transition(s0, *t, e0, res));
                    res
                },
                None => {
                    let res = notice(t.not_installed.to_string());
                    assert(update_transition(s0, *t, e0, res));
                    res
                },
            },
            (UpdateStage::ReadingLocal { found_npm, bin_dirs }, UpdateEvent::Version(v)) => match v {
                None => notice(t.not_installed.to_string()),
                Some(local) => match found_npm {
                    None => notice(t.check_failed.to_string()),
                    Some(npm) => {
                        let rn = npm.clone();
                        let rb = copy_strings(&bin_dirs);
                        let res = ask(
                            UpdateStage::ReadingLatest { npm, bin_dirs, local },
                            UpdateRequest::LatestVersion { npm: rn, bin_dirs: rb },
                        );
                        assert(update_transition(s0, *t, e0, res));
                        res
                    },
                },
            },
            (UpdateStage::ReadingLatest { npm, bin_dirs, local }, UpdateEvent::Version(v)) => {
                match v {
                    None => notice(t.check_failed.to_string()),
                    Some(latest) => {
                        proof {
                            reveal_strlit("{v}");
                            reveal_strlit("{latest}");
                            reveal_strlit("{local}");
                        }
                        if latest == local {
                            let res = notice(fill(t.up_to_date, "{v}", local.as_str()));
                            assert(update_transition(s0, *t, e0, res));
                            res
                        } else {
                            let m = fill(t.update_available, "{latest}", latest.as_str());
                            let m = fill(m.as_str(), "{local}", local.as_str());
                            let res = ask(
                                UpdateStage::Confirming { npm, bin_dirs },
                                UpdateRequest::Confirm { message: m },
                            );
                            assert(update_transition(s0, *t, e0, res));
                            res
                        }
                    },
                }
            },
            (UpdateStage::Confirming { npm, bin_dirs }, UpdateEvent::Confirmed(yes)) => {
                if yes {
                    let res = ask(UpdateStage::Updating, UpdateRequest::Update { npm, bin_dirs });
                    assert(update_transition(s0, *t, e0, res));
                    res
                } else {
                    quiet()
                }
            },
            (UpdateStage::Updating, UpdateEvent::Updated(outcome)) => match outcome {
                Ok(()) => {
                    let mut notices: Vec<String> = Vec::new();
                    notices.push(t.update_done.to_string());
                    let res = UpdateStep { notices, restart: true, next: None };
                    assert(update_transition(s0, *t, e0, res));
                    res
                },
                Err(f) => {
                    let ghost fv = f;
                    let detail = if f.tail.len() == 0 {
                        f.error
                    } else {
                        proof {
                            reveal_strlit("\n");
                            assert("\n"@ =~= seq!['\n']);
                        }
                        let joined_tail = join_strings(&f.tail, "\n");
                        let d = text_concat(f.error.as_str(), "\n");
                        text_concat(d.as_str(), joined_tail.as_str())
                    };
                    assert(detail@ == failure_detail(fv.error@, views(fv.tail@)));
                    proof {
                        reveal_strlit("{error}");
                    }
                    let res = notice(fill(t.update_failed, "{error}", detail.as_str()));
                    assert(update_transition(s0, *t, e0, res));
                    res
                },
            },
            _ => quiet(),
        }
    }
}


// ---------------------------------------------------------------------------
// Laws of the update check
// ---------------------------------------------------------------------------

/// The app restarts only after an update that succeeded.
pub proof fn lemma_restarts_only_after_update(stage: UpdateStage, t: Texts, event: UpdateEvent, s: UpdateStep)
    requires
        update_transition(stage, t, event, s),
        s.restart,
    ensures
        stage is Updating,
        event matches UpdateEvent::Updated(outcome) && outcome is Ok,
{
}

/// npm updates dsh only after the user confirmed the update.
pub proof fn lemma_updates_only_when_confirmed(stage: UpdateStage, t: Texts, event: UpdateEvent, s: UpdateStep)
    requires
        update_transition(stage, t, event, s),
        s.next matches Some((_, request)) && request is Update,
    ensures
        stage is Confirming,
        event == UpdateEvent::Confirmed(true),
{
}

/// Versions are compared for equality only, not by order: where npm has
/// the version installed, the check says so and asks nothing; any other
/// version, older or newer, is offered.
pub proof fn lemma_equal_versions_need_no_update(
    npm: String,
    bin_dirs: Vec<String>,
    local: String,
    t: Texts,
    latest: String,
    s: UpdateStep,
)
    requires
        update_transition(
            UpdateStage::ReadingLatest { npm, bin_dirs, local },
            t,
            UpdateEvent::Version(Some(latest)),
            s,
        ),
    ensures
        latest@ == local@ ==> s.next is None && !s.restart && s.notices@.len() == 1,
        latest@ != local@ ==> (s.next matches Some((_, request)) && request is Confirm),
{
}

/// The version `dsh --version` printed reaches the comparison unchanged:
/// reading it (npm found) and then npm's latest version ends with "up to
/// date" exactly where the two texts are equal; any difference, a
/// prerelease suffix too, is offered as an update.
pub proof fn lemma_local_version_compared_whole(
    npm: String,
    bin_dirs: Vec<String>,
    t: Texts,
    local: String,
    s1: UpdateStep,
    next_stage: UpdateStage,
    request: UpdateRequest,
    latest: String,
    s2: UpdateStep,
)
    requires
        update_transition(
            UpdateStage::ReadingLocal { found_npm: Some(npm), bin_dirs },
            t,
            UpdateEvent::Version(Some(local)),
            s1,
        ),
        s1.next == Some((next_stage, request)),
        update_transition(next_stage, t, UpdateEvent::Version(Some(latest)), s2),
    ensures
        next_stage matches UpdateStage::ReadingLatest { local: l, .. } && l@ == local@,
        s2.next is None <==> latest@ == local@,
        latest@ != local@ ==> (s2.next matches Some((_, r)) && r is Confirm),
{
}

proof fn lemma_quote_at(s: Seq<char>, from: int, at: int)
    requires
        0 <= from <= at < s.len(),
        s[at] == '"',
        forall|j: int| from <= j < at ==> s[j] != '"',
    ensures
        quote_from(s, from) == Some(at),
    decreases at - from,
{
    if from < at {
        lemma_quote_at(s, from + 1, at);
    }
}

/// The menu is in Chinese exactly where the first quoted language begins
/// with `zh`, whatever script or region follows (`zh-Hans-CN`,
/// `zh-Hant-TW`, `zh-HK`): for output with no quote before the first
/// language and none inside it.
pub proof fn lemma_chinese_by_first_language(before: Seq<char>, lang: Seq<char>, after: Seq<char>)
    requires
        forall|j: int| 0 <= j < before.len() ==> before[j] != '"',
        forall|j: int| 0 <= j < lang.len() ==> lang[j] != '"',
    ensures
        prefers_chinese(Some(before + seq!['"'] + lang + seq!['"'] + after)) <==> (lang.len() >= 2
            && lang[0] == 'z' && lang[1] == 'h'),
{
    let s = before + seq!['"'] + lang + seq!['"'] + after;
    let start = before.len() as int;
    let end = start + 1 + lang.len();
    assert forall|j: int| 0 <= j < start implies s[j] != '"' by {
        assert(s[j] == before[j]);
    }
    lemma_quote_at(s, 0, start);
    assert forall|j: int| start + 1 <= j < end implies s[j] != '"' by {
        assert(s[j] == lang[j - start - 1]);
    }
    lemma_quote_at(s, start + 1, end);
    assert(s.subrange(start + 1, end) =~= lang);
    if lang.len() >= 2 && lang[0] == 'z' && lang[1] == 'h' {
        assert(lang.take(2) =~= seq!['z', 'h']);
    }
    if crate::text::starts_with(lang, seq!['z', 'h']) {
        assert(lang.take(2)[0] == 'z' && lang.take(2)[1] == 'h');
    }
}

/// Without output there is no preferred language, and the menu is in
/// English.
pub proof fn lemma_no_output_english()
    ensures
        !prefers_chinese(None),
{
}

/// The update runs only as confirmed: yes runs npm, the one that was found,
/// with the same directories; no ends the check without a word.
pub proof fn lemma_confirmation_followed(npm: String, bin_dirs: Vec<String>, t: Texts, yes: bool, s: UpdateStep)
    requires
        update_transition(
            UpdateStage::Confirming { npm, bin_dirs },
            t,
            UpdateEvent::Confirmed(yes),
            s,
        ),
    ensures
        yes ==> (s.next matches Some((stage, request)) && stage is Updating && (
        request matches UpdateRequest::Update { npm: n, bin_dirs: b } && n@ == npm@ && views(b@)
            == views(bin_dirs@))),
        yes ==> !s.restart,
        !yes ==> s.next is None && !s.restart && s.notices@.len() == 0,
{
}

/// Without dsh there is nothing to update: the check says dsh is not
/// installed and ends.
pub proof fn lemma_missing_dsh_is_reported(tc: Toolchain, t: Texts, s: UpdateStep)
    requires
        update_transition(UpdateStage::Detecting, t, UpdateEvent::Detected(tc), s),
        tc.dsh is None,
    ensures
        s.next is None,
        !s.restart,
        s.notices@.len() == 1 && s.notices@[0]@ == t.not_installed@,
{
}

/// Output with no double quote names no language: the menu is in English.
pub proof fn lemma_no_quote_english(output: Seq<char>)
    requires
        forall|j: int| 0 <= j < output.len() ==> output[j] != '"',
    ensures
        !prefers_chinese(Some(output)),
{
    lemma_no_quote_from(output, 0);
}

proof fn lemma_no_quote_from(s: Seq<char>, from: int)
    requires
        0 <= from,
        forall|j: int| from <= j < s.len() ==> s[j] != '"',
    ensures
        quote_from(s, from) is None,
    decreases s.len() - from,
{
    if from < s.len() {
        lemma_no_quote_from(s, from + 1);
    }
}

} // verus!
