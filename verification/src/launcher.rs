//! Starting our own `dsh web --no-open --port 0`: the arguments it gets, the
//! line of its output that announces the address, and the message when it
//! does not announce one in time.

use vstd::prelude::*;

use crate::text::{
    chars_of, decimal, decimal_string, fields, fields_of, starts_with, starts_with_chars,
    text_concat,
};

verus! {

/// How long to wait for the address: 60 seconds.
pub const SPAWN_TIMEOUT_SECS: u64 = 60;

pub open spec fn ready_prefix() -> Seq<char> {
    seq!['d', 's', 'h', ' ', 'w', 'e', 'b', ':', ' ']
}

/// The address that a line of `dsh web` output announces: after
/// `dsh web: `, the first whitespace-separated field (a LAN address may
/// follow it).
pub open spec fn announced_url(line: Seq<char>) -> Option<Seq<char>> {
    if starts_with(line, ready_prefix()) {
        let rest = line.skip(ready_prefix().len() as int);
        if fields(rest).len() > 0 {
            Some(fields(rest)[0])
        } else {
            None
        }
    } else {
        None
    }
}

/// The address, with its login token, that the output line `line`
/// announces, if it announces one.
pub fn ready_url(line: &str) -> (res: Option<String>)
    ensures
        match announced_url(line@) {
            Some(u) => res is Some && res->0@ == u,
            None => res is None,
        },
{
    let chars = chars_of(line);
    let prefix: Vec<char> = vec!['d', 's', 'h', ' ', 'w', 'e', 'b', ':', ' '];
    assert(prefix@ =~= ready_prefix());
    if !starts_with_chars(chars.as_slice(), prefix.as_slice()) {
        return None;
    }
    let mut rest: Vec<char> = Vec::new();
    let mut k: usize = prefix.len();
    while k < chars.len()
        invariant
            prefix.len() <= k <= chars.len(),
            rest@ == chars@.subrange(prefix.len() as int, k as int),
        decreases chars.len() - k,
    {
        rest.push(chars[k]);
        assert(rest@ =~= chars@.subrange(prefix.len() as int, k + 1));
        k += 1;
    }
    assert(rest@ =~= line@.skip(ready_prefix().len() as int));
    let mut fs = fields_of(rest.as_slice());
    if fs.len() == 0 {
        return None;
    }
    let first = fs.swap_remove(0);
    Some(first)
}

/// The arguments `dsh` is started with: serve the web page, open no
/// browser, take any free port.
pub fn spawn_args() -> (res: Vec<String>)
    ensures
        res@.len() == 4,
        res@[0]@ == "web"@,
        res@[1]@ == "--no-open"@,
        res@[2]@ == "--port"@,
        res@[3]@ == "0"@,
{
    let mut v: Vec<String> = Vec::new();
    v.push("web".to_string());
    v.push("--no-open".to_string());
    v.push("--port".to_string());
    v.push("0".to_string());
    v
}

/// The error when `dsh web` has not announced its address after `secs`
/// seconds.
pub fn spawn_timeout_message(secs: u64) -> (res: String)
    ensures
        res@ == "等待 dsh web 就绪超时（"@ + decimal(secs as nat) + " 秒）"@,
{
    let n = decimal_string(secs);
    let s = text_concat("等待 dsh web 就绪超时（", n.as_str());
    text_concat(s.as_str(), " 秒）")
}

} // verus!
