//! Finding the Node tool chain by absolute path: the candidate `bin`
//! directories (nvm versions newest first, then the usual install places),
//! the `dsh` and `npm` executables in them, the login shell as a last resort,
//! the `PATH` handed to child processes, and reading a version number that a
//! command printed.
//!
//! What the file system and the login shell answer comes from outside:
//! detection is a state machine that asks questions and is told the answers.

use vstd::prelude::*;

use crate::text::{
    all_digits, chars_of, copy_strings, decimal, decimal_string, join_strings, joined,
    lemma_decimal_digits, lemma_decimal_parses_back, lemma_split_joined, lemma_views_push,
    lines, lines_of, parse_unsigned, parse_unsigned_chars, split, split_of, string_of,
    text_concat, trim, trim_chars, views,
};

verus! {

// ---------------------------------------------------------------------------
// Paths
// ---------------------------------------------------------------------------

/// `rel`, a relative path, appended to `base` as `Path::join` appends it:
/// with a `/` between them unless `base` is empty or already ends in one.
pub open spec fn join_path(base: Seq<char>, rel: Seq<char>) -> Seq<char> {
    if base.len() == 0 {
        rel
    } else if base.last() == '/' {
        base + rel
    } else {
        base.push('/') + rel
    }
}

/// The path `p` joined with the relative path `rel`.
pub fn join_path_str(base: &str, rel: &str) -> (res: String)
    ensures
        res@ == join_path(base@, rel@),
{
    let mut out = chars_of(base);
    let r = chars_of(rel);
    if out.len() > 0 && out[out.len() - 1] != '/' {
        out.push('/');
    }
    let ghost before = out@;
    let mut i: usize = 0;
    while i < r.len()
        invariant
            i <= r.len(),
            out@ == before + r@.take(i as int),
        decreases r.len() - i,
    {
        out.push(r[i]);
        assert(before + r@.take(i as int).push(r@[i as int]) =~= before + r@.take(i + 1));
        i += 1;
    }
    assert(r@.take(r.len() as int) =~= r@);
    assert(out@ =~= join_path(base@, rel@));
    string_of(out.as_slice())
}

/// What `Path::parent` gives for the path `p`, as text.
pub uninterp spec fn path_parent(p: Seq<char>) -> Option<Seq<char>>;

pub open spec fn opt_view(o: Option<String>) -> Option<Seq<char>> {
    match o {
        Some(s) => Some(s@),
        None => None,
    }
}

/// `std::path::Path::parent` of `p`: the path without its last component;
/// `None` where `p` ends in a root or is empty. Taking the last component
/// off an absolute path leaves its root in front, so the parent of an
/// absolute path is absolute.
#[verifier::external_body]
fn parent_of(p: &str) -> (res: Option<String>)
    ensures
        opt_view(res) == path_parent(p@),
        is_absolute(p@) ==> opt_absolute(opt_view(res)),
{
    std::path::Path::new(p).parent().map(|dir| dir.to_string_lossy().into_owned())
}

// ---------------------------------------------------------------------------
// nvm versions
// ---------------------------------------------------------------------------

/// Each piece read as a `u64`, where every piece is one.
pub open spec fn parse_pieces(pieces: Seq<Seq<char>>) -> Option<Seq<u64>>
    decreases pieces.len(),
{
    if pieces.len() == 0 {
        Some(seq![])
    } else {
        match (parse_pieces(pieces.drop_last()), parse_unsigned(pieces.last(), u64::MAX as nat)) {
            (Some(before), Some(n)) => Some(before.push(n as u64)),
            _ => None,
        }
    }
}

/// The version that an nvm directory name such as `v24.16.0` denotes: a
/// `v`, then numbers separated by dots.
pub open spec fn version_of(name: Seq<char>) -> Option<Seq<u64>> {
    if name.len() > 0 && name[0] == 'v' {
        parse_pieces(split(name.drop_first(), '.'))
    } else {
        None
    }
}

/// The order of `Vec<u64>`: by the first differing number, and a proper
/// prefix before what it prefixes.
pub open spec fn version_lt(a: Seq<u64>, b: Seq<u64>) -> bool
    decreases a.len(),
{
    if a.len() == 0 {
        b.len() > 0
    } else if b.len() == 0 {
        false
    } else if a[0] != b[0] {
        a[0] < b[0]
    } else {
        version_lt(a.drop_first(), b.drop_first())
    }
}

/// The directory name `name` read as a version.
pub fn parse_version(name: &str) -> (res: Option<Vec<u64>>)
    ensures
        match version_of(name@) {
            Some(v) => res is Some && res->0@ == v,
            None => res is None,
        },
{
    let chars = chars_of(name);
    if chars.len() == 0 || chars[0] != 'v' {
        return None;
    }
    let mut rest: Vec<char> = Vec::new();
    let mut k: usize = 1;
    while k < chars.len()
        invariant
            1 <= k <= chars.len(),
            rest@ == chars@.subrange(1, k as int),
        decreases chars.len() - k,
    {
        rest.push(chars[k]);
        assert(rest@ =~= chars@.subrange(1, k + 1));
        k += 1;
    }
    assert(rest@ =~= name@.drop_first());
    let pieces = split_of(rest.as_slice(), '.');
    let ghost pv = pieces@.map_values(|p: Vec<char>| p@);
    assert(version_of(name@) == parse_pieces(pv));
    let mut numbers: Vec<u64> = Vec::new();
    assert(pv.take(0) =~= seq![]);
    let mut i: usize = 0;
    while i < pieces.len()
        invariant
            i <= pieces.len(),
            pv == pieces@.map_values(|p: Vec<char>| p@),
            version_of(name@) == parse_pieces(pv),
            parse_pieces(pv.take(i as int)) == Some(numbers@),
        decreases pieces.len() - i,
    {
        assert(pv.take(i + 1).drop_last() =~= pv.take(i as int));
        assert(pv.take(i + 1).last() == pieces@[i as int]@);
        match parse_unsigned_chars(pieces[i].as_slice(), u64::MAX) {
            Some(n) => {
                numbers.push(n);
            },
            None => {
                proof {
                    assert(parse_pieces(pv.take(i + 1)) is None);
                    lemma_parse_pieces_none(pv, i as int);
                }
                return None;
            },
        }
        i += 1;
    }
    assert(pv.take(pieces.len() as int) =~= pv);
    Some(numbers)
}

proof fn lemma_parse_pieces_none(ps: Seq<Seq<char>>, i: int)
    requires
        0 <= i < ps.len(),
        parse_pieces(ps.take(i + 1)) is None,
    ensures
        parse_pieces(ps) is None,
    decreases ps.len() - i,
{
    if i + 1 < ps.len() {
        assert(ps.take(i + 2).drop_last() =~= ps.take(i + 1));
        lemma_parse_pieces_none(ps, i + 1);
    } else {
        assert(ps.take(i + 1) =~= ps);
    }
}

/// Whether `a` orders before `b` as versions.
pub fn version_less(a: &Vec<u64>, b: &Vec<u64>) -> (res: bool)
    ensures
        res == version_lt(a@, b@),
{
    let mut i: usize = 0;
    assert(a@.skip(0) =~= a@);
    assert(b@.skip(0) =~= b@);
    while i < a.len() && i < b.len()
        invariant
            i <= a.len(),
            i <= b.len(),
            version_lt(a@, b@) == version_lt(a@.skip(i as int), b@.skip(i as int)),
        decreases a.len() - i,
    {
        if a[i] != b[i] {
            assert(a@.skip(i as int)[0] == a@[i as int]);
            assert(b@.skip(i as int)[0] == b@[i as int]);
            return a[i] < b[i];
        }
        assert(a@.skip(i as int).drop_first() =~= a@.skip(i + 1));
        assert(b@.skip(i as int).drop_first() =~= b@.skip(i + 1));
        i += 1;
    }
    i < b.len()
}

/// An nvm version directory: its version and its `bin` directory.
pub struct NvmBin {
    pub version: Vec<u64>,
    pub bin: String,
}

/// The `(version, bin directory)` of each nvm directory entry
/// `(file name, path)` whose name is a version, in entry order.
pub open spec fn versioned(entries: Seq<(Seq<char>, Seq<char>)>) -> Seq<(Seq<u64>, Seq<char>)>
    decreases entries.len(),
{
    if entries.len() == 0 {
        seq![]
    } else {
        let before = versioned(entries.drop_last());
        match version_of(entries.last().0) {
            Some(v) => before.push((v, join_path(entries.last().1, seq!['b', 'i', 'n']))),
            None => before,
        }
    }
}

/// `x` inserted into `sorted` before its first entry with a lower version:
/// after every entry with an equal or higher one.
pub open spec fn insert_by_version(sorted: Seq<(Seq<u64>, Seq<char>)>, x: (Seq<u64>, Seq<char>)) -> Seq<(Seq<u64>, Seq<char>)>
    decreases sorted.len(),
{
    if sorted.len() == 0 {
        seq![x]
    } else if version_lt(sorted[0].0, x.0) {
        seq![x] + sorted
    } else {
        seq![sorted[0]] + insert_by_version(sorted.drop_first(), x)
    }
}

/// `items` ordered by version, highest first, items of equal version in
/// their given order (a stable sort).
pub open spec fn by_version_desc(items: Seq<(Seq<u64>, Seq<char>)>) -> Seq<(Seq<u64>, Seq<char>)>
    decreases items.len(),
{
    if items.len() == 0 {
        seq![]
    } else {
        insert_by_version(by_version_desc(items.drop_last()), items.last())
    }
}

/// The nvm `bin` directories, newest version first.
pub open spec fn nvm_bins(entries: Seq<(Seq<char>, Seq<char>)>) -> Seq<Seq<char>> {
    by_version_desc(versioned(entries)).map_values(|x: (Seq<u64>, Seq<char>)| x.1)
}

pub open spec fn entry_views(entries: Seq<(String, String)>) -> Seq<(Seq<char>, Seq<char>)> {
    entries.map_values(|e: (String, String)| (e.0@, e.1@))
}

pub open spec fn nvm_views(v: Seq<NvmBin>) -> Seq<(Seq<u64>, Seq<char>)> {
    v.map_values(|x: NvmBin| (x.version@, x.bin@))
}

/// Versions descend, non-strictly, along `s`.
pub open spec fn descending(s: Seq<(Seq<u64>, Seq<char>)>) -> bool {
    forall|k: int, l: int| 0 <= k < l < s.len() ==> !version_lt(#[trigger] s[k].0, #[trigger] s[l].0)
}

fn insert_nvm(sorted: &mut Vec<NvmBin>, x: NvmBin)
    ensures
        nvm_views(final(sorted)@) == insert_by_version(nvm_views(old(sorted)@), (x.version@, x.bin@)),
{
    let ghost s0 = nvm_views(sorted@);
    let ghost xv = (x.version@, x.bin@);
    let mut p: usize = 0;
    assert(s0.take(0) + insert_by_version(s0.skip(0), xv) =~= insert_by_version(s0, xv)) by {
        assert(s0.skip(0) =~= s0);
    }
    while p < sorted.len() && !version_less(&sorted[p].version, &x.version)
        invariant
            p <= sorted.len(),
            s0 == nvm_views(sorted@),
            xv == (x.version@, x.bin@),
            insert_by_version(s0, xv) == s0.take(p as int) + insert_by_version(s0.skip(p as int), xv),
        decreases sorted.len() - p,
    {
        proof {
            let rest = s0.skip(p as int);
            assert(rest[0] == s0[p as int]);
            assert(s0[p as int].0 == sorted@[p as int].version@);
            assert(!version_lt(rest[0].0, xv.0));
            assert(rest.drop_first() =~= s0.skip(p + 1));
            assert(insert_by_version(rest, xv) == seq![rest[0]] + insert_by_version(
                rest.drop_first(),
                xv,
            ));
            assert(s0.take(p + 1) =~= s0.take(p as int) + seq![s0[p as int]]);
            assert(s0.take(p as int) + (seq![s0[p as int]] + insert_by_version(s0.skip(p + 1), xv))
                =~= s0.take(p + 1) + insert_by_version(s0.skip(p + 1), xv));
        }
        p += 1;
    }
    proof {
        let rest = s0.skip(p as int);
        if p < sorted.len() {
            assert(rest[0] == s0[p as int]);
            assert(s0[p as int].0 == sorted@[p as int].version@);
        }
        assert(insert_by_version(rest, xv) =~= seq![xv] + rest);
    }
    sorted.insert(p, x);
    assert(nvm_views(sorted@) =~= s0.take(p as int) + (seq![xv] + s0.skip(p as int)));
}

/// The `bin` directories of the nvm entries `(file name, path)` whose name
/// is a version, highest version first; equal versions keep entry order.
pub fn nvm_bin_dirs(entries: &Vec<(String, String)>) -> (res: Vec<String>)
    ensures
        views(res@) == nvm_bins(entry_views(entries@)),
{
    let ghost ev = entry_views(entries@);
    let mut sorted: Vec<NvmBin> = Vec::new();
    let ghost mut seen: Seq<(Seq<u64>, Seq<char>)> = seq![];
    let bin: Vec<char> = vec!['b', 'i', 'n'];
    let bin_str = string_of(bin.as_slice());
    let mut i: usize = 0;
    while i < entries.len()
        invariant
            i <= entries.len(),
            ev == entry_views(entries@),
            bin_str@ == seq!['b', 'i', 'n'],
            seen == versioned(ev.take(i as int)),
            nvm_views(sorted@) == by_version_desc(seen),
        decreases entries.len() - i,
    {
        proof {
            assert(ev.take(i + 1).drop_last() =~= ev.take(i as int));
            assert(ev.take(i + 1).last() == (entries@[i as int].0@, entries@[i as int].1@));
        }
        match parse_version(entries[i].0.as_str()) {
            Some(version) => {
                let dir = join_path_str(entries[i].1.as_str(), bin_str.as_str());
                let item = NvmBin { version, bin: dir };
                proof {
                    let xv = (item.version@, item.bin@);
                    assert(seen.push(xv).drop_last() =~= seen);
                    seen = seen.push(xv);
                }
                insert_nvm(&mut sorted, item);
            },
            None => {},
        }
        i += 1;
    }
    assert(ev.take(entries.len() as int) =~= ev);
    let mut res: Vec<String> = Vec::new();
    let mut k: usize = 0;
    while k < sorted.len()
        invariant
            k <= sorted.len(),
            views(res@) == nvm_views(sorted@).take(k as int).map_values(
                |x: (Seq<u64>, Seq<char>)| x.1,
            ),
        decreases sorted.len() - k,
    {
        let b = sorted[k].bin.clone();
        proof {
            lemma_views_push(res@, b);
            assert(nvm_views(sorted@).take(k + 1).map_values(|x: (Seq<u64>, Seq<char>)| x.1)
                =~= nvm_views(sorted@).take(k as int).map_values(|x: (Seq<u64>, Seq<char>)| x.1).push(
                sorted@[k as int].bin@,
            ));
        }
        res.push(b);
        k += 1;
    }
    assert(nvm_views(sorted@).take(sorted.len() as int) =~= nvm_views(sorted@));
    res
}


// ---------------------------------------------------------------------------
// Tool chain
// ---------------------------------------------------------------------------

/// What detection found on this machine.
pub struct Toolchain {
    /// Absolute path of the `dsh` executable; `None` where it is not installed.
    pub dsh: Option<String>,
    /// Absolute path of `npm`; `None` where the machine has no Node.
    pub npm: Option<String>,
    /// The candidate `bin` directories that exist, put first in the `PATH`
    /// of child processes so that `node` and `npm` are found.
    pub bin_dirs: Vec<String>,
}

impl Toolchain {
    /// The path of `dsh` where it is installed and `dsh --version` worked
    /// (`version` is what that call read back).
    pub fn usable_dsh(&self, version: &Option<String>) -> (res: Option<String>)
        ensures
            opt_view(res) == (if version is Some {
                opt_view(self.dsh)
            } else {
                None
            }),
    {
        match &self.dsh {
            Some(dsh) => if version.is_some() {
                Some(dsh.clone())
            } else {
                None
            },
            None => None,
        }
    }
}

/// The version that a `--version` or `npm view` run printed: its output
/// trimmed, where the run succeeded and the trimmed output is not empty.
pub open spec fn printed_version(succeeded: bool, stdout: Seq<char>) -> Option<Seq<char>> {
    if succeeded && trim(stdout).len() > 0 {
        Some(trim(stdout))
    } else {
        None
    }
}

/// The version a command printed, from whether it exited with success and
/// what it wrote to standard output.
pub fn version_from_output(succeeded: bool, stdout: &str) -> (res: Option<String>)
    ensures
        opt_view(res) == printed_version(succeeded, stdout@),
{
    if !succeeded {
        return None;
    }
    let chars = chars_of(stdout);
    let t = trim_chars(chars.as_slice());
    if t.len() == 0 {
        return None;
    }
    Some(string_of(t.as_slice()))
}

/// The system's default command directories, searched after the candidates.
pub open spec fn default_path() -> Seq<char> {
    seq!['/', 'u', 's', 'r', '/', 'b', 'i', 'n', ':', '/', 'b', 'i', 'n', ':', '/', 'u', 's', 'r',
        '/', 's', 'b', 'i', 'n', ':', '/', 's', 'b', 'i', 'n']
}

/// The `PATH` of child processes: the candidate directories first, then the
/// system default, then the `PATH` this process inherited, if it has one.
pub open spec fn child_path_of(bin_dirs: Seq<Seq<char>>, inherited: Option<Seq<char>>) -> Seq<char> {
    let parts = bin_dirs.push(default_path());
    joined(
        match inherited {
            Some(p) => parts.push(p),
            None => parts,
        },
        seq![':'],
    )
}

/// The `PATH` for a child process.
pub fn child_path(bin_dirs: &Vec<String>, inherited: &Option<String>) -> (res: String)
    ensures
        res@ == child_path_of(views(bin_dirs@), opt_view(*inherited)),
{
    let mut parts: Vec<String> = Vec::new();
    let mut i: usize = 0;
    while i < bin_dirs.len()
        invariant
            i <= bin_dirs.len(),
            views(parts@) == views(bin_dirs@).take(i as int),
        decreases bin_dirs.len() - i,
    {
        let d = bin_dirs[i].clone();
        proof {
            lemma_views_push(parts@, d);
            assert(views(bin_dirs@).take(i + 1) =~= views(bin_dirs@).take(i as int).push(
                bin_dirs@[i as int]@,
            ));
        }
        parts.push(d);
        i += 1;
    }
    assert(views(bin_dirs@).take(bin_dirs.len() as int) =~= views(bin_dirs@));
    let defaults: Vec<char> = vec![
        '/', 'u', 's', 'r', '/', 'b', 'i', 'n', ':', '/', 'b', 'i', 'n', ':', '/', 'u', 's', 'r',
        '/', 's', 'b', 'i', 'n', ':', '/', 's', 'b', 'i', 'n',
    ];
    let d = string_of(defaults.as_slice());
    assert(d@ =~= default_path());
    proof {
        lemma_views_push(parts@, d);
    }
    parts.push(d);
    match inherited {
        Some(p) => {
            let p = p.clone();
            proof {
                lemma_views_push(parts@, p);
            }
            parts.push(p);
        },
        None => {},
    }
    let sep: Vec<char> = vec![':'];
    let sep = string_of(sep.as_slice());
    assert(sep@ =~= seq![':']);
    join_strings(&parts, sep.as_str())
}

/// The last line of `ls` that, trimmed, begins with `/`, trimmed.
pub open spec fn last_absolute(ls: Seq<Seq<char>>) -> Option<Seq<char>>
    decreases ls.len(),
{
    if ls.len() == 0 {
        None
    } else if trim(ls.last()).len() > 0 && trim(ls.last())[0] == '/' {
        Some(trim(ls.last()))
    } else {
        last_absolute(ls.drop_last())
    }
}

/// The absolute path that `zsh -l -i -c 'command -v <name>'` printed: the
/// last line that is one (a `.zshrc` may print other lines first).
pub open spec fn shell_answer(stdout: Seq<char>) -> Option<Seq<char>> {
    last_absolute(lines(stdout))
}

/// The path that a login shell printed for a command.
pub fn login_shell_path(stdout: &str) -> (res: Option<String>)
    ensures
        opt_view(res) == shell_answer(stdout@),
{
    let chars = chars_of(stdout);
    let ls = lines_of(chars.as_slice());
    let ghost lv = views(ls@);
    let mut i: usize = ls.len();
    assert(lv.take(ls.len() as int) =~= lv);
    while i > 0
        invariant
            i <= ls.len(),
            lv == views(ls@),
            lv == lines(stdout@),
            last_absolute(lv) == last_absolute(lv.take(i as int)),
        decreases i,
    {
        let line = chars_of(ls[i - 1].as_str());
        let t = trim_chars(line.as_slice());
        proof {
            assert(lv.take(i as int).last() == ls@[i - 1]@);
            assert(lv.take(i as int).drop_last() =~= lv.take(i - 1));
        }
        if t.len() > 0 && t[0] == '/' {
            return Some(string_of(t.as_slice()));
        }
        i -= 1;
    }
    None
}

/// The script a login shell runs to find the command `name`.
pub open spec fn lookup_script(name: Seq<char>) -> Seq<char> {
    seq!['c', 'o', 'm', 'm', 'a', 'n', 'd', ' ', '-', 'v', ' '] + name
}

fn lookup_script_for(name: &str) -> (res: String)
    ensures
        res@ == lookup_script(name@),
{
    let mut out: Vec<char> = vec!['c', 'o', 'm', 'm', 'a', 'n', 'd', ' ', '-', 'v', ' '];
    let ghost before = out@;
    let n = chars_of(name);
    let mut i: usize = 0;
    while i < n.len()
        invariant
            i <= n.len(),
            out@ == before + n@.take(i as int),
        decreases n.len() - i,
    {
        out.push(n[i]);
        assert(before + n@.take(i as int).push(n@[i as int]) =~= before + n@.take(i + 1));
        i += 1;
    }
    assert(n@.take(n.len() as int) =~= n@);
    assert(out@ =~= lookup_script(name@));
    string_of(out.as_slice())
}


// ---------------------------------------------------------------------------
// Detection
// ---------------------------------------------------------------------------

pub open spec fn nvm_root() -> Seq<char> {
    seq!['.', 'n', 'v', 'm', '/', 'v', 'e', 'r', 's', 'i', 'o', 'n', 's', '/', 'n', 'o', 'd', 'e']
}

pub open spec fn homebrew_bin() -> Seq<char> {
    seq!['/', 'o', 'p', 't', '/', 'h', 'o', 'm', 'e', 'b', 'r', 'e', 'w', '/', 'b', 'i', 'n']
}

pub open spec fn usr_local_bin() -> Seq<char> {
    seq!['/', 'u', 's', 'r', '/', 'l', 'o', 'c', 'a', 'l', '/', 'b', 'i', 'n']
}

pub open spec fn hermes_bin() -> Seq<char> {
    seq!['.', 'h', 'e', 'r', 'm', 'e', 's', '/', 'n', 'o', 'd', 'e', '/', 'b', 'i', 'n']
}

pub open spec fn local_bin() -> Seq<char> {
    seq!['.', 'l', 'o', 'c', 'a', 'l', '/', 'b', 'i', 'n']
}

pub open spec fn word_dsh() -> Seq<char> {
    seq!['d', 's', 'h']
}

pub open spec fn word_npm() -> Seq<char> {
    seq!['n', 'p', 'm']
}

/// An absolute path: it begins with `/`.
pub open spec fn is_absolute(p: Seq<char>) -> bool {
    p.len() > 0 && p[0] == '/'
}

pub open spec fn absolute() -> spec_fn(Seq<char>) -> bool {
    |p: Seq<char>| is_absolute(p)
}

/// A home directory that paths can be found under: an absolute one. Where
/// `HOME` is unset, empty or relative, nothing is looked for under it.
pub open spec fn usable_home(home: Seq<char>) -> bool {
    is_absolute(home)
}

/// The fixed candidates: Homebrew and `/usr/local/bin`, then, under a
/// usable home, the hermes Node and `~/.local/bin`.
pub open spec fn fixed_dirs(home: Seq<char>) -> Seq<Seq<char>> {
    if usable_home(home) {
        seq![homebrew_bin(), usr_local_bin(), join_path(home, hermes_bin()), join_path(home, local_bin())]
    } else {
        seq![homebrew_bin(), usr_local_bin()]
    }
}

/// The directories that may hold `node`, `npm` and `dsh`, in the order they
/// are searched: nvm versions newest first (under a usable home, and only
/// those at absolute paths), Homebrew, `/usr/local/bin`, the hermes Node and
/// `~/.local/bin` (under a usable home). Every one is absolute.
pub open spec fn candidate_dirs(home: Seq<char>, entries: Seq<(Seq<char>, Seq<char>)>) -> Seq<Seq<char>> {
    (if usable_home(home) {
        nvm_bins(entries).filter(absolute())
    } else {
        seq![]
    }) + fixed_dirs(home)
}

/// The items whose flag is set; an item without a flag counts as unset.
pub open spec fn flagged(items: Seq<Seq<char>>, flags: Seq<bool>) -> Seq<Seq<char>>
    decreases items.len(),
{
    if items.len() == 0 {
        seq![]
    } else {
        let i = items.len() - 1;
        let before = flagged(items.drop_last(), flags);
        if i < flags.len() && flags[i] {
            before.push(items.last())
        } else {
            before
        }
    }
}

/// The first item whose flag is set.
pub open spec fn first_flagged(items: Seq<Seq<char>>, flags: Seq<bool>) -> Option<Seq<char>>
    decreases items.len(),
{
    if items.len() == 0 {
        None
    } else if flags.len() > 0 && flags[0] {
        Some(items[0])
    } else {
        first_flagged(items.drop_first(), if flags.len() > 0 { flags.drop_first() } else { flags })
    }
}

/// `name` in each of the directories.
pub open spec fn in_each(dirs: Seq<Seq<char>>, name: Seq<char>) -> Seq<Seq<char>> {
    dirs.map_values(|d: Seq<char>| join_path(d, name))
}

/// Where `npm` is looked for: beside `dsh` first, then in each directory.
pub open spec fn npm_paths(bin_dirs: Seq<Seq<char>>, dsh: Option<Seq<char>>) -> Seq<Seq<char>> {
    let beside = match dsh {
        Some(d) => match path_parent(d) {
            Some(dir) => seq![join_path(dir, word_npm())],
            None => seq![],
        },
        None => seq![],
    };
    beside + in_each(bin_dirs, word_npm())
}

/// A question that detection asks of the machine.
pub enum DetectQuery {
    /// The entries `(file name, path)` of a directory; none where it cannot
    /// be read.
    ListDir(String),
    /// Which of these paths are directories.
    Directories(Vec<String>),
    /// Which of these paths are files.
    Files(Vec<String>),
    /// What a login shell prints for this script (`zsh -l -i -c`), where it
    /// runs at all.
    LoginShell(String),
}

/// The machine's answer to a [`DetectQuery`].
pub enum DetectReply {
    Entries(Vec<(String, String)>),
    Present(Vec<bool>),
    Shell(Option<String>),
}

/// Where detection stands, waiting for the answer to its last question.
pub enum DetectStage {
    ListingNvm { home: String },
    CheckingDirs { candidates: Vec<String> },
    FindingDsh { bin_dirs: Vec<String> },
    AskingShellDsh { bin_dirs: Vec<String> },
    FindingNpm { bin_dirs: Vec<String>, dsh: Option<String>, paths: Vec<String> },
    AskingShellNpm { bin_dirs: Vec<String>, dsh: Option<String> },
}

/// What detection does next: ask another question, or report the result.
pub enum DetectNext {
    Ask(DetectStage, DetectQuery),
    Done(Toolchain),
}

pub struct ToolchainView {
    pub dsh: Option<Seq<char>>,
    pub npm: Option<Seq<char>>,
    pub bin_dirs: Seq<Seq<char>>,
}

pub enum QueryView {
    ListDir(Seq<char>),
    Directories(Seq<Seq<char>>),
    Files(Seq<Seq<char>>),
    LoginShell(Seq<char>),
}

pub enum ReplyView {
    Entries(Seq<(Seq<char>, Seq<char>)>),
    Present(Seq<bool>),
    Shell(Option<Seq<char>>),
}

pub enum StageView {
    ListingNvm(Seq<char>),
    CheckingDirs(Seq<Seq<char>>),
    FindingDsh(Seq<Seq<char>>),
    AskingShellDsh(Seq<Seq<char>>),
    FindingNpm(Seq<Seq<char>>, Option<Seq<char>>, Seq<Seq<char>>),
    AskingShellNpm(Seq<Seq<char>>, Option<Seq<char>>),
}

pub enum NextView {
    Ask(StageView, QueryView),
    Done(ToolchainView),
}

impl View for Toolchain {
    type V = ToolchainView;

    open spec fn view(&self) -> ToolchainView {
        ToolchainView { dsh: opt_view(self.dsh), npm: opt_view(self.npm), bin_dirs: views(self.bin_dirs@) }
    }
}

impl View for DetectQuery {
    type V = QueryView;

    open spec fn view(&self) -> QueryView {
        match self {
            DetectQuery::ListDir(p) => QueryView::ListDir(p@),
            DetectQuery::Directories(ps) => QueryView::Directories(views(ps@)),
            DetectQuery::Files(ps) => QueryView::Files(views(ps@)),
            DetectQuery::LoginShell(s) => QueryView::LoginShell(s@),
        }
    }
}

impl View for DetectReply {
    type V = ReplyView;

    open spec fn view(&self) -> ReplyView {
        match self {
            DetectReply::Entries(es) => ReplyView::Entries(entry_views(es@)),
            DetectReply::Present(fs) => ReplyView::Present(fs@),
            DetectReply::Shell(o) => ReplyView::Shell(opt_view(*o)),
        }
    }
}

impl View for DetectStage {
    type V = StageView;

    open spec fn view(&self) -> StageView {
        match self {
            DetectStage::ListingNvm { home } => StageView::ListingNvm(home@),
            DetectStage::CheckingDirs { candidates } => StageView::CheckingDirs(views(candidates@)),
            DetectStage::FindingDsh { bin_dirs } => StageView::FindingDsh(views(bin_dirs@)),
            DetectStage::AskingShellDsh { bin_dirs } => StageView::AskingShellDsh(views(bin_dirs@)),
            DetectStage::FindingNpm { bin_dirs, dsh, paths } => StageView::FindingNpm(
                views(bin_dirs@),
                opt_view(*dsh),
                views(paths@),
            ),
            DetectStage::AskingShellNpm { bin_dirs, dsh } => StageView::AskingShellNpm(
                views(bin_dirs@),
                opt_view(*dsh),
            ),
        }
    }
}

impl View for DetectNext {
    type V = NextView;

    open spec fn view(&self) -> NextView {
        match self {
            DetectNext::Ask(stage, query) => NextView::Ask(stage@, query@),
            DetectNext::Done(t) => NextView::Done(t@),
        }
    }
}

pub open spec fn reply_entries(r: ReplyView) -> Seq<(Seq<char>, Seq<char>)> {
    match r {
        ReplyView::Entries(es) => es,
        _ => seq![],
    }
}

pub open spec fn reply_flags(r: ReplyView) -> Seq<bool> {
    match r {
        ReplyView::Present(fs) => fs,
        _ => seq![],
    }
}

pub open spec fn reply_shell(r: ReplyView) -> Option<Seq<char>> {
    match r {
        ReplyView::Shell(Some(out)) => shell_answer(out),
        _ => None,
    }
}

/// The first step of detection, given `$HOME` (empty where unset): list
/// the nvm version directories under a usable home; without one, check the
/// fixed candidates at once.
pub open spec fn detect_start(home: Seq<char>) -> NextView {
    if usable_home(home) {
        NextView::Ask(StageView::ListingNvm(home), QueryView::ListDir(join_path(home, nvm_root())))
    } else {
        NextView::Ask(
            StageView::CheckingDirs(fixed_dirs(home)),
            QueryView::Directories(fixed_dirs(home)),
        )
    }
}

/// Detection once `dsh` is settled: look for `npm`.
pub open spec fn look_for_npm(bin_dirs: Seq<Seq<char>>, dsh: Option<Seq<char>>) -> NextView {
    let paths = npm_paths(bin_dirs, dsh);
    NextView::Ask(StageView::FindingNpm(bin_dirs, dsh, paths), QueryView::Files(paths))
}

/// One step of detection: the stage it was in and the answer it got give
/// what it does next.
pub open spec fn detect_transition(stage: StageView, reply: ReplyView) -> NextView {
    match stage {
        StageView::ListingNvm(home) => {
            let candidates = candidate_dirs(home, reply_entries(reply));
            NextView::Ask(StageView::CheckingDirs(candidates), QueryView::Directories(candidates))
        },
        StageView::CheckingDirs(candidates) => {
            let bin_dirs = flagged(candidates, reply_flags(reply));
            let paths = in_each(bin_dirs, word_dsh());
            NextView::Ask(StageView::FindingDsh(bin_dirs), QueryView::Files(paths))
        },
        StageView::FindingDsh(bin_dirs) => match first_flagged(
            in_each(bin_dirs, word_dsh()),
            reply_flags(reply),
        ) {
            Some(dsh) => look_for_npm(bin_dirs, Some(dsh)),
            None => NextView::Ask(
                StageView::AskingShellDsh(bin_dirs),
                QueryView::LoginShell(lookup_script(word_dsh())),
            ),
        },
        StageView::AskingShellDsh(bin_dirs) => look_for_npm(bin_dirs, reply_shell(reply)),
        StageView::FindingNpm(bin_dirs, dsh, paths) => match first_flagged(paths, reply_flags(reply)) {
            Some(npm) => NextView::Done(ToolchainView { dsh, npm: Some(npm), bin_dirs }),
            None => NextView::Ask(
                StageView::AskingShellNpm(bin_dirs, dsh),
                QueryView::LoginShell(lookup_script(word_npm())),
            ),
        },
        StageView::AskingShellNpm(bin_dirs, dsh) => NextView::Done(
            ToolchainView { dsh, npm: reply_shell(reply), bin_dirs },
        ),
    }
}

/// Every path of `ps` is absolute.
pub open spec fn all_absolute(ps: Seq<Seq<char>>) -> bool {
    forall|i: int| 0 <= i < ps.len() ==> is_absolute(#[trigger] ps[i])
}

/// A path, where there is one, is absolute.
pub open spec fn opt_absolute(o: Option<Seq<char>>) -> bool {
    match o {
        Some(p) => is_absolute(p),
        None => true,
    }
}

/// A tool chain whose `dsh`, `npm` and `bin` directories are all absolute.
pub open spec fn toolchain_absolute(t: ToolchainView) -> bool {
    opt_absolute(t.dsh) && opt_absolute(t.npm) && all_absolute(t.bin_dirs)
}

/// A stage of detection that holds absolute paths only.
pub open spec fn stage_absolute(s: StageView) -> bool {
    match s {
        StageView::ListingNvm(_) => true,
        StageView::CheckingDirs(c) => all_absolute(c),
        StageView::FindingDsh(b) => all_absolute(b),
        StageView::AskingShellDsh(b) => all_absolute(b),
        StageView::FindingNpm(b, dsh, paths) => all_absolute(b) && opt_absolute(dsh) && all_absolute(
            paths,
        ),
        StageView::AskingShellNpm(b, dsh) => all_absolute(b) && opt_absolute(dsh),
    }
}

/// A next step of detection that holds absolute paths only.
pub open spec fn next_absolute(n: NextView) -> bool {
    match n {
        NextView::Ask(s, _) => stage_absolute(s),
        NextView::Done(t) => toolchain_absolute(t),
    }
}

proof fn lemma_join_absolute(base: Seq<char>, rel: Seq<char>)
    requires
        is_absolute(base),
    ensures
        is_absolute(join_path(base, rel)),
{
    if base.last() == '/' {
        assert((base + rel)[0] == base[0]);
    } else {
        assert((base.push('/') + rel)[0] == base[0]);
    }
}

proof fn lemma_in_each_absolute(dirs: Seq<Seq<char>>, name: Seq<char>)
    requires
        all_absolute(dirs),
    ensures
        all_absolute(in_each(dirs, name)),
{
    assert forall|i: int| 0 <= i < in_each(dirs, name).len() implies is_absolute(
        #[trigger] in_each(dirs, name)[i],
    ) by {
        lemma_join_absolute(dirs[i], name);
    }
}

proof fn lemma_flagged_absolute(items: Seq<Seq<char>>, flags: Seq<bool>)
    requires
        all_absolute(items),
    ensures
        all_absolute(flagged(items, flags)),
    decreases items.len(),
{
    if items.len() > 0 {
        let before = flagged(items.drop_last(), flags);
        assert(all_absolute(items.drop_last()));
        lemma_flagged_absolute(items.drop_last(), flags);
        assert(is_absolute(items.last()));
        assert(all_absolute(before.push(items.last())));
    }
}

proof fn lemma_first_flagged_absolute(items: Seq<Seq<char>>, flags: Seq<bool>)
    requires
        all_absolute(items),
    ensures
        opt_absolute(first_flagged(items, flags)),
    decreases items.len(),
{
    if items.len() > 0 {
        assert(is_absolute(items[0]));
        assert(all_absolute(items.drop_first()));
        lemma_first_flagged_absolute(
            items.drop_first(),
            if flags.len() > 0 { flags.drop_first() } else { flags },
        );
    }
}

proof fn lemma_last_absolute_is(ls: Seq<Seq<char>>)
    ensures
        opt_absolute(last_absolute(ls)),
    decreases ls.len(),
{
    if ls.len() > 0 {
        lemma_last_absolute_is(ls.drop_last());
    }
}

proof fn lemma_fixed_dirs_absolute(home: Seq<char>)
    ensures
        all_absolute(fixed_dirs(home)),
{
    assert(is_absolute(homebrew_bin()));
    assert(is_absolute(usr_local_bin()));
    if usable_home(home) {
        lemma_join_absolute(home, hermes_bin());
        lemma_join_absolute(home, local_bin());
    }
}

proof fn lemma_candidate_dirs_absolute(home: Seq<char>, entries: Seq<(Seq<char>, Seq<char>)>)
    ensures
        all_absolute(candidate_dirs(home, entries)),
{
    let nvm: Seq<Seq<char>> = if usable_home(home) {
        nvm_bins(entries).filter(absolute())
    } else {
        seq![]
    };
    assert(all_absolute(nvm)) by {
        broadcast use vstd::seq_lib::group_filter_ensures;

    }
    lemma_fixed_dirs_absolute(home);
    let all = nvm + fixed_dirs(home);
    assert forall|i: int| 0 <= i < all.len() implies is_absolute(#[trigger] all[i]) by {
        if i < nvm.len() {
            assert(all[i] == nvm[i]);
        } else {
            assert(all[i] == fixed_dirs(home)[i - nvm.len()]);
        }
    }
}

/// `Path::parent` keeps the root of the path `dsh`, where there is one and
/// it is absolute ([`parent_of`] states it of each path it is called on).
pub open spec fn keeps_root(dsh: Option<Seq<char>>) -> bool {
    match dsh {
        Some(p) => is_absolute(p) ==> opt_absolute(path_parent(p)),
        None => true,
    }
}

/// `Path::parent` keeps the root of every absolute path.
pub open spec fn parents_keep_root() -> bool {
    forall|p: Seq<char>| is_absolute(p) ==> opt_absolute(#[trigger] path_parent(p))
}

proof fn lemma_npm_paths_absolute(bin_dirs: Seq<Seq<char>>, dsh: Option<Seq<char>>)
    requires
        all_absolute(bin_dirs),
        opt_absolute(dsh),
        keeps_root(dsh),
    ensures
        all_absolute(npm_paths(bin_dirs, dsh)),
{
    let beside: Seq<Seq<char>> = match dsh {
        Some(d) => match path_parent(d) {
            Some(dir) => seq![join_path(dir, word_npm())],
            None => seq![],
        },
        None => seq![],
    };
    match dsh {
        Some(d) => match path_parent(d) {
            Some(dir) => {
                lemma_join_absolute(dir, word_npm());
            },
            None => {},
        },
        None => {},
    }
    assert(all_absolute(beside));
    lemma_in_each_absolute(bin_dirs, word_npm());
    let rest = in_each(bin_dirs, word_npm());
    let all = beside + rest;
    assert(npm_paths(bin_dirs, dsh) == all);
    assert forall|i: int| 0 <= i < all.len() implies is_absolute(#[trigger] all[i]) by {
        if i < beside.len() {
            assert(all[i] == beside[i]);
        } else {
            assert(all[i] == rest[i - beside.len()]);
        }
    }
}

/// The `dsh` that detection settles on in a stage that holds absolute paths
/// is absolute, whatever the machine answers.
proof fn lemma_found_dsh_absolute(stage: StageView, reply: ReplyView)
    requires
        stage_absolute(stage),
    ensures
        stage matches StageView::FindingDsh(bin_dirs) ==> opt_absolute(
            first_flagged(in_each(bin_dirs, word_dsh()), reply_flags(reply)),
        ),
        stage is AskingShellDsh ==> opt_absolute(reply_shell(reply)),
{
    match stage {
        StageView::FindingDsh(bin_dirs) => {
            lemma_in_each_absolute(bin_dirs, word_dsh());
            lemma_first_flagged_absolute(in_each(bin_dirs, word_dsh()), reply_flags(reply));
        },
        StageView::AskingShellDsh(_) => {
            match reply {
                ReplyView::Shell(Some(out)) => lemma_last_absolute_is(lines(out)),
                _ => {},
            }
        },
        _ => {},
    }
}

/// The steps of detection other than settling `dsh` keep paths absolute.
proof fn lemma_other_steps_absolute(stage: StageView, reply: ReplyView)
    requires
        stage_absolute(stage),
        !(stage is FindingDsh),
        !(stage is AskingShellDsh),
    ensures
        next_absolute(detect_transition(stage, reply)),
{
    match stage {
        StageView::ListingNvm(home) => {
            lemma_candidate_dirs_absolute(home, reply_entries(reply));
        },
        StageView::CheckingDirs(candidates) => {
            lemma_flagged_absolute(candidates, reply_flags(reply));
        },
        StageView::FindingNpm(bin_dirs, dsh, paths) => {
            lemma_first_flagged_absolute(paths, reply_flags(reply));
        },
        StageView::AskingShellNpm(bin_dirs, dsh) => {
            match reply {
                ReplyView::Shell(Some(out)) => lemma_last_absolute_is(lines(out)),
                _ => {},
            }
        },
        _ => {},
    }
}

/// Detection deals in absolute paths only: from a stage that holds absolute
/// paths, whatever the machine answers, the next stage holds absolute paths
/// only, and so does a result: the `bin` directories, and `dsh` and `npm`
/// where they were found. It rests on `Path::parent` keeping the root of an
/// absolute path (`npm` is looked for beside `dsh`), which
/// [`DetectStage::step`] has from each call it makes.
pub proof fn lemma_detection_stays_absolute(stage: StageView, reply: ReplyView)
    requires
        stage_absolute(stage),
        parents_keep_root(),
    ensures
        next_absolute(detect_transition(stage, reply)),
{
    lemma_found_dsh_absolute(stage, reply);
    match stage {
        StageView::ListingNvm(home) => {
            lemma_candidate_dirs_absolute(home, reply_entries(reply));
        },
        StageView::CheckingDirs(candidates) => {
            lemma_flagged_absolute(candidates, reply_flags(reply));
        },
        StageView::FindingDsh(bin_dirs) => {
            let found = first_flagged(in_each(bin_dirs, word_dsh()), reply_flags(reply));
            lemma_npm_paths_absolute(bin_dirs, found);
        },
        StageView::AskingShellDsh(bin_dirs) => {
            lemma_npm_paths_absolute(bin_dirs, reply_shell(reply));
        },
        _ => {
            lemma_other_steps_absolute(stage, reply);
        },
    }
}

/// Whether the path `p` is absolute.
pub fn is_absolute_str(p: &str) -> (res: bool)
    ensures
        res == is_absolute(p@),
{
    let cs = chars_of(p);
    cs.len() > 0 && cs[0] == '/'
}

/// The absolute paths among `paths`, in order.
fn absolute_only(paths: Vec<String>) -> (res: Vec<String>)
    ensures
        views(res@) == views(paths@).filter(absolute()),
{
    let ghost pv = views(paths@);
    let mut res: Vec<String> = Vec::new();
    let mut i: usize = 0;
    while i < paths.len()
        invariant
            i <= paths.len(),
            pv == views(paths@),
            views(res@) == pv.take(i as int).filter(absolute()),
        decreases paths.len() - i,
    {
        proof {
            assert(pv.take(i + 1) =~= pv.take(i as int).push(pv[i as int]));
            pv.take(i as int).lemma_filter_push(pv[i as int], absolute());
            assert(pv[i as int] == paths@[i as int]@);
        }
        if is_absolute_str(paths[i].as_str()) {
            let p = paths[i].clone();
            proof {
                lemma_views_push(res@, p);
            }
            res.push(p);
        }
        i += 1;
    }
    assert(pv.take(paths.len() as int) =~= pv);
    res
}

/// The fixed candidate directories for the home directory `home`.
fn fixed_candidates(home: &String) -> (res: Vec<String>)
    ensures
        views(res@) == fixed_dirs(home@),
{
    let brew = literal(
        &['/', 'o', 'p', 't', '/', 'h', 'o', 'm', 'e', 'b', 'r', 'e', 'w', '/', 'b', 'i', 'n'],
    );
    assert(brew@ =~= homebrew_bin());
    let usr = literal(&['/', 'u', 's', 'r', '/', 'l', 'o', 'c', 'a', 'l', '/', 'b', 'i', 'n']);
    assert(usr@ =~= usr_local_bin());
    let mut res: Vec<String> = Vec::new();
    proof {
        lemma_views_push(res@, brew);
        lemma_views_push(res@.push(brew), usr);
    }
    res.push(brew);
    res.push(usr);
    if is_absolute_str(home.as_str()) {
        let hermes = literal(
            &['.', 'h', 'e', 'r', 'm', 'e', 's', '/', 'n', 'o', 'd', 'e', '/', 'b', 'i', 'n'],
        );
        assert(hermes@ =~= hermes_bin());
        let local = literal(&['.', 'l', 'o', 'c', 'a', 'l', '/', 'b', 'i', 'n']);
        assert(local@ =~= local_bin());
        let a = join_path_str(home.as_str(), hermes.as_str());
        let b = join_path_str(home.as_str(), local.as_str());
        proof {
            lemma_views_push(res@, a);
            lemma_views_push(res@.push(a), b);
        }
        res.push(a);
        res.push(b);
    }
    assert(views(res@) =~= fixed_dirs(home@));
    res
}

fn literal(cs: &[char]) -> (res: String)
    ensures
        res@ == cs@,
{
    string_of(cs)
}

/// `name` in each of `dirs`.
fn in_each_dir(dirs: &Vec<String>, name: &str) -> (res: Vec<String>)
    ensures
        views(res@) == in_each(views(dirs@), name@),
{
    let mut res: Vec<String> = Vec::new();
    let mut i: usize = 0;
    while i < dirs.len()
        invariant
            i <= dirs.len(),
            views(res@) == in_each(views(dirs@), name@).take(i as int),
        decreases dirs.len() - i,
    {
        let p = join_path_str(dirs[i].as_str(), name);
        proof {
            lemma_views_push(res@, p);
            assert(in_each(views(dirs@), name@).take(i + 1) =~= in_each(views(dirs@), name@).take(
                i as int,
            ).push(join_path(dirs@[i as int]@, name@)));
        }
        res.push(p);
        i += 1;
    }
    assert(in_each(views(dirs@), name@).take(dirs.len() as int) =~= in_each(views(dirs@), name@));
    res
}

/// The items whose flag is set.
fn flagged_items(items: &Vec<String>, flags: &Vec<bool>) -> (res: Vec<String>)
    ensures
        views(res@) == flagged(views(items@), flags@),
{
    let mut res: Vec<String> = Vec::new();
    let mut i: usize = 0;
    while i < items.len()
        invariant
            i <= items.len(),
            views(res@) == flagged(views(items@).take(i as int), flags@),
        decreases items.len() - i,
    {
        proof {
            assert(views(items@).take(i + 1).drop_last() =~= views(items@).take(i as int));
            assert(views(items@).take(i + 1).last() == items@[i as int]@);
        }
        if i < flags.len() && flags[i] {
            let it = items[i].clone();
            proof {
                lemma_views_push(res@, it);
            }
            res.push(it);
        }
        i += 1;
    }
    assert(views(items@).take(items.len() as int) =~= views(items@));
    res
}

/// The first item whose flag is set.
fn first_flagged_item(items: &Vec<String>, flags: &Vec<bool>) -> (res: Option<String>)
    ensures
        opt_view(res) == first_flagged(views(items@), flags@),
{
    let mut i: usize = 0;
    assert(views(items@).skip(0) =~= views(items@));
    assert(flags@.skip(0) =~= flags@);
    while i < items.len()
        invariant
            i <= items.len(),
            first_flagged(views(items@), flags@) == first_flagged(
                views(items@).skip(i as int),
                if i <= flags.len() { flags@.skip(i as int) } else { seq![] },
            ),
        decreases items.len() - i,
    {
        let ghost rest = views(items@).skip(i as int);
        let ghost fl = if i <= flags.len() { flags@.skip(i as int) } else { seq![] };
        assert(rest[0] == items@[i as int]@);
        assert(rest.drop_first() =~= views(items@).skip(i + 1));
        if i < flags.len() {
            assert(fl[0] == flags@[i as int]);
            assert(fl.drop_first() =~= flags@.skip(i + 1));
        } else {
            assert(fl.len() == 0);
            assert(fl =~= seq![]);
        }
        if i < flags.len() && flags[i] {
            return Some(items[i].clone());
        }
        i += 1;
    }
    None
}

fn entries_of(reply: DetectReply) -> (res: Vec<(String, String)>)
    ensures
        entry_views(res@) == reply_entries(reply@),
{
    match reply {
        DetectReply::Entries(es) => es,
        _ => {
            let v: Vec<(String, String)> = Vec::new();
            assert(entry_views(v@) =~= seq![]);
            v
        },
    }
}

fn flags_of(reply: DetectReply) -> (res: Vec<bool>)
    ensures
        res@ == reply_flags(reply@),
{
    match reply {
        DetectReply::Present(fs) => fs,
        _ => Vec::new(),
    }
}

fn shell_of(reply: DetectReply) -> (res: Option<String>)
    ensures
        opt_view(res) == reply_shell(reply@),
{
    match reply {
        DetectReply::Shell(Some(out)) => login_shell_path(out.as_str()),
        _ => None,
    }
}

fn ask_npm(bin_dirs: Vec<String>, dsh: Option<String>) -> (res: DetectNext)
    ensures
        res@ == look_for_npm(views(bin_dirs@), opt_view(dsh)),
        all_absolute(views(bin_dirs@)) && opt_absolute(opt_view(dsh)) ==> next_absolute(res@),
{
    let npm_word = literal(&['n', 'p', 'm']);
    assert(npm_word@ =~= word_npm());
    let mut paths: Vec<String> = Vec::new();
    let ghost beside: Seq<Seq<char>> = seq![];
    match &dsh {
        Some(d) => match parent_of(d.as_str()) {
            Some(dir) => {
                let p = join_path_str(dir.as_str(), npm_word.as_str());
                proof {
                    assert(keeps_root(opt_view(dsh)));
                    lemma_views_push(paths@, p);
                }
                paths.push(p);
            },
            None => {
                assert(keeps_root(opt_view(dsh)));
            },
        },
        None => {},
    }
    assert(keeps_root(opt_view(dsh)));
    let ghost first = views(paths@);
    let rest = in_each_dir(&bin_dirs, npm_word.as_str());
    let mut i: usize = 0;
    while i < rest.len()
        invariant
            i <= rest.len(),
            views(paths@) == first + views(rest@).take(i as int),
        decreases rest.len() - i,
    {
        let p = rest[i].clone();
        proof {
            lemma_views_push(paths@, p);
            assert(first + views(rest@).take(i + 1) =~= (first + views(rest@).take(i as int)).push(
                rest@[i as int]@,
            ));
        }
        paths.push(p);
        i += 1;
    }
    assert(views(rest@).take(rest.len() as int) =~= views(rest@));
    assert(views(paths@) =~= npm_paths(views(bin_dirs@), opt_view(dsh)));
    proof {
        if all_absolute(views(bin_dirs@)) && opt_absolute(opt_view(dsh)) {
            lemma_npm_paths_absolute(views(bin_dirs@), opt_view(dsh));
        }
    }
    let query = DetectQuery::Files(copy_strings(&paths));
    DetectNext::Ask(DetectStage::FindingNpm { bin_dirs, dsh, paths }, query)
}

/// The start of detection, given `$HOME` where it is set.
pub fn detect(home: &Option<String>) -> (res: DetectNext)
    ensures
        res@ == detect_start(match opt_view(*home) {
            Some(h) => h,
            None => seq![],
        }),
        next_absolute(res@),
{
    let h = match home {
        Some(h) => h.clone(),
        None => String::new(),
    };
    let res = if is_absolute_str(h.as_str()) {
        let root = literal(
            &['.', 'n', 'v', 'm', '/', 'v', 'e', 'r', 's', 'i', 'o', 'n', 's', '/', 'n', 'o', 'd', 'e'],
        );
        assert(root@ =~= nvm_root());
        let dir = join_path_str(h.as_str(), root.as_str());
        DetectNext::Ask(DetectStage::ListingNvm { home: h }, DetectQuery::ListDir(dir))
    } else {
        let candidates = fixed_candidates(&h);
        let query = DetectQuery::Directories(copy_strings(&candidates));
        DetectNext::Ask(DetectStage::CheckingDirs { candidates }, query)
    };
    proof {
        lemma_fixed_dirs_absolute(h@);
        assert(h@ == match opt_view(*home) {
            Some(x) => x,
            None => seq![],
        });
    }
    res
}

impl DetectStage {
    /// The next step of detection, given the answer to the last question.
    pub fn step(self, reply: DetectReply) -> (res: DetectNext)
        ensures
            res@ == detect_transition(self@, reply@),
            stage_absolute(self@) ==> next_absolute(res@),
    {
        proof {
            if stage_absolute(self@) {
                lemma_found_dsh_absolute(self@, reply@);
                if !(self@ is FindingDsh) && !(self@ is AskingShellDsh) {
                    lemma_other_steps_absolute(self@, reply@);
                }
            }
        }
        match self {
            DetectStage::ListingNvm { home } => {
                let entries = entries_of(reply);
                let mut candidates = if is_absolute_str(home.as_str()) {
                    absolute_only(nvm_bin_dirs(&entries))
                } else {
                    Vec::new()
                };
                let ghost first = views(candidates@);
                let fixed = fixed_candidates(&home);
                let mut i: usize = 0;
                while i < fixed.len()
                    invariant
                        i <= fixed.len(),
                        views(candidates@) == first + views(fixed@).take(i as int),
                    decreases fixed.len() - i,
                {
                    let d = fixed[i].clone();
                    proof {
                        lemma_views_push(candidates@, d);
                        assert(first + views(fixed@).take(i + 1) =~= (first + views(fixed@).take(
                            i as int,
                        )).push(fixed@[i as int]@));
                    }
                    candidates.push(d);
                    i += 1;
                }
                assert(views(fixed@).take(fixed.len() as int) =~= views(fixed@));
                assert(views(candidates@) =~= candidate_dirs(home@, entry_views(entries@)));
                let query = DetectQuery::Directories(copy_strings(&candidates));
                DetectNext::Ask(DetectStage::CheckingDirs { candidates }, query)
            },
            DetectStage::CheckingDirs { candidates } => {
                let flags = flags_of(reply);
                let bin_dirs = flagged_items(&candidates, &flags);
                let dsh_word = literal(&['d', 's', 'h']);
                assert(dsh_word@ =~= word_dsh());
                let paths = in_each_dir(&bin_dirs, dsh_word.as_str());
                DetectNext::Ask(DetectStage::FindingDsh { bin_dirs }, DetectQuery::Files(paths))
            },
            DetectStage::FindingDsh { bin_dirs } => {
                let flags = flags_of(reply);
                let dsh_word = literal(&['d', 's', 'h']);
                assert(dsh_word@ =~= word_dsh());
                let paths = in_each_dir(&bin_dirs, dsh_word.as_str());
                match first_flagged_item(&paths, &flags) {
                    Some(dsh) => ask_npm(bin_dirs, Some(dsh)),
                    None => {
                        let script = lookup_script_for(dsh_word.as_str());
                        DetectNext::Ask(
                            DetectStage::AskingShellDsh { bin_dirs },
                            DetectQuery::LoginShell(script),
                        )
                    },
                }
            },
            DetectStage::AskingShellDsh { bin_dirs } => {
                let dsh = shell_of(reply);
                ask_npm(bin_dirs, dsh)
            },
            DetectStage::FindingNpm { bin_dirs, dsh, paths } => {
                let flags = flags_of(reply);
                match first_flagged_item(&paths, &flags) {
                    Some(npm) => DetectNext::Done(Toolchain { dsh, npm: Some(npm), bin_dirs }),
                    None => {
                        let npm_word = literal(&['n', 'p', 'm']);
                        assert(npm_word@ =~= word_npm());
                        let script = lookup_script_for(npm_word.as_str());
                        DetectNext::Ask(
                            DetectStage::AskingShellNpm { bin_dirs, dsh },
                            DetectQuery::LoginShell(script),
                        )
                    },
                }
            },
            DetectStage::AskingShellNpm { bin_dirs, dsh } => {
                let npm = shell_of(reply);
                DetectNext::Done(Toolchain { dsh, npm, bin_dirs })
            },
        }
    }
}


// ---------------------------------------------------------------------------
// Laws of the version order
// ---------------------------------------------------------------------------

/// No version orders before itself.
pub proof fn lemma_version_lt_irreflexive(a: Seq<u64>)
    ensures
        !version_lt(a, a),
    decreases a.len(),
{
    if a.len() > 0 {
        lemma_version_lt_irreflexive(a.drop_first());
    }
}

/// Of two versions, at most one orders before the other.
pub proof fn lemma_version_lt_asymmetric(a: Seq<u64>, b: Seq<u64>)
    ensures
        !(version_lt(a, b) && version_lt(b, a)),
    decreases a.len(),
{
    if a.len() > 0 && b.len() > 0 && a[0] == b[0] {
        lemma_version_lt_asymmetric(a.drop_first(), b.drop_first());
    }
}

/// Of two different versions, one orders before the other.
pub proof fn lemma_version_lt_total(a: Seq<u64>, b: Seq<u64>)
    ensures
        a == b || version_lt(a, b) || version_lt(b, a),
    decreases a.len(),
{
    if a.len() > 0 && b.len() > 0 && a[0] == b[0] {
        lemma_version_lt_total(a.drop_first(), b.drop_first());
        if a.drop_first() == b.drop_first() {
            assert(a =~= seq![a[0]] + a.drop_first());
            assert(b =~= seq![b[0]] + b.drop_first());
        }
    } else if a.len() == 0 && b.len() == 0 {
        assert(a =~= b);
    }
}

/// The version order is transitive.
pub proof fn lemma_version_lt_transitive(a: Seq<u64>, b: Seq<u64>, c: Seq<u64>)
    requires
        version_lt(a, b),
        version_lt(b, c),
    ensures
        version_lt(a, c),
    decreases a.len(),
{
    if a.len() > 0 && b.len() > 0 && c.len() > 0 && a[0] == b[0] && b[0] == c[0] {
        lemma_version_lt_transitive(a.drop_first(), b.drop_first(), c.drop_first());
    }
}

/// "Not before" is transitive too.
proof fn lemma_version_not_lt_transitive(a: Seq<u64>, b: Seq<u64>, c: Seq<u64>)
    requires
        !version_lt(a, b),
        !version_lt(b, c),
    ensures
        !version_lt(a, c),
{
    if version_lt(a, c) {
        lemma_version_lt_total(a, b);
        lemma_version_lt_total(b, c);
        if a == b {
        } else if b == c {
        } else {
            lemma_version_lt_transitive(c, b, a);
            lemma_version_lt_asymmetric(a, c);
        }
    }
}

proof fn lemma_insert_keeps_items(s: Seq<(Seq<u64>, Seq<char>)>, x: (Seq<u64>, Seq<char>))
    ensures
        insert_by_version(s, x).to_multiset() == s.to_multiset().insert(x),
    decreases s.len(),
{
    broadcast use vstd::multiset::group_multiset_axioms;
    let e: Seq<(Seq<u64>, Seq<char>)> = seq![];
    vstd::seq_lib::lemma_multiset_commutative(seq![x], s);
    e.to_multiset_ensures();
    assert(e.push(x) =~= seq![x]);
    if s.len() == 0 {
        assert(s =~= e);
        assert(insert_by_version(s, x) == seq![x]);
    } else if version_lt(s[0].0, x.0) {
        assert(seq![x].to_multiset() =~= vstd::multiset::Multiset::empty().insert(x));
        assert(seq![x].to_multiset().add(s.to_multiset()) =~= s.to_multiset().insert(x));
    } else {
        let rest = s.drop_first();
        lemma_insert_keeps_items(rest, x);
        let ir = insert_by_version(rest, x);
        assert(e.push(s[0]) =~= seq![s[0]]);
        vstd::seq_lib::lemma_multiset_commutative(seq![s[0]], ir);
        vstd::seq_lib::lemma_multiset_commutative(seq![s[0]], rest);
        assert(seq![s[0]] + rest =~= s);
        assert(seq![s[0]].to_multiset() =~= vstd::multiset::Multiset::empty().insert(s[0]));
        assert(seq![s[0]].to_multiset().add(rest.to_multiset().insert(x)) =~= seq![s[0]].to_multiset().add(
            rest.to_multiset(),
        ).insert(x));
    }
}

/// Ordering by version keeps exactly the items it was given.
pub proof fn lemma_by_version_desc_keeps_items(items: Seq<(Seq<u64>, Seq<char>)>)
    ensures
        by_version_desc(items).to_multiset() == items.to_multiset(),
    decreases items.len(),
{
    if items.len() > 0 {
        lemma_by_version_desc_keeps_items(items.drop_last());
        lemma_insert_keeps_items(by_version_desc(items.drop_last()), items.last());
        items.drop_last().to_multiset_ensures();
        assert(items.drop_last().push(items.last()) =~= items);
    } else {
        assert(by_version_desc(items) =~= items);
    }
}

proof fn lemma_insert_by_version(s: Seq<(Seq<u64>, Seq<char>)>, x: (Seq<u64>, Seq<char>))
    requires
        descending(s),
    ensures
        descending(insert_by_version(s, x)),
        insert_by_version(s, x).len() == s.len() + 1,
        forall|i: int|
            0 <= i < insert_by_version(s, x).len() ==> #[trigger] insert_by_version(s, x)[i] == x
                || s.contains(insert_by_version(s, x)[i]),
    decreases s.len(),
{
    let r = insert_by_version(s, x);
    if s.len() == 0 {
    } else if version_lt(s[0].0, x.0) {
        assert forall|l: int| 0 <= l < s.len() implies !version_lt(x.0, #[trigger] s[l].0) by {
            if version_lt(x.0, s[l].0) {
                lemma_version_lt_transitive(s[0].0, x.0, s[l].0);
                if l > 0 {
                    assert(!version_lt(s[0].0, s[l].0));
                } else {
                    lemma_version_lt_irreflexive(s[0].0);
                }
            }
        }
        assert forall|k: int, l: int| 0 <= k < l < r.len() implies !version_lt(
            #[trigger] r[k].0,
            #[trigger] r[l].0,
        ) by {
            if k == 0 {
                assert(r[l] == s[l - 1]);
            } else {
                assert(r[k] == s[k - 1] && r[l] == s[l - 1]);
            }
        }
        assert forall|i: int| 0 <= i < r.len() implies #[trigger] r[i] == x || s.contains(r[i]) by {
            if i > 0 {
                assert(r[i] == s[i - 1]);
            }
        }
    } else {
        let rest = s.drop_first();
        assert(descending(rest)) by {
            assert forall|k: int, l: int| 0 <= k < l < rest.len() implies !version_lt(
                #[trigger] rest[k].0,
                #[trigger] rest[l].0,
            ) by {
                assert(rest[k] == s[k + 1] && rest[l] == s[l + 1]);
            }
        }
        lemma_insert_by_version(rest, x);
        let ir = insert_by_version(rest, x);
        assert(r == seq![s[0]] + ir);
        assert forall|i: int| 0 <= i < ir.len() implies !version_lt(s[0].0, #[trigger] ir[i].0) by {
            if ir[i] != x {
                assert(rest.contains(ir[i]));
                let j = choose|j: int| 0 <= j < rest.len() && rest[j] == ir[i];
                assert(s[j + 1] == rest[j]);
            }
        }
        assert forall|k: int, l: int| 0 <= k < l < r.len() implies !version_lt(
            #[trigger] r[k].0,
            #[trigger] r[l].0,
        ) by {
            if k == 0 {
                assert(r[l] == ir[l - 1]);
            } else {
                assert(r[k] == ir[k - 1] && r[l] == ir[l - 1]);
            }
        }
        assert forall|i: int| 0 <= i < r.len() implies #[trigger] r[i] == x || s.contains(r[i]) by {
            if i == 0 {
                assert(s[0] == r[0]);
            } else {
                assert(r[i] == ir[i - 1]);
                if ir[i - 1] != x {
                    let j = choose|j: int| 0 <= j < rest.len() && rest[j] == ir[i - 1];
                    assert(s[j + 1] == rest[j]);
                }
            }
        }
    }
}

/// Ordering by version puts the highest version first and loses nothing:
/// versions descend along the result, which is as long as its input.
pub proof fn lemma_by_version_desc_sorted(items: Seq<(Seq<u64>, Seq<char>)>)
    ensures
        descending(by_version_desc(items)),
        by_version_desc(items).len() == items.len(),
    decreases items.len(),
{
    if items.len() > 0 {
        lemma_by_version_desc_sorted(items.drop_last());
        lemma_insert_by_version(by_version_desc(items.drop_last()), items.last());
    }
}


/// `Option<i32>` as `{:?}` writes it: `None`, or `Some(` the signed decimal
/// `)`.
pub open spec fn debug_exit_code(code: Option<i32>) -> Seq<char> {
    match code {
        None => "None"@,
        Some(c) => "Some("@ + (if c < 0 {
            "-"@ + decimal((-c) as nat)
        } else {
            decimal(c as nat)
        }) + ")"@,
    }
}

/// The error when `npm i -g` exited with failure, given its exit code
/// (none where a signal ended it).
pub fn install_exit_message(code: Option<i32>) -> (res: String)
    ensures
        res@ == "npm 退出码 "@ + debug_exit_code(code),
{
    match code {
        None => text_concat("npm 退出码 ", "None"),
        Some(c) => {
            let digits = if c < 0 {
                let magnitude: u64 = (0 - (c as i64)) as u64;
                let d = decimal_string(magnitude);
                text_concat("-", d.as_str())
            } else {
                decimal_string(c as u64)
            };
            let m = text_concat("npm 退出码 Some(", digits.as_str());
            proof {
                reveal_strlit("npm 退出码 Some(");
                reveal_strlit("npm 退出码 ");
                reveal_strlit("Some(");
                assert("npm 退出码 Some("@ =~= "npm 退出码 "@ + "Some("@);
            }
            let r = text_concat(m.as_str(), ")");
            assert(r@ =~= "npm 退出码 "@ + ("Some("@ + digits@ + ")"@));
            r
        },
    }
}


// ---------------------------------------------------------------------------
// Law: a version's name reads back
// ---------------------------------------------------------------------------

/// The decimal form of each number.
pub open spec fn decimal_pieces(ns: Seq<u64>) -> Seq<Seq<char>> {
    ns.map_values(|n: u64| decimal(n as nat))
}

/// The nvm directory name of a version: `v`, then its numbers in decimal,
/// separated by dots (`v24.16.0`).
pub open spec fn version_name(ns: Seq<u64>) -> Seq<char> {
    seq!['v'] + joined(decimal_pieces(ns), seq!['.'])
}

proof fn lemma_parse_decimal_pieces(ns: Seq<u64>)
    ensures
        parse_pieces(decimal_pieces(ns)) == Some(ns),
    decreases ns.len(),
{
    if ns.len() > 0 {
        let front = ns.drop_last();
        lemma_parse_decimal_pieces(front);
        assert(decimal_pieces(ns).drop_last() =~= decimal_pieces(front));
        assert(decimal_pieces(ns).last() == decimal(ns.last() as nat));
        lemma_decimal_parses_back(ns.last() as nat, u64::MAX as nat);
        assert(front.push(ns.last()) =~= ns);
    } else {
        assert(decimal_pieces(ns) =~= Seq::<Seq<char>>::empty());
        assert(ns =~= Seq::<u64>::empty());
    }
}

/// Reading a version back from its directory name gives the version: for
/// any one or more numbers, `v` followed by them in decimal, separated by
/// dots, parses to exactly those numbers.
pub proof fn lemma_version_round_trip(ns: Seq<u64>)
    requires
        ns.len() >= 1,
    ensures
        version_of(version_name(ns)) == Some(ns),
{
    let pieces = decimal_pieces(ns);
    assert forall|k: int, i: int| 0 <= k < pieces.len() && 0 <= i < pieces[k].len() implies #[trigger] pieces[k][i] != '.' by {
        lemma_decimal_digits(ns[k] as nat);
        assert(all_digits(decimal(ns[k] as nat)));
        assert(crate::text::is_digit(pieces[k][i]));
    }
    lemma_split_joined(pieces, '.');
    assert(version_name(ns).drop_first() =~= joined(pieces, seq!['.']));
    lemma_parse_decimal_pieces(ns);
}


// ---------------------------------------------------------------------------
// Law of detection as a whole
// ---------------------------------------------------------------------------

/// A machine as detection sees it: what a directory lists, which paths are
/// directories and files, and what the login shell prints for a script.
pub struct MachineView {
    pub list: spec_fn(Seq<char>) -> Seq<(Seq<char>, Seq<char>)>,
    pub is_dir: spec_fn(Seq<char>) -> bool,
    pub is_file: spec_fn(Seq<char>) -> bool,
    pub shell: spec_fn(Seq<char>) -> Option<Seq<char>>,
}

/// The machine's true answer to a question.
pub open spec fn answer(q: QueryView, m: MachineView) -> ReplyView {
    match q {
        QueryView::ListDir(p) => ReplyView::Entries((m.list)(p)),
        QueryView::Directories(ps) => ReplyView::Present(ps.map_values(|p: Seq<char>| (m.is_dir)(p))),
        QueryView::Files(ps) => ReplyView::Present(ps.map_values(|p: Seq<char>| (m.is_file)(p))),
        QueryView::LoginShell(script) => ReplyView::Shell((m.shell)(script)),
    }
}

/// Where detection ends when each question gets the machine's true
/// answer, within `fuel` questions.
pub open spec fn run_detection(n: NextView, m: MachineView, fuel: nat) -> Option<ToolchainView>
    decreases fuel,
{
    match n {
        NextView::Done(t) => Some(t),
        NextView::Ask(stage, q) => if fuel == 0 {
            None
        } else {
            run_detection(detect_transition(stage, answer(q, m)), m, (fuel - 1) as nat)
        },
    }
}

/// The first item that satisfies `pred`.
pub open spec fn first_where(items: Seq<Seq<char>>, pred: spec_fn(Seq<char>) -> bool) -> Option<Seq<char>>
    decreases items.len(),
{
    if items.len() == 0 {
        None
    } else if pred(items[0]) {
        Some(items[0])
    } else {
        first_where(items.drop_first(), pred)
    }
}

/// What detection finds on the machine `m` with home directory `home`:
/// the candidate directories that exist, in order; `dsh` in the first of
/// them that has it, else where the login shell says; `npm` beside `dsh`,
/// else in the first directory that has it, else where the login shell says.
pub open spec fn detected(home: Seq<char>, m: MachineView) -> ToolchainView {
    let dirs = candidate_dirs(home, (m.list)(join_path(home, nvm_root()))).filter(m.is_dir);
    let dsh = match first_where(in_each(dirs, word_dsh()), m.is_file) {
        Some(d) => Some(d),
        None => match (m.shell)(lookup_script(word_dsh())) {
            Some(out) => shell_answer(out),
            None => None,
        },
    };
    let npm = match first_where(npm_paths(dirs, dsh), m.is_file) {
        Some(n) => Some(n),
        None => match (m.shell)(lookup_script(word_npm())) {
            Some(out) => shell_answer(out),
            None => None,
        },
    };
    ToolchainView { dsh, npm, bin_dirs: dirs }
}

proof fn lemma_run_more_fuel(n: NextView, m: MachineView, fuel: nat)
    requires
        run_detection(n, m, fuel) is Some,
    ensures
        run_detection(n, m, fuel + 1) == run_detection(n, m, fuel),
    decreases fuel,
{
    match n {
        NextView::Done(_) => {},
        NextView::Ask(stage, q) => {
            lemma_run_more_fuel(detect_transition(stage, answer(q, m)), m, (fuel - 1) as nat);
        },
    }
}

proof fn lemma_flagged_filter(items: Seq<Seq<char>>, pred: spec_fn(Seq<char>) -> bool)
    ensures
        flagged(items, items.map_values(|p: Seq<char>| pred(p))) == items.filter(pred),
    decreases items.len(),
{
    if items.len() > 0 {
        let flags = items.map_values(|p: Seq<char>| pred(p));
        let shorter = items.drop_last();
        lemma_flagged_filter(shorter, pred);
        lemma_flagged_prefix(shorter, flags, shorter.map_values(|p: Seq<char>| pred(p)));
        assert(items =~= shorter.push(items.last()));
        shorter.lemma_filter_push(items.last(), pred);
        assert(flags[items.len() - 1] == pred(items.last()));
        assert(flagged(items, flags) == if pred(items.last()) {
            flagged(shorter, flags).push(items.last())
        } else {
            flagged(shorter, flags)
        });
    }
}

proof fn lemma_flagged_prefix(items: Seq<Seq<char>>, flags: Seq<bool>, fewer: Seq<bool>)
    requires
        fewer.len() >= items.len(),
        flags.len() >= items.len(),
        forall|i: int| 0 <= i < items.len() ==> flags[i] == fewer[i],
    ensures
        flagged(items, flags) == flagged(items, fewer),
    decreases items.len(),
{
    if items.len() > 0 {
        lemma_flagged_prefix(items.drop_last(), flags, fewer);
    }
}

proof fn lemma_first_flagged_where(items: Seq<Seq<char>>, pred: spec_fn(Seq<char>) -> bool)
    ensures
        first_flagged(items, items.map_values(|p: Seq<char>| pred(p))) == first_where(items, pred),
    decreases items.len(),
{
    if items.len() > 0 {
        let flags = items.map_values(|p: Seq<char>| pred(p));
        lemma_first_flagged_where(items.drop_first(), pred);
        assert(flags.drop_first() =~= items.drop_first().map_values(|p: Seq<char>| pred(p)));
    }
}

/// Detection, asked through and answered truthfully, ends within six
/// questions with what [`detected`] describes: the directories in search
/// order, `dsh` and `npm` found there first and by the login shell last.
/// Every path it reports is absolute, whatever `$HOME` holds, as
/// `Path::parent` keeps the root of an absolute path.
pub proof fn lemma_detection_finds(home: Seq<char>, m: MachineView)
    ensures
        run_detection(detect_start(home), m, 6) == Some(detected(home, m)),
        parents_keep_root() ==> toolchain_absolute(detected(home, m)),
{
    let entries = (m.list)(join_path(home, nvm_root()));
    let candidates = candidate_dirs(home, entries);
    let dirs = candidates.filter(m.is_dir);
    lemma_flagged_filter(candidates, m.is_dir);
    assert(m.is_dir == (|p: Seq<char>| (m.is_dir)(p)));
    let dsh_paths = in_each(dirs, word_dsh());
    lemma_first_flagged_where(dsh_paths, m.is_file);
    assert(m.is_file == (|p: Seq<char>| (m.is_file)(p)));
    let d = detected(home, m);
    let npm_p = npm_paths(dirs, d.dsh);
    lemma_first_flagged_where(npm_p, m.is_file);
    let n1 = detect_start(home);
    assert(answer(QueryView::ListDir(join_path(home, nvm_root())), m) == ReplyView::Entries(entries));
    let n2 = detect_transition(StageView::ListingNvm(home), ReplyView::Entries(entries));
    assert(n2 == NextView::Ask(StageView::CheckingDirs(candidates), QueryView::Directories(candidates)));
    let n3 = detect_transition(
        StageView::CheckingDirs(candidates),
        ReplyView::Present(candidates.map_values(|p: Seq<char>| (m.is_dir)(p))),
    );
    assert(n3 == NextView::Ask(StageView::FindingDsh(dirs), QueryView::Files(dsh_paths)));
    let flags_dsh = dsh_paths.map_values(|p: Seq<char>| (m.is_file)(p));
    assert(answer(QueryView::Files(dsh_paths), m) == ReplyView::Present(flags_dsh));
    let n4 = detect_transition(StageView::FindingDsh(dirs), ReplyView::Present(flags_dsh));
    let flags_npm = npm_p.map_values(|p: Seq<char>| (m.is_file)(p));
    let n5 = look_for_npm(dirs, d.dsh);
    assert(n5 == NextView::Ask(StageView::FindingNpm(dirs, d.dsh, npm_p), QueryView::Files(npm_p)));
    assert(answer(QueryView::Files(npm_p), m) == ReplyView::Present(flags_npm));
    let after_npm = detect_transition(StageView::FindingNpm(dirs, d.dsh, npm_p), ReplyView::Present(flags_npm));
    let npm_script = lookup_script(word_npm());
    let n6 = NextView::Ask(StageView::AskingShellNpm(dirs, d.dsh), QueryView::LoginShell(npm_script));
    assert(answer(QueryView::LoginShell(npm_script), m) == ReplyView::Shell((m.shell)(npm_script)));
    let done_shell = detect_transition(
        StageView::AskingShellNpm(dirs, d.dsh),
        ReplyView::Shell((m.shell)(npm_script)),
    );
    // npm settles within two questions after `dsh` is known
    match first_where(npm_p, m.is_file) {
        Some(found) => {
            assert(after_npm == NextView::Done(ToolchainView { dsh: d.dsh, npm: Some(found), bin_dirs: dirs }));
            assert(run_detection(after_npm, m, 0) == Some(d));
            assert(run_detection(n5, m, 1) == Some(d));
            lemma_run_more_fuel(n5, m, 1);
        },
        None => {
            assert(after_npm == n6);
            assert(done_shell == NextView::Done(ToolchainView { dsh: d.dsh, npm: d.npm, bin_dirs: dirs }));
            assert(run_detection(done_shell, m, 0) == Some(d));
            assert(run_detection(n6, m, 1) == Some(d));
            assert(run_detection(n5, m, 2) == Some(d));
        },
    }
    match first_where(dsh_paths, m.is_file) {
        Some(found) => {
            assert(n4 == n5);
            assert(run_detection(n4, m, 2) == Some(d));
            assert(run_detection(n3, m, 3) == Some(d));
            assert(run_detection(n2, m, 4) == Some(d));
            lemma_run_more_fuel(n2, m, 4);
        },
        None => {
            let dsh_script = lookup_script(word_dsh());
            assert(n4 == NextView::Ask(StageView::AskingShellDsh(dirs), QueryView::LoginShell(dsh_script)));
            let r = ReplyView::Shell((m.shell)(dsh_script));
            assert(answer(QueryView::LoginShell(dsh_script), m) == r);
            assert(reply_shell(r) == d.dsh);
            assert(detect_transition(StageView::AskingShellDsh(dirs), r) == n5);
            assert(run_detection(n4, m, 3) == Some(d));
            assert(run_detection(n3, m, 4) == Some(d));
            assert(run_detection(n2, m, 5) == Some(d));
        },
    }
    if usable_home(home) {
        assert(run_detection(n1, m, 6) == run_detection(n2, m, 5));
    } else {
        assert(candidates =~= fixed_dirs(home));
        assert(n1 == n2);
        lemma_run_more_fuel(n2, m, 5);
    }
    if parents_keep_root() {
        lemma_detected_absolute(home, m);
    }
}

proof fn lemma_detected_absolute(home: Seq<char>, m: MachineView)
    requires
        parents_keep_root(),
    ensures
        toolchain_absolute(detected(home, m)),
{
    let entries = (m.list)(join_path(home, nvm_root()));
    let candidates = candidate_dirs(home, entries);
    lemma_candidate_dirs_absolute(home, entries);
    let dirs = candidates.filter(m.is_dir);
    assert(all_absolute(dirs)) by {
        broadcast use vstd::seq_lib::group_filter_ensures;

        assert forall|i: int| 0 <= i < dirs.len() implies is_absolute(#[trigger] dirs[i]) by {
            assert(dirs.contains(dirs[i]));
            candidates.lemma_filter_contains_rev(m.is_dir, dirs[i]);
            let j = choose|j: int| 0 <= j < candidates.len() && candidates[j] == dirs[i];
            assert(is_absolute(candidates[j]));
        }
    }
    let d = detected(home, m);
    lemma_in_each_absolute(dirs, word_dsh());
    lemma_first_where_absolute(in_each(dirs, word_dsh()), m.is_file);
    match (m.shell)(lookup_script(word_dsh())) {
        Some(out) => lemma_last_absolute_is(lines(out)),
        None => {},
    }
    lemma_npm_paths_absolute(dirs, d.dsh);
    lemma_first_where_absolute(npm_paths(dirs, d.dsh), m.is_file);
    match (m.shell)(lookup_script(word_npm())) {
        Some(out) => lemma_last_absolute_is(lines(out)),
        None => {},
    }
}

proof fn lemma_first_where_absolute(items: Seq<Seq<char>>, pred: spec_fn(Seq<char>) -> bool)
    requires
        all_absolute(items),
    ensures
        opt_absolute(first_where(items, pred)),
    decreases items.len(),
{
    if items.len() > 0 {
        assert(is_absolute(items[0]));
        assert(all_absolute(items.drop_first()));
        lemma_first_where_absolute(items.drop_first(), pred);
    }
}

} // verus!
