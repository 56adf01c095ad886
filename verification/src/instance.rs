//! Finding `dsh web` instances that already run: reading the process table
//! that `ps -ax -o pid=,args=` prints, recognising a `dsh web` command line,
//! reading the loopback port that `lsof` reports a process listening on, and
//! building the list of usable instances, one per port, ordered by port.

use vstd::prelude::*;

use crate::text::{
    chars_of, contains, contains_chars, fields, fields_of, lemma_views_push, lines, lines_of,
    parse_unsigned, parse_unsigned_chars, split, split_of, starts_with, starts_with_chars, views,
};

verus! {

/// A `dsh web` process that runs and listens on 127.0.0.1.
#[derive(Clone, Copy, Debug, PartialEq, Eq, Structural)]
pub struct DshInstance {
    pub pid: u32,
    pub port: u16,
}

/// One row of the process table: a process id and its command line split
/// into arguments.
pub struct ProcessRow {
    pub pid: u32,
    pub args: Vec<String>,
}

// ---------------------------------------------------------------------------
// Specifications
// ---------------------------------------------------------------------------

pub open spec fn word_dsh() -> Seq<char> {
    seq!['d', 's', 'h']
}

pub open spec fn word_web() -> Seq<char> {
    seq!['w', 'e', 'b']
}

pub open spec fn word_profile() -> Seq<char> {
    seq!['-', '-', 'p', 'r', 'o', 'f', 'i', 'l', 'e']
}

pub open spec fn listen_marker() -> Seq<char> {
    seq!['(', 'L', 'I', 'S', 'T', 'E', 'N', ')']
}

pub open spec fn loopback_prefix() -> Seq<char> {
    seq!['1', '2', '7', '.', '0', '.', '0', '.', '1', ':']
}

/// A row of the process table: the first field is the process id, the
/// remaining fields are the arguments. Rows whose first field is no `u32`
/// are not rows.
pub open spec fn row_of(line: Seq<char>) -> Option<(u32, Seq<Seq<char>>)> {
    let f = fields(line);
    if f.len() > 0 {
        match parse_unsigned(f[0], u32::MAX as nat) {
            Some(pid) => Some((pid as u32, f.drop_first())),
            None => None,
        }
    } else {
        None
    }
}

/// The rows of the process table `text`, in the order of its lines.
pub open spec fn rows_of_lines(ls: Seq<Seq<char>>) -> Seq<(u32, Seq<Seq<char>>)>
    decreases ls.len(),
{
    if ls.len() == 0 {
        seq![]
    } else {
        let before = rows_of_lines(ls.drop_last());
        match row_of(ls.last()) {
            Some(row) => before.push(row),
            None => before,
        }
    }
}

pub open spec fn process_rows(text: Seq<char>) -> Seq<(u32, Seq<Seq<char>>)> {
    rows_of_lines(lines(text))
}

/// The components of a Unix path that name something: the pieces between
/// slashes, without empty pieces and without `.`.
pub open spec fn names_something() -> spec_fn(Seq<char>) -> bool {
    |c: Seq<char>| c.len() > 0 && c != seq!['.']
}

pub open spec fn path_components(p: Seq<char>) -> Seq<Seq<char>> {
    split(p, '/').filter(names_something())
}

/// Whether the last component of the path `p` is `name` (`Path::file_name`).
pub open spec fn file_name_is(p: Seq<char>, name: Seq<char>) -> bool {
    let c = path_components(p);
    c.len() > 0 && c.last() == name
}

/// The command line `args` runs `dsh web`: the first argument whose file
/// name is `dsh` is followed by `web` or by `--profile web`.
pub open spec fn is_dsh_web(args: Seq<Seq<char>>) -> bool {
    exists|at: int|
        #![trigger args[at]]
        0 <= at < args.len() && file_name_is(args[at], word_dsh()) && (forall|j: int|
            0 <= j < at ==> !file_name_is(#[trigger] args[j], word_dsh())) && ((at + 1
            < args.len() && args[at + 1] == word_web()) || (at + 2 < args.len() && args[at + 1]
            == word_profile() && args[at + 2] == word_web()))
}

/// The process ids of the rows that run `dsh web`, in table order.
pub open spec fn dsh_web_pids_of(rows: Seq<(u32, Seq<Seq<char>>)>) -> Seq<u32>
    decreases rows.len(),
{
    if rows.len() == 0 {
        seq![]
    } else {
        let before = dsh_web_pids_of(rows.drop_last());
        if is_dsh_web(rows.last().1) {
            before.push(rows.last().0)
        } else {
            before
        }
    }
}

/// The first field of `fs` that begins with `prefix`.
pub open spec fn first_with_prefix(fs: Seq<Seq<char>>, prefix: Seq<char>) -> Option<Seq<char>>
    decreases fs.len(),
{
    if fs.len() == 0 {
        None
    } else if starts_with(fs[0], prefix) {
        Some(fs[0])
    } else {
        first_with_prefix(fs.drop_first(), prefix)
    }
}

/// The port that one line of `lsof` output reports: the line holds
/// `(LISTEN)`, and its first field that begins with `127.0.0.1:` ends in a
/// `u16`.
pub open spec fn port_in_line(line: Seq<char>) -> Option<u16> {
    if !contains(line, listen_marker()) {
        None
    } else {
        match first_with_prefix(fields(line), loopback_prefix()) {
            Some(f) => match parse_unsigned(f.skip(loopback_prefix().len() as int), u16::MAX as nat) {
                Some(p) => Some(p as u16),
                None => None,
            },
            None => None,
        }
    }
}

/// The first port that a line of `ls` reports.
pub open spec fn first_port(ls: Seq<Seq<char>>) -> Option<u16>
    decreases ls.len(),
{
    if ls.len() == 0 {
        None
    } else {
        match port_in_line(ls[0]) {
            Some(p) => Some(p),
            None => first_port(ls.drop_first()),
        }
    }
}

/// The loopback port that the `lsof` output `text` reports as listening.
pub open spec fn listen_port(text: Seq<char>) -> Option<u16> {
    first_port(lines(text))
}

/// The instances that the probes give: each `(pid, lsof output)` whose
/// output reports a port, in probe order.
pub open spec fn candidates(probes: Seq<(u32, Seq<char>)>) -> Seq<DshInstance>
    decreases probes.len(),
{
    if probes.len() == 0 {
        seq![]
    } else {
        let before = candidates(probes.drop_last());
        match listen_port(probes.last().1) {
            Some(port) => before.push(DshInstance { pid: probes.last().0, port }),
            None => before,
        }
    }
}

/// `cands[i]` is the first candidate with its port.
pub open spec fn first_at(cands: Seq<DshInstance>, i: int) -> bool {
    0 <= i < cands.len() && forall|j: int| 0 <= j < i ==> (#[trigger] cands[j]).port != cands[i].port
}

/// `x` is the first candidate with its port.
pub open spec fn is_first_of(cands: Seq<DshInstance>, x: DshInstance) -> bool {
    exists|i: int| #[trigger] first_at(cands, i) && cands[i] == x
}

/// Some entry of `r` has the port `port`.
pub open spec fn has_port(r: Seq<DshInstance>, port: u16) -> bool {
    exists|k: int| 0 <= k < r.len() && (#[trigger] r[k]).port == port
}

pub open spec fn sorted_by_port(r: Seq<DshInstance>) -> bool {
    forall|k: int, l: int| 0 <= k < l < r.len() ==> #[trigger] r[k].port < #[trigger] r[l].port
}

/// `r` lists the candidates `cands` by port: ports strictly ascending, one
/// entry per port that occurs, and for each port the candidate that came
/// first with it.
pub open spec fn lists_by_port(r: Seq<DshInstance>, cands: Seq<DshInstance>) -> bool {
    &&& sorted_by_port(r)
    &&& forall|k: int| 0 <= k < r.len() ==> is_first_of(cands, #[trigger] r[k])
    &&& forall|i: int| 0 <= i < cands.len() ==> has_port(r, (#[trigger] cands[i]).port)
}

pub open spec fn probe_views(probes: Seq<(u32, String)>) -> Seq<(u32, Seq<char>)> {
    probes.map_values(|p: (u32, String)| (p.0, p.1@))
}

pub open spec fn row_views(rows: Seq<ProcessRow>) -> Seq<(u32, Seq<Seq<char>>)> {
    rows.map_values(|r: ProcessRow| (r.pid, views(r.args@)))
}

// ---------------------------------------------------------------------------
// Process table
// ---------------------------------------------------------------------------

/// The rows of the process table that `ps -ax -o pid=,args=` printed.
pub fn process_table(text: &str) -> (res: Vec<ProcessRow>)
    ensures
        row_views(res@) == process_rows(text@),
{
    let chars = chars_of(text);
    let ls = lines_of(chars.as_slice());
    let mut rows: Vec<ProcessRow> = Vec::new();
    let mut i: usize = 0;
    while i < ls.len()
        invariant
            i <= ls.len(),
            views(ls@) == lines(text@),
            row_views(rows@) == rows_of_lines(views(ls@).take(i as int)),
        decreases ls.len() - i,
    {
        let line = chars_of(ls[i].as_str());
        let fs = fields_of(line.as_slice());
        proof {
            assert(views(ls@).take(i + 1).drop_last() =~= views(ls@).take(i as int));
            assert(views(ls@).take(i + 1).last() == ls@[i as int]@);
        }
        if fs.len() > 0 {
            let first = chars_of(fs[0].as_str());
            assert(views(fs@)[0] == fs@[0]@);
            match parse_unsigned_chars(first.as_slice(), 0xffff_ffff) {
                Some(pid) => {
                    let mut args: Vec<String> = Vec::new();
                    let mut k: usize = 1;
                    while k < fs.len()
                        invariant
                            1 <= k <= fs.len(),
                            views(args@) == views(fs@).subrange(1, k as int),
                        decreases fs.len() - k,
                    {
                        let arg = fs[k].clone();
                        proof {
                            lemma_views_push(args@, arg);
                            assert(views(fs@).subrange(1, k + 1) =~= views(fs@).subrange(
                                1,
                                k as int,
                            ).push(fs@[k as int]@));
                        }
                        args.push(arg);
                        k += 1;
                    }
                    assert(views(fs@).drop_first() =~= views(fs@).subrange(1, fs.len() as int));
                    let ghost before = rows@;
                    rows.push(ProcessRow { pid: pid as u32, args });
                    assert(row_views(rows@) =~= row_views(before).push(
                        (pid as u32, views(fs@).drop_first()),
                    ));
                },
                None => {},
            }
        }
        i += 1;
    }
    assert(views(ls@).take(ls.len() as int) =~= views(ls@));
    rows
}

/// Whether the last component of the path `arg` is `dsh`.
pub fn file_name_is_dsh(arg: &str) -> (res: bool)
    ensures
        res == file_name_is(arg@, word_dsh()),
{
    let chars = chars_of(arg);
    let pieces = split_of(chars.as_slice(), '/');
    let ghost ps = pieces@.map_values(|p: Vec<char>| p@);
    let ghost keep = names_something();
    let mut last: Option<usize> = None;
    let mut i: usize = 0;
    while i < pieces.len()
        invariant
            i <= pieces.len(),
            ps == pieces@.map_values(|p: Vec<char>| p@),
            ps == split(arg@, '/'),
            keep == names_something(),
            match last {
                Some(k) => k < i && ps.take(i as int).filter(keep).len() > 0 && ps.take(
                    i as int,
                ).filter(keep).last() == ps[k as int],
                None => ps.take(i as int).filter(keep).len() == 0,
            },
        decreases pieces.len() - i,
    {
        let p = &pieces[i];
        let dot = p.len() == 1 && p[0] == '.';
        let kept = p.len() > 0 && !dot;
        proof {
            assert(ps.take(i + 1).drop_last() =~= ps.take(i as int));
            assert(ps[i as int] == p@);
            if dot {
                assert(p@ =~= seq!['.']);
            }
            if p@ == seq!['.'] {
                assert(p@[0] == '.');
            }
            assert(kept == keep(ps[i as int]));
            assert(ps.take(i + 1) =~= ps.take(i as int).push(ps[i as int]));
            ps.take(i as int).lemma_filter_push(ps[i as int], keep);
            assert(ps.take(i + 1).filter(keep) == if kept {
                ps.take(i as int).filter(keep).push(ps[i as int])
            } else {
                ps.take(i as int).filter(keep)
            });
        }
        if kept {
            last = Some(i);
        }
        i += 1;
    }
    assert(ps.take(pieces.len() as int) =~= ps);
    match last {
        Some(k) => {
            let piece = &pieces[k];
            let r = piece.len() == 3 && piece[0] == 'd' && piece[1] == 's' && piece[2] == 'h';
            proof {
                if r {
                    assert(piece@ =~= word_dsh());
                }
                if piece@ == word_dsh() {
                    assert(piece@[0] == 'd' && piece@[1] == 's' && piece@[2] == 'h');
                }
            }
            r
        },
        None => false,
    }
}

fn equals_word(s: &String, word: &Vec<char>) -> (res: bool)
    ensures
        res == (s@ == word@),
{
    let cs = chars_of(s.as_str());
    if cs.len() != word.len() {
        assert(cs@.len() != word@.len());
        return false;
    }
    let mut i: usize = 0;
    while i < cs.len()
        invariant
            cs.len() == word.len(),
            cs@ == s@,
            i <= cs.len(),
            forall|k: int| 0 <= k < i ==> cs@[k] == word@[k],
        decreases cs.len() - i,
    {
        if cs[i] != word[i] {
            assert(cs@[i as int] != word@[i as int]);
            return false;
        }
        i += 1;
    }
    assert(cs@ =~= word@);
    true
}

/// Whether the command line `args` runs `dsh web` (or `dsh --profile web`).
pub fn is_dsh_web_command(args: &Vec<String>) -> (res: bool)
    ensures
        res == is_dsh_web(views(args@)),
{
    let ghost a = views(args@);
    let mut at: usize = 0;
    while at < args.len()
        invariant
            at <= args.len(),
            a == views(args@),
            forall|j: int| 0 <= j < at ==> !file_name_is(#[trigger] a[j], word_dsh()),
        decreases args.len() - at,
    {
        if file_name_is_dsh(args[at].as_str()) {
            let web: Vec<char> = vec!['w', 'e', 'b'];
            let profile: Vec<char> = vec!['-', '-', 'p', 'r', 'o', 'f', 'i', 'l', 'e'];
            assert(web@ =~= word_web());
            assert(profile@ =~= word_profile());
            let r = (at + 1 < args.len() && equals_word(&args[at + 1], &web)) || (args.len()
                - at > 2 && equals_word(&args[at + 1], &profile) && equals_word(
                &args[at + 2],
                &web,
            ));
            proof {
                assert(a[at as int] == args@[at as int]@);
                assert(file_name_is(a[at as int], word_dsh()));
                if r {
                    assert(a[at as int] == args@[at as int]@);
                }
                if is_dsh_web(a) {
                    let w = choose|w: int|
                        #![trigger a[w]]
                        0 <= w < a.len() && file_name_is(a[w], word_dsh()) && (forall|j: int|
                            0 <= j < w ==> !file_name_is(#[trigger] a[j], word_dsh())) && ((w + 1
                            < a.len() && a[w + 1] == word_web()) || (w + 2 < a.len() && a[w + 1]
                            == word_profile() && a[w + 2] == word_web()));
                    if w < at {
                        assert(!file_name_is(a[w], word_dsh()));
                    }
                    if w > at {
                        assert(!file_name_is(a[at as int], word_dsh()));
                    }
                    assert(w == at);
                    assert(a[at + 1] == args@[at + 1]@);
                    if at + 2 < a.len() {
                        assert(a[at + 2] == args@[at + 2]@);
                    }
                }
            }
            return r;
        }
        at += 1;
    }
    false
}

/// The process ids in the process table `text` whose command line runs
/// `dsh web`, in table order.
pub fn dsh_web_pids(text: &str) -> (res: Vec<u32>)
    ensures
        res@ == dsh_web_pids_of(process_rows(text@)),
{
    let rows = process_table(text);
    let ghost rv = row_views(rows@);
    let mut pids: Vec<u32> = Vec::new();
    let mut i: usize = 0;
    while i < rows.len()
        invariant
            i <= rows.len(),
            rv == row_views(rows@),
            pids@ == dsh_web_pids_of(rv.take(i as int)),
        decreases rows.len() - i,
    {
        proof {
            assert(rv.take(i + 1).drop_last() =~= rv.take(i as int));
            assert(rv.take(i + 1).last() == (rows@[i as int].pid, views(rows@[i as int].args@)));
        }
        if is_dsh_web_command(&rows[i].args) {
            pids.push(rows[i].pid);
        }
        i += 1;
    }
    assert(rv.take(rows.len() as int) =~= rv);
    pids
}

// ---------------------------------------------------------------------------
// Listening port
// ---------------------------------------------------------------------------

/// The port that one line of `lsof` output reports, if any.
pub fn port_of_line(line: &str) -> (res: Option<u16>)
    ensures
        res == port_in_line(line@),
{
    let chars = chars_of(line);
    let marker: Vec<char> = vec!['(', 'L', 'I', 'S', 'T', 'E', 'N', ')'];
    assert(marker@ =~= listen_marker());
    if !contains_chars(chars.as_slice(), marker.as_slice()) {
        return None;
    }
    let prefix: Vec<char> = vec!['1', '2', '7', '.', '0', '.', '0', '.', '1', ':'];
    assert(prefix@ =~= loopback_prefix());
    let fs = fields_of(chars.as_slice());
    let ghost fv = views(fs@);
    assert(fv.skip(0) =~= fv);
    let mut i: usize = 0;
    while i < fs.len()
        invariant
            i <= fs.len(),
            fv == views(fs@),
            fv == fields(chars@),
            chars@ == line@,
            contains(line@, listen_marker()),
            prefix@ == loopback_prefix(),
            first_with_prefix(fv, loopback_prefix()) == first_with_prefix(
                fv.skip(i as int),
                loopback_prefix(),
            ),
        decreases fs.len() - i,
    {
        let f = chars_of(fs[i].as_str());
        assert(fv.skip(i as int)[0] == f@);
        assert(fv.skip(i as int).drop_first() =~= fv.skip(i + 1));
        if starts_with_chars(f.as_slice(), prefix.as_slice()) {
            let mut rest: Vec<char> = Vec::new();
            let mut k: usize = prefix.len();
            while k < f.len()
                invariant
                    prefix.len() <= k <= f.len(),
                    rest@ == f@.subrange(prefix.len() as int, k as int),
                decreases f.len() - k,
            {
                rest.push(f[k]);
                assert(rest@ =~= f@.subrange(prefix.len() as int, k + 1));
                k += 1;
            }
            assert(rest@ =~= f@.skip(loopback_prefix().len() as int));
            assert(first_with_prefix(fv, loopback_prefix()) == Some(f@));
            assert(contains(line@, listen_marker()));
            return match parse_unsigned_chars(rest.as_slice(), 0xffff) {
                Some(p) => Some(p as u16),
                None => None,
            };
        }
        i += 1;
    }
    assert(fv.skip(fs.len() as int).len() == 0);
    None
}

/// The loopback port that the `lsof -nP -iTCP -sTCP:LISTEN -a -p <pid>`
/// output `text` reports, if any: the first line that reports one.
pub fn listen_port_of(text: &str) -> (res: Option<u16>)
    ensures
        res == listen_port(text@),
{
    let chars = chars_of(text);
    let ls = lines_of(chars.as_slice());
    let ghost lv = views(ls@);
    assert(lv.skip(0) =~= lv);
    let mut i: usize = 0;
    while i < ls.len()
        invariant
            i <= ls.len(),
            lv == views(ls@),
            lv == lines(text@),
            first_port(lv) == first_port(lv.skip(i as int)),
        decreases ls.len() - i,
    {
        assert(lv.skip(i as int)[0] == ls@[i as int]@);
        assert(lv.skip(i as int).drop_first() =~= lv.skip(i + 1));
        let p = port_of_line(ls[i].as_str());
        if p.is_some() {
            return p;
        }
        i += 1;
    }
    assert(lv.skip(ls.len() as int).len() == 0);
    None
}


// ---------------------------------------------------------------------------
// Instance list
// ---------------------------------------------------------------------------

/// The instances that the probes report.
pub fn candidate_instances(probes: &Vec<(u32, String)>) -> (res: Vec<DshInstance>)
    ensures
        res@ == candidates(probe_views(probes@)),
{
    let ghost pv = probe_views(probes@);
    let mut res: Vec<DshInstance> = Vec::new();
    let mut i: usize = 0;
    while i < probes.len()
        invariant
            i <= probes.len(),
            pv == probe_views(probes@),
            res@ == candidates(pv.take(i as int)),
        decreases probes.len() - i,
    {
        proof {
            assert(pv.take(i + 1).drop_last() =~= pv.take(i as int));
            assert(pv.take(i + 1).last() == (probes@[i as int].0, probes@[i as int].1@));
        }
        let (pid, ref out) = probes[i];
        match listen_port_of(out.as_str()) {
            Some(port) => {
                res.push(DshInstance { pid, port });
            },
            None => {},
        }
        i += 1;
    }
    assert(pv.take(probes.len() as int) =~= pv);
    res
}

proof fn lemma_first_extend(cands: Seq<DshInstance>, c: DshInstance, x: DshInstance)
    requires
        is_first_of(cands, x),
    ensures
        is_first_of(cands.push(c), x),
{
    let all = cands.push(c);
    let i = choose|i: int| #[trigger] first_at(cands, i) && cands[i] == x;
    assert forall|j: int| 0 <= j < i implies (#[trigger] all[j]).port != all[i].port by {
        assert(all[j] == cands[j]);
    }
    assert(first_at(all, i));
}

proof fn lemma_add_present(r: Seq<DshInstance>, cands: Seq<DshInstance>, c: DshInstance, p: int)
    requires
        lists_by_port(r, cands),
        0 <= p < r.len(),
        r[p].port == c.port,
    ensures
        lists_by_port(r, cands.push(c)),
{
    let all = cands.push(c);
    assert forall|k: int| 0 <= k < r.len() implies is_first_of(all, #[trigger] r[k]) by {
        lemma_first_extend(cands, c, r[k]);
    }
    assert forall|i: int| 0 <= i < all.len() implies has_port(r, (#[trigger] all[i]).port) by {
        if i < cands.len() {
            assert(all[i] == cands[i]);
        } else {
            assert(r[p].port == all[i].port);
        }
    }
}

proof fn lemma_port_absent(r: Seq<DshInstance>, cands: Seq<DshInstance>, c: DshInstance, p: int)
    requires
        lists_by_port(r, cands),
        0 <= p <= r.len(),
        forall|k: int| 0 <= k < p ==> (#[trigger] r[k]).port < c.port,
        p < r.len() ==> r[p].port > c.port,
    ensures
        forall|k: int| 0 <= k < r.len() ==> (#[trigger] r[k]).port != c.port,
        forall|j: int| 0 <= j < cands.len() ==> (#[trigger] cands[j]).port != c.port,
{
    assert forall|k: int| 0 <= k < r.len() implies (#[trigger] r[k]).port != c.port by {
        if k > p {
            assert(r[p].port < r[k].port);
        }
    }
    assert forall|j: int| 0 <= j < cands.len() implies (#[trigger] cands[j]).port != c.port by {
        assert(has_port(r, cands[j].port));
    }
}

proof fn lemma_insert_sorted(r: Seq<DshInstance>, c: DshInstance, p: int)
    requires
        0 <= p <= r.len(),
        sorted_by_port(r),
        forall|k: int| 0 <= k < p ==> (#[trigger] r[k]).port < c.port,
        p < r.len() ==> r[p].port > c.port,
    ensures
        sorted_by_port(r.insert(p, c)),
{
    let r1 = r.insert(p, c);
    assert forall|k: int, l: int| 0 <= k < l < r1.len() implies #[trigger] r1[k].port
        < #[trigger] r1[l].port by {
        if l == p {
            assert(r1[k] == r[k]);
        } else if k == p {
            assert(r1[l] == r[l - 1]);
            if l - 1 > p {
                assert(r[p].port < r[l - 1].port);
            }
        } else if k < p && l < p {
            assert(r1[k] == r[k] && r1[l] == r[l]);
        } else if k < p {
            assert(r1[k] == r[k] && r1[l] == r[l - 1]);
            if l - 1 > p {
                assert(r[p].port < r[l - 1].port);
            }
        } else {
            assert(r1[k] == r[k - 1] && r1[l] == r[l - 1]);
        }
    }
}

proof fn lemma_add_insert(r: Seq<DshInstance>, cands: Seq<DshInstance>, c: DshInstance, p: int)
    requires
        lists_by_port(r, cands),
        0 <= p <= r.len(),
        forall|k: int| 0 <= k < p ==> (#[trigger] r[k]).port < c.port,
        p < r.len() ==> r[p].port > c.port,
    ensures
        lists_by_port(r.insert(p, c), cands.push(c)),
{
    let all = cands.push(c);
    let r1 = r.insert(p, c);
    lemma_port_absent(r, cands, c, p);
    lemma_insert_sorted(r, c, p);
    assert forall|k: int| 0 <= k < r1.len() implies is_first_of(all, #[trigger] r1[k]) by {
        if k == p {
            let n = cands.len() as int;
            assert forall|j: int| 0 <= j < n implies (#[trigger] all[j]).port != all[n].port by {
                assert(all[j] == cands[j]);
            }
            assert(first_at(all, n));
        } else if k < p {
            assert(r1[k] == r[k]);
            lemma_first_extend(cands, c, r[k]);
        } else {
            assert(r1[k] == r[k - 1]);
            lemma_first_extend(cands, c, r[k - 1]);
        }
    }
    assert forall|i: int| 0 <= i < all.len() implies has_port(r1, (#[trigger] all[i]).port) by {
        if i < cands.len() {
            assert(all[i] == cands[i]);
            assert(has_port(r, cands[i].port));
            let k = choose|k: int| 0 <= k < r.len() && (#[trigger] r[k]).port == cands[i].port;
            if k < p {
                assert(r1[k] == r[k]);
            } else {
                assert(r1[k + 1] == r[k]);
            }
        } else {
            assert(r1[p] == c);
        }
    }
}

/// Adds the candidate `c`, which came after all of `cands`, to a list of
/// `cands` by port.
fn add_by_port(r: &mut Vec<DshInstance>, c: DshInstance, Ghost(cands): Ghost<Seq<DshInstance>>)
    requires
        lists_by_port(old(r)@, cands),
    ensures
        lists_by_port(final(r)@, cands.push(c)),
{
    let ghost r0 = r@;
    let mut p: usize = 0;
    while p < r.len() && r[p].port < c.port
        invariant
            p <= r.len(),
            r@ == r0,
            forall|k: int| 0 <= k < p ==> (#[trigger] r0[k]).port < c.port,
        decreases r.len() - p,
    {
        p += 1;
    }
    if p < r.len() && r[p].port == c.port {
        proof {
            lemma_add_present(r0, cands, c, p as int);
        }
        return ;
    }
    proof {
        lemma_add_insert(r0, cands, c, p as int);
    }
    r.insert(p, c);
}

/// The usable `dsh web` instances, given for each process whose command
/// line runs `dsh web` (in process table order) the output of `lsof` for it:
/// one instance per listening port, ports ascending, and for each port the
/// process that came first with it.
pub fn find_running_instances(probes: &Vec<(u32, String)>) -> (res: Vec<DshInstance>)
    ensures
        lists_by_port(res@, candidates(probe_views(probes@))),
{
    let cands = candidate_instances(probes);
    let mut r: Vec<DshInstance> = Vec::new();
    let mut i: usize = 0;
    while i < cands.len()
        invariant
            i <= cands.len(),
            lists_by_port(r@, cands@.take(i as int)),
        decreases cands.len() - i,
    {
        assert(cands@.take(i + 1) =~= cands@.take(i as int).push(cands@[i as int]));
        add_by_port(&mut r, cands[i], Ghost(cands@.take(i as int)));
        i += 1;
    }
    assert(cands@.take(cands.len() as int) =~= cands@);
    r
}


// ---------------------------------------------------------------------------
// Law: the instance list is determined by the candidates
// ---------------------------------------------------------------------------

proof fn lemma_first_unique(cands: Seq<DshInstance>, x: DshInstance, y: DshInstance)
    requires
        is_first_of(cands, x),
        is_first_of(cands, y),
        x.port == y.port,
    ensures
        x == y,
{
    let i = choose|i: int| #[trigger] first_at(cands, i) && cands[i] == x;
    let j = choose|j: int| #[trigger] first_at(cands, j) && cands[j] == y;
    if i < j {
        assert(cands[i].port != cands[j].port);
    } else if j < i {
        assert(cands[j].port != cands[i].port);
    }
}

proof fn lemma_port_in_other(r1: Seq<DshInstance>, r2: Seq<DshInstance>, cands: Seq<DshInstance>, k: int)
    requires
        lists_by_port(r1, cands),
        lists_by_port(r2, cands),
        0 <= k < r1.len(),
    ensures
        has_port(r2, r1[k].port),
{
    assert(is_first_of(cands, r1[k]));
    let i = choose|i: int| #[trigger] first_at(cands, i) && cands[i] == r1[k];
    assert(has_port(r2, cands[i].port));
}

/// The instance list is fully determined: two lists that both list the same
/// candidates by port are the same list.
pub proof fn lemma_instance_list_unique(r1: Seq<DshInstance>, r2: Seq<DshInstance>, cands: Seq<DshInstance>)
    requires
        lists_by_port(r1, cands),
        lists_by_port(r2, cands),
    ensures
        r1 == r2,
{
    // the ports agree position by position
    assert forall|k: int| 0 <= k < r1.len() && k < r2.len() implies r1[k].port == r2[k].port by {
        lemma_ports_agree(r1, r2, cands, k);
    }
    if r1.len() > r2.len() {
        let n = r2.len() as int;
        lemma_port_in_other(r1, r2, cands, n);
        let l = choose|l: int| 0 <= l < r2.len() && (#[trigger] r2[l]).port == r1[n].port;
        assert(r1[l].port == r2[l].port);
        assert(r1[l].port < r1[n].port);
    } else if r2.len() > r1.len() {
        let n = r1.len() as int;
        lemma_port_in_other(r2, r1, cands, n);
        let l = choose|l: int| 0 <= l < r1.len() && (#[trigger] r1[l]).port == r2[n].port;
        assert(r1[l].port == r2[l].port);
        assert(r2[l].port < r2[n].port);
    }
    assert forall|k: int| 0 <= k < r1.len() implies r1[k] == r2[k] by {
        assert(is_first_of(cands, r1[k]));
        assert(is_first_of(cands, r2[k]));
        lemma_first_unique(cands, r1[k], r2[k]);
    }
    assert(r1 =~= r2);
}

proof fn lemma_ports_agree(r1: Seq<DshInstance>, r2: Seq<DshInstance>, cands: Seq<DshInstance>, k: int)
    requires
        lists_by_port(r1, cands),
        lists_by_port(r2, cands),
        0 <= k < r1.len(),
        k < r2.len(),
    ensures
        r1[k].port == r2[k].port,
    decreases k,
{
    assert forall|j: int| 0 <= j < k implies r1[j].port == r2[j].port by {
        lemma_ports_agree(r1, r2, cands, j);
    }
    if r1[k].port < r2[k].port {
        lemma_port_in_other(r1, r2, cands, k);
        let l = choose|l: int| 0 <= l < r2.len() && (#[trigger] r2[l]).port == r1[k].port;
        if l < k {
            assert(r1[l].port == r2[l].port);
            assert(r1[l].port < r1[k].port);
        } else if l > k {
            assert(r2[k].port < r2[l].port);
        }
    } else if r2[k].port < r1[k].port {
        lemma_port_in_other(r2, r1, cands, k);
        let l = choose|l: int| 0 <= l < r1.len() && (#[trigger] r1[l]).port == r2[k].port;
        if l < k {
            assert(r1[l].port == r2[l].port);
            assert(r2[l].port < r2[k].port);
        } else if l > k {
            assert(r1[k].port < r1[l].port);
        }
    }
}

// ---------------------------------------------------------------------------
// Laws of recognising `dsh web`
// ---------------------------------------------------------------------------

/// What counts as `dsh web` is decided by the first argument whose file name
/// is `dsh` and the one or two arguments right after it: the command line
/// counts exactly where they are `web` or `--profile web`, whatever comes
/// before (nothing named `dsh`) and whatever comes after (`--no-open`,
/// `--port 0`, ...).
pub proof fn lemma_dsh_web_by_first_dsh(before: Seq<Seq<char>>, d: Seq<char>, after: Seq<Seq<char>>)
    requires
        forall|j: int| 0 <= j < before.len() ==> !file_name_is(#[trigger] before[j], seq!['d', 's', 'h']),
        file_name_is(d, seq!['d', 's', 'h']),
    ensures
        is_dsh_web(before + seq![d] + after) <==> ((after.len() >= 1 && after[0] == seq!['w', 'e', 'b'])
            || (after.len() >= 2 && after[0] == seq!['-', '-', 'p', 'r', 'o', 'f', 'i', 'l', 'e']
            && after[1] == seq!['w', 'e', 'b'])),
{
    let args = before + seq![d] + after;
    let at = before.len() as int;
    assert(args[at] == d);
    assert forall|j: int| 0 <= j < at implies !file_name_is(#[trigger] args[j], word_dsh()) by {
        assert(args[j] == before[j]);
    }
    assert forall|k: int| 0 <= k < after.len() implies args[at + 1 + k] == after[k] by {}
    if is_dsh_web(args) {
        let w = choose|w: int|
            #![trigger args[w]]
            0 <= w < args.len() && file_name_is(args[w], word_dsh()) && (forall|j: int|
                0 <= j < w ==> !file_name_is(#[trigger] args[j], word_dsh())) && ((w + 1
                < args.len() && args[w + 1] == word_web()) || (w + 2 < args.len() && args[w + 1]
                == word_profile() && args[w + 2] == word_web()));
        if w < at {
            assert(args[w] == before[w]);
        } else if w > at {
            assert(!file_name_is(args[at], word_dsh()));
        }
        if w + 1 < args.len() {
            assert(args[w + 1] == after[0]);
        }
        if w + 2 < args.len() {
            assert(args[w + 2] == after[1]);
        }
    }
    if after.len() >= 1 && after[0] == word_web() {
        assert(args[at + 1] == after[0]);
        assert(is_dsh_web(args));
    }
    if after.len() >= 2 && after[0] == word_profile() && after[1] == word_web() {
        assert(args[at + 1] == after[0]);
        assert(args[at + 2] == after[1]);
        assert(is_dsh_web(args));
    }
}

/// A command line with no argument whose file name is `dsh` never counts as
/// `dsh web`.
pub proof fn lemma_no_dsh_no_web(args: Seq<Seq<char>>)
    requires
        forall|j: int| 0 <= j < args.len() ==> !file_name_is(#[trigger] args[j], seq!['d', 's', 'h']),
    ensures
        !is_dsh_web(args),
{
}

/// Arguments after a `dsh web` do not change that it is one.
pub proof fn lemma_dsh_web_keeps_with_more_arguments(args: Seq<Seq<char>>, more: Seq<Seq<char>>)
    requires
        is_dsh_web(args),
    ensures
        is_dsh_web(args + more),
{
    let w = choose|w: int|
        #![trigger args[w]]
        0 <= w < args.len() && file_name_is(args[w], word_dsh()) && (forall|j: int|
            0 <= j < w ==> !file_name_is(#[trigger] args[j], word_dsh())) && ((w + 1
            < args.len() && args[w + 1] == word_web()) || (w + 2 < args.len() && args[w + 1]
            == word_profile() && args[w + 2] == word_web()));
    let all = args + more;
    assert(all[w] == args[w]);
    assert forall|j: int| 0 <= j < w implies !file_name_is(#[trigger] all[j], word_dsh()) by {
        assert(all[j] == args[j]);
    }
    if w + 1 < args.len() {
        assert(all[w + 1] == args[w + 1]);
    }
    if w + 2 < args.len() {
        assert(all[w + 2] == args[w + 2]);
    }
}

/// Any path that ends in `/dsh` (`/usr/local/bin/dsh`, `~/.nvm/.../bin/dsh`)
/// has the file name `dsh`, and so has `dsh` alone.
pub proof fn lemma_path_to_dsh_is_dsh(dir: Seq<char>)
    ensures
        file_name_is(dir + seq!['/', 'd', 's', 'h'], seq!['d', 's', 'h']),
        file_name_is(seq!['d', 's', 'h'], seq!['d', 's', 'h']),
{
    let name = seq!['d', 's', 'h'];
    let e: Seq<char> = seq![];
    // the bare name splits into itself
    crate::text::lemma_scan_split_append_free(e, name, '/');
    assert(e + name =~= name);
    assert(crate::text::scan_split(e, '/') == (Seq::<Seq<char>>::empty(), e));
    assert(split(name, '/') =~= seq![name]);
    assert(seq![name] =~= Seq::<Seq<char>>::empty().push(name));
    Seq::<Seq<char>>::empty().lemma_filter_push(name, names_something());
    assert(Seq::<Seq<char>>::empty().filter(names_something()) =~= Seq::<Seq<char>>::empty()) by {
        reveal(Seq::filter);
    }
    assert(name != seq!['.']) by {
        assert(name.len() != seq!['.'].len());
    }
    assert(path_components(name) =~= seq![name]);
    // a directory, a slash and the name split into the directory's pieces and the name
    let x = dir + seq!['/'];
    assert(x.drop_last() =~= dir);
    let (done, cur) = crate::text::scan_split(dir, '/');
    assert(crate::text::scan_split(x, '/') == (done.push(cur), e));
    crate::text::lemma_scan_split_append_free(x, name, '/');
    assert(e + name =~= name);
    assert(dir + seq!['/', 'd', 's', 'h'] =~= x + name);
    let pieces = split(dir + seq!['/', 'd', 's', 'h'], '/');
    assert(pieces =~= done.push(cur).push(name));
    done.push(cur).lemma_filter_push(name, names_something());
}

} // verus!
