//! Character-level text handling: whitespace, line and field splitting,
//! trimming, decimal numbers and substitution, each with the meaning that
//! the standard library documents for its string methods.

use vstd::prelude::*;

verus! {

pub assume_specification[ std::string::String::push ](s: &mut String, ch: char)
    ensures
        final(s)@ == old(s)@.push(ch),
;

// ---------------------------------------------------------------------------
// Specifications
// ---------------------------------------------------------------------------

/// Unicode `White_Space`, the property that `char::is_whitespace` tests.
pub open spec fn is_whitespace(c: char) -> bool {
    let u = c as u32;
    ||| 0x09 <= u <= 0x0d
    ||| u == 0x20
    ||| u == 0x85
    ||| u == 0xa0
    ||| u == 0x1680
    ||| 0x2000 <= u <= 0x200a
    ||| u == 0x2028
    ||| u == 0x2029
    ||| u == 0x202f
    ||| u == 0x205f
    ||| u == 0x3000
}

/// Left-to-right scan that cuts `s` into whitespace-separated fields:
/// the fields completed so far and the one being read.
pub open spec fn scan_fields(s: Seq<char>) -> (Seq<Seq<char>>, Seq<char>)
    decreases s.len(),
{
    if s.len() == 0 {
        (seq![], seq![])
    } else {
        let (done, cur) = scan_fields(s.drop_last());
        if is_whitespace(s.last()) {
            if cur.len() > 0 {
                (done.push(cur), seq![])
            } else {
                (done, cur)
            }
        } else {
            (done, cur.push(s.last()))
        }
    }
}

/// The maximal runs of non-whitespace characters of `s`, in order
/// (what `str::split_whitespace` yields).
pub open spec fn fields(s: Seq<char>) -> Seq<Seq<char>> {
    let (done, cur) = scan_fields(s);
    if cur.len() > 0 {
        done.push(cur)
    } else {
        done
    }
}

/// `line` without one trailing carriage return.
pub open spec fn strip_cr(line: Seq<char>) -> Seq<char> {
    if line.len() > 0 && line.last() == '\r' {
        line.drop_last()
    } else {
        line
    }
}

/// Left-to-right scan that cuts `s` into lines: the lines completed so far
/// and the one being read.
pub open spec fn scan_lines(s: Seq<char>) -> (Seq<Seq<char>>, Seq<char>)
    decreases s.len(),
{
    if s.len() == 0 {
        (seq![], seq![])
    } else {
        let (done, cur) = scan_lines(s.drop_last());
        if s.last() == '\n' {
            (done.push(strip_cr(cur)), seq![])
        } else {
            (done, cur.push(s.last()))
        }
    }
}

/// The lines of `s` as `str::lines` yields them: cut at each `\n`, a `\r`
/// just before the `\n` dropped, and a last line only where it is not empty.
pub open spec fn lines(s: Seq<char>) -> Seq<Seq<char>> {
    let (done, cur) = scan_lines(s);
    if cur.len() > 0 {
        done.push(cur)
    } else {
        done
    }
}

/// Left-to-right scan that cuts `s` at every `sep`.
pub open spec fn scan_split(s: Seq<char>, sep: char) -> (Seq<Seq<char>>, Seq<char>)
    decreases s.len(),
{
    if s.len() == 0 {
        (seq![], seq![])
    } else {
        let (done, cur) = scan_split(s.drop_last(), sep);
        if s.last() == sep {
            (done.push(cur), seq![])
        } else {
            (done, cur.push(s.last()))
        }
    }
}

/// The pieces of `s` between occurrences of `sep` (`str::split` on a char):
/// always one more piece than there are separators.
pub open spec fn split(s: Seq<char>, sep: char) -> Seq<Seq<char>> {
    let (done, cur) = scan_split(s, sep);
    done.push(cur)
}

/// `s` without its leading whitespace.
pub open spec fn trim_start(s: Seq<char>) -> Seq<char>
    decreases s.len(),
{
    if s.len() > 0 && is_whitespace(s[0]) {
        trim_start(s.drop_first())
    } else {
        s
    }
}

/// `s` without its trailing whitespace.
pub open spec fn trim_end(s: Seq<char>) -> Seq<char>
    decreases s.len(),
{
    if s.len() > 0 && is_whitespace(s.last()) {
        trim_end(s.drop_last())
    } else {
        s
    }
}

/// `s` without leading and trailing whitespace (`str::trim`).
pub open spec fn trim(s: Seq<char>) -> Seq<char> {
    trim_end(trim_start(s))
}

pub open spec fn starts_with(s: Seq<char>, prefix: Seq<char>) -> bool {
    prefix.len() <= s.len() && s.take(prefix.len() as int) == prefix
}

pub open spec fn occurs_at(s: Seq<char>, pat: Seq<char>, i: int) -> bool {
    0 <= i && i + pat.len() <= s.len() && s.subrange(i, i + pat.len()) == pat
}

pub open spec fn contains(s: Seq<char>, pat: Seq<char>) -> bool {
    exists|i: int| occurs_at(s, pat, i)
}

pub open spec fn is_digit(c: char) -> bool {
    0x30 <= (c as u32) <= 0x39
}

pub open spec fn digit_value(c: char) -> nat {
    ((c as u32) - 0x30) as nat
}

pub open spec fn all_digits(d: Seq<char>) -> bool {
    forall|i: int| 0 <= i < d.len() ==> is_digit(#[trigger] d[i])
}

/// The number that a string of decimal digits denotes.
pub open spec fn digits_value(d: Seq<char>) -> nat
    decreases d.len(),
{
    if d.len() == 0 {
        0
    } else {
        digits_value(d.drop_last()) * 10 + digit_value(d.last())
    }
}

/// The digits that an unsigned integer's `from_str` reads: `s` without one
/// leading `+`.
pub open spec fn unsigned_digits(s: Seq<char>) -> Seq<char> {
    if s.len() > 0 && s[0] == '+' {
        s.drop_first()
    } else {
        s
    }
}

/// What `str::parse` gives for an unsigned integer type whose largest
/// value is `max`: an optional `+`, then one or more ASCII digits whose value
/// fits.
pub open spec fn parse_unsigned(s: Seq<char>, max: nat) -> Option<nat> {
    let d = unsigned_digits(s);
    if d.len() > 0 && all_digits(d) && digits_value(d) <= max {
        Some(digits_value(d))
    } else {
        None
    }
}

pub open spec fn digit_char(d: nat) -> char {
    (d + 0x30) as char
}

/// The decimal notation of `n`, without sign or leading zeros.
pub open spec fn decimal(n: nat) -> Seq<char>
    decreases n,
{
    if n < 10 {
        seq![digit_char(n)]
    } else {
        decimal(n / 10).push(digit_char(n % 10))
    }
}

/// `s` with every occurrence of the non-empty `pat`, taken from the left
/// without overlap, replaced by `rep` (`str::replace`).
pub open spec fn replaced(s: Seq<char>, pat: Seq<char>, rep: Seq<char>) -> Seq<char>
    recommends
        pat.len() > 0,
    decreases s.len(),
{
    if s.len() == 0 || pat.len() == 0 {
        s
    } else if starts_with(s, pat) {
        rep + replaced(s.skip(pat.len() as int), pat, rep)
    } else {
        seq![s[0]] + replaced(s.drop_first(), pat, rep)
    }
}

/// `parts` joined with `sep` between neighbours (`[..].join(sep)`).
pub open spec fn joined(parts: Seq<Seq<char>>, sep: Seq<char>) -> Seq<char>
    decreases parts.len(),
{
    if parts.len() == 0 {
        seq![]
    } else if parts.len() == 1 {
        parts[0]
    } else {
        joined(parts.drop_last(), sep) + sep + parts.last()
    }
}

pub open spec fn views(v: Seq<String>) -> Seq<Seq<char>> {
    v.map_values(|s: String| s@)
}

// ---------------------------------------------------------------------------
// Conversions
// ---------------------------------------------------------------------------

/// The characters of a string slice, in order.
pub fn chars_of(s: &str) -> (res: Vec<char>)
    ensures
        res@ == s@,
{
    let mut res: Vec<char> = Vec::new();
    for c in it: s.chars()
        invariant
            res@ == it.seq().take(it.index() as int),
            it.seq() == s@,
    {
        res.push(c);
    }
    res
}

/// A `String` holding the given characters.
pub fn string_of(cs: &[char]) -> (res: String)
    ensures
        res@ == cs@,
{
    let mut res = String::new();
    let mut i: usize = 0;
    while i < cs.len()
        invariant
            i <= cs.len(),
            res@ == cs@.take(i as int),
        decreases cs.len() - i,
    {
        res.push(cs[i]);
        assert(cs@.take(i as int).push(cs@[i as int]) =~= cs@.take(i + 1));
        i += 1;
    }
    assert(cs@.take(cs.len() as int) =~= cs@);
    res
}

/// A `String` holding the characters of `s`.
pub fn string_from(s: &str) -> (res: String)
    ensures
        res@ == s@,
{
    let cs = chars_of(s);
    string_of(cs.as_slice())
}

pub fn is_whitespace_char(c: char) -> (res: bool)
    ensures
        res == is_whitespace(c),
{
    let u = c as u32;
    (0x09 <= u && u <= 0x0d) || u == 0x20 || u == 0x85 || u == 0xa0 || u == 0x1680 || (0x2000
        <= u && u <= 0x200a) || u == 0x2028 || u == 0x2029 || u == 0x202f || u == 0x205f || u
        == 0x3000
}

/// `a` followed by `b`.
pub fn text_concat(a: &str, b: &str) -> (res: String)
    ensures
        res@ == a@ + b@,
{
    let mut cs = chars_of(a);
    let more = chars_of(b);
    let mut i: usize = 0;
    let ghost before = cs@;
    while i < more.len()
        invariant
            i <= more.len(),
            cs@ == before + more@.take(i as int),
        decreases more.len() - i,
    {
        cs.push(more[i]);
        assert(before + more@.take(i as int).push(more@[i as int]) =~= before + more@.take(i + 1));
        i += 1;
    }
    assert(more@.take(more.len() as int) =~= more@);
    string_of(cs.as_slice())
}

/// A copy of a list of strings.
pub fn copy_strings(v: &Vec<String>) -> (res: Vec<String>)
    ensures
        res@ == v@,
{
    let mut res: Vec<String> = Vec::new();
    let mut i: usize = 0;
    while i < v.len()
        invariant
            i <= v.len(),
            res@ == v@.take(i as int),
        decreases v.len() - i,
    {
        res.push(v[i].clone());
        assert(res@ =~= v@.take(i + 1));
        i += 1;
    }
    assert(v@.take(v.len() as int) =~= v@);
    res
}

pub proof fn lemma_views_push(v: Seq<String>, s: String)
    ensures
        views(v.push(s)) == views(v).push(s@),
{
    assert(views(v.push(s)) =~= views(v).push(s@));
}

// ---------------------------------------------------------------------------
// Splitting
// ---------------------------------------------------------------------------

/// The whitespace-separated fields of `s`.
pub fn fields_of(s: &[char]) -> (res: Vec<String>)
    ensures
        views(res@) == fields(s@),
{
    let mut done: Vec<String> = Vec::new();
    let mut cur: Vec<char> = Vec::new();
    let mut i: usize = 0;
    while i < s.len()
        invariant
            i <= s.len(),
            (views(done@), cur@) == scan_fields(s@.take(i as int)),
        decreases s.len() - i,
    {
        let c = s[i];
        proof {
            assert(s@.take(i + 1).drop_last() =~= s@.take(i as int));
        }
        if is_whitespace_char(c) {
            if cur.len() > 0 {
                let word = string_of(cur.as_slice());
                proof {
                    lemma_views_push(done@, word);
                }
                done.push(word);
                cur = Vec::new();
            }
        } else {
            cur.push(c);
        }
        i += 1;
    }
    assert(s@.take(s.len() as int) =~= s@);
    if cur.len() > 0 {
        let word = string_of(cur.as_slice());
        proof {
            lemma_views_push(done@, word);
        }
        done.push(word);
    }
    done
}

/// The lines of `s`.
pub fn lines_of(s: &[char]) -> (res: Vec<String>)
    ensures
        views(res@) == lines(s@),
{
    let mut done: Vec<String> = Vec::new();
    let mut cur: Vec<char> = Vec::new();
    let mut i: usize = 0;
    while i < s.len()
        invariant
            i <= s.len(),
            (views(done@), cur@) == scan_lines(s@.take(i as int)),
        decreases s.len() - i,
    {
        let c = s[i];
        proof {
            assert(s@.take(i + 1).drop_last() =~= s@.take(i as int));
        }
        if c == '\n' {
            if cur.len() > 0 && cur[cur.len() - 1] == '\r' {
                cur.pop();
            }
            let line = string_of(cur.as_slice());
            proof {
                lemma_views_push(done@, line);
            }
            done.push(line);
            cur = Vec::new();
        } else {
            cur.push(c);
        }
        i += 1;
    }
    assert(s@.take(s.len() as int) =~= s@);
    if cur.len() > 0 {
        let line = string_of(cur.as_slice());
        proof {
            lemma_views_push(done@, line);
        }
        done.push(line);
    }
    done
}

/// The pieces of `s` between occurrences of `sep`.
pub fn split_of(s: &[char], sep: char) -> (res: Vec<Vec<char>>)
    ensures
        res@.map_values(|p: Vec<char>| p@) == split(s@, sep),
{
    let mut done: Vec<Vec<char>> = Vec::new();
    let mut cur: Vec<char> = Vec::new();
    let mut i: usize = 0;
    while i < s.len()
        invariant
            i <= s.len(),
            (done@.map_values(|p: Vec<char>| p@), cur@) == scan_split(s@.take(i as int), sep),
        decreases s.len() - i,
    {
        let c = s[i];
        proof {
            assert(s@.take(i + 1).drop_last() =~= s@.take(i as int));
        }
        if c == sep {
            let ghost before = done@;
            let ghost piece = cur@;
            done.push(cur);
            assert(done@.map_values(|p: Vec<char>| p@) =~= before.map_values(
                |p: Vec<char>| p@,
            ).push(piece));
            cur = Vec::new();
        } else {
            cur.push(c);
        }
        i += 1;
    }
    assert(s@.take(s.len() as int) =~= s@);
    let ghost before = done@;
    let ghost piece = cur@;
    done.push(cur);
    assert(done@.map_values(|p: Vec<char>| p@) =~= before.map_values(|p: Vec<char>| p@).push(
        piece,
    ));
    done
}


// ---------------------------------------------------------------------------
// Trimming and matching
// ---------------------------------------------------------------------------

proof fn lemma_trim_start_skip(s: Seq<char>, i: int)
    requires
        0 <= i <= s.len(),
        forall|k: int| 0 <= k < i ==> is_whitespace(#[trigger] s[k]),
    ensures
        trim_start(s) == trim_start(s.skip(i)),
    decreases i,
{
    if i > 0 {
        assert(s.drop_first().skip(i - 1) =~= s.skip(i));
        lemma_trim_start_skip(s.drop_first(), i - 1);
    } else {
        assert(s.skip(0) =~= s);
    }
}

proof fn lemma_trim_end_take(s: Seq<char>, j: int)
    requires
        0 <= j <= s.len(),
        forall|k: int| j <= k < s.len() ==> is_whitespace(#[trigger] s[k]),
    ensures
        trim_end(s) == trim_end(s.take(j)),
    decreases s.len() - j,
{
    if j < s.len() {
        assert(s.drop_last().take(j) =~= s.take(j));
        lemma_trim_end_take(s.drop_last(), j);
    } else {
        assert(s.take(j) =~= s);
    }
}

/// `s` without leading and trailing whitespace.
pub fn trim_chars(s: &[char]) -> (res: Vec<char>)
    ensures
        res@ == trim(s@),
{
    let mut i: usize = 0;
    while i < s.len() && is_whitespace_char(s[i])
        invariant
            i <= s.len(),
            forall|k: int| 0 <= k < i ==> is_whitespace(#[trigger] s@[k]),
        decreases s.len() - i,
    {
        i += 1;
    }
    let mut j: usize = s.len();
    while j > i && is_whitespace_char(s[j - 1])
        invariant
            i <= j <= s.len(),
            forall|k: int| j <= k < s.len() ==> is_whitespace(#[trigger] s@[k]),
        decreases j,
    {
        j -= 1;
    }
    let mut res: Vec<char> = Vec::new();
    let mut k: usize = i;
    while k < j
        invariant
            i <= k <= j,
            j <= s.len(),
            res@ == s@.subrange(i as int, k as int),
        decreases j - k,
    {
        res.push(s[k]);
        assert(s@.subrange(i as int, k as int).push(s@[k as int]) =~= s@.subrange(
            i as int,
            k + 1,
        ));
        k += 1;
    }
    proof {
        lemma_trim_start_skip(s@, i as int);
        let rest = s@.skip(i as int);
        if i < s.len() {
            assert(!is_whitespace(rest[0]));
            assert(trim_start(rest) == rest);
        } else {
            assert(rest.len() == 0);
        }
        assert forall|k: int| j - i <= k < rest.len() implies is_whitespace(#[trigger] rest[k]) by {
            assert(rest[k] == s@[k + i]);
        }
        lemma_trim_end_take(rest, j - i);
        let mid = rest.take(j - i);
        assert(mid =~= s@.subrange(i as int, j as int));
        if j > i {
            assert(mid.last() == s@[j - 1]);
            assert(trim_end(mid) == mid);
        }
    }
    res
}

/// Whether `s` begins with `prefix`.
pub fn starts_with_chars(s: &[char], prefix: &[char]) -> (res: bool)
    ensures
        res == starts_with(s@, prefix@),
{
    if prefix.len() > s.len() {
        return false;
    }
    let mut i: usize = 0;
    while i < prefix.len()
        invariant
            prefix.len() <= s.len(),
            i <= prefix.len(),
            forall|k: int| 0 <= k < i ==> s@[k] == prefix@[k],
        decreases prefix.len() - i,
    {
        if s[i] != prefix[i] {
            assert(s@.take(prefix.len() as int)[i as int] != prefix@[i as int]);
            return false;
        }
        i += 1;
    }
    assert(s@.take(prefix.len() as int) =~= prefix@);
    true
}

/// Whether `pat` occurs in `s` at position `at`.
pub fn occurs_at_chars(s: &[char], pat: &[char], at: usize) -> (res: bool)
    ensures
        res == occurs_at(s@, pat@, at as int),
{
    if at > s.len() || pat.len() > s.len() - at {
        return false;
    }
    let mut i: usize = 0;
    while i < pat.len()
        invariant
            at + pat.len() <= s.len(),
            i <= pat.len(),
            forall|k: int| 0 <= k < i ==> s@[at + k] == pat@[k],
        decreases pat.len() - i,
    {
        if s[at + i] != pat[i] {
            assert(s@.subrange(at as int, at + pat.len())[i as int] != pat@[i as int]);
            return false;
        }
        i += 1;
    }
    assert(s@.subrange(at as int, at + pat.len()) =~= pat@);
    true
}

/// Whether `pat` occurs anywhere in `s`.
pub fn contains_chars(s: &[char], pat: &[char]) -> (res: bool)
    ensures
        res == contains(s@, pat@),
{
    let mut at: usize = 0;
    while at < s.len()
        invariant
            at <= s.len(),
            forall|k: int| 0 <= k < at ==> !occurs_at(s@, pat@, k),
        decreases s.len() - at,
    {
        if occurs_at_chars(s, pat, at) {
            return true;
        }
        at += 1;
    }
    if occurs_at_chars(s, pat, at) {
        return true;
    }
    assert forall|k: int| !occurs_at(s@, pat@, k) by {
        if k > s.len() {
            assert(!occurs_at(s@, pat@, k));
        }
    }
    false
}

// ---------------------------------------------------------------------------
// Numbers
// ---------------------------------------------------------------------------

proof fn lemma_digits_value_prefix(d: Seq<char>, k: int)
    requires
        0 <= k <= d.len(),
        all_digits(d),
    ensures
        digits_value(d.take(k)) <= digits_value(d),
    decreases d.len() - k,
{
    if k < d.len() {
        assert(d.drop_last().take(k) =~= d.take(k));
        assert(is_digit(d[d.len() - 1]));
        lemma_digits_value_prefix(d.drop_last(), k);
    } else {
        assert(d.take(k) =~= d);
    }
}

/// `s` read as an unsigned integer no larger than `max`, as `str::parse`
/// reads one.
pub fn parse_unsigned_chars(s: &[char], max: u64) -> (res: Option<u64>)
    ensures
        match parse_unsigned(s@, max as nat) {
            Some(v) => res == Some(v as u64),
            None => res is None,
        },
{
    let start: usize = if s.len() > 0 && s[0] == '+' {
        1
    } else {
        0
    };
    let ghost d = unsigned_digits(s@);
    assert(d =~= s@.skip(start as int));
    if start == s.len() {
        return None;
    }
    let mut acc: u128 = 0;
    let mut i: usize = start;
    while i < s.len()
        invariant
            start <= i <= s.len(),
            d == s@.skip(start as int),
            d == unsigned_digits(s@),
            d.len() > 0,
            all_digits(d.take(i - start)),
            acc == digits_value(d.take(i - start)),
            acc <= max,
        decreases s.len() - i,
    {
        let c = s[i];
        let u = c as u32;
        assert(d[i - start] == c);
        if u < 0x30 || u > 0x39 {
            assert(!is_digit(d[i - start]));
            assert(!all_digits(d));
            return None;
        }
        let next = acc * 10 + ((u - 0x30) as u128);
        assert(d.take(i + 1 - start).drop_last() =~= d.take(i - start));
        assert(d.take(i + 1 - start).last() == c);
        assert(next == digits_value(d.take(i + 1 - start)));
        if next > max as u128 {
            proof {
                if all_digits(d) {
                    lemma_digits_value_prefix(d, i + 1 - start);
                }
            }
            return None;
        }
        acc = next;
        i += 1;
        assert(all_digits(d.take(i - start))) by {
            assert forall|k: int| 0 <= k < i - start implies is_digit(
                #[trigger] d.take(i - start)[k],
            ) by {
                if k < i - 1 - start {
                    assert(d.take(i - start)[k] == d.take(i - 1 - start)[k]);
                }
            }
        }
    }
    assert(d.take(i - start) =~= d);
    Some(acc as u64)
}

/// The decimal digits of `n`.
pub fn decimal_chars(n: u64) -> (res: Vec<char>)
    ensures
        res@ == decimal(n as nat),
    decreases n,
{
    if n < 10 {
        let c = ((n as u8) + 0x30) as char;
        let mut v: Vec<char> = Vec::new();
        v.push(c);
        assert(v@ =~= seq![digit_char(n as nat)]);
        v
    } else {
        let mut v = decimal_chars(n / 10);
        let c = (((n % 10) as u8) + 0x30) as char;
        v.push(c);
        v
    }
}

/// The decimal notation of `n` as a `String`.
pub fn decimal_string(n: u64) -> (res: String)
    ensures
        res@ == decimal(n as nat),
{
    let v = decimal_chars(n);
    string_of(v.as_slice())
}

// ---------------------------------------------------------------------------
// Building
// ---------------------------------------------------------------------------

proof fn lemma_replaced_step(s: Seq<char>, pat: Seq<char>, rep: Seq<char>, i: int)
    requires
        pat.len() > 0,
        0 <= i < s.len(),
    ensures
        starts_with(s.skip(i), pat) ==> replaced(s.skip(i), pat, rep) == rep + replaced(
            s.skip(i + pat.len()),
            pat,
            rep,
        ),
        !starts_with(s.skip(i), pat) ==> replaced(s.skip(i), pat, rep) == seq![s[i]] + replaced(
            s.skip(i + 1),
            pat,
            rep,
        ),
{
    let t = s.skip(i);
    if starts_with(t, pat) {
        assert(t.skip(pat.len() as int) =~= s.skip(i + pat.len()));
    } else {
        assert(t.drop_first() =~= s.skip(i + 1));
    }
}

/// `s` with every occurrence of `pat` replaced by `rep`, left to right.
pub fn replace_chars(s: &[char], pat: &[char], rep: &[char]) -> (res: Vec<char>)
    requires
        pat.len() > 0,
    ensures
        res@ == replaced(s@, pat@, rep@),
{
    let mut out: Vec<char> = Vec::new();
    let mut i: usize = 0;
    assert(s@.skip(0) =~= s@);
    while i < s.len()
        invariant
            pat.len() > 0,
            i <= s.len(),
            replaced(s@, pat@, rep@) == out@ + replaced(s@.skip(i as int), pat@, rep@),
        decreases s.len() - i,
    {
        proof {
            lemma_replaced_step(s@, pat@, rep@, i as int);
        }
        let hit = occurs_at_chars(s, pat, i);
        assert(hit == starts_with(s@.skip(i as int), pat@)) by {
            if hit {
                assert(s@.skip(i as int).take(pat.len() as int) =~= s@.subrange(
                    i as int,
                    i + pat.len(),
                ));
            } else if pat.len() <= s.len() - i {
                assert(s@.skip(i as int).take(pat.len() as int) =~= s@.subrange(
                    i as int,
                    i + pat.len(),
                ));
            }
        }
        if hit {
            let ghost before = out@;
            let mut k: usize = 0;
            while k < rep.len()
                invariant
                    k <= rep.len(),
                    out@ == before + rep@.take(k as int),
                decreases rep.len() - k,
            {
                out.push(rep[k]);
                assert(before + rep@.take(k as int).push(rep@[k as int]) =~= before + rep@.take(
                    k + 1,
                ));
                k += 1;
            }
            assert(rep@.take(rep.len() as int) =~= rep@);
            assert(out@ + replaced(s@.skip(i + pat.len()), pat@, rep@) =~= before + (rep@
                + replaced(s@.skip(i + pat.len()), pat@, rep@)));
            i += pat.len();
        } else {
            let ghost before = out@;
            out.push(s[i]);
            assert(out@ + replaced(s@.skip(i + 1), pat@, rep@) =~= before + (seq![s@[i as int]]
                + replaced(s@.skip(i + 1), pat@, rep@)));
            i += 1;
        }
    }
    assert(s@.skip(i as int).len() == 0);
    assert(out@ + seq![] =~= out@);
    out
}

/// `parts` joined with `sep` between neighbours.
pub fn join_strings(parts: &Vec<String>, sep: &str) -> (res: String)
    ensures
        res@ == joined(views(parts@), sep@),
{
    let mut out: Vec<char> = Vec::new();
    let sep_chars = chars_of(sep);
    let mut i: usize = 0;
    while i < parts.len()
        invariant
            i <= parts.len(),
            sep_chars@ == sep@,
            out@ == joined(views(parts@.take(i as int)), sep@),
        decreases parts.len() - i,
    {
        let ghost before = out@;
        if i > 0 {
            let mut k: usize = 0;
            while k < sep_chars.len()
                invariant
                    k <= sep_chars.len(),
                    out@ == before + sep_chars@.take(k as int),
                decreases sep_chars.len() - k,
            {
                out.push(sep_chars[k]);
                assert(before + sep_chars@.take(k as int).push(sep_chars@[k as int]) =~= before
                    + sep_chars@.take(k + 1));
                k += 1;
            }
            assert(sep_chars@.take(sep_chars.len() as int) =~= sep_chars@);
        }
        let ghost mid = out@;
        let part = chars_of(parts[i].as_str());
        let mut k: usize = 0;
        while k < part.len()
            invariant
                k <= part.len(),
                out@ == mid + part@.take(k as int),
            decreases part.len() - k,
        {
            out.push(part[k]);
            assert(mid + part@.take(k as int).push(part@[k as int]) =~= mid + part@.take(k + 1));
            k += 1;
        }
        assert(part@.take(part.len() as int) =~= part@);
        proof {
            let vs = views(parts@.take(i + 1));
            assert(vs.drop_last() =~= views(parts@.take(i as int)));
            assert(vs.last() == parts@[i as int]@);
            if i == 0 {
                assert(vs.len() == 1);
                assert(out@ =~= vs[0]);
            } else {
                assert(out@ =~= joined(vs.drop_last(), sep@) + sep@ + vs.last());
            }
        }
        i += 1;
    }
    assert(parts@.take(parts.len() as int) =~= parts@);
    string_of(out.as_slice())
}


// ---------------------------------------------------------------------------
// Facts about splitting
// ---------------------------------------------------------------------------

/// Appending text without `sep` only extends the piece being read.
pub proof fn lemma_scan_split_append_free(x: Seq<char>, t: Seq<char>, sep: char)
    requires
        forall|i: int| 0 <= i < t.len() ==> t[i] != sep,
    ensures
        scan_split(x + t, sep) == (scan_split(x, sep).0, scan_split(x, sep).1 + t),
    decreases t.len(),
{
    if t.len() == 0 {
        assert(x + t =~= x);
        assert(scan_split(x, sep).1 + t =~= scan_split(x, sep).1);
    } else {
        lemma_scan_split_append_free(x, t.drop_last(), sep);
        assert((x + t).drop_last() =~= x + t.drop_last());
        assert((x + t).last() == t.last());
        assert(scan_split(x, sep).1 + t.drop_last() + seq![t.last()] =~= scan_split(x, sep).1 + t);
        assert((scan_split(x, sep).1 + t.drop_last()).push(t.last()) =~= scan_split(x, sep).1 + t);
    }
}

/// `a`, `sep`, `b`, `sep`, `c`, where none of `a`, `b`, `c` holds `sep`,
/// splits into exactly `a`, `b` and `c`.
pub proof fn lemma_split_three(a: Seq<char>, b: Seq<char>, c: Seq<char>, sep: char)
    requires
        forall|i: int| 0 <= i < a.len() ==> a[i] != sep,
        forall|i: int| 0 <= i < b.len() ==> b[i] != sep,
        forall|i: int| 0 <= i < c.len() ==> c[i] != sep,
    ensures
        split(a + seq![sep] + b + seq![sep] + c, sep) == seq![a, b, c],
{
    let e: Seq<char> = seq![];
    lemma_scan_split_append_free(e, a, sep);
    assert(e + a =~= a);
    assert(scan_split(e, sep) == (Seq::<Seq<char>>::empty(), e));
    let x1 = a + seq![sep];
    assert(x1.drop_last() =~= a);
    assert(scan_split(x1, sep) == (seq![a], e)) by {
        assert(e + a =~= a);
    }
    lemma_scan_split_append_free(x1, b, sep);
    let x2 = x1 + b;
    assert(e + b =~= b);
    let x3 = x2 + seq![sep];
    assert(x3.drop_last() =~= x2);
    assert(scan_split(x3, sep) == (seq![a].push(b), e));
    lemma_scan_split_append_free(x3, c, sep);
    assert(e + c =~= c);
    assert(a + seq![sep] + b + seq![sep] + c =~= x3 + c);
    assert(seq![a].push(b).push(c) =~= seq![a, b, c]);
}


// ---------------------------------------------------------------------------
// Law: decimal notation reads back
// ---------------------------------------------------------------------------

/// The decimal form of `n` is a non-empty run of digits that denotes `n`.
pub proof fn lemma_decimal_digits(n: nat)
    ensures
        decimal(n).len() > 0,
        all_digits(decimal(n)),
        digits_value(decimal(n)) == n,
        decimal(n)[0] != '+',
    decreases n,
{
    if n < 10 {
        assert(decimal(n) =~= seq![digit_char(n)]);
        assert((digit_char(n) as u32) == n + 0x30);
        assert(decimal(n).drop_last() =~= Seq::<char>::empty());
        assert(digits_value(Seq::<char>::empty()) == 0);
        assert(digit_value(decimal(n).last()) == n);
        assert(digits_value(decimal(n)) == digits_value(decimal(n).drop_last()) * 10 + digit_value(
            decimal(n).last(),
        ));
    } else {
        lemma_decimal_digits(n / 10);
        let d = decimal(n);
        let before = decimal(n / 10);
        assert(d.drop_last() =~= before);
        assert((digit_char(n % 10) as u32) == n % 10 + 0x30);
        assert(n == (n / 10) * 10 + n % 10) by (nonlinear_arith);
        assert(d.last() == digit_char(n % 10));
        assert(digit_value(d.last()) == n % 10);
        assert(digits_value(d) == digits_value(before) * 10 + digit_value(d.last()));
        assert forall|i: int| 0 <= i < d.len() implies is_digit(#[trigger] d[i]) by {
            if i < before.len() {
                assert(d[i] == before[i]);
            }
        }
        assert(d[0] == before[0]);
    }
}

/// Writing a number in decimal and reading it back gives the number: what
/// [`decimal_string`] writes, `str::parse` reads as the same value (for
/// every unsigned type it fits in).
pub proof fn lemma_decimal_parses_back(n: nat, max: nat)
    requires
        n <= max,
    ensures
        parse_unsigned(decimal(n), max) == Some(n),
{
    lemma_decimal_digits(n);
}

/// Splitting on `sep` undoes joining with it: pieces that do not hold
/// `sep`, joined with `sep` between them, split back into those pieces.
pub proof fn lemma_split_joined(parts: Seq<Seq<char>>, sep: char)
    requires
        parts.len() >= 1,
        forall|k: int, i: int| 0 <= k < parts.len() && 0 <= i < parts[k].len() ==> #[trigger] parts[k][i] != sep,
    ensures
        split(joined(parts, seq![sep]), sep) == parts,
    decreases parts.len(),
{
    let e: Seq<char> = seq![];
    assert(scan_split(e, sep) == (Seq::<Seq<char>>::empty(), e));
    if parts.len() == 1 {
        lemma_scan_split_append_free(e, parts[0], sep);
        assert(e + parts[0] =~= parts[0]);
        assert(split(parts[0], sep) =~= parts);
    } else {
        let front = parts.drop_last();
        let last = parts.last();
        lemma_split_joined(front, sep);
        let j = joined(front, seq![sep]);
        let x = j + seq![sep];
        assert(x.drop_last() =~= j);
        assert(x.last() == sep);
        assert(scan_split(x, sep) == (split(j, sep), e));
        assert forall|i: int| 0 <= i < last.len() implies last[i] != sep by {
            assert(parts[parts.len() - 1][i] != sep);
        }
        lemma_scan_split_append_free(x, last, sep);
        assert(e + last =~= last);
        assert(joined(parts, seq![sep]) == x + last);
        assert(split(joined(parts, seq![sep]), sep) =~= front.push(last));
        assert(front.push(last) =~= parts);
    }
}

} // verus!
