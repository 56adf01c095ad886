use dsh_desktop::text::{
    chars_of, text_concat, decimal_string, fields_of, join_strings, lines_of, parse_unsigned_chars,
    replace_chars, split_of, string_from, trim_chars,
};

fn chars(s: &str) -> Vec<char> {
    s.chars().collect()
}

fn strings(v: &[&str]) -> Vec<String> {
    v.iter().map(|s| s.to_string()).collect()
}

#[test]
fn fields_split_on_any_unicode_whitespace() {
    let got = fields_of(&chars("  33876 node\t/bin/dsh\u{3000}web \n"));
    assert_eq!(got, strings(&["33876", "node", "/bin/dsh", "web"]));
    assert!(fields_of(&chars(" \t\r\n")).is_empty());
}

#[test]
fn lines_follow_str_lines() {
    let text = "a\r\nb\n\nc\rd\ne";
    assert_eq!(lines_of(&chars(text)), strings(&["a", "b", "", "c\rd", "e"]));
    assert_eq!(lines_of(&chars("x\n")), strings(&["x"]));
    assert!(lines_of(&chars("")).is_empty());
    assert_eq!(lines_of(&chars("\n")), strings(&[""]));
    for sample in ["one\ntwo\r\n", "a\r", "\r\n\r\nz", "plain"] {
        let expected: Vec<String> = sample.lines().map(str::to_string).collect();
        assert_eq!(lines_of(&chars(sample)), expected);
    }
}

#[test]
fn split_keeps_empty_pieces() {
    let pieces = split_of(&chars("24..0"), '.');
    assert_eq!(pieces, vec![chars("24"), vec![], chars("0")]);
    assert_eq!(split_of(&chars(""), '.'), vec![Vec::<char>::new()]);
}

#[test]
fn trim_removes_whitespace_at_both_ends() {
    assert_eq!(trim_chars(&chars(" \t 0.1.5 \r\n")), chars("0.1.5"));
    assert_eq!(trim_chars(&chars("   ")), Vec::<char>::new());
    assert_eq!(trim_chars(&chars("a b")), chars("a b"));
}

#[test]
fn unsigned_parsing_matches_str_parse() {
    assert_eq!(parse_unsigned_chars(&chars("3080"), 65535), Some(3080));
    assert_eq!(parse_unsigned_chars(&chars("+7"), 65535), Some(7));
    assert_eq!(parse_unsigned_chars(&chars("007"), 65535), Some(7));
    assert_eq!(parse_unsigned_chars(&chars("65535"), 65535), Some(65535));
    assert_eq!(parse_unsigned_chars(&chars("65536"), 65535), None);
    assert_eq!(parse_unsigned_chars(&chars("-1"), 65535), None);
    assert_eq!(parse_unsigned_chars(&chars("+"), 65535), None);
    assert_eq!(parse_unsigned_chars(&chars(""), 65535), None);
    assert_eq!(parse_unsigned_chars(&chars("1 2"), 65535), None);
    assert_eq!(parse_unsigned_chars(&chars("18446744073709551615"), u64::MAX), Some(u64::MAX));
    assert_eq!(parse_unsigned_chars(&chars("18446744073709551616"), u64::MAX), None);
    for s in ["0", "42", "+42", "4294967295", "4294967296", "x1", ""] {
        assert_eq!(
            parse_unsigned_chars(&chars(s), u32::MAX as u64),
            s.parse::<u32>().ok().map(u64::from)
        );
    }
}

#[test]
fn decimal_notation() {
    assert_eq!(decimal_string(0), "0");
    assert_eq!(decimal_string(3080), "3080");
    assert_eq!(decimal_string(u64::MAX), u64::MAX.to_string());
}

#[test]
fn replace_is_left_to_right_without_overlap() {
    let r = replace_chars(&chars("{v} and {v}"), &chars("{v}"), &chars("0.2"));
    assert_eq!(r, chars("0.2 and 0.2"));
    let r = replace_chars(&chars("aaa"), &chars("aa"), &chars("b"));
    assert_eq!(r, chars("ba"));
    let r = replace_chars(&chars("none here"), &chars("{x}"), &chars("y"));
    assert_eq!(r, chars("none here"));
}

#[test]
fn join_puts_separator_between_neighbours() {
    assert_eq!(join_strings(&strings(&["a", "b", "c"]), ":"), "a:b:c");
    assert_eq!(join_strings(&strings(&["only"]), ":"), "only");
    assert_eq!(join_strings(&Vec::new(), ":"), "");
}

#[test]
fn string_conversions_keep_characters() {
    assert_eq!(chars_of("dsh 启动"), chars("dsh 启动"));
    assert_eq!(string_from("路径/bin"), "路径/bin");
    assert_eq!(text_concat("127.0.0.1:", "3080"), "127.0.0.1:3080");
}

#[test]
fn decimal_reads_back() {
    for n in [0u64, 7, 10, 3080, 65535, u64::MAX] {
        let written: Vec<char> = decimal_string(n).chars().collect();
        assert_eq!(parse_unsigned_chars(&written, u64::MAX), Some(n));
    }
}
