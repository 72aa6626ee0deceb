use hosts_switcher::text::{contains_bytes, ends_with_exec, split_lines_exec, trim_bytes};

fn bv(s: &str) -> Vec<u8> {
    s.as_bytes().to_vec()
}

#[test]
fn trims_surrounding_whitespace() {
    assert_eq!(trim_bytes(b"  a b \t\r"), bv("a b"));
    assert_eq!(trim_bytes(b""), bv(""));
    assert_eq!(trim_bytes(b" \t "), bv(""));
    assert_eq!(trim_bytes(b"x"), bv("x"));
}

#[test]
fn splits_on_newlines() {
    assert_eq!(split_lines_exec(b"a\nb\nc"), vec![bv("a"), bv("b"), bv("c")]);
    assert_eq!(split_lines_exec(b"a\nb\n"), vec![bv("a"), bv("b")]);
    assert_eq!(split_lines_exec(b""), Vec::<Vec<u8>>::new());
    assert_eq!(split_lines_exec(b"\n"), vec![bv("")]);
    assert_eq!(split_lines_exec(b"a\n\nb"), vec![bv("a"), bv(""), bv("b")]);
}

#[test]
fn finds_substrings() {
    assert!(contains_bytes(b"hello world", b"lo wo"));
    assert!(contains_bytes(b"abc", b""));
    assert!(!contains_bytes(b"abc", b"abcd"));
    assert!(!contains_bytes(b"abc", b"bd"));
}

#[test]
fn recognizes_suffixes() {
    assert!(ends_with_exec(b"group end", b" end"));
    assert!(!ends_with_exec(b"group", b" end"));
    assert!(ends_with_exec(b"x", b""));
}
