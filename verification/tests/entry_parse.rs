use hosts_switcher::entry::{parse_entry_line, HostsEntry, ParseOutcome};

fn bv(s: &str) -> Vec<u8> {
    s.as_bytes().to_vec()
}

fn parsed(r: ParseOutcome) -> HostsEntry {
    match r {
        ParseOutcome::Parsed(e) => e,
        ParseOutcome::Skipped => panic!("line was skipped"),
    }
}

#[test]
fn parses_address_name_comment() {
    let e = parsed(parse_entry_line(b"192.168.1.1 example.com # test"));
    assert_eq!(e.address, bv("192.168.1.1"));
    assert_eq!(e.name, bv("example.com"));
    assert_eq!(e.comment, Some(bv("test")));
}

#[test]
fn single_token_is_skipped() {
    assert_eq!(parse_entry_line(b"192.168.1.1"), ParseOutcome::Skipped);
}

#[test]
fn blank_line_is_skipped() {
    assert_eq!(parse_entry_line(b""), ParseOutcome::Skipped);
    assert_eq!(parse_entry_line(b"   \t "), ParseOutcome::Skipped);
}

#[test]
fn comment_line_is_skipped() {
    assert_eq!(parse_entry_line(b"# just a comment"), ParseOutcome::Skipped);
}

#[test]
fn two_tokens_have_no_comment() {
    let e = parsed(parse_entry_line(b"127.0.0.1 localhost"));
    assert_eq!(e.address, bv("127.0.0.1"));
    assert_eq!(e.name, bv("localhost"));
    assert_eq!(e.comment, None);
}

#[test]
fn tab_separated_tokens() {
    let e = parsed(parse_entry_line(b"10.0.0.1\thost.example\t# lab"));
    assert_eq!(e.address, bv("10.0.0.1"));
    assert_eq!(e.name, bv("host.example"));
    assert_eq!(e.comment, Some(bv("lab")));
}

#[test]
fn surrounding_whitespace_is_trimmed() {
    let e = parsed(parse_entry_line(b"  1.2.3.4   a.example  "));
    assert_eq!(e.address, bv("1.2.3.4"));
    assert_eq!(e.name, bv("a.example"));
    assert_eq!(e.comment, None);
}

#[test]
fn bare_hash_comment_is_empty() {
    let e = parsed(parse_entry_line(b"1.2.3.4 a.example #"));
    assert_eq!(e.comment, Some(Vec::new()));
}

#[test]
fn comment_without_hash_is_kept() {
    let e = parsed(parse_entry_line(b"1.2.3.4 a.example primary"));
    assert_eq!(e.comment, Some(bv("primary")));
}

#[test]
fn repeated_separators_are_one_gap() {
    let e = parsed(parse_entry_line(b"1.2.3.4   a.example"));
    assert_eq!(e.address, bv("1.2.3.4"));
    assert_eq!(e.name, bv("a.example"));
    assert_eq!(e.comment, None);
}

#[test]
fn doubled_hashes_are_stripped() {
    let e = parsed(parse_entry_line(b"1.2.3.4 a.example ## note"));
    assert_eq!(e.comment, Some(bv("note")));
}
