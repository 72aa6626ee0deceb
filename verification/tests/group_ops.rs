use hosts_switcher::editor::{delete_group, upsert_group};
use hosts_switcher::entry::{HostsEntry, ParseOutcome, parse_entry_line};
use hosts_switcher::scanner::{list_groups, read_group};
use hosts_switcher::HostsError;

fn bv(s: &str) -> Vec<u8> {
    s.as_bytes().to_vec()
}

fn text(v: &[u8]) -> String {
    String::from_utf8(v.to_vec()).unwrap()
}

const BASE: &[u8] = b"127.0.0.1 localhost\n::1 localhost\n";

#[test]
fn upsert_then_read_round_trip() {
    let fragment = b"1.2.3.4 a.example # one\n\n# kept comment\n5.6.7.8 b.example\n";
    let written = upsert_group(BASE, b"work", fragment);
    let entries = read_group(&written, b"work");
    assert_eq!(entries.len(), 2);
    assert_eq!(entries[0].address, bv("1.2.3.4"));
    assert_eq!(entries[0].name, bv("a.example"));
    assert_eq!(entries[0].comment, Some(bv("one")));
    assert_eq!(entries[1].address, bv("5.6.7.8"));
    assert_eq!(entries[1].name, bv("b.example"));
    assert_eq!(entries[1].comment, None);
    // The round trip matches parsing the fragment directly.
    let direct: Vec<HostsEntry> = fragment
        .split(|&c| c == b'\n')
        .filter_map(|l| match parse_entry_line(l) {
            ParseOutcome::Parsed(e) => Some(e),
            ParseOutcome::Skipped => None,
        })
        .collect();
    assert_eq!(entries, direct);
}

#[test]
fn upsert_writes_markers_at_end() {
    let written = upsert_group(BASE, b"work", b"1.2.3.4 a.example\n");
    assert_eq!(
        text(&written),
        "127.0.0.1 localhost\n::1 localhost\n#------- work -------\n1.2.3.4 a.example\n#------- work end -------\n"
    );
}

#[test]
fn upsert_normalizes_missing_trailing_newline() {
    let written = upsert_group(b"127.0.0.1 localhost", b"g", b"1.1.1.1 x.example");
    assert_eq!(
        text(&written),
        "127.0.0.1 localhost\n#------- g -------\n1.1.1.1 x.example\n#------- g end -------\n"
    );
}

#[test]
fn upsert_twice_replaces() {
    let once = upsert_group(BASE, b"work", b"1.2.3.4 a.example\n");
    let twice = upsert_group(&once, b"work", b"9.9.9.9 c.example\n");
    let entries = read_group(&twice, b"work");
    assert_eq!(entries.len(), 1);
    assert_eq!(entries[0].address, bv("9.9.9.9"));
    assert_eq!(entries[0].name, bv("c.example"));
    let names = list_groups(&twice);
    assert_eq!(names.iter().filter(|n| *n == &bv("work")).count(), 1);
}

#[test]
fn list_groups_in_file_order() {
    let with_a = upsert_group(BASE, b"A", b"1.1.1.1 a.example\n");
    let with_b = upsert_group(&with_a, b"B", b"2.2.2.2 b.example\n");
    let names = list_groups(&with_b);
    assert_eq!(names, vec![bv("A"), bv("B")]);
}

#[test]
fn read_group_ignores_other_groups() {
    let with_a = upsert_group(BASE, b"A", b"1.1.1.1 a.example\n");
    let with_b = upsert_group(&with_a, b"B", b"2.2.2.2 b.example\n");
    let entries = read_group(&with_b, b"A");
    assert_eq!(entries.len(), 1);
    assert_eq!(entries[0].address, bv("1.1.1.1"));
    assert_eq!(entries[0].name, bv("a.example"));
}

#[test]
fn read_absent_group_is_empty() {
    assert_eq!(read_group(BASE, b"nope").len(), 0);
}

#[test]
fn read_skips_blank_comment_and_malformed_body_lines() {
    let written = upsert_group(BASE, b"g", b"# heading\nonly_one_token\n3.3.3.3 c.example\n");
    let entries = read_group(&written, b"g");
    assert_eq!(entries.len(), 1);
    assert_eq!(entries[0].name, bv("c.example"));
}

#[test]
fn delete_absent_group_fails() {
    assert_eq!(delete_group(BASE, b"nope"), Err(HostsError::GroupNotFound));
}

#[test]
fn delete_keeps_outside_lines_in_order() {
    let with_g = upsert_group(BASE, b"g", b"1.1.1.1 a.example\n");
    let extended = upsert_group(&with_g, b"h", b"2.2.2.2 b.example\n");
    let after = delete_group(&extended, b"g").unwrap();
    assert_eq!(
        text(&after),
        "127.0.0.1 localhost\n::1 localhost\n#------- h -------\n2.2.2.2 b.example\n#------- h end -------\n"
    );
    let names = list_groups(&after);
    assert!(!names.contains(&bv("g")));
    assert!(names.contains(&bv("h")));
}

#[test]
fn list_keeps_duplicate_marker_names() {
    let content = b"#------- twin -------\n#------- twin end -------\n#------- twin -------\n#------- twin end -------\n";
    let names = list_groups(content);
    assert_eq!(names, vec![bv("twin"), bv("twin")]);
}

#[test]
fn delete_removes_every_span_of_the_name() {
    let content = b"keep1\n#------- twin -------\n1.1.1.1 a.example\n#------- twin end -------\nkeep2\n#------- twin -------\n2.2.2.2 b.example\n#------- twin end -------\n";
    let after = delete_group(content, b"twin").unwrap();
    assert_eq!(text(&after), "keep1\nkeep2\n");
}

#[test]
fn end_marker_line_is_not_listed() {
    let content = b"#------- g -------\n#------- g end -------\n";
    let names = list_groups(content);
    assert_eq!(names, vec![bv("g")]);
}

#[test]
fn empty_fragment_makes_empty_group() {
    let written = upsert_group(BASE, b"empty", b"\n\n");
    assert_eq!(read_group(&written, b"empty").len(), 0);
    assert!(list_groups(&written).contains(&bv("empty")));
}

#[test]
fn carriage_returns_are_trimmed_for_matching() {
    let content = b"#------- g -------\r\n1.2.3.4 a.example\r\n#------- g end -------\r\n";
    let names = list_groups(content);
    assert_eq!(names, vec![bv("g")]);
    let entries = read_group(content, b"g");
    assert_eq!(entries.len(), 1);
    assert_eq!(entries[0].address, bv("1.2.3.4"));
    assert_eq!(entries[0].name, bv("a.example"));
}

#[test]
fn hosts_path_is_well_known() {
    assert_eq!(hosts_switcher::get_hosts_path(), "/etc/hosts");
}
