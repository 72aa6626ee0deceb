use hosts_switcher::legacy::append_legacy_scope;

fn text(v: &[u8]) -> String {
    String::from_utf8(v.to_vec()).unwrap()
}

#[test]
fn fresh_block_appends_three_lines() {
    let out = append_legacy_scope(b"127.0.0.1 localhost\n", b"9.9.9.9 x.example");
    let t = text(&out);
    let lines: Vec<&str> = t.lines().collect();
    let n = lines.len();
    assert_eq!(lines[n - 3], "# ADD BY HOSTS SWITCHER");
    assert_eq!(lines[n - 2], "9.9.9.9 x.example");
    assert_eq!(lines[n - 1], "# END OF HOSTS SWITCHER");
    assert_eq!(lines[0], "127.0.0.1 localhost");
    assert_eq!(n, 4);
}

#[test]
fn fresh_block_on_empty_file() {
    let out = append_legacy_scope(b"", b"payload line");
    assert_eq!(
        text(&out),
        "# ADD BY HOSTS SWITCHER\npayload line\n# END OF HOSTS SWITCHER"
    );
}

#[test]
fn existing_block_accumulates_before_end_sentinel() {
    let start = append_legacy_scope(b"top\n", b"first");
    let again = append_legacy_scope(&start, b"second");
    assert_eq!(
        text(&again),
        "top\n# ADD BY HOSTS SWITCHER\nfirst\nsecond\n# END OF HOSTS SWITCHER"
    );
}

#[test]
fn other_lines_are_kept_verbatim() {
    let out = append_legacy_scope(b"a\n\nb\n", b"p");
    assert_eq!(
        text(&out),
        "a\n\nb\n# ADD BY HOSTS SWITCHER\np\n# END OF HOSTS SWITCHER"
    );
}
