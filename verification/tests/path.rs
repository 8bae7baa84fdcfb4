use diff_kdbx::path::Path;

#[test]
fn encode_plain_segment() {
    assert_eq!(Path::encode_segment("Banking"), "Banking");
}

#[test]
fn encode_slash_in_segment() {
    assert_eq!(Path::encode_segment("Foo/Bar"), "Foo\\/Bar");
}

#[test]
fn encode_backslash_in_segment() {
    assert_eq!(Path::encode_segment("Foo\\Bar"), "Foo\\\\Bar");
}

#[test]
fn encode_newline_in_segment() {
    assert_eq!(Path::encode_segment("a\nb"), "a\\nb");
}

#[test]
fn encode_control_char() {
    assert_eq!(Path::encode_segment("a\x07b"), "a\\u{0007}b");
}

#[test]
fn encode_tab_return_and_c1_control() {
    assert_eq!(Path::encode_segment("a\tb\rc"), "a\\tb\\rc");
    assert_eq!(Path::encode_segment("x\u{7f}y\u{85}"), "x\\u{007f}y\\u{0085}");
    assert_eq!(Path::encode_segment("caf\u{e9}"), "caf\u{e9}");
}

#[test]
fn from_segments_root() {
    let p = Path::from_segments(&[], vec![]);
    assert_eq!(p.display, "/");
    assert!(p.uuids.is_empty());
}

#[test]
fn from_segments_nested() {
    let id1: u128 = 0;
    let id2: u128 = 1;
    let p = Path::from_segments(&["Banking", "Chase"], vec![id1, id2]);
    assert_eq!(p.display, "/Banking/Chase");
    assert_eq!(p.uuids, vec![id1, id2]);
}

#[test]
fn from_segments_with_special_chars() {
    let p = Path::from_segments(&["A/B", "C"], vec![]);
    assert_eq!(p.display, "/A\\/B/C");
}

#[test]
fn from_segments_with_empty_root_name() {
    let p = Path::from_segments(&["", "Entry"], vec![7, 8]);
    assert_eq!(p.display, "//Entry");
}

#[test]
fn distinct_names_encode_distinctly() {
    // A literal backslash-n and a newline must not display alike.
    let literal = Path::encode_segment("a\\nb");
    let newline = Path::encode_segment("a\nb");
    assert_eq!(literal, "a\\\\nb");
    assert_ne!(literal, newline);
    assert_ne!(Path::encode_segment("x/y"), Path::encode_segment("x\\/y"));
}

#[test]
fn encoded_names_hold_no_control_or_bare_slash() {
    let out = Path::encode_segment("a/b\u{1}c\\d\ne");
    assert!(!out.chars().any(|c| c.is_control()));
    let chars: Vec<char> = out.chars().collect();
    for (i, c) in chars.iter().enumerate() {
        if *c == '/' {
            assert!(i > 0 && chars[i - 1] == '\\');
        }
    }
    assert_eq!(Path::encode_segment("Plain name 42"), "Plain name 42");
}
