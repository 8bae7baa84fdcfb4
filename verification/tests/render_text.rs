use diff_kdbx::change_set::{
    Change, ChangeSet, DatabaseChange, DiffWarning, EntryChangeKind, FieldChange, GroupChangeKind, Summary, ValueChange,
    ValueDisplay,
};
use diff_kdbx::mask::HashPrefix;
use diff_kdbx::options::RenderOptions;
use diff_kdbx::path::Path;
use diff_kdbx::render::text::{fmt_value_change, fmt_value_display, render, render_field, render_summary, render_warnings};

fn summary() -> Summary {
    Summary::default()
}

#[test]
fn empty_change_set_renders_no_changes_line() {
    let cs = ChangeSet::default();
    let out = render(&cs, &RenderOptions::default());
    assert!(out.contains("(no changes)"));
}

#[test]
fn database_rename_renders() {
    let cs = ChangeSet {
        changes: vec![Change::Database(DatabaseChange::NameChanged { from: "old".into(), to: "new".into() })],
        summary: Summary { metadata_changed: 1, ..Default::default() },
        warnings: vec![],
    };
    let out = render(&cs, &RenderOptions::default());
    assert!(out.contains("DATABASE name: old -> new"));
}

#[test]
fn summary_line_contains_change_counts() {
    let cs = ChangeSet {
        changes: vec![],
        summary: Summary {
            entries_added: 5,
            entries_removed: 2,
            entries_modified: 3,
            groups_added: 1,
            groups_removed: 0,
            groups_modified: 2,
            fields_changed: 10,
            suppressed: 1,
            ..Default::default()
        },
        warnings: vec![],
    };
    let out = render(&cs, &RenderOptions::default());
    assert!(out.contains("+5/-2/~3"));
    assert!(out.contains("+1/-0/~2"));
    assert!(out.contains("10 fields"));
    assert!(out.contains("1 suppressed"));
}

#[test]
fn field_addition_renders() {
    let cs = ChangeSet {
        changes: vec![Change::Entry {
            uuid: 0,
            path: Path { display: "/test".into(), uuids: vec![] },
            kind: EntryChangeKind::Modified {
                fields: vec![FieldChange::Added { name: "Title".into(), value: ValueDisplay::Plain { value: "MyEntry".into() } }],
            },
        }],
        summary: Summary::default(),
        warnings: vec![],
    };
    let out = render(&cs, &RenderOptions::default());
    assert!(out.contains("+ Title: MyEntry"));
}

#[test]
fn render_empty_exact_text() {
    let out = render(&ChangeSet::default(), &RenderOptions::default());
    assert_eq!(out, "summary: +0/-0/~0 entries, +0/-0/~0 groups, 0 fields, 0 suppressed\n(no changes)\n");
}

#[test]
fn render_summary_exact_line() {
    let mut out = String::from("x");
    let s = Summary { entries_added: 1, groups_modified: 20, fields_changed: 305, ..summary() };
    render_summary(&s, &mut out);
    assert_eq!(out, "xsummary: +1/-0/~0 entries, +0/-0/~20 groups, 305 fields, 0 suppressed\n");
}

#[test]
fn render_warnings_uses_debug_form() {
    let mut out = String::new();
    render_warnings(
        &[
            DiffWarning::VersionMismatch { a: "KDBX4.0".into(), b: "KDBX4.1".into() },
            DiffWarning::HashCollision { plaintext_a_hash_full: "q\"".into(), plaintext_b_hash_full: "z".into() },
        ],
        &mut out,
    );
    assert_eq!(
        out,
        "warning: VersionMismatch { a: \"KDBX4.0\", b: \"KDBX4.1\" }\n\
warning: HashCollision { plaintext_a_hash_full: \"q\\\"\", plaintext_b_hash_full: \"z\" }\n"
    );
}

#[test]
fn render_field_every_kind() {
    let h = |s: &str| HashPrefix(s.to_string());
    let plain = |s: &str| ValueDisplay::Plain { value: s.to_string() };
    let cases = vec![
        (FieldChange::Added { name: "URL".into(), value: plain("u") }, "  + URL: u\n"),
        (FieldChange::Removed { name: "Password".into(), value: ValueDisplay::Masked { hash: h("abcd0123") } }, "  - Password: <hash:abcd0123>\n"),
        (
            FieldChange::Modified { name: "N".into(), change: ValueChange { from: plain("a"), to: plain("b") } },
            "  ~ N: a -> b\n",
        ),
        (FieldChange::TagAdded { tag: "t".into() }, "  + tag: t\n"),
        (FieldChange::TagRemoved { tag: "t".into() }, "  - tag: t\n"),
        (FieldChange::AttachmentAdded { name: "f".into(), hash: h("11111111") }, "  + attachment f <hash:11111111>\n"),
        (FieldChange::AttachmentRemoved { name: "f".into(), hash: h("11111111") }, "  - attachment f <hash:11111111>\n"),
        (
            FieldChange::AttachmentModified { name: "f".into(), from_hash: h("11111111"), to_hash: h("22222222") },
            "  ~ attachment f [<hash:11111111> -> <hash:22222222>]\n",
        ),
        (FieldChange::HistoryGrew { added: 3 }, "  H 3 history entries added\n"),
        (FieldChange::HistoryRewritten { from_len: 7, to_len: 2 }, "  H history rewritten: 7 -> 2\n"),
    ];
    for (f, expected) in cases {
        let mut out = String::new();
        render_field(&f, &mut out);
        assert_eq!(out, expected);
    }
}

#[test]
fn fmt_value_helpers() {
    let m = ValueDisplay::Masked { hash: HashPrefix("deadbeef".into()) };
    let p = ValueDisplay::Plain { value: "v".into() };
    assert_eq!(fmt_value_display(&m), "<hash:deadbeef>");
    assert_eq!(fmt_value_display(&p), "v");
    assert_eq!(fmt_value_change(&ValueChange { from: p, to: m }), "v -> <hash:deadbeef>");
}

#[test]
fn render_groups_entries_and_database_changes() {
    let p = |s: &str| Path { display: s.to_string(), uuids: vec![] };
    let cs = ChangeSet {
        changes: vec![
            Change::Database(DatabaseChange::ColorChanged { from: None, to: Some("Red".into()) }),
            Change::Database(DatabaseChange::RecycleBinChanged { from: Some(1), to: None }),
            Change::Database(DatabaseChange::CustomDataAdded { key: "k".into(), value: ValueDisplay::Plain { value: "v".into() } }),
            Change::Group { uuid: 1, path: p("/g"), kind: GroupChangeKind::Added },
            Change::Group { uuid: 1, path: p("/g"), kind: GroupChangeKind::Moved { to: p("/h") } },
            Change::Group { uuid: 1, path: p("/g"), kind: GroupChangeKind::Renamed { from: "a".into(), to: "b".into() } },
            Change::Entry { uuid: 2, path: p("/e"), kind: EntryChangeKind::Removed },
        ],
        summary: Summary::default(),
        warnings: vec![],
    };
    let out = render(&cs, &RenderOptions::default());
    let expected = "summary: +0/-0/~0 entries, +0/-0/~0 groups, 0 fields, 0 suppressed\n\
DATABASE color: None -> Some(\"Red\")\n\
DATABASE recycle_bin: Some(00000000-0000-0000-0000-000000000001) -> None\n\
DATABASE custom_data[k] = v\n\
+ GROUP /g\n\
~ GROUP /g -> /h\n\
~ GROUP /g (renamed: a -> b)\n\
- ENTRY /e\n";
    assert_eq!(out, expected);
}

#[test]
fn render_color_wraps_change_lines_in_ansi() {
    let cs = ChangeSet {
        changes: vec![
            Change::Entry { uuid: 1, path: Path { display: "/a".into(), uuids: vec![] }, kind: EntryChangeKind::Added },
            Change::Entry {
                uuid: 2,
                path: Path { display: "/b".into(), uuids: vec![] },
                kind: EntryChangeKind::Modified {
                    fields: vec![FieldChange::Removed { name: "URL".into(), value: ValueDisplay::Plain { value: "u".into() } }],
                },
            },
            Change::Database(DatabaseChange::NameChanged { from: "x".into(), to: "y".into() }),
        ],
        summary: Summary::default(),
        warnings: vec![],
    };
    let colored = render(&cs, &RenderOptions { color: true });
    let plain = render(&cs, &RenderOptions { color: false });
    assert!(!plain.contains("\x1b["));
    assert!(colored.contains("\x1b["));
    let expected = "summary: +0/-0/~0 entries, +0/-0/~0 groups, 0 fields, 0 suppressed\n\
\x1b[32m+ ENTRY /a\x1b[0m\n\
\x1b[33m~ ENTRY /b\x1b[0m\n\
\x1b[31m  - URL: u\x1b[0m\n\
\x1b[36mDATABASE name: x -> y\x1b[0m\n";
    assert_eq!(colored, expected);
}

#[test]
fn render_color_leaves_no_changes_line_plain() {
    let out = render(&ChangeSet::default(), &RenderOptions { color: true });
    assert_eq!(out, "summary: +0/-0/~0 entries, +0/-0/~0 groups, 0 fields, 0 suppressed\n(no changes)\n");
}
