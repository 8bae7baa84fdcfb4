use diff_kdbx::dump::dump;
use diff_kdbx::model::{Attachment, Database, Entry, Field, Group, Meta};
use diff_kdbx::options::DumpOptions;

fn empty_db(root: u128) -> Database {
    Database {
        version: "KDBX4.1".to_string(),
        meta: Meta { database_name: None, color: None, recyclebin_uuid: None },
        root: Group { uuid: root, name: String::new(), groups: vec![], entries: vec![] },
    }
}

fn entry(uuid: u128, title: &str) -> Entry {
    Entry {
        uuid,
        fields: vec![Field { name: "Title".to_string(), value: title.to_string(), protected: false }],
        tags: vec![],
        attachments: vec![],
        history_len: 0,
        last_modification: None,
    }
}

fn db_with_recycle_bin() -> Database {
    let mut db = empty_db(1);
    db.root.entries.push(entry(10, "Live"));
    db.root.groups.push(Group {
        uuid: 2,
        name: "Recycle Bin".to_string(),
        groups: vec![],
        entries: vec![entry(20, "Trashed")],
    });
    db.meta.recyclebin_uuid = Some(2);
    db
}

#[test]
fn header_contains_required_lines() {
    let db = empty_db(1);
    let s = dump(&db, &DumpOptions::default());
    assert!(s.contains("DATABASE\n"), "dump should contain DATABASE header");
    assert!(s.contains("  version:"), "dump should contain version field");
    assert!(s.contains("  recycle_bin:"), "dump should contain recycle_bin field");
}

#[test]
fn header_includes_name_field() {
    let db = empty_db(1);
    let s = dump(&db, &DumpOptions::default());
    assert!(s.contains("  name:"), "dump should contain name field");
}

#[test]
fn dump_is_byte_stable_across_calls() {
    let db = empty_db(1);
    let s1 = dump(&db, &DumpOptions::default());
    let s2 = dump(&db, &DumpOptions::default());
    assert_eq!(s1, s2);
}

#[test]
fn dump_hides_recycle_bin_by_default() {
    let db = db_with_recycle_bin();
    let s = dump(&db, &DumpOptions::default());
    assert!(s.contains("Live"), "Live entry should appear in dump");
    assert!(!s.contains("Trashed"), "Trashed entry should be suppressed by default");
    assert!(
        !s.lines().any(|l| l.starts_with("GROUP") && l.ends_with("Recycle Bin")),
        "Recycle Bin group should be suppressed"
    );
}

#[test]
fn dump_shows_recycle_bin_when_opted_in() {
    let db = db_with_recycle_bin();
    let opts = DumpOptions { include_recycle_bin: true, ..DumpOptions::default() };
    let s = dump(&db, &opts);
    assert!(s.contains("Trashed"), "Trashed entry should appear with include_recycle_bin = true");
    assert!(s.contains("Recycle Bin"), "Recycle Bin group should appear with include_recycle_bin = true");
}

#[test]
fn dump_empty_db_exact_text() {
    let db = empty_db(0x0123_4567_89ab_cdef_0011_2233_4455_6677);
    let s = dump(&db, &DumpOptions::default());
    assert_eq!(s, "DATABASE\n  name: \n  version: KDBX4.1\n  recycle_bin: none\nGROUP /\n");
}

#[test]
fn dump_entry_block_exact_text() {
    let mut db = empty_db(1);
    db.meta.database_name = Some("Vault".into());
    db.meta.recyclebin_uuid = Some(0xa1a2a3a4_b1b2_c1c2_d1d2_d3d4d5d6d7d8);
    let mut e = entry(0x6789abcd_0000_0000_0000_000000000001, "Chase");
    e.fields.push(Field { name: "UserName".into(), value: "alice".into(), protected: false });
    e.fields.push(Field { name: "Password".into(), value: "hello".into(), protected: false });
    e.fields.push(Field { name: "Notes".into(), value: "n".into(), protected: true });
    e.tags = vec!["zeta".into(), "alpha".into(), "alpha".into()];
    e.attachments = vec![Attachment { name: "a".into(), content: None }, Attachment { name: "b".into(), content: Some(vec![1]) }];
    e.history_len = 12;
    e.last_modification = Some("2024-01-02T03:04:05Z".into());
    db.root.entries.push(e);
    let s = dump(&db, &DumpOptions::default());
    let expected = "DATABASE\n  name: Vault\n  version: KDBX4.1\n  recycle_bin: a1a2a3a4-b1b2-c1c2-d1d2-d3d4d5d6d7d8\n\
GROUP /\n\
ENTRY //Chase [uuid:6789abcd]\n  title: Chase\n  username: alice\n  password: <hash:2cf24dba>\n  url: \n  notes: <hash:1b16b1df>\n  tags: alpha, alpha, zeta\n\
\x20 attachments: 2\n  history: 12 entries\n  modified: 2024-01-02T03:04:05Z\n";
    assert_eq!(s, expected);
}

#[test]
fn dump_strict_keeps_modified_and_show_secrets_reveals() {
    let mut db = empty_db(1);
    let mut e = entry(2, "T");
    e.fields.push(Field { name: "Password".into(), value: "pw".into(), protected: true });
    e.last_modification = Some("2024-01-02T03:04:05Z".into());
    db.root.entries.push(e);
    let opts = DumpOptions { strict: true, show_secrets: true, include_recycle_bin: false };
    let s = dump(&db, &opts);
    assert!(s.contains("  password: pw\n"));
    // Strict mode suppresses nothing: the modification time stays.
    assert!(s.contains("  modified: 2024-01-02T03:04:05Z\n"));
    assert!(!s.contains("tags:"));
}

#[test]
fn dump_orders_nodes_by_path() {
    let mut db = empty_db(1);
    db.root.name = "R".into();
    db.root.entries.push(entry(5, "b"));
    db.root.groups.push(Group { uuid: 3, name: "a".into(), groups: vec![], entries: vec![entry(4, "c")] });
    let s = dump(&db, &DumpOptions::default());
    let heads: Vec<&str> = s.lines().filter(|l| l.starts_with("GROUP") || l.starts_with("ENTRY")).collect();
    assert_eq!(
        heads,
        vec![
            "GROUP /R",
            "GROUP /R/a",
            "ENTRY /R/a/c [uuid:00000000]",
            "ENTRY /R/b [uuid:00000000]",
        ]
    );
}
