use std::collections::HashMap;

use diff_kdbx::change_set::{
    Change, ChangeSet, DatabaseChange, DiffWarning, EntryChangeKind, FieldChange, GroupChangeKind, ValueChange,
    ValueDisplay,
};
use diff_kdbx::compute::{
    compute, field_diff_entry, is_suppressible, suppress_field_changes, symmetric_diff, tree_walk, LocatedNode,
    NodeKind,
};
use diff_kdbx::mask::HashPrefix;
use diff_kdbx::model::{Attachment, Database, Entry, Field, Group, Meta};
use diff_kdbx::options::DiffOptions;
use diff_kdbx::path::Path;

fn empty_db(root: u128) -> Database {
    Database {
        version: "KDBX4.1".to_string(),
        meta: Meta { database_name: None, color: None, recyclebin_uuid: None },
        root: Group { uuid: root, name: String::new(), groups: vec![], entries: vec![] },
    }
}

fn field(name: &str, value: &str, protected: bool) -> Field {
    Field { name: name.to_string(), value: value.to_string(), protected }
}

fn entry(uuid: u128, title: &str) -> Entry {
    Entry {
        uuid,
        fields: vec![field("Title", title, false)],
        tags: vec![],
        attachments: vec![],
        history_len: 0,
        last_modification: None,
    }
}

/// One live entry in the root, and a recycle bin group holding a trashed entry.
fn db_with_recycle_bin() -> Database {
    let mut db = empty_db(1);
    db.root.entries.push(entry(10, "Live"));
    db.root.groups.push(Group {
        uuid: 2,
        name: "Recycle Bin".to_string(),
        groups: vec![],
        entries: vec![entry(20, "Trashed")],
    });
    db.meta.recyclebin_uuid = Some(2);
    db
}

fn plain(v: &str) -> ValueDisplay {
    ValueDisplay::Plain { value: v.to_string() }
}

#[test]
fn walk_empty_db_has_only_root() {
    let db = empty_db(1);
    let map = tree_walk(&db, &DiffOptions::default());
    assert_eq!(map.len(), 1);
    let root = map.values().next().unwrap();
    assert!(matches!(root.kind, NodeKind::Group));
}

#[test]
fn walk_one_entry() {
    let mut db = empty_db(1);
    db.root.entries.push(entry(5, "MyEntry"));
    let map = tree_walk(&db, &DiffOptions::default());
    // root group + one entry
    assert_eq!(map.len(), 2);
    let entry_node = map.values().find(|n| matches!(n.kind, NodeKind::Entry)).unwrap();
    assert!(entry_node.path.display.ends_with("MyEntry"));
}

#[test]
fn walk_nested_group() {
    let mut db = empty_db(1);
    db.root.groups.push(Group { uuid: 2, name: "Sub".to_string(), groups: vec![], entries: vec![entry(3, "NestedEntry")] });
    let map = tree_walk(&db, &DiffOptions::default());
    // root + Sub group + NestedEntry
    assert_eq!(map.len(), 3);
    let entry_node = map.values().find(|n| matches!(n.kind, NodeKind::Entry)).unwrap();
    assert!(entry_node.path.display.contains("Sub"));
    assert!(entry_node.path.display.ends_with("NestedEntry"));
}

#[test]
fn walk_records_paths_and_uuid_chains() {
    let mut db = empty_db(1);
    db.root.name = "Root".to_string();
    db.root.groups.push(Group { uuid: 2, name: "A/B".to_string(), groups: vec![], entries: vec![entry(3, "E")] });
    let mut untitled = entry(4, "x");
    untitled.fields.clear();
    db.root.entries.push(untitled);
    let map = tree_walk(&db, &DiffOptions::default());
    assert_eq!(map[&1].path.display, "/Root");
    assert_eq!(map[&2].path.display, "/Root/A\\/B");
    assert_eq!(map[&3].path.display, "/Root/A\\/B/E");
    assert_eq!(map[&3].path.uuids, vec![1, 2, 3]);
    assert_eq!(map[&4].path.display, "/Root/<untitled>");
    assert!(matches!(map[&2].kind, NodeKind::Group));
    assert!(matches!(map[&4].kind, NodeKind::Entry));
}

#[test]
fn empty_dbs_produce_empty_change_set() {
    let a = empty_db(1);
    let b = empty_db(2);
    let opts = DiffOptions::default();
    let ma = tree_walk(&a, &opts);
    let mb = tree_walk(&b, &opts);
    let mut cs = ChangeSet::default();
    symmetric_diff(&ma, &mb, &mut cs);
    // The roots differ, so one group is added and one removed.
    assert_eq!(cs.summary.groups_added, 1);
    assert_eq!(cs.summary.groups_removed, 1);
    assert_eq!(cs.changes.len(), 2);
}

#[test]
fn symmetric_diff_reports_move_from_old_path() {
    let mut ma: HashMap<u128, LocatedNode> = HashMap::new();
    let mut mb: HashMap<u128, LocatedNode> = HashMap::new();
    ma.insert(9, LocatedNode { uuid: 9, path: Path { display: "/A/e".to_string(), uuids: vec![1, 9] }, kind: NodeKind::Entry });
    mb.insert(9, LocatedNode { uuid: 9, path: Path { display: "/B/e".to_string(), uuids: vec![2, 9] }, kind: NodeKind::Entry });
    let mut cs = ChangeSet::default();
    symmetric_diff(&ma, &mb, &mut cs);
    assert_eq!(cs.summary.entries_modified, 1);
    assert_eq!(
        cs.changes,
        vec![Change::Entry {
            uuid: 9,
            path: Path { display: "/A/e".to_string(), uuids: vec![1, 9] },
            kind: EntryChangeKind::Moved { to: Path { display: "/B/e".to_string(), uuids: vec![2, 9] } },
        }]
    );
}

#[test]
fn suppression_drops_last_access_time() {
    let opts = DiffOptions::default();
    let input = vec![
        FieldChange::Modified {
            name: "LastAccessTime".into(),
            change: ValueChange { from: plain("t1"), to: plain("t2") },
        },
        FieldChange::Modified {
            name: "Title".into(),
            change: ValueChange { from: plain("old"), to: plain("new") },
        },
    ];
    let (kept, suppressed) = suppress_field_changes(input, &opts);
    assert_eq!(kept.len(), 1);
    assert_eq!(suppressed, 1);
    assert!(matches!(&kept[0], FieldChange::Modified { name, .. } if name == "Title"));
}

#[test]
fn compute_strict_disables_suppression() {
    let opts = DiffOptions { strict: true, show_secrets: false, include_recycle_bin: false };
    let input = vec![FieldChange::Modified {
        name: "LastAccessTime".into(),
        change: ValueChange { from: plain("t1"), to: plain("t2") },
    }];
    let (kept, suppressed) = suppress_field_changes(input, &opts);
    assert_eq!(kept.len(), 1);
    assert_eq!(suppressed, 0);
}

#[test]
fn suppressible_only_for_noisy_value_changes() {
    assert!(is_suppressible(&FieldChange::Added { name: "UsageCount".into(), value: plain("1") }));
    assert!(is_suppressible(&FieldChange::Removed { name: "LocationChanged".into(), value: plain("x") }));
    assert!(!is_suppressible(&FieldChange::TagAdded { tag: "LastAccessTime".into() }));
    assert!(!is_suppressible(&FieldChange::Added { name: "lastaccesstime".into(), value: plain("1") }));
}

#[test]
fn suppression_keeps_order_and_counts_every_drop() {
    let input = vec![
        FieldChange::Added { name: "UsageCount".into(), value: plain("1") },
        FieldChange::TagAdded { tag: "a".into() },
        FieldChange::Removed { name: "LastAccessTime".into(), value: plain("t") },
        FieldChange::TagAdded { tag: "b".into() },
    ];
    let (kept, suppressed) = suppress_field_changes(input, &DiffOptions::default());
    assert_eq!(suppressed, 2);
    assert_eq!(kept, vec![FieldChange::TagAdded { tag: "a".into() }, FieldChange::TagAdded { tag: "b".into() }]);
}

#[test]
fn field_diff_entry_reports_each_kind_in_order() {
    let mut a = entry(1, "T");
    a.fields.push(field("Password", "p1", false));
    a.fields.push(field("Zeta", "z", false));
    a.fields.push(field("Alpha", "x", true));
    a.tags = vec!["old".into(), "keep".into()];
    a.attachments = vec![Attachment { name: "f".into(), content: Some(b"hello".to_vec()) }];
    a.history_len = 2;
    let mut b = entry(1, "T2");
    b.fields.push(field("Password", "p2", false));
    b.fields.push(field("Alpha", "y", false));
    b.tags = vec!["keep".into(), "new".into()];
    b.attachments = vec![Attachment { name: "g".into(), content: Some(vec![0u8]) }];
    b.history_len = 5;
    let fc = field_diff_entry(&a, &b, &DiffOptions::default());
    assert_eq!(
        fc,
        vec![
            FieldChange::Modified { name: "Title".into(), change: ValueChange { from: plain("T"), to: plain("T2") } },
            FieldChange::Modified {
                name: "Password".into(),
                change: ValueChange {
                    from: ValueDisplay::Masked { hash: HashPrefix::of("p1") },
                    to: ValueDisplay::Masked { hash: HashPrefix::of("p2") },
                },
            },
            FieldChange::Modified {
                name: "Alpha".into(),
                change: ValueChange {
                    from: ValueDisplay::Masked { hash: HashPrefix::of("x") },
                    to: ValueDisplay::Masked { hash: HashPrefix::of("y") },
                },
            },
            FieldChange::Removed { name: "Zeta".into(), value: plain("z") },
            FieldChange::TagAdded { tag: "new".into() },
            FieldChange::TagRemoved { tag: "old".into() },
            FieldChange::AttachmentRemoved { name: "f".into(), hash: HashPrefix("2cf24dba".into()) },
            FieldChange::AttachmentAdded { name: "g".into(), hash: HashPrefix("6e340b9c".into()) },
            FieldChange::HistoryGrew { added: 3 },
        ]
    );
}

#[test]
fn field_diff_entry_history_shrink_and_modified_attachment() {
    let mut a = entry(1, "T");
    a.attachments = vec![Attachment { name: "f".into(), content: Some(b"hello".to_vec()) }];
    a.history_len = 4;
    let mut b = entry(1, "T");
    b.attachments = vec![
        Attachment { name: "f".into(), content: Some(vec![0u8]) },
        Attachment { name: "lost".into(), content: None },
    ];
    b.history_len = 1;
    let fc = field_diff_entry(&a, &b, &DiffOptions::default());
    assert_eq!(
        fc,
        vec![
            FieldChange::AttachmentModified {
                name: "f".into(),
                from_hash: HashPrefix("2cf24dba".into()),
                to_hash: HashPrefix("6e340b9c".into()),
            },
            FieldChange::HistoryRewritten { from_len: 4, to_len: 1 },
        ]
    );
}

#[test]
fn field_diff_entry_show_secrets_reveals_password() {
    let mut a = entry(1, "T");
    a.fields.push(field("Password", "old", true));
    let b = entry(1, "T");
    let opts = DiffOptions { show_secrets: true, ..DiffOptions::default() };
    let fc = field_diff_entry(&a, &b, &opts);
    assert_eq!(fc, vec![FieldChange::Removed { name: "Password".into(), value: plain("old") }]);
}

#[test]
fn compute_identical_dbs_no_changes() {
    let a = empty_db(1);
    let b = empty_db(2);
    let opts = DiffOptions::default();
    let cs = compute(&a, &b, &opts);
    // No field-level entry changes (no entries at all).
    assert_eq!(cs.summary.entries_modified, 0);
    assert_eq!(cs.summary.fields_changed, 0);
    assert!(cs.warnings.is_empty());
}

#[test]
fn compute_metadata_name_change_detected() {
    let mut a = empty_db(1);
    let mut b = empty_db(2);
    a.meta.database_name = Some("VaultA".into());
    b.meta.database_name = Some("VaultB".into());
    let opts = DiffOptions::default();
    let cs = compute(&a, &b, &opts);
    let name_changes: Vec<_> = cs
        .changes
        .iter()
        .filter(|c| matches!(c, Change::Database(DatabaseChange::NameChanged { .. })))
        .collect();
    assert_eq!(name_changes.len(), 1, "expected exactly one NameChanged");
    assert!(cs.summary.metadata_changed >= 1);
}

#[test]
fn compute_database_changes_sort_before_groups_and_entries() {
    let mut a = empty_db(1);
    let mut b = empty_db(2);
    a.meta.database_name = Some("Old".into());
    b.meta.database_name = Some("New".into());
    b.root.entries.push(entry(3, "NewEntry"));
    let opts = DiffOptions::default();
    let cs = compute(&a, &b, &opts);
    if let Some(first) = cs.changes.first() {
        assert!(matches!(first, Change::Database(_)), "first change should be Database, got {:?}", first);
    }
}

#[test]
fn compute_detects_entry_added_and_removed() {
    let mut a = empty_db(1);
    let mut b = empty_db(2);
    a.root.entries.push(entry(3, "OnlyInA"));
    b.root.entries.push(entry(4, "OnlyInB"));
    let opts = DiffOptions::default();
    let cs = compute(&a, &b, &opts);
    assert!(cs.summary.entries_added >= 1, "expected >=1 added entry");
    assert!(cs.summary.entries_removed >= 1, "expected >=1 removed entry");
    let added_entries: Vec<_> =
        cs.changes.iter().filter(|c| matches!(c, Change::Entry { kind: EntryChangeKind::Added, .. })).collect();
    let removed_entries: Vec<_> =
        cs.changes.iter().filter(|c| matches!(c, Change::Entry { kind: EntryChangeKind::Removed, .. })).collect();
    assert!(!added_entries.is_empty(), "expected at least one Added entry change");
    assert!(!removed_entries.is_empty(), "expected at least one Removed entry change");
}

#[test]
fn compute_no_entry_modifications_when_entries_differ_by_uuid() {
    let mut a = empty_db(1);
    let mut b = empty_db(2);
    a.root.entries.push(entry(3, "Entry"));
    b.root.entries.push(entry(4, "Entry"));
    let opts = DiffOptions::default();
    let cs = compute(&a, &b, &opts);
    assert_eq!(cs.summary.entries_modified, 0);
}

#[test]
fn tree_walk_excludes_recycle_bin_by_default() {
    let db = db_with_recycle_bin();
    let map = tree_walk(&db, &DiffOptions::default());
    let titles: Vec<_> =
        map.values().filter(|n| matches!(n.kind, NodeKind::Entry)).map(|n| n.path.display.clone()).collect();
    assert!(titles.iter().any(|t| t.ends_with("Live")), "expected Live entry in walk output");
    assert!(!titles.iter().any(|t| t.ends_with("Trashed")), "expected Trashed entry to be suppressed");
    let group_names: Vec<_> =
        map.values().filter(|n| matches!(n.kind, NodeKind::Group)).map(|n| n.path.display.clone()).collect();
    assert!(!group_names.iter().any(|g| g.ends_with("Recycle Bin")), "expected Recycle Bin group to be suppressed");
}

#[test]
fn tree_walk_includes_recycle_bin_when_opted_in() {
    let db = db_with_recycle_bin();
    let opts = DiffOptions { include_recycle_bin: true, ..DiffOptions::default() };
    let map = tree_walk(&db, &opts);
    let titles: Vec<_> =
        map.values().filter(|n| matches!(n.kind, NodeKind::Entry)).map(|n| n.path.display.clone()).collect();
    assert!(titles.iter().any(|t| t.ends_with("Trashed")), "expected Trashed entry when include_recycle_bin = true");
    let group_names: Vec<_> =
        map.values().filter(|n| matches!(n.kind, NodeKind::Group)).map(|n| n.path.display.clone()).collect();
    assert!(
        group_names.iter().any(|g| g.ends_with("Recycle Bin")),
        "expected Recycle Bin group when include_recycle_bin = true"
    );
}

#[test]
fn compute_excludes_recycle_bin_entries_by_default() {
    let db = db_with_recycle_bin();
    let opts = DiffOptions::default();
    let cs = compute(&db, &db, &opts);
    let trashed: Vec<_> = cs
        .changes
        .iter()
        .filter(|c| match c {
            Change::Entry { path, .. } => path.display.contains("Trashed"),
            _ => false,
        })
        .collect();
    assert!(trashed.is_empty(), "recycle bin entries should not appear in default diff");
}

#[test]
fn compute_same_db_is_empty() {
    let mut db = db_with_recycle_bin();
    db.root.entries[0].fields.push(field("Password", "secret", true));
    db.root.entries[0].tags = vec!["t".into()];
    db.root.entries[0].history_len = 3;
    for opts in [DiffOptions::default(), DiffOptions { strict: true, show_secrets: true, include_recycle_bin: true }] {
        let cs = compute(&db, &db, &opts);
        assert!(cs.is_empty());
        assert!(cs.warnings.is_empty());
        assert_eq!(cs.summary, diff_kdbx::change_set::Summary::default());
    }
}

#[test]
fn compute_reports_moved_modified_and_metadata_in_order() {
    let mut a = empty_db(1);
    a.version = "KDBX4.0".into();
    a.meta.color = Some("Color { r: 1, g: 2, b: 3 }".into());
    a.root.groups.push(Group { uuid: 2, name: "G".into(), groups: vec![], entries: vec![entry(5, "Moving")] });
    let mut e6 = entry(6, "Same");
    e6.fields.push(field("LastAccessTime", "t1", false));
    e6.fields.push(field("URL", "http://a", false));
    a.root.entries.push(e6);
    let mut b = empty_db(1);
    b.meta.recyclebin_uuid = Some(9);
    b.root.groups.push(Group { uuid: 2, name: "G".into(), groups: vec![], entries: vec![] });
    b.root.entries.push(entry(5, "Moving"));
    let mut e6b = entry(6, "Same");
    e6b.fields.push(field("LastAccessTime", "t2", false));
    e6b.fields.push(field("URL", "http://b", false));
    b.root.entries.push(e6b);
    let cs = compute(&a, &b, &DiffOptions::default());
    assert_eq!(cs.warnings, vec![DiffWarning::VersionMismatch { a: "KDBX4.0".into(), b: "KDBX4.1".into() }]);
    assert_eq!(cs.summary.metadata_changed, 2);
    assert_eq!(cs.summary.entries_modified, 2);
    assert_eq!(cs.summary.fields_changed, 1);
    assert_eq!(cs.summary.suppressed, 1);
    assert_eq!(cs.changes.len(), 4);
    assert_eq!(
        cs.changes[0],
        Change::Database(DatabaseChange::ColorChanged { from: Some("Color { r: 1, g: 2, b: 3 }".into()), to: None })
    );
    assert_eq!(cs.changes[1], Change::Database(DatabaseChange::RecycleBinChanged { from: None, to: Some(9) }));
    // The move is listed at its old path, "//G/Moving", which sorts before "//Same".
    assert_eq!(
        cs.changes[2],
        Change::Entry {
            uuid: 5,
            path: Path { display: "//G/Moving".into(), uuids: vec![1, 2, 5] },
            kind: EntryChangeKind::Moved { to: Path { display: "//Moving".into(), uuids: vec![1, 5] } },
        }
    );
    assert_eq!(
        cs.changes[3],
        Change::Entry {
            uuid: 6,
            path: Path { display: "//Same".into(), uuids: vec![1, 6] },
            kind: EntryChangeKind::Modified {
                fields: vec![FieldChange::Modified {
                    name: "URL".into(),
                    change: ValueChange { from: plain("http://a"), to: plain("http://b") },
                }],
            },
        }
    );
}

#[test]
fn compute_swapped_inputs_swap_added_and_removed() {
    let mut a = empty_db(1);
    a.root.groups.push(Group { uuid: 2, name: "Old".into(), groups: vec![], entries: vec![entry(3, "x")] });
    let mut b = empty_db(1);
    b.root.entries.push(entry(4, "y"));
    b.root.entries.push(entry(5, "z"));
    let ab = compute(&a, &b, &DiffOptions::default());
    let ba = compute(&b, &a, &DiffOptions::default());
    assert_eq!(ab.summary.entries_added, 2);
    assert_eq!(ab.summary.entries_removed, 1);
    assert_eq!(ab.summary.groups_removed, 1);
    assert_eq!(ba.summary.entries_added, ab.summary.entries_removed);
    assert_eq!(ba.summary.entries_removed, ab.summary.entries_added);
    assert_eq!(ba.summary.groups_added, ab.summary.groups_removed);
    assert_eq!(ba.summary.groups_removed, ab.summary.groups_added);
    // Groups sort before entries; entries by path.
    assert!(matches!(ab.changes[0], Change::Group { kind: GroupChangeKind::Removed, .. }));
    assert!(matches!(&ab.changes[1], Change::Entry { path, .. } if path.display == "//Old/x"));
    assert!(matches!(&ab.changes[2], Change::Entry { path, .. } if path.display == "//y"));
}

#[test]
fn tree_walk_hides_everything_below_recycle_bin() {
    let mut db = db_with_recycle_bin();
    db.root.groups[0].groups.push(Group { uuid: 30, name: "Deep".into(), groups: vec![], entries: vec![entry(31, "Gone")] });
    let map = tree_walk(&db, &DiffOptions::default());
    assert_eq!(map.len(), 2);
    assert!(map.values().all(|n| !n.path.uuids.contains(&2)));
    let all = tree_walk(&db, &DiffOptions { include_recycle_bin: true, ..DiffOptions::default() });
    assert_eq!(all.len(), 6);
    assert_eq!(all[&31].path.uuids, vec![1, 2, 30, 31]);
}

#[test]
fn compute_summary_counts_match_listed_changes() {
    let mut a = empty_db(1);
    a.root.groups.push(Group { uuid: 2, name: "G".into(), groups: vec![], entries: vec![entry(5, "Moving")] });
    a.root.entries.push(entry(6, "Gone"));
    let mut e7 = entry(7, "Same");
    e7.tags = vec!["x".into()];
    a.root.entries.push(e7);
    let mut b = empty_db(1);
    b.root.groups.push(Group { uuid: 3, name: "New".into(), groups: vec![], entries: vec![entry(5, "Moving")] });
    let mut e7b = entry(7, "Same");
    e7b.tags = vec!["y".into(), "z".into()];
    b.root.entries.push(e7b);
    let cs = compute(&a, &b, &DiffOptions::default());
    let count = |f: &dyn Fn(&Change) -> bool| cs.changes.iter().filter(|c| f(c)).count();
    assert_eq!(cs.summary.groups_added, count(&|c| matches!(c, Change::Group { kind: GroupChangeKind::Added, .. })));
    assert_eq!(cs.summary.groups_removed, count(&|c| matches!(c, Change::Group { kind: GroupChangeKind::Removed, .. })));
    assert_eq!(cs.summary.entries_removed, count(&|c| matches!(c, Change::Entry { kind: EntryChangeKind::Removed, .. })));
    assert_eq!(
        cs.summary.entries_modified,
        count(&|c| matches!(c, Change::Entry { kind: EntryChangeKind::Moved { .. } | EntryChangeKind::Modified { .. }, .. }))
    );
    let fields: usize = cs
        .changes
        .iter()
        .map(|c| match c {
            Change::Entry { kind: EntryChangeKind::Modified { fields }, .. } => fields.len(),
            _ => 0,
        })
        .sum();
    assert_eq!(cs.summary.fields_changed, fields);
    assert_eq!(fields, 3);
    assert_eq!(cs.summary.entries_modified, 2);
}

#[test]
fn compute_swapped_inputs_keep_modified_counts() {
    let mut a = empty_db(1);
    a.root.groups.push(Group { uuid: 2, name: "G".into(), groups: vec![], entries: vec![entry(5, "Moving")] });
    a.root.entries.push(entry(6, "Same"));
    let mut b = empty_db(1);
    b.root.groups.push(Group { uuid: 2, name: "H".into(), groups: vec![], entries: vec![] });
    b.root.entries.push(entry(5, "Moving"));
    let mut e6 = entry(6, "Same");
    e6.fields.push(Field { name: "UsageCount".into(), value: "3".into(), protected: false });
    b.root.entries.push(e6);
    for opts in [DiffOptions::default(), DiffOptions { strict: true, ..DiffOptions::default() }] {
        let ab = compute(&a, &b, &opts);
        let ba = compute(&b, &a, &opts);
        assert_eq!(ab.summary.entries_modified, ba.summary.entries_modified);
        assert_eq!(ab.summary.groups_modified, ba.summary.groups_modified);
    }
    // The noisy field change only counts in strict mode.
    assert_eq!(compute(&a, &b, &DiffOptions::default()).summary.entries_modified, 1);
    assert_eq!(compute(&a, &b, &DiffOptions { strict: true, ..DiffOptions::default() }).summary.entries_modified, 2);
}

#[test]
fn compute_swap_keeps_modified_counts_when_kind_changes_in_place() {
    // UUID 4 is a group in one vault and an entry in the other, at the same path.
    let mut a = empty_db(1);
    a.root.groups.push(Group { uuid: 4, name: "X".into(), groups: vec![], entries: vec![] });
    a.root.groups.push(Group { uuid: 2, name: "G".into(), groups: vec![], entries: vec![entry(5, "m")] });
    let mut b = empty_db(1);
    b.root.entries.push(entry(4, "X"));
    b.root.groups.push(Group { uuid: 2, name: "H".into(), groups: vec![], entries: vec![entry(5, "m")] });
    let ab = compute(&a, &b, &DiffOptions::default());
    let ba = compute(&b, &a, &DiffOptions::default());
    assert_eq!(ab.summary.entries_modified, ba.summary.entries_modified);
    assert_eq!(ab.summary.groups_modified, ba.summary.groups_modified);
    assert_eq!(ab.summary.groups_modified, 1);
    assert_eq!(ab.summary.entries_modified, 1);
}
