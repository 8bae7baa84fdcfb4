//! ChangeSet and friends: structured representation of a diff between two
//! KDBX databases. UUIDs are held as their 128-bit big-endian values.

use vstd::prelude::*;

use crate::mask::{hash_of_text, HashPrefix};
use crate::path::{Path, SpecPath};
use crate::sums::{cap, seq_sum};

verus! {

/// Display form of a single field value, after masking policy is applied.
#[derive(Debug, Clone, PartialEq, Eq)]
pub enum ValueDisplay {
    /// Unprotected field: show the raw value.
    Plain { value: String },
    /// Protected field: show only an 8-char SHA-256 hash prefix.
    Masked { hash: HashPrefix },
}

/// A change to a single value: from one display to another.
#[derive(Debug, Clone, PartialEq, Eq)]
pub struct ValueChange {
    pub from: ValueDisplay,
    pub to: ValueDisplay,
}

/// A single field-level change inside a modified entry.
#[derive(Debug, Clone, PartialEq, Eq)]
pub enum FieldChange {
    /// A field that did not exist in `a` and exists in `b`.
    Added { name: String, value: ValueDisplay },
    /// A field that existed in `a` and does not exist in `b`.
    Removed { name: String, value: ValueDisplay },
    /// A field that exists in both with different content.
    Modified { name: String, change: ValueChange },
    /// A tag added to the entry.
    TagAdded { tag: String },
    /// A tag removed from the entry.
    TagRemoved { tag: String },
    /// Attachment with a given name was added.
    AttachmentAdded { name: String, hash: HashPrefix },
    /// Attachment was removed.
    AttachmentRemoved { name: String, hash: HashPrefix },
    /// Attachment with the same name has different content.
    AttachmentModified { name: String, from_hash: HashPrefix, to_hash: HashPrefix },
    /// Per-entry history grew (entry was modified, previous state pushed).
    HistoryGrew { added: usize },
    /// Per-entry history shrank or non-prefix-extended (suspicious).
    HistoryRewritten { from_len: usize, to_len: usize },
}

/// Database-level metadata change.
#[derive(Debug, Clone, PartialEq, Eq)]
pub enum DatabaseChange {
    NameChanged { from: String, to: String },
    ColorChanged { from: Option<String>, to: Option<String> },
    RecycleBinChanged { from: Option<u128>, to: Option<u128> },
    CustomDataModified { key: String, change: ValueChange },
    CustomDataAdded { key: String, value: ValueDisplay },
    CustomDataRemoved { key: String, value: ValueDisplay },
}

/// Group-level change kind.
#[derive(Debug, Clone, PartialEq, Eq)]
pub enum GroupChangeKind {
    Added,
    Removed,
    Moved { to: Path },
    Renamed { from: String, to: String },
    PropertiesChanged { fields: Vec<FieldChange> },
}

/// Entry-level change kind.
#[derive(Debug, Clone, PartialEq, Eq)]
pub enum EntryChangeKind {
    Added,
    Removed,
    Moved { to: Path },
    Modified { fields: Vec<FieldChange> },
}

/// One change at any level of the KDBX hierarchy.
#[derive(Debug, Clone, PartialEq, Eq)]
pub enum Change {
    Database(DatabaseChange),
    Group { uuid: u128, path: Path, kind: GroupChangeKind },
    Entry { uuid: u128, path: Path, kind: EntryChangeKind },
}

/// Counts of various change types. Rendered at the top of text output.
#[derive(Debug, Clone, PartialEq, Eq)]
pub struct Summary {
    pub groups_added: usize,
    pub groups_removed: usize,
    pub groups_modified: usize,
    pub entries_added: usize,
    pub entries_removed: usize,
    pub entries_modified: usize,
    pub fields_changed: usize,
    pub attachments_changed: usize,
    pub history_changes: usize,
    pub metadata_changed: usize,
    /// Count of changes hidden by suppression policy.
    pub suppressed: usize,
}

/// Non-fatal observation surfaced from `compute`.
#[derive(Debug, Clone, PartialEq, Eq)]
pub enum DiffWarning {
    /// The two databases use different KDBX versions.
    VersionMismatch { a: String, b: String },
    /// Hash collision in 8-char prefix detected (should be vanishingly rare).
    HashCollision { plaintext_a_hash_full: String, plaintext_b_hash_full: String },
}

/// The top-level diff result.
#[derive(Debug, Clone, PartialEq, Eq)]
pub struct ChangeSet {
    pub changes: Vec<Change>,
    pub summary: Summary,
    pub warnings: Vec<DiffWarning>,
}

// ---------------------------------------------------------------------------
// Mathematical values of the change types.
// ---------------------------------------------------------------------------

pub enum SpecValueDisplay {
    Plain { value: Seq<char> },
    Masked { hash: Seq<char> },
}

pub struct SpecValueChange {
    pub from: SpecValueDisplay,
    pub to: SpecValueDisplay,
}

pub enum SpecFieldChange {
    Added { name: Seq<char>, value: SpecValueDisplay },
    Removed { name: Seq<char>, value: SpecValueDisplay },
    Modified { name: Seq<char>, change: SpecValueChange },
    TagAdded { tag: Seq<char> },
    TagRemoved { tag: Seq<char> },
    AttachmentAdded { name: Seq<char>, hash: Seq<char> },
    AttachmentRemoved { name: Seq<char>, hash: Seq<char> },
    AttachmentModified { name: Seq<char>, from_hash: Seq<char>, to_hash: Seq<char> },
    HistoryGrew { added: usize },
    HistoryRewritten { from_len: usize, to_len: usize },
}

pub enum SpecDatabaseChange {
    NameChanged { from: Seq<char>, to: Seq<char> },
    ColorChanged { from: Option<Seq<char>>, to: Option<Seq<char>> },
    RecycleBinChanged { from: Option<u128>, to: Option<u128> },
    CustomDataModified { key: Seq<char>, change: SpecValueChange },
    CustomDataAdded { key: Seq<char>, value: SpecValueDisplay },
    CustomDataRemoved { key: Seq<char>, value: SpecValueDisplay },
}

pub enum SpecGroupChangeKind {
    Added,
    Removed,
    Moved { to: SpecPath },
    Renamed { from: Seq<char>, to: Seq<char> },
    PropertiesChanged { fields: Seq<SpecFieldChange> },
}

pub enum SpecEntryChangeKind {
    Added,
    Removed,
    Moved { to: SpecPath },
    Modified { fields: Seq<SpecFieldChange> },
}

pub enum SpecChange {
    Database(SpecDatabaseChange),
    Group { uuid: u128, path: SpecPath, kind: SpecGroupChangeKind },
    Entry { uuid: u128, path: SpecPath, kind: SpecEntryChangeKind },
}

pub enum SpecDiffWarning {
    VersionMismatch { a: Seq<char>, b: Seq<char> },
    HashCollision { plaintext_a_hash_full: Seq<char>, plaintext_b_hash_full: Seq<char> },
}

pub open spec fn opt_view(o: Option<String>) -> Option<Seq<char>> {
    match o {
        Some(s) => Some(s@),
        None => None,
    }
}

/// The values of a list of field changes.
pub open spec fn field_views(v: Seq<FieldChange>) -> Seq<SpecFieldChange> {
    v.map_values(|f: FieldChange| f@)
}

/// The values of a list of changes.
pub open spec fn change_views(v: Seq<Change>) -> Seq<SpecChange> {
    v.map_values(|c: Change| c@)
}

/// The values of a list of warnings.
pub open spec fn warning_views(v: Seq<DiffWarning>) -> Seq<SpecDiffWarning> {
    v.map_values(|w: DiffWarning| w@)
}

impl View for ValueDisplay {
    type V = SpecValueDisplay;

    open spec fn view(&self) -> SpecValueDisplay {
        match self {
            ValueDisplay::Plain { value } => SpecValueDisplay::Plain { value: value@ },
            ValueDisplay::Masked { hash } => SpecValueDisplay::Masked { hash: hash@ },
        }
    }
}

impl View for ValueChange {
    type V = SpecValueChange;

    open spec fn view(&self) -> SpecValueChange {
        SpecValueChange { from: self.from@, to: self.to@ }
    }
}

impl View for FieldChange {
    type V = SpecFieldChange;

    open spec fn view(&self) -> SpecFieldChange {
        match self {
            FieldChange::Added { name, value } => SpecFieldChange::Added { name: name@, value: value@ },
            FieldChange::Removed { name, value } => SpecFieldChange::Removed { name: name@, value: value@ },
            FieldChange::Modified { name, change } => SpecFieldChange::Modified { name: name@, change: change@ },
            FieldChange::TagAdded { tag } => SpecFieldChange::TagAdded { tag: tag@ },
            FieldChange::TagRemoved { tag } => SpecFieldChange::TagRemoved { tag: tag@ },
            FieldChange::AttachmentAdded { name, hash } => SpecFieldChange::AttachmentAdded { name: name@, hash: hash@ },
            FieldChange::AttachmentRemoved { name, hash } => SpecFieldChange::AttachmentRemoved { name: name@, hash: hash@ },
            FieldChange::AttachmentModified { name, from_hash, to_hash } => SpecFieldChange::AttachmentModified {
                name: name@,
                from_hash: from_hash@,
                to_hash: to_hash@,
            },
            FieldChange::HistoryGrew { added } => SpecFieldChange::HistoryGrew { added: *added },
            FieldChange::HistoryRewritten { from_len, to_len } => SpecFieldChange::HistoryRewritten {
                from_len: *from_len,
                to_len: *to_len,
            },
        }
    }
}

impl View for DatabaseChange {
    type V = SpecDatabaseChange;

    open spec fn view(&self) -> SpecDatabaseChange {
        match self {
            DatabaseChange::NameChanged { from, to } => SpecDatabaseChange::NameChanged { from: from@, to: to@ },
            DatabaseChange::ColorChanged { from, to } => SpecDatabaseChange::ColorChanged {
                from: opt_view(*from),
                to: opt_view(*to),
            },
            DatabaseChange::RecycleBinChanged { from, to } => SpecDatabaseChange::RecycleBinChanged { from: *from, to: *to },
            DatabaseChange::CustomDataModified { key, change } => SpecDatabaseChange::CustomDataModified {
                key: key@,
                change: change@,
            },
            DatabaseChange::CustomDataAdded { key, value } => SpecDatabaseChange::CustomDataAdded { key: key@, value: value@ },
            DatabaseChange::CustomDataRemoved { key, value } => SpecDatabaseChange::CustomDataRemoved {
                key: key@,
                value: value@,
            },
        }
    }
}

impl View for GroupChangeKind {
    type V = SpecGroupChangeKind;

    open spec fn view(&self) -> SpecGroupChangeKind {
        match self {
            GroupChangeKind::Added => SpecGroupChangeKind::Added,
            GroupChangeKind::Removed => SpecGroupChangeKind::Removed,
            GroupChangeKind::Moved { to } => SpecGroupChangeKind::Moved { to: to@ },
            GroupChangeKind::Renamed { from, to } => SpecGroupChangeKind::Renamed { from: from@, to: to@ },
            GroupChangeKind::PropertiesChanged { fields } => SpecGroupChangeKind::PropertiesChanged {
                fields: field_views(fields@),
            },
        }
    }
}

impl View for EntryChangeKind {
    type V = SpecEntryChangeKind;

    open spec fn view(&self) -> SpecEntryChangeKind {
        match self {
            EntryChangeKind::Added => SpecEntryChangeKind::Added,
            EntryChangeKind::Removed => SpecEntryChangeKind::Removed,
            EntryChangeKind::Moved { to } => SpecEntryChangeKind::Moved { to: to@ },
            EntryChangeKind::Modified { fields } => SpecEntryChangeKind::Modified { fields: field_views(fields@) },
        }
    }
}

impl View for Change {
    type V = SpecChange;

    open spec fn view(&self) -> SpecChange {
        match self {
            Change::Database(d) => SpecChange::Database(d@),
            Change::Group { uuid, path, kind } => SpecChange::Group { uuid: *uuid, path: path@, kind: kind@ },
            Change::Entry { uuid, path, kind } => SpecChange::Entry { uuid: *uuid, path: path@, kind: kind@ },
        }
    }
}

impl View for DiffWarning {
    type V = SpecDiffWarning;

    open spec fn view(&self) -> SpecDiffWarning {
        match self {
            DiffWarning::VersionMismatch { a, b } => SpecDiffWarning::VersionMismatch { a: a@, b: b@ },
            DiffWarning::HashCollision { plaintext_a_hash_full, plaintext_b_hash_full } => SpecDiffWarning::HashCollision {
                plaintext_a_hash_full: plaintext_a_hash_full@,
                plaintext_b_hash_full: plaintext_b_hash_full@,
            },
        }
    }
}

/// An entry reported as added.
pub open spec fn is_entry_added(c: SpecChange) -> bool {
    c matches SpecChange::Entry { kind: SpecEntryChangeKind::Added, .. }
}

/// An entry reported as removed.
pub open spec fn is_entry_removed(c: SpecChange) -> bool {
    c matches SpecChange::Entry { kind: SpecEntryChangeKind::Removed, .. }
}

/// An entry reported as moved.
pub open spec fn is_entry_moved(c: SpecChange) -> bool {
    c matches SpecChange::Entry { kind: SpecEntryChangeKind::Moved { .. }, .. }
}

/// An entry reported as modified.
pub open spec fn is_entry_modified(c: SpecChange) -> bool {
    c matches SpecChange::Entry { kind: SpecEntryChangeKind::Modified { .. }, .. }
}

/// A group reported as added.
pub open spec fn is_group_added(c: SpecChange) -> bool {
    c matches SpecChange::Group { kind: SpecGroupChangeKind::Added, .. }
}

/// A group reported as removed.
pub open spec fn is_group_removed(c: SpecChange) -> bool {
    c matches SpecChange::Group { kind: SpecGroupChangeKind::Removed, .. }
}

/// A group reported as moved.
pub open spec fn is_group_moved(c: SpecChange) -> bool {
    c matches SpecChange::Group { kind: SpecGroupChangeKind::Moved { .. }, .. }
}

/// A database-level change.
pub open spec fn is_database_change(c: SpecChange) -> bool {
    c is Database
}

/// The number of field changes a change carries: those of a modified
/// entry, none otherwise.
pub open spec fn field_count(c: SpecChange) -> nat {
    match c {
        SpecChange::Entry { kind: SpecEntryChangeKind::Modified { fields }, .. } => fields.len(),
        _ => 0,
    }
}

/// The summary counts the listed changes: each added, removed and moved
/// count is the number of listed changes of that kind, modified entries
/// count moves and modifications, every modified entry carries a field
/// change, the field count is the sum of the field changes listed
/// (saturating at `usize::MAX`), and the metadata count is the number of
/// database-level changes.
pub open spec fn counts_listed(s: Summary, l: Seq<SpecChange>) -> bool {
    &&& s.entries_added == l.filter(|c: SpecChange| is_entry_added(c)).len() as usize
    &&& s.entries_removed == l.filter(|c: SpecChange| is_entry_removed(c)).len() as usize
    &&& s.groups_added == l.filter(|c: SpecChange| is_group_added(c)).len() as usize
    &&& s.groups_removed == l.filter(|c: SpecChange| is_group_removed(c)).len() as usize
    &&& s.groups_modified == l.filter(|c: SpecChange| is_group_moved(c)).len() as usize
    &&& s.entries_modified == (l.filter(|c: SpecChange| is_entry_moved(c)).len() + l.filter(
        |c: SpecChange| is_entry_modified(c),
    ).len()) as usize
    &&& s.metadata_changed == l.filter(|c: SpecChange| is_database_change(c)).len() as usize
    &&& s.fields_changed == cap(seq_sum(l, |c: SpecChange| field_count(c)) as int)
    &&& forall|i: int|
        0 <= i < l.len() && is_entry_modified(#[trigger] l[i]) ==> (l[i]->Entry_kind)->Modified_fields.len() > 0
}

/// The display a value gets: masked iff protected and secrets are hidden.
pub open spec fn spec_value_display(value: Seq<char>, protected: bool, show_secrets: bool) -> SpecValueDisplay {
    if protected && !show_secrets {
        SpecValueDisplay::Masked { hash: hash_of_text(value) }
    } else {
        SpecValueDisplay::Plain { value }
    }
}

/// How a value is shown: itself, or its hash prefix in `<hash:..>`.
pub open spec fn value_text(d: SpecValueDisplay) -> Seq<char> {
    match d {
        SpecValueDisplay::Plain { value } => value,
        SpecValueDisplay::Masked { hash } => "<hash:"@ + hash + ">"@,
    }
}

impl ValueDisplay {
    /// Construct a ValueDisplay according to the protected-flag and show-secrets policy.
    pub fn from_value(value: &str, protected: bool, show_secrets: bool) -> (r: Self)
        ensures
            r@ == spec_value_display(value@, protected, show_secrets),
    {
        if protected && !show_secrets {
            ValueDisplay::Masked { hash: HashPrefix::of(value) }
        } else {
            ValueDisplay::Plain { value: value.to_owned() }
        }
    }
}

impl Summary {
    /// All counters zero.
    pub open spec fn zero() -> Summary {
        Summary {
            groups_added: 0,
            groups_removed: 0,
            groups_modified: 0,
            entries_added: 0,
            entries_removed: 0,
            entries_modified: 0,
            fields_changed: 0,
            attachments_changed: 0,
            history_changes: 0,
            metadata_changed: 0,
            suppressed: 0,
        }
    }
}

impl Default for Summary {
    fn default() -> (r: Self)
        ensures
            r == Summary::zero(),
    {
        Summary {
            groups_added: 0,
            groups_removed: 0,
            groups_modified: 0,
            entries_added: 0,
            entries_removed: 0,
            entries_modified: 0,
            fields_changed: 0,
            attachments_changed: 0,
            history_changes: 0,
            metadata_changed: 0,
            suppressed: 0,
        }
    }
}

impl Default for ChangeSet {
    fn default() -> (r: Self)
        ensures
            r.changes@.len() == 0,
            r.summary == Summary::zero(),
            r.warnings@.len() == 0,
    {
        ChangeSet { changes: Vec::new(), summary: Summary::default(), warnings: Vec::new() }
    }
}

impl ChangeSet {
    /// True iff there are no changes (warnings don't count).
    pub fn is_empty(&self) -> (r: bool)
        ensures
            r == (self.changes@.len() == 0),
    {
        self.changes.len() == 0
    }
}

} // verus!
