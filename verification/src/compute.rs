//! Diff computation: walk two vaults and produce a structural ChangeSet.

use std::collections::HashMap;
use vstd::std_specs::iter::IteratorSpec;
use vstd::prelude::*;

use crate::change_set::{
    change_views, counts_listed, field_views, opt_view, warning_views, Change, ChangeSet, DatabaseChange, DiffWarning,
    EntryChangeKind, FieldChange, GroupChangeKind, SpecChange, SpecDatabaseChange, SpecDiffWarning,
    SpecEntryChangeKind, SpecFieldChange, SpecGroupChangeKind, Summary,
};
use crate::sums::{cap, lemma_set_sum, seq_sum, set_sum};
use crate::fields::{diff_attachments, diff_custom_fields, diff_history, diff_standard_fields, diff_tags, spec_field_diff};
use crate::model::{Database, Entry, Group};
use crate::options::DiffOptions;
use crate::path::{display_of, Path, SpecPath};
use crate::text::{lemma_str_lt_irreflexive, lemma_str_lt_total, lemma_str_lt_transitive, lemma_sorted_unique, sorted_by, str_eq, str_less, str_lt, strict_order, views};

verus! {

broadcast use vstd::std_specs::hash::group_hash_axioms;

/// Discriminates between a group node and an entry node.
#[derive(Debug, Clone, Copy, PartialEq, Eq, Structural)]
pub enum NodeKind {
    Group,
    Entry,
}

/// A node located in a database tree, together with its path.
#[derive(Debug, Clone)]
pub struct LocatedNode {
    pub uuid: u128,
    pub path: Path,
    pub kind: NodeKind,
}

/// The mathematical value of a located node.
pub struct SpecLocatedNode {
    pub uuid: u128,
    pub path: SpecPath,
    pub kind: NodeKind,
}

impl View for LocatedNode {
    type V = SpecLocatedNode;

    open spec fn view(&self) -> SpecLocatedNode {
        SpecLocatedNode { uuid: self.uuid, path: self.path@, kind: self.kind }
    }
}

/// Classification of one node's presence between two databases.
#[derive(Debug, Clone, PartialEq, Eq)]
pub enum NodePresence {
    AddedOnly,
    RemovedOnly,
    Both { same_path: bool },
}

/// The node found at the end of a chain of names and UUIDs.
pub open spec fn located(uuid: u128, names: Seq<Seq<char>>, ids: Seq<u128>, kind: NodeKind) -> SpecLocatedNode {
    SpecLocatedNode { uuid, path: SpecPath { display: display_of(names), uuids: ids }, kind }
}

/// The name an entry is listed under: its title, or `<untitled>`.
pub open spec fn entry_title(e: Entry) -> Seq<char> {
    match e.value_of("Title"@) {
        Some(t) => t,
        None => "<untitled>"@,
    }
}

/// The entries of one group, in order, under the group's names and UUIDs.
pub open spec fn walk_entries(es: Seq<Entry>, names: Seq<Seq<char>>, ids: Seq<u128>) -> Seq<SpecLocatedNode>
    decreases es.len(),
{
    if es.len() == 0 {
        seq![]
    } else {
        walk_entries(es.drop_last(), names, ids).push(
            located(es.last().uuid, names.push(entry_title(es.last())), ids.push(es.last().uuid), NodeKind::Entry),
        )
    }
}

/// Depth-first listing of a group: the group itself, then its child groups
/// (recursively, in order), then its own entries. The group `skip`, and all
/// below it, is left out.
pub open spec fn walk_group(g: Group, names: Seq<Seq<char>>, ids: Seq<u128>, skip: Option<u128>) -> Seq<SpecLocatedNode>
    decreases g,
{
    if skip == Some(g.uuid) {
        seq![]
    } else {
        let n2 = names.push(g.name@);
        let i2 = ids.push(g.uuid);
        seq![located(g.uuid, n2, i2, NodeKind::Group)] + walk_groups(g.groups@, n2, i2, skip) + walk_entries(
            g.entries@,
            n2,
            i2,
        )
    }
}

/// `walk_group` over a list of sibling groups, concatenated in order.
pub open spec fn walk_groups(gs: Seq<Group>, names: Seq<Seq<char>>, ids: Seq<u128>, skip: Option<u128>) -> Seq<SpecLocatedNode>
    decreases gs,
{
    if gs.len() == 0 {
        seq![]
    } else {
        walk_groups(gs.drop_last(), names, ids, skip) + walk_group(gs.last(), names, ids, skip)
    }
}

/// Inserts the nodes in order, keyed by UUID; a later node replaces an
/// earlier one with the same UUID.
pub open spec fn insert_all(m: Map<u128, SpecLocatedNode>, s: Seq<SpecLocatedNode>) -> Map<u128, SpecLocatedNode>
    decreases s.len(),
{
    if s.len() == 0 {
        m
    } else {
        insert_all(m, s.drop_last()).insert(s.last().uuid, s.last())
    }
}

/// The group left out of a walk: the recycle bin, unless it is asked for.
pub open spec fn skipped_group(db: Database, include_recycle_bin: bool) -> Option<u128> {
    if include_recycle_bin {
        None
    } else {
        db.meta.recyclebin_uuid
    }
}

/// All located nodes of a database in walk order.
pub open spec fn walk_database(db: Database, include_recycle_bin: bool) -> Seq<SpecLocatedNode> {
    walk_group(db.root, seq![], seq![], skipped_group(db, include_recycle_bin))
}

/// What `tree_walk` returns: every walked node, keyed by UUID.
pub open spec fn spec_tree_walk(db: Database, include_recycle_bin: bool) -> Map<u128, SpecLocatedNode> {
    insert_all(Map::empty(), walk_database(db, include_recycle_bin))
}

/// The values of a node map.
pub open spec fn node_views(m: Map<u128, LocatedNode>) -> Map<u128, SpecLocatedNode> {
    m.map_values(|n: LocatedNode| n@)
}

proof fn lemma_insert_all_append(m: Map<u128, SpecLocatedNode>, s1: Seq<SpecLocatedNode>, s2: Seq<SpecLocatedNode>)
    ensures
        insert_all(m, s1 + s2) == insert_all(insert_all(m, s1), s2),
    decreases s2.len(),
{
    if s2.len() == 0 {
        assert(s1 + s2 =~= s1);
    } else {
        assert((s1 + s2).drop_last() =~= s1 + s2.drop_last());
        lemma_insert_all_append(m, s1, s2.drop_last());
    }
}

fn copy_ids(v: &Vec<u128>) -> (r: Vec<u128>)
    ensures
        r@ == v@,
{
    let mut r: Vec<u128> = Vec::new();
    let mut i: usize = 0;
    while i < v.len()
        invariant
            i <= v@.len(),
            r@ == v@.take(i as int),
        decreases v@.len() - i,
    {
        r.push(v[i]);
        assert(v@.take(i + 1) =~= v@.take(i as int).push(v@[i as int]));
        i = i + 1;
    }
    assert(v@.take(v@.len() as int) =~= v@);
    r
}

/// The path for the current name and UUID stacks.
fn path_of(names: &Vec<String>, ids: &Vec<u128>) -> (p: Path)
    ensures
        p@ == (SpecPath { display: display_of(views(names@)), uuids: ids@ }),
{
    let mut segs: Vec<&str> = Vec::new();
    let mut i: usize = 0;
    while i < names.len()
        invariant
            i <= names@.len(),
            segs@.len() == i,
            forall|k: int| 0 <= k < i ==> (#[trigger] segs@[k])@ == names@[k]@,
        decreases names@.len() - i,
    {
        segs.push(names[i].as_str());
        i = i + 1;
    }
    let p = Path::from_segments(segs.as_slice(), copy_ids(ids));
    proof {
        assert(crate::path::str_views(segs@) =~= views(names@));
    }
    p
}

/// The value of the `Title` field, or `<untitled>`.
fn title_of(e: &Entry) -> (r: String)
    ensures
        r@ == entry_title(*e),
{
    match e.get("Title") {
        Some(t) => t.clone(),
        None => "<untitled>".to_owned(),
    }
}

fn walk_entries_into(
    g: &Group,
    name_stack: &mut Vec<String>,
    uuid_stack: &mut Vec<u128>,
    out: &mut HashMap<u128, LocatedNode>,
)
    ensures
        views(final(name_stack)@) == views(old(name_stack)@),
        final(uuid_stack)@ == old(uuid_stack)@,
        node_views(final(out)@) == insert_all(
            node_views(old(out)@),
            walk_entries(g.entries@, views(old(name_stack)@), old(uuid_stack)@),
        ),
{
    let ghost names0 = views(name_stack@);
    let ghost ids0 = uuid_stack@;
    let ghost out0 = node_views(out@);
    let mut i: usize = 0;
    while i < g.entries.len()
        invariant
            i <= g.entries@.len(),
            views(name_stack@) == names0,
            uuid_stack@ == ids0,
            node_views(out@) == insert_all(out0, walk_entries(g.entries@.take(i as int), names0, ids0)),
        decreases g.entries@.len() - i,
    {
        let entry = &g.entries[i];
        let entry_uuid = entry.uuid;
        let title = title_of(entry);
        name_stack.push(title);
        uuid_stack.push(entry_uuid);
        let path = path_of(name_stack, uuid_stack);
        proof {
            assert(views(name_stack@) =~= names0.push(entry_title(*entry)));
        }
        let ghost before = node_views(out@);
        let node = LocatedNode { uuid: entry_uuid, path, kind: NodeKind::Entry };
        out.insert(entry_uuid, node);
        proof {
            assert(uuid_stack@ =~= ids0.push(entry_uuid));
            assert(node@ == located(entry_uuid, names0.push(entry_title(*entry)), ids0.push(entry_uuid), NodeKind::Entry));
            assert(node_views(out@) =~= before.insert(entry_uuid, node@));
            assert(g.entries@.take(i + 1).drop_last() =~= g.entries@.take(i as int));
            assert(g.entries@.take(i + 1).last() == *entry);
            let prev = walk_entries(g.entries@.take(i as int), names0, ids0);
            assert(walk_entries(g.entries@.take(i + 1), names0, ids0) == prev.push(node@));
            assert(prev.push(node@).drop_last() =~= prev);
        }
        let ghost ns = name_stack@;
        name_stack.pop();
        proof {
            assert(views(ns.drop_last()) =~= views(ns).drop_last());
        }
        uuid_stack.pop();
        proof {
            assert(views(name_stack@) =~= names0);
            assert(uuid_stack@ =~= ids0);
        }
        i = i + 1;
    }
    assert(g.entries@.take(g.entries@.len() as int) =~= g.entries@);
}

fn walk_group_ref(
    group: &Group,
    name_stack: &mut Vec<String>,
    uuid_stack: &mut Vec<u128>,
    recycle_bin_uuid: Option<u128>,
    out: &mut HashMap<u128, LocatedNode>,
)
    ensures
        views(final(name_stack)@) == views(old(name_stack)@),
        final(uuid_stack)@ == old(uuid_stack)@,
        node_views(final(out)@) == insert_all(
            node_views(old(out)@),
            walk_group(*group, views(old(name_stack)@), old(uuid_stack)@, recycle_bin_uuid),
        ),
    decreases group,
{
    let ghost names0 = views(name_stack@);
    let ghost ids0 = uuid_stack@;
    let ghost out0 = node_views(out@);
    let group_uuid = group.uuid;

    // Skip the recycle bin group and all its descendants.
    if let Some(rb) = recycle_bin_uuid {
        if rb == group_uuid {
            return;
        }
    }

    name_stack.push(group.name.clone());
    uuid_stack.push(group_uuid);
    let ghost n2 = views(name_stack@);
    let ghost i2 = uuid_stack@;
    proof {
        assert(n2 =~= names0.push(group.name@));
    }

    let path = path_of(name_stack, uuid_stack);
    let node = LocatedNode { uuid: group_uuid, path, kind: NodeKind::Group };
    out.insert(group_uuid, node);
    proof {
        assert(node_views(out@) =~= out0.insert(group_uuid, node@));
        assert(node@ == located(group_uuid, n2, i2, NodeKind::Group));
        assert(seq![located(group_uuid, n2, i2, NodeKind::Group)].drop_last() =~= Seq::<SpecLocatedNode>::empty());
        assert(insert_all(out0, Seq::<SpecLocatedNode>::empty()) == out0);
        assert(node_views(out@) =~= insert_all(out0, seq![located(group_uuid, n2, i2, NodeKind::Group)]));
    }
    let ghost head = seq![located(group_uuid, n2, i2, NodeKind::Group)];

    // Walk child groups recursively.
    let mut i: usize = 0;
    while i < group.groups.len()
        invariant
            i <= group.groups@.len(),
            views(name_stack@) == n2,
            uuid_stack@ == i2,
            node_views(out@) == insert_all(out0, head + walk_groups(group.groups@.take(i as int), n2, i2, recycle_bin_uuid)),
        decreases group.groups@.len() - i,
    {
        let ghost before = node_views(out@);
        proof {
            assert(decreases_to!(group => group.groups));
            assert(decreases_to!(group.groups => group.groups@));
            assert(decreases_to!(group.groups@ => group.groups@[i as int]));
        }
        walk_group_ref(&group.groups[i], name_stack, uuid_stack, recycle_bin_uuid, out);
        proof {
            let gs = group.groups@;
            assert(gs.take(i + 1).drop_last() =~= gs.take(i as int));
            assert(gs.take(i + 1).last() == gs[i as int]);
            lemma_insert_all_append(out0, head + walk_groups(gs.take(i as int), n2, i2, recycle_bin_uuid), walk_group(gs[i as int], n2, i2, recycle_bin_uuid));
            assert(head + walk_groups(gs.take(i + 1), n2, i2, recycle_bin_uuid) =~= (head + walk_groups(gs.take(i as int), n2, i2, recycle_bin_uuid)) + walk_group(gs[i as int], n2, i2, recycle_bin_uuid));
        }
        i = i + 1;
    }
    proof {
        assert(group.groups@.take(group.groups@.len() as int) =~= group.groups@);
    }

    // Walk entries directly in this group.
    let ghost mid = node_views(out@);
    walk_entries_into(group, name_stack, uuid_stack, out);
    proof {
        let ws = walk_groups(group.groups@, n2, i2, recycle_bin_uuid);
        let we = walk_entries(group.entries@, n2, i2);
        lemma_insert_all_append(out0, head + ws, we);
        assert(head + ws + we =~= walk_group(*group, names0, ids0, recycle_bin_uuid));
    }

    let ghost ns = name_stack@;
    name_stack.pop();
    uuid_stack.pop();
    proof {
        assert(views(ns.drop_last()) =~= views(ns).drop_last());
        assert(views(name_stack@) =~= names0);
        assert(uuid_stack@ =~= ids0);
    }
}

/// Build a UUID-keyed map of all nodes (groups and entries) in a database.
///
/// The path for each node uses backslash-escaped name segments and the UUID
/// chain from root to this node (inclusive).
///
/// When `opts.include_recycle_bin` is false (the default), the recycle bin
/// group and all its descendants are omitted from the result.
pub fn tree_walk(db: &Database, opts: &DiffOptions) -> (r: HashMap<u128, LocatedNode>)
    ensures
        node_views(r@) == spec_tree_walk(*db, opts.include_recycle_bin),
{
    let mut out: HashMap<u128, LocatedNode> = HashMap::new();
    let recycle_bin_uuid: Option<u128> = if opts.include_recycle_bin {
        None
    } else {
        db.meta.recyclebin_uuid
    };
    let mut names: Vec<String> = Vec::new();
    let mut ids: Vec<u128> = Vec::new();
    proof {
        assert(views(names@) =~= Seq::<Seq<char>>::empty());
        assert(node_views(out@) =~= Map::<u128, SpecLocatedNode>::empty());
    }
    walk_group_ref(&db.root, &mut names, &mut ids, recycle_bin_uuid, &mut out);
    out
}

// ---------------------------------------------------------------------------
// Structural comparison of two node maps.
// ---------------------------------------------------------------------------

/// Keys of `b` that `a` lacks.
pub open spec fn added_keys(a: Map<u128, SpecLocatedNode>, b: Map<u128, SpecLocatedNode>) -> Set<u128> {
    b.dom().difference(a.dom())
}

/// Keys of `a` that `b` lacks.
pub open spec fn removed_keys(a: Map<u128, SpecLocatedNode>, b: Map<u128, SpecLocatedNode>) -> Set<u128> {
    a.dom().difference(b.dom())
}

/// Keys of both whose paths differ.
pub open spec fn moved_keys(a: Map<u128, SpecLocatedNode>, b: Map<u128, SpecLocatedNode>) -> Set<u128> {
    a.dom().filter(|k: u128| b.contains_key(k) && a[k].path != b[k].path)
}

/// The keys of `ks` whose node in `m` is of kind `kind`.
pub open spec fn of_kind(ks: Set<u128>, m: Map<u128, SpecLocatedNode>, kind: NodeKind) -> Set<u128> {
    ks.filter(|k: u128| m[k].kind == kind)
}

/// The change for a node present in only one of the maps.
pub open spec fn presence_change(uuid: u128, node: SpecLocatedNode, added: bool) -> SpecChange {
    match node.kind {
        NodeKind::Group => SpecChange::Group {
            uuid,
            path: node.path,
            kind: if added { SpecGroupChangeKind::Added } else { SpecGroupChangeKind::Removed },
        },
        NodeKind::Entry => SpecChange::Entry {
            uuid,
            path: node.path,
            kind: if added { SpecEntryChangeKind::Added } else { SpecEntryChangeKind::Removed },
        },
    }
}

/// The change for a node whose path differs: reported at its old path
/// (in `a`), by its kind there, with its new path (in `b`) as destination.
pub open spec fn moved_change(uuid: u128, na: SpecLocatedNode, nb: SpecLocatedNode) -> SpecChange {
    match na.kind {
        NodeKind::Group => SpecChange::Group { uuid, path: na.path, kind: SpecGroupChangeKind::Moved { to: nb.path } },
        NodeKind::Entry => SpecChange::Entry { uuid, path: na.path, kind: SpecEntryChangeKind::Moved { to: nb.path } },
    }
}

/// `s` is `f` applied to the keys of `keys`, each once, in some order.
pub open spec fn lists<T>(s: Seq<T>, keys: Set<u128>, f: spec_fn(u128) -> T) -> bool {
    exists|ks: Seq<u128>| ks.no_duplicates() && ks.to_set() == keys && s == ks.map_values(f)
}

/// `p` lists the added nodes.
pub open spec fn lists_added(p: Seq<SpecChange>, a: Map<u128, SpecLocatedNode>, b: Map<u128, SpecLocatedNode>) -> bool {
    lists(p, added_keys(a, b), |k: u128| presence_change(k, b[k], true))
}

/// `p` lists the removed nodes.
pub open spec fn lists_removed(p: Seq<SpecChange>, a: Map<u128, SpecLocatedNode>, b: Map<u128, SpecLocatedNode>) -> bool {
    lists(p, removed_keys(a, b), |k: u128| presence_change(k, a[k], false))
}

/// `p` lists the moved nodes.
pub open spec fn lists_moved(p: Seq<SpecChange>, a: Map<u128, SpecLocatedNode>, b: Map<u128, SpecLocatedNode>) -> bool {
    lists(p, moved_keys(a, b), |k: u128| moved_change(k, a[k], b[k]))
}

/// The structural changes between two node maps: all added nodes, then
/// all removed nodes, then all moved nodes, each group in some order.
pub open spec fn structural_changes(s: Seq<SpecChange>, a: Map<u128, SpecLocatedNode>, b: Map<u128, SpecLocatedNode>) -> bool {
    exists|p1: Seq<SpecChange>, p2: Seq<SpecChange>, p3: Seq<SpecChange>|
        s == p1 + p2 + p3 && #[trigger] lists_added(p1, a, b) && #[trigger] lists_removed(p2, a, b)
            && #[trigger] lists_moved(p3, a, b)
}

/// The summary after counting structural changes: added nodes by their
/// kind in `b`, removed and moved nodes by their kind in `a`.
pub open spec fn count_structural(s: Summary, a: Map<u128, SpecLocatedNode>, b: Map<u128, SpecLocatedNode>) -> Summary {
    Summary {
        groups_added: (s.groups_added + of_kind(added_keys(a, b), b, NodeKind::Group).len()) as usize,
        groups_removed: (s.groups_removed + of_kind(removed_keys(a, b), a, NodeKind::Group).len()) as usize,
        groups_modified: (s.groups_modified + of_kind(moved_keys(a, b), a, NodeKind::Group).len()) as usize,
        entries_added: (s.entries_added + of_kind(added_keys(a, b), b, NodeKind::Entry).len()) as usize,
        entries_removed: (s.entries_removed + of_kind(removed_keys(a, b), a, NodeKind::Entry).len()) as usize,
        entries_modified: (s.entries_modified + of_kind(moved_keys(a, b), a, NodeKind::Entry).len()) as usize,
        ..s
    }
}

/// The keys of a map, each once.
pub(crate) fn map_keys(m: &HashMap<u128, LocatedNode>) -> (r: Vec<u128>)
    ensures
        r@.no_duplicates(),
        r@.to_set() == m@.dom(),
{
    let mut r: Vec<u128> = Vec::new();
    let ghost all = vstd::std_specs::hash::spec_keys_iter(m).remaining().unref();
    for k in it: m.keys()
        invariant
            it.seq().unref() == all,
            r@ == all.take(it.index()),
    {
        proof {
            assert(all.take(it.index() + 1) =~= all.take(it.index()).push(*k));
        }
        r.push(*k);
    }
    proof {
        assert(r@ =~= all);
        assert forall|i: int, j: int| 0 <= i < r@.len() && 0 <= j < r@.len() && i != j implies r@[i] != r@[j] by {
            assert(vstd::std_specs::hash::spec_keys_iter(m).remaining()[i] != vstd::std_specs::hash::spec_keys_iter(m).remaining()[j]);
        }
    }
    r
}

proof fn lemma_nodup_subset_len(s: Seq<u128>, d: Set<u128>)
    requires
        s.no_duplicates(),
        s.to_set().subset_of(d),
        d.finite(),
    ensures
        s.len() <= d.len(),
{
    s.unique_seq_to_set();
    vstd::set_lib::lemma_len_subset(s.to_set(), d);
}

proof fn lemma_push_nodup(s: Seq<u128>, k: u128)
    requires
        s.no_duplicates(),
        !s.to_set().contains(k),
    ensures
        s.push(k).no_duplicates(),
        s.push(k).to_set() == s.to_set().insert(k),
{
    s.lemma_push_to_set_commute(k);
    assert forall|i: int, j: int| 0 <= i < s.push(k).len() && 0 <= j < s.push(k).len() && i != j implies s.push(k)[i]
        != s.push(k)[j] by {
        if i == s.len() {
            assert(s.to_set().contains(s[j]));
        } else if j == s.len() {
            assert(s.to_set().contains(s[i]));
        }
    }
}

fn structure_change(uuid: u128, node: &LocatedNode, added: bool) -> (r: Change)
    ensures
        r@ == presence_change(uuid, node@, added),
{
    match node.kind {
        NodeKind::Group => Change::Group {
            uuid,
            path: node.path.duplicate(),
            kind: if added { GroupChangeKind::Added } else { GroupChangeKind::Removed },
        },
        NodeKind::Entry => Change::Entry {
            uuid,
            path: node.path.duplicate(),
            kind: if added { EntryChangeKind::Added } else { EntryChangeKind::Removed },
        },
    }
}

fn moved_structure_change(uuid: u128, na: &LocatedNode, nb: &LocatedNode) -> (r: Change)
    ensures
        r@ == moved_change(uuid, na@, nb@),
{
    match na.kind {
        NodeKind::Group => Change::Group {
            uuid,
            path: na.path.duplicate(),
            kind: GroupChangeKind::Moved { to: nb.path.duplicate() },
        },
        NodeKind::Entry => Change::Entry {
            uuid,
            path: na.path.duplicate(),
            kind: EntryChangeKind::Moved { to: nb.path.duplicate() },
        },
    }
}

fn push_change(changes: &mut Vec<Change>, c: Change)
    ensures
        change_views(final(changes)@) == change_views(old(changes)@).push(c@),
{
    changes.push(c);
    assert(change_views(changes@) =~= change_views(old(changes)@).push(c@));
}

/// Emits changes for the nodes of `from` (keyed by `keys`) that `other`
/// lacks, counting them by kind.
fn emit_presence(
    keys: &Vec<u128>,
    from: &HashMap<u128, LocatedNode>,
    other: &HashMap<u128, LocatedNode>,
    added: bool,
    changes: &mut Vec<Change>,
    groups: &mut usize,
    entries: &mut usize,
)
    requires
        keys@.no_duplicates(),
        keys@.to_set() == from@.dom(),
        *old(groups) + from@.len() <= usize::MAX,
        *old(entries) + from@.len() <= usize::MAX,
    ensures
        lists(
            change_views(final(changes)@).skip(old(changes)@.len() as int),
            node_views(from@).dom().difference(node_views(other@).dom()),
            |k: u128| presence_change(k, node_views(from@)[k], added),
        ),
        change_views(final(changes)@).take(old(changes)@.len() as int) == change_views(old(changes)@),
        final(changes)@.len() >= old(changes)@.len(),
        *final(groups) == *old(groups) + of_kind(
            node_views(from@).dom().difference(node_views(other@).dom()),
            node_views(from@),
            NodeKind::Group,
        ).len(),
        *final(entries) == *old(entries) + of_kind(
            node_views(from@).dom().difference(node_views(other@).dom()),
            node_views(from@),
            NodeKind::Entry,
        ).len(),
{
    let ghost fv = node_views(from@);
    let ghost ov = node_views(other@);
    let ghost f = |k: u128| presence_change(k, fv[k], added);
    let ghost c0 = change_views(changes@);
    let ghost g0 = *groups;
    let ghost e0 = *entries;
    let ghost mut ks: Seq<u128> = seq![];
    let ghost mut kg: Seq<u128> = seq![];
    let ghost mut ke: Seq<u128> = seq![];
    let mut i: usize = 0;
    while i < keys.len()
        invariant
            i <= keys@.len(),
            keys@.no_duplicates(),
            keys@.to_set() == from@.dom(),
            fv == node_views(from@),
            ov == node_views(other@),
            f == (|k: u128| presence_change(k, fv[k], added)),
            g0 + from@.len() <= usize::MAX,
            e0 + from@.len() <= usize::MAX,
            ks.no_duplicates(),
            ks.to_set() == keys@.take(i as int).to_set().filter(|k: u128| !ov.contains_key(k)),
            kg.no_duplicates(),
            kg.to_set() == ks.to_set().filter(|k: u128| fv[k].kind == NodeKind::Group),
            ke.no_duplicates(),
            ke.to_set() == ks.to_set().filter(|k: u128| fv[k].kind == NodeKind::Entry),
            change_views(changes@) == c0 + ks.map_values(f),
            *groups == g0 + kg.len(),
            *entries == e0 + ke.len(),
        decreases keys@.len() - i,
    {
        let k = keys[i];
        proof {
            lemma_next_key(keys@, i as int);
            assert(keys@.to_set().contains(k));
        }
        if !other.contains_key(&k) {
            let node = from.get(&k).unwrap();
            let c = structure_change(k, node, added);
            proof {
                assert(fv[k] == node@);
            }
            push_change(changes, c);
            proof {
                assert(!ks.to_set().contains(k));
                lemma_push_nodup(ks, k);
                assert(ks.push(k).map_values(f) =~= ks.map_values(f).push(f(k)));
            }
            match node.kind {
                NodeKind::Group => {
                    proof {
                        assert(!kg.to_set().contains(k));
                        lemma_push_nodup(kg, k);
                        lemma_nodup_subset_len(kg.push(k), from@.dom());
                    }
                    *groups = *groups + 1;
                    proof {
                        kg = kg.push(k);
                    }
                },
                NodeKind::Entry => {
                    proof {
                        assert(!ke.to_set().contains(k));
                        lemma_push_nodup(ke, k);
                        lemma_nodup_subset_len(ke.push(k), from@.dom());
                    }
                    *entries = *entries + 1;
                    proof {
                        ke = ke.push(k);
                    }
                },
            }
            proof {
                ks = ks.push(k);
                assert(kg.to_set() =~= ks.to_set().filter(|k: u128| fv[k].kind == NodeKind::Group));
                assert(ke.to_set() =~= ks.to_set().filter(|k: u128| fv[k].kind == NodeKind::Entry));
            }
        }
        proof {
            assert(ks.to_set() =~= keys@.take(i + 1).to_set().filter(|k: u128| !ov.contains_key(k)));
        }
        i = i + 1;
    }
    proof {
        assert(keys@.take(keys@.len() as int) =~= keys@);
        let d = fv.dom().difference(ov.dom());
        assert(ks.to_set() =~= d);
        assert(change_views(changes@).skip(c0.len() as int) =~= ks.map_values(f));
        assert(change_views(changes@).take(c0.len() as int) =~= c0);
        kg.unique_seq_to_set();
        ke.unique_seq_to_set();
        assert(kg.to_set() =~= of_kind(d, fv, NodeKind::Group));
        assert(ke.to_set() =~= of_kind(d, fv, NodeKind::Entry));
    }
}

/// Emits a change for each node of `a` (keyed by `keys`) that `b` holds
/// at another path, counting them by their kind in `a`.
fn emit_moved(
    keys: &Vec<u128>,
    a: &HashMap<u128, LocatedNode>,
    b: &HashMap<u128, LocatedNode>,
    changes: &mut Vec<Change>,
    groups: &mut usize,
    entries: &mut usize,
)
    requires
        keys@.no_duplicates(),
        keys@.to_set() == a@.dom(),
        *old(groups) + a@.len() <= usize::MAX,
        *old(entries) + a@.len() <= usize::MAX,
    ensures
        lists_moved(
            change_views(final(changes)@).skip(old(changes)@.len() as int),
            node_views(a@),
            node_views(b@),
        ),
        change_views(final(changes)@).take(old(changes)@.len() as int) == change_views(old(changes)@),
        final(changes)@.len() >= old(changes)@.len(),
        *final(groups) == *old(groups) + of_kind(moved_keys(node_views(a@), node_views(b@)), node_views(a@), NodeKind::Group).len(),
        *final(entries) == *old(entries) + of_kind(moved_keys(node_views(a@), node_views(b@)), node_views(a@), NodeKind::Entry).len(),
{
    let ghost av = node_views(a@);
    let ghost bv = node_views(b@);
    let ghost f = |k: u128| moved_change(k, av[k], bv[k]);
    let ghost c0 = change_views(changes@);
    let ghost g0 = *groups;
    let ghost e0 = *entries;
    let ghost mut ks: Seq<u128> = seq![];
    let ghost mut kg: Seq<u128> = seq![];
    let ghost mut ke: Seq<u128> = seq![];
    let mut i: usize = 0;
    while i < keys.len()
        invariant
            i <= keys@.len(),
            keys@.no_duplicates(),
            keys@.to_set() == a@.dom(),
            av == node_views(a@),
            bv == node_views(b@),
            f == (|k: u128| moved_change(k, av[k], bv[k])),
            g0 + a@.len() <= usize::MAX,
            e0 + a@.len() <= usize::MAX,
            ks.no_duplicates(),
            ks.to_set() == keys@.take(i as int).to_set().filter(
                |k: u128| bv.contains_key(k) && av[k].path != bv[k].path,
            ),
            kg.no_duplicates(),
            kg.to_set() == ks.to_set().filter(|k: u128| av[k].kind == NodeKind::Group),
            ke.no_duplicates(),
            ke.to_set() == ks.to_set().filter(|k: u128| av[k].kind == NodeKind::Entry),
            change_views(changes@) == c0 + ks.map_values(f),
            *groups == g0 + kg.len(),
            *entries == e0 + ke.len(),
        decreases keys@.len() - i,
    {
        let k = keys[i];
        proof {
            lemma_next_key(keys@, i as int);
            assert(keys@.to_set().contains(k));
        }
        match b.get(&k) {
            Some(nb) => {
                let na = a.get(&k).unwrap();
                proof {
                    assert(av[k] == na@);
                    assert(bv[k] == nb@);
                }
                if !na.path.same_as(&nb.path) {
                    let c = moved_structure_change(k, na, nb);
                    push_change(changes, c);
                    proof {
                        assert(!ks.to_set().contains(k));
                        lemma_push_nodup(ks, k);
                        assert(ks.push(k).map_values(f) =~= ks.map_values(f).push(f(k)));
                    }
                    match na.kind {
                        NodeKind::Group => {
                            proof {
                                assert(!kg.to_set().contains(k));
                                lemma_push_nodup(kg, k);
                                lemma_nodup_subset_len(kg.push(k), a@.dom());
                            }
                            *groups = *groups + 1;
                            proof {
                                kg = kg.push(k);
                            }
                        },
                        NodeKind::Entry => {
                            proof {
                                assert(!ke.to_set().contains(k));
                                lemma_push_nodup(ke, k);
                                lemma_nodup_subset_len(ke.push(k), a@.dom());
                            }
                            *entries = *entries + 1;
                            proof {
                                ke = ke.push(k);
                            }
                        },
                    }
                    proof {
                        ks = ks.push(k);
                        assert(kg.to_set() =~= ks.to_set().filter(|k: u128| av[k].kind == NodeKind::Group));
                        assert(ke.to_set() =~= ks.to_set().filter(|k: u128| av[k].kind == NodeKind::Entry));
                    }
                }
            },
            None => {},
        }
        proof {
            assert(ks.to_set() =~= keys@.take(i + 1).to_set().filter(
                |k: u128| bv.contains_key(k) && av[k].path != bv[k].path,
            ));
        }
        i = i + 1;
    }
    proof {
        assert(keys@.take(keys@.len() as int) =~= keys@);
        let d = moved_keys(av, bv);
        assert(ks.to_set() =~= d);
        assert(change_views(changes@).skip(c0.len() as int) =~= ks.map_values(f));
        assert(change_views(changes@).take(c0.len() as int) =~= c0);
        kg.unique_seq_to_set();
        ke.unique_seq_to_set();
        assert(kg.to_set() =~= of_kind(d, av, NodeKind::Group));
        assert(ke.to_set() =~= of_kind(d, av, NodeKind::Entry));
    }
}

/// Compare two UUID-keyed maps and emit Group/Entry change events for
/// added, removed, and moved nodes, counting them in the summary.
/// Modified-content cases are left to `compute`.
pub fn symmetric_diff(a: &HashMap<u128, LocatedNode>, b: &HashMap<u128, LocatedNode>, out: &mut ChangeSet)
    requires
        old(out).summary.groups_added + b@.len() <= usize::MAX,
        old(out).summary.entries_added + b@.len() <= usize::MAX,
        old(out).summary.groups_removed + a@.len() <= usize::MAX,
        old(out).summary.entries_removed + a@.len() <= usize::MAX,
        old(out).summary.groups_modified + a@.len() <= usize::MAX,
        old(out).summary.entries_modified + a@.len() <= usize::MAX,
    ensures
        change_views(final(out).changes@).take(old(out).changes@.len() as int) == change_views(old(out).changes@),
        structural_changes(
            change_views(final(out).changes@).skip(old(out).changes@.len() as int),
            node_views(a@),
            node_views(b@),
        ),
        final(out).summary == count_structural(old(out).summary, node_views(a@), node_views(b@)),
        final(out).warnings == old(out).warnings,
{
    let ghost av = node_views(a@);
    let ghost bv = node_views(b@);
    let ghost c0 = change_views(out.changes@);
    let ghost n0 = out.changes@.len();
    let ka = map_keys(a);
    let kb = map_keys(b);

    // Added: in b only.
    let mut ga = out.summary.groups_added;
    let mut ea = out.summary.entries_added;
    emit_presence(&kb, b, a, true, &mut out.changes, &mut ga, &mut ea);
    let ghost c1 = change_views(out.changes@);
    // Removed: in a only.
    let mut gr = out.summary.groups_removed;
    let mut er = out.summary.entries_removed;
    emit_presence(&ka, a, b, false, &mut out.changes, &mut gr, &mut er);
    let ghost c2 = change_views(out.changes@);
    // Moved: in both, different path.
    let mut gm = out.summary.groups_modified;
    let mut em = out.summary.entries_modified;
    emit_moved(&ka, a, b, &mut out.changes, &mut gm, &mut em);
    let ghost c3 = change_views(out.changes@);
    out.summary.groups_added = ga;
    out.summary.entries_added = ea;
    out.summary.groups_removed = gr;
    out.summary.entries_removed = er;
    out.summary.groups_modified = gm;
    out.summary.entries_modified = em;
    proof {
        let p1 = c1.skip(n0 as int);
        let p2 = c2.skip(c1.len() as int);
        let p3 = c3.skip(c2.len() as int);
        assert(bv.dom().difference(av.dom()) == added_keys(av, bv));
        assert(lists_added(p1, av, bv));
        assert(lists_removed(p2, av, bv));
        assert(lists_moved(p3, av, bv));
        assert(c1 =~= c1.take(n0 as int) + p1);
        assert(c2 =~= c2.take(c1.len() as int) + p2);
        assert(c3 =~= c3.take(c2.len() as int) + p3);
        assert(c1 =~= c0 + p1);
        assert(c2 =~= c0 + p1 + p2);
        assert(c3 =~= c0 + p1 + p2 + p3);
        assert(c3.skip(n0 as int) =~= p1 + p2 + p3);
        assert(c3.take(n0 as int) =~= c0);
        assert(final(out).summary == count_structural(old(out).summary, av, bv));
    }
}

// ---------------------------------------------------------------------------
// Field-level comparison and noise suppression.
// ---------------------------------------------------------------------------

/// Compute field-level changes between two matched entries: the standard
/// fields, custom fields, tags, attachments and history, in that order.
/// Returns an empty Vec if there are no differences in user-visible fields.
pub fn field_diff_entry(a: &Entry, b: &Entry, opts: &DiffOptions) -> (r: Vec<FieldChange>)
    ensures
        field_views(r@) == spec_field_diff(*a, *b, opts.show_secrets),
{
    let mut out: Vec<FieldChange> = Vec::new();
    proof {
        assert(field_views(out@) =~= Seq::<SpecFieldChange>::empty());
    }
    diff_standard_fields(a, b, opts.show_secrets, &mut out);
    diff_custom_fields(a, b, opts.show_secrets, &mut out);
    diff_tags(a, b, &mut out);
    diff_attachments(a, b, &mut out);
    diff_history(a, b, &mut out);
    proof {
        assert(field_views(out@) =~= spec_field_diff(*a, *b, opts.show_secrets));
    }
    out
}

/// Field names suppressed by default (not in --strict).
pub open spec fn is_noisy_name(n: Seq<char>) -> bool {
    n == "LastAccessTime"@ || n == "UsageCount"@ || n == "LocationChanged"@
}

/// A value change of a noisy timestamp field.
pub open spec fn spec_is_suppressible(f: SpecFieldChange) -> bool {
    match f {
        SpecFieldChange::Modified { name, .. } => is_noisy_name(name),
        SpecFieldChange::Added { name, .. } => is_noisy_name(name),
        SpecFieldChange::Removed { name, .. } => is_noisy_name(name),
        _ => false,
    }
}

/// The changes that survive suppression, in order.
pub open spec fn kept_changes(s: Seq<SpecFieldChange>) -> Seq<SpecFieldChange>
    decreases s.len(),
{
    if s.len() == 0 {
        seq![]
    } else if spec_is_suppressible(s.last()) {
        kept_changes(s.drop_last())
    } else {
        kept_changes(s.drop_last()).push(s.last())
    }
}

/// How many changes suppression drops.
pub open spec fn suppressed_count(s: Seq<SpecFieldChange>) -> nat
    decreases s.len(),
{
    if s.len() == 0 {
        0
    } else if spec_is_suppressible(s.last()) {
        suppressed_count(s.drop_last()) + 1
    } else {
        suppressed_count(s.drop_last())
    }
}

proof fn lemma_suppressed_count_bound(s: Seq<SpecFieldChange>)
    ensures
        suppressed_count(s) <= s.len(),
    decreases s.len(),
{
    if s.len() > 0 {
        lemma_suppressed_count_bound(s.drop_last());
    }
}

fn is_noisy(name: &String) -> (r: bool)
    ensures
        r == is_noisy_name(name@),
{
    str_eq(name.as_str(), "LastAccessTime") || str_eq(name.as_str(), "UsageCount") || str_eq(
        name.as_str(),
        "LocationChanged",
    )
}

/// Whether a field change concerns a noisy timestamp field.
pub fn is_suppressible(fc: &FieldChange) -> (r: bool)
    ensures
        r == spec_is_suppressible(fc@),
{
    match fc {
        FieldChange::Modified { name, .. } => is_noisy(name),
        FieldChange::Added { name, .. } => is_noisy(name),
        FieldChange::Removed { name, .. } => is_noisy(name),
        _ => false,
    }
}

/// Drops the changes of noisy timestamp fields unless `opts.strict`;
/// returns the kept changes and how many were dropped.
pub fn suppress_field_changes(fields: Vec<FieldChange>, opts: &DiffOptions) -> (r: (Vec<FieldChange>, usize))
    ensures
        opts.strict ==> field_views(r.0@) == field_views(fields@) && r.1 == 0,
        !opts.strict ==> field_views(r.0@) == kept_changes(field_views(fields@)) && r.1 == suppressed_count(
            field_views(fields@),
        ),
{
    if opts.strict {
        return (fields, 0);
    }
    let ghost all = field_views(fields@);
    let mut rest = fields;
    let mut kept: Vec<FieldChange> = Vec::new();
    let mut suppressed: usize = 0;
    let ghost mut done: int = 0;
    proof {
        assert(field_views(rest@) =~= all.skip(0));
        assert(all.take(0) =~= Seq::<SpecFieldChange>::empty());
        assert(field_views(kept@) =~= kept_changes(all.take(0)));
    }
    let total = rest.len();
    while rest.len() > 0
        invariant
            all.len() == total,
            0 <= done <= all.len(),
            field_views(rest@) == all.skip(done as int),
            field_views(kept@) == kept_changes(all.take(done as int)),
            suppressed == suppressed_count(all.take(done as int)),
        decreases rest@.len(),
    {
        let ghost r0 = rest@;
        proof {
            assert(field_views(r0).len() == r0.len());
            assert(field_views(r0)[0] == r0[0]@);
            assert(all.skip(done as int)[0] == all[done as int]);
        }
        let fc = rest.remove(0);
        proof {
            assert(all[done as int] == fc@);
            assert(all.take(done + 1 as int).drop_last() =~= all.take(done as int));
            assert(all.take(done + 1 as int).last() == fc@);
            lemma_suppressed_count_bound(all.take(done as int));
        }
        if is_suppressible(&fc) {
            suppressed = suppressed + 1;
        } else {
            kept.push(fc);
            proof {
                assert(field_views(kept@) =~= kept_changes(all.take(done as int)).push(fc@));
            }
        }
        proof {
            assert(rest@ =~= r0.drop_first());
            assert(field_views(r0.drop_first()) =~= field_views(r0).drop_first());
            assert(all.skip(done as int).drop_first() =~= all.skip(done + 1 as int));
            assert(field_views(rest@) =~= all.skip(done + 1 as int));
            done = done + 1;
        }
    }
    proof {
        assert(all.take(done as int) =~= all);
    }
    (kept, suppressed)
}

// ---------------------------------------------------------------------------
// Entry lookup by UUID.
// ---------------------------------------------------------------------------

/// The first entry with the given UUID in a list.
pub open spec fn lookup_in_entries(es: Seq<Entry>, uuid: u128) -> Option<Entry>
    decreases es.len(),
{
    if es.len() == 0 {
        None
    } else if es[0].uuid == uuid {
        Some(es[0])
    } else {
        lookup_in_entries(es.drop_first(), uuid)
    }
}

/// The entry with the given UUID in a group: its own entries first, then
/// its child groups in order.
pub open spec fn lookup_entry(g: Group, uuid: u128) -> Option<Entry>
    decreases g,
{
    match lookup_in_entries(g.entries@, uuid) {
        Some(e) => Some(e),
        None => lookup_in_groups(g.groups@, uuid),
    }
}

/// `lookup_entry` over sibling groups, first hit wins.
pub open spec fn lookup_in_groups(gs: Seq<Group>, uuid: u128) -> Option<Entry>
    decreases gs,
{
    if gs.len() == 0 {
        None
    } else {
        match lookup_in_groups(gs.drop_last(), uuid) {
            Some(e) => Some(e),
            None => lookup_entry(gs.last(), uuid),
        }
    }
}

fn find_in_entries(es: &Vec<Entry>, uuid: u128) -> (r: Option<&Entry>)
    ensures
        match r {
            Some(e) => lookup_in_entries(es@, uuid) == Some(*e),
            None => lookup_in_entries(es@, uuid) is None,
        },
{
    let mut i: usize = 0;
    proof {
        assert(es@.skip(0) =~= es@);
    }
    while i < es.len()
        invariant
            i <= es@.len(),
            lookup_in_entries(es@, uuid) == lookup_in_entries(es@.skip(i as int), uuid),
        decreases es@.len() - i,
    {
        if es[i].uuid == uuid {
            return Some(&es[i]);
        }
        assert(es@.skip(i as int).drop_first() =~= es@.skip(i + 1));
        i = i + 1;
    }
    None
}

pub(crate) fn find_entry(g: &Group, uuid: u128) -> (r: Option<&Entry>)
    ensures
        match r {
            Some(e) => lookup_entry(*g, uuid) == Some(*e),
            None => lookup_entry(*g, uuid) is None,
        },
    decreases g,
{
    match find_in_entries(&g.entries, uuid) {
        Some(e) => {
            return Some(e);
        },
        None => {},
    }
    let mut i: usize = 0;
    while i < g.groups.len()
        invariant
            i <= g.groups@.len(),
            lookup_in_entries(g.entries@, uuid) is None,
            lookup_in_groups(g.groups@.take(i as int), uuid) is None,
        decreases g.groups@.len() - i,
    {
        proof {
            assert(decreases_to!(g => g.groups));
            assert(decreases_to!(g.groups => g.groups@));
            assert(decreases_to!(g.groups@ => g.groups@[i as int]));
            assert(g.groups@.take(i + 1).drop_last() =~= g.groups@.take(i as int));
            assert(g.groups@.take(i + 1).last() == g.groups@[i as int]);
        }
        match find_entry(&g.groups[i], uuid) {
            Some(e) => {
                proof {
                    lemma_lookup_in_groups_prefix(g.groups@, i as int + 1, uuid);
                }
                return Some(e);
            },
            None => {},
        }
        i = i + 1;
    }
    proof {
        assert(g.groups@.take(g.groups@.len() as int) =~= g.groups@);
    }
    None
}

proof fn lemma_lookup_in_groups_prefix(gs: Seq<Group>, n: int, uuid: u128)
    requires
        0 <= n <= gs.len(),
        lookup_in_groups(gs.take(n), uuid) is Some,
    ensures
        lookup_in_groups(gs, uuid) == lookup_in_groups(gs.take(n), uuid),
    decreases gs.len(),
{
    if n < gs.len() {
        assert(gs.drop_last().take(n) =~= gs.take(n));
        lemma_lookup_in_groups_prefix(gs.drop_last(), n, uuid);
    } else {
        assert(gs.take(n) =~= gs);
    }
}

// ---------------------------------------------------------------------------
// Deterministic ordering of changes.
// ---------------------------------------------------------------------------

/// First sort component: database, then group, then entry changes.
pub open spec fn change_tag(c: SpecChange) -> int {
    match c {
        SpecChange::Database(_) => 0,
        SpecChange::Group { .. } => 1,
        SpecChange::Entry { .. } => 2,
    }
}

/// Second sort component: the display path (empty for database changes).
pub open spec fn change_display(c: SpecChange) -> Seq<char> {
    match c {
        SpecChange::Database(_) => seq![],
        SpecChange::Group { path, .. } => path.display,
        SpecChange::Entry { path, .. } => path.display,
    }
}

/// Third sort component: the UUID (nil for database changes).
pub open spec fn change_uuid(c: SpecChange) -> u128 {
    match c {
        SpecChange::Database(_) => 0,
        SpecChange::Group { uuid, .. } => uuid,
        SpecChange::Entry { uuid, .. } => uuid,
    }
}

/// Two changes have the same sort key.
pub open spec fn same_key(x: SpecChange, y: SpecChange) -> bool {
    change_tag(x) == change_tag(y) && change_display(x) == change_display(y) && change_uuid(x) == change_uuid(y)
}

/// The order of changes: by (kind, display path, UUID), lexicographically.
pub open spec fn change_lt(x: SpecChange, y: SpecChange) -> bool {
    change_tag(x) < change_tag(y) || (change_tag(x) == change_tag(y) && (str_lt(change_display(x), change_display(y))
        || (change_display(x) == change_display(y) && change_uuid(x) < change_uuid(y))))
}

/// The changes of `s` sorted strictly by `change_lt`.
pub open spec fn sorted_changes(s: Set<SpecChange>) -> Seq<SpecChange> {
    choose|cs: Seq<SpecChange>| sorted_by(cs, |x: SpecChange, y: SpecChange| change_lt(x, y)) && cs.to_set() == s
}

/// No two changes share a sort key.
pub open spec fn distinct_keys(s: Seq<SpecChange>) -> bool {
    forall|i: int, j: int| 0 <= i < s.len() && 0 <= j < s.len() && i != j ==> !same_key(s[i], s[j])
}

pub(crate) proof fn lemma_change_lt_strict_order()
    ensures
        strict_order(|x: SpecChange, y: SpecChange| change_lt(x, y)),
{
    assert forall|x: SpecChange| !change_lt(x, x) by {
        lemma_str_lt_irreflexive(change_display(x));
    }
    assert forall|x: SpecChange, y: SpecChange, z: SpecChange| change_lt(x, y) && change_lt(y, z) implies change_lt(
        x,
        z,
    ) by {
        if change_tag(x) == change_tag(y) && change_tag(y) == change_tag(z) {
            if str_lt(change_display(x), change_display(y)) && str_lt(change_display(y), change_display(z)) {
                lemma_str_lt_transitive(change_display(x), change_display(y), change_display(z));
            }
        }
    }
}

proof fn lemma_change_lt_total(x: SpecChange, y: SpecChange)
    requires
        !same_key(x, y),
    ensures
        change_lt(x, y) || change_lt(y, x),
{
    lemma_str_lt_total(change_display(x), change_display(y));
}

fn change_key(c: &Change) -> (r: (u8, &str, u128))
    ensures
        r.0 == change_tag(c@),
        r.1@ == change_display(c@),
        r.2 == change_uuid(c@),
{
    match c {
        Change::Database(_) => {
            proof {
                reveal_strlit("");
            }
            (0, "", 0)
        },
        Change::Group { uuid, path, .. } => (1, path.display.as_str(), *uuid),
        Change::Entry { uuid, path, .. } => (2, path.display.as_str(), *uuid),
    }
}

fn change_less(x: &Change, y: &Change) -> (r: bool)
    ensures
        r == change_lt(x@, y@),
{
    let (tx, dx, ux) = change_key(x);
    let (ty, dy, uy) = change_key(y);
    tx < ty || (tx == ty && (str_less(dx, dy) || (str_eq(dx, dy) && ux < uy)))
}

/// Sorts changes whose sort keys are pairwise distinct.
fn sort_changes(v: Vec<Change>) -> (r: Vec<Change>)
    requires
        distinct_keys(change_views(v@)),
    ensures
        sorted_by(change_views(r@), |x: SpecChange, y: SpecChange| change_lt(x, y)),
        change_views(r@).to_set() == change_views(v@).to_set(),
        r@.len() == v@.len(),
{
    let ghost all = change_views(v@);
    let ghost lt = |x: SpecChange, y: SpecChange| change_lt(x, y);
    let mut rest = v;
    let mut out: Vec<Change> = Vec::new();
    let ghost mut done: int = 0;
    proof {
        lemma_change_lt_strict_order();
        assert(change_views(rest@) =~= all.skip(0));
        assert(change_views(out@).to_set() =~= all.take(0).to_set());
    }
    while rest.len() > 0
        invariant
            0 <= done <= all.len(),
            distinct_keys(all),
            lt == (|x: SpecChange, y: SpecChange| change_lt(x, y)),
            strict_order(lt),
            change_views(rest@) == all.skip(done),
            change_views(out@).to_set() == all.take(done).to_set(),
            out@.len() == done,
            sorted_by(change_views(out@), lt),
        decreases rest@.len(),
    {
        let ghost r0 = rest@;
        proof {
            assert(change_views(r0).len() == r0.len());
            assert(change_views(r0)[0] == r0[0]@);
            assert(all.skip(done)[0] == all[done]);
        }
        let x = rest.remove(0);
        let ghost ov = change_views(out@);
        proof {
            assert(all[done] == x@);
            assert forall|q: int| 0 <= q < ov.len() implies !same_key(#[trigger] ov[q], x@) by {
                assert(all.take(done).to_set().contains(ov[q]));
                let i = choose|i: int| 0 <= i < all.take(done).len() && all.take(done)[i] == ov[q];
                assert(all[i] == ov[q]);
                assert(!same_key(all[i], all[done]));
            }
        }
        let mut p: usize = 0;
        while p < out.len() && !change_less(&x, &out[p])
            invariant
                p <= out@.len(),
                ov == change_views(out@),
                forall|q: int| 0 <= q < p ==> change_lt(#[trigger] ov[q], x@),
                forall|q: int| 0 <= q < ov.len() ==> !same_key(#[trigger] ov[q], x@),
            decreases out@.len() - p,
        {
            proof {
                lemma_change_lt_total(ov[p as int], x@);
            }
            p = p + 1;
        }
        let ghost xv = x@;
        out.insert(p, x);
        proof {
            let nv = change_views(out@);
            assert(nv =~= ov.insert(p as int, xv));
            assert forall|i: int, j: int| 0 <= i < j < nv.len() implies #[trigger] lt(nv[i], nv[j]) by {
                if j < p {
                    assert(lt(ov[i], ov[j]));
                } else if i < p && j == p {
                } else if i < p && j > p {
                    assert(lt(ov[i], xv));
                    if j - 1 > p {
                        assert(lt(ov[p as int], ov[j - 1]));
                    }
                    assert(lt(xv, ov[p as int]));
                    assert(lt(ov[i], ov[p as int]));
                } else if i == p {
                    if j - 1 > p {
                        assert(lt(ov[p as int], ov[j - 1]));
                    }
                    assert(lt(xv, ov[p as int]));
                } else {
                    assert(lt(ov[i - 1], ov[j - 1]));
                }
            }
            assert forall|c: SpecChange| nv.to_set().contains(c) <==> all.take(done + 1).to_set().contains(c) by {
                assert(all.take(done + 1) =~= all.take(done).push(xv));
                all.take(done).lemma_push_to_set_commute(xv);
                if nv.to_set().contains(c) {
                    let k = choose|k: int| 0 <= k < nv.len() && nv[k] == c;
                    if k < p {
                        assert(ov.to_set().contains(ov[k]));
                    } else if k > p {
                        assert(ov.to_set().contains(ov[k - 1]));
                    }
                }
                if ov.to_set().contains(c) {
                    let k = choose|k: int| 0 <= k < ov.len() && ov[k] == c;
                    if k < p {
                        assert(nv[k] == c);
                    } else {
                        assert(nv[k + 1] == c);
                    }
                }
                if c == xv {
                    assert(nv[p as int] == c);
                }
            }
            assert(nv.to_set() =~= all.take(done + 1).to_set());
            assert(rest@ =~= r0.drop_first());
            assert(change_views(r0.drop_first()) =~= change_views(r0).drop_first());
            assert(all.skip(done).drop_first() =~= all.skip(done + 1));
            done = done + 1;
        }
    }
    proof {
        assert(all.take(done) =~= all);
    }
    out
}

// ---------------------------------------------------------------------------
// The whole diff.
// ---------------------------------------------------------------------------

/// A KDBX version mismatch warning, if the versions differ.
pub open spec fn version_warnings(a: Database, b: Database) -> Seq<SpecDiffWarning> {
    if a.version@ != b.version@ {
        seq![SpecDiffWarning::VersionMismatch { a: a.version@, b: b.version@ }]
    } else {
        seq![]
    }
}

/// An optional text, or the empty text.
pub open spec fn or_empty(o: Option<Seq<char>>) -> Seq<char> {
    match o {
        Some(s) => s,
        None => seq![],
    }
}

/// Database-level changes: name, then color, then recycle bin.
pub open spec fn database_changes(a: Database, b: Database) -> Seq<SpecChange> {
    (if opt_view(a.meta.database_name) != opt_view(b.meta.database_name) {
        seq![
            SpecChange::Database(
                SpecDatabaseChange::NameChanged {
                    from: or_empty(opt_view(a.meta.database_name)),
                    to: or_empty(opt_view(b.meta.database_name)),
                },
            ),
        ]
    } else {
        seq![]
    }) + (if opt_view(a.meta.color) != opt_view(b.meta.color) {
        seq![
            SpecChange::Database(
                SpecDatabaseChange::ColorChanged { from: opt_view(a.meta.color), to: opt_view(b.meta.color) },
            ),
        ]
    } else {
        seq![]
    }) + (if a.meta.recyclebin_uuid != b.meta.recyclebin_uuid {
        seq![
            SpecChange::Database(
                SpecDatabaseChange::RecycleBinChanged { from: a.meta.recyclebin_uuid, to: b.meta.recyclebin_uuid },
            ),
        ]
    } else {
        seq![]
    })
}

/// The node map a database walks to under the options.
pub open spec fn walked(db: Database, opts: DiffOptions) -> Map<u128, SpecLocatedNode> {
    spec_tree_walk(db, opts.include_recycle_bin)
}

/// The raw field diff of the entries with UUID `k` (none if either is missing).
pub open spec fn raw_entry_diff(a: Database, b: Database, k: u128, show: bool) -> Seq<SpecFieldChange> {
    match (lookup_entry(a.root, k), lookup_entry(b.root, k)) {
        (Some(x), Some(y)) => spec_field_diff(x, y, show),
        _ => seq![],
    }
}

/// The field changes of entry `k` that are reported.
pub open spec fn kept_fields(a: Database, b: Database, k: u128, opts: DiffOptions) -> Seq<SpecFieldChange> {
    if opts.strict {
        raw_entry_diff(a, b, k, opts.show_secrets)
    } else {
        kept_changes(raw_entry_diff(a, b, k, opts.show_secrets))
    }
}

/// How many field changes of entry `k` are suppressed.
pub open spec fn suppressed_fields(a: Database, b: Database, k: u128, opts: DiffOptions) -> nat {
    if opts.strict {
        0
    } else {
        suppressed_count(raw_entry_diff(a, b, k, opts.show_secrets))
    }
}

/// Entries present in both maps at the same path.
pub open spec fn same_path_entries(ma: Map<u128, SpecLocatedNode>, mb: Map<u128, SpecLocatedNode>) -> Set<u128> {
    ma.dom().filter(
        |k: u128|
            mb.contains_key(k) && ma[k].path == mb[k].path && ma[k].kind == NodeKind::Entry && mb[k].kind
                == NodeKind::Entry,
    )
}

/// Same-path entries with reported field changes.
pub open spec fn modified_keys(a: Database, b: Database, opts: DiffOptions) -> Set<u128> {
    same_path_entries(walked(a, opts), walked(b, opts)).filter(|k: u128| kept_fields(a, b, k, opts).len() > 0)
}

/// The change reporting entry `k` as modified.
pub open spec fn modified_change(k: u128, node: SpecLocatedNode, fields: Seq<SpecFieldChange>) -> SpecChange {
    SpecChange::Entry { uuid: k, path: node.path, kind: SpecEntryChangeKind::Modified { fields } }
}

/// Every group and entry change between the two databases.
pub open spec fn node_changes(a: Database, b: Database, opts: DiffOptions) -> Set<SpecChange> {
    let ma = walked(a, opts);
    let mb = walked(b, opts);
    added_keys(ma, mb).map(|k: u128| presence_change(k, mb[k], true)) + removed_keys(ma, mb).map(
        |k: u128| presence_change(k, ma[k], false),
    ) + moved_keys(ma, mb).map(|k: u128| moved_change(k, ma[k], mb[k])) + modified_keys(a, b, opts).map(
        |k: u128| modified_change(k, ma[k], kept_fields(a, b, k, opts)),
    )
}

/// The summary `compute` reports.
pub open spec fn compute_summary(a: Database, b: Database, opts: DiffOptions) -> Summary {
    let ma = walked(a, opts);
    let mb = walked(b, opts);
    Summary {
        groups_added: of_kind(added_keys(ma, mb), mb, NodeKind::Group).len() as usize,
        groups_removed: of_kind(removed_keys(ma, mb), ma, NodeKind::Group).len() as usize,
        groups_modified: of_kind(moved_keys(ma, mb), ma, NodeKind::Group).len() as usize,
        entries_added: of_kind(added_keys(ma, mb), mb, NodeKind::Entry).len() as usize,
        entries_removed: of_kind(removed_keys(ma, mb), ma, NodeKind::Entry).len() as usize,
        entries_modified: (of_kind(moved_keys(ma, mb), ma, NodeKind::Entry).len() + modified_keys(a, b, opts).len()) as usize,
        fields_changed: cap(set_sum(modified_keys(a, b, opts), |k: u128| kept_fields(a, b, k, opts).len()) as int),
        attachments_changed: 0,
        history_changes: 0,
        metadata_changed: database_changes(a, b).len() as usize,
        suppressed: cap(set_sum(same_path_entries(ma, mb), |k: u128| suppressed_fields(a, b, k, opts)) as int),
    }
}

fn opt_str_eq(x: &Option<String>, y: &Option<String>) -> (r: bool)
    ensures
        r == (opt_view(*x) == opt_view(*y)),
{
    match (x, y) {
        (Some(p), Some(q)) => *p == *q,
        (None, None) => true,
        _ => false,
    }
}

fn opt_string_copy(x: &Option<String>) -> (r: Option<String>)
    ensures
        opt_view(r) == opt_view(*x),
{
    match x {
        Some(s) => Some(s.clone()),
        None => None,
    }
}

/// Diff database-level metadata: name, color, recycle bin.
fn diff_database_metadata(a: &Database, b: &Database, changes: &mut Vec<Change>)
    ensures
        change_views(final(changes)@) == change_views(old(changes)@) + database_changes(*a, *b),
{
    let ghost c0 = change_views(changes@);
    // Name
    if !opt_str_eq(&a.meta.database_name, &b.meta.database_name) {
        let from = match &a.meta.database_name {
            Some(n) => n.clone(),
            None => String::new(),
        };
        let to = match &b.meta.database_name {
            Some(n) => n.clone(),
            None => String::new(),
        };
        push_change(changes, Change::Database(DatabaseChange::NameChanged { from, to }));
    }
    let ghost c1 = change_views(changes@);
    // Color
    if !opt_str_eq(&a.meta.color, &b.meta.color) {
        let from = opt_string_copy(&a.meta.color);
        let to = opt_string_copy(&b.meta.color);
        push_change(changes, Change::Database(DatabaseChange::ColorChanged { from, to }));
    }
    let ghost c2 = change_views(changes@);
    // Recycle bin UUID
    if a.meta.recyclebin_uuid != b.meta.recyclebin_uuid {
        push_change(
            changes,
            Change::Database(
                DatabaseChange::RecycleBinChanged { from: a.meta.recyclebin_uuid, to: b.meta.recyclebin_uuid },
            ),
        );
    }
    assert(change_views(changes@) =~= c0 + database_changes(*a, *b));
}

/// The `i`-th key of a list without repeats is new to the keys before it.
proof fn lemma_next_key(keys: Seq<u128>, i: int)
    requires
        keys.no_duplicates(),
        0 <= i < keys.len(),
    ensures
        !keys.take(i).to_set().contains(keys[i]),
        keys.take(i + 1).to_set() == keys.take(i).to_set().insert(keys[i]),
{
    let pre = keys.take(i);
    assert(keys.take(i + 1) =~= pre.push(keys[i]));
    pre.lemma_push_to_set_commute(keys[i]);
    if pre.to_set().contains(keys[i]) {
        let j = choose|j: int| 0 <= j < pre.len() && pre[j] == keys[i];
        assert(keys[j] == keys[i]);
    }
}

/// The reported field changes of the entries with UUID `k`, and how many
/// changes were suppressed; none when either vault lacks the entry.
fn entry_field_changes(a: &Database, b: &Database, k: u128, opts: &DiffOptions) -> (r: (Vec<FieldChange>, usize))
    ensures
        field_views(r.0@) == kept_fields(*a, *b, k, *opts),
        r.1 == suppressed_fields(*a, *b, k, *opts),
{
    match (find_entry(&a.root, k), find_entry(&b.root, k)) {
        (Some(ea), Some(eb)) => {
            let raw = field_diff_entry(ea, eb, opts);
            suppress_field_changes(raw, opts)
        },
        _ => {
            let v: Vec<FieldChange> = Vec::new();
            proof {
                assert(field_views(v@) =~= Seq::<SpecFieldChange>::empty());
                assert(kept_fields(*a, *b, k, *opts) =~= Seq::<SpecFieldChange>::empty());
            }
            (v, 0)
        },
    }
}

/// Emits a Modified change for each same-path entry of `map_a` (keyed by
/// `keys`) whose reported field changes are not empty.
fn emit_modified(
    keys: &Vec<u128>,
    map_a: &HashMap<u128, LocatedNode>,
    map_b: &HashMap<u128, LocatedNode>,
    a: &Database,
    b: &Database,
    opts: &DiffOptions,
    changes: &mut Vec<Change>,
    entries: &mut usize,
    fields_changed: &mut usize,
    suppressed: &mut usize,
)
    requires
        keys@.no_duplicates(),
        keys@.to_set() == map_a@.dom(),
        node_views(map_a@) == walked(*a, *opts),
        node_views(map_b@) == walked(*b, *opts),
        *old(entries) + modified_keys(*a, *b, *opts).len() <= usize::MAX,
    ensures
        lists(
            change_views(final(changes)@).skip(old(changes)@.len() as int),
            modified_keys(*a, *b, *opts),
            |k: u128| modified_change(k, walked(*a, *opts)[k], kept_fields(*a, *b, k, *opts)),
        ),
        change_views(final(changes)@).take(old(changes)@.len() as int) == change_views(old(changes)@),
        final(changes)@.len() >= old(changes)@.len(),
        *final(entries) == *old(entries) + modified_keys(*a, *b, *opts).len(),
        *final(fields_changed) == cap(
            *old(fields_changed) + set_sum(modified_keys(*a, *b, *opts), |k: u128| kept_fields(*a, *b, k, *opts).len()),
        ),
        *final(suppressed) == cap(
            *old(suppressed) + set_sum(
                same_path_entries(walked(*a, *opts), walked(*b, *opts)),
                |k: u128| suppressed_fields(*a, *b, k, *opts),
            ),
        ),
{
    let ghost av = walked(*a, *opts);
    let ghost bv = walked(*b, *opts);
    let ghost fmod = |k: u128| modified_change(k, av[k], kept_fields(*a, *b, k, *opts));
    let ghost flen = |k: u128| kept_fields(*a, *b, k, *opts).len();
    let ghost fsup = |k: u128| suppressed_fields(*a, *b, k, *opts);
    let ghost c0 = change_views(changes@);
    let ghost e0 = *entries;
    let ghost x0 = *fields_changed;
    let ghost s0 = *suppressed;
    let ghost mut ksp: Seq<u128> = seq![];
    let ghost mut ksm: Seq<u128> = seq![];
    let ghost same = same_path_entries(av, bv);
    let ghost modk = modified_keys(*a, *b, *opts);
    proof {
        assert(av.dom() =~= map_a@.dom());
        assert(map_a@.dom().finite());
        av.dom().lemma_len_filter(|k: u128| bv.contains_key(k) && av[k].path == bv[k].path && av[k].kind == NodeKind::Entry && bv[k].kind == NodeKind::Entry);
        same.lemma_len_filter(|k: u128| kept_fields(*a, *b, k, *opts).len() > 0);
    }
    let mut i: usize = 0;
    while i < keys.len()
        invariant
            i <= keys@.len(),
            keys@.no_duplicates(),
            keys@.to_set() == map_a@.dom(),
            av == node_views(map_a@),
            bv == node_views(map_b@),
            av == walked(*a, *opts),
            bv == walked(*b, *opts),
            same == same_path_entries(av, bv),
            modk == modified_keys(*a, *b, *opts),
            modk.finite(),
            fmod == (|k: u128| modified_change(k, av[k], kept_fields(*a, *b, k, *opts))),
            flen == (|k: u128| kept_fields(*a, *b, k, *opts).len()),
            fsup == (|k: u128| suppressed_fields(*a, *b, k, *opts)),
            e0 + modk.len() <= usize::MAX,
            ksp.no_duplicates(),
            ksp.to_set() == keys@.take(i as int).to_set().filter(|k: u128| same.contains(k)),
            ksm.no_duplicates(),
            ksm.to_set() == ksp.to_set().filter(|k: u128| modk.contains(k)),
            change_views(changes@) == c0 + ksm.map_values(fmod),
            *entries == e0 + ksm.len(),
            *fields_changed == cap(x0 + seq_sum(ksm, flen)),
            *suppressed == cap(s0 + seq_sum(ksp, fsup)),
        decreases keys@.len() - i,
    {
        let k = keys[i];
        proof {
            lemma_next_key(keys@, i as int);
            assert(keys@.to_set().contains(k));
        }
        match map_b.get(&k) {
            Some(nb) => {
                let na = map_a.get(&k).unwrap();
                proof {
                    assert(av[k] == na@);
                    assert(bv[k] == nb@);
                }
                if na.path.same_as(&nb.path) && na.kind == NodeKind::Entry && nb.kind == NodeKind::Entry {
                    proof {
                        assert(same.contains(k));
                        assert(!ksp.to_set().contains(k));
                        lemma_push_nodup(ksp, k);
                        assert(ksp.push(k).drop_last() =~= ksp);
                    }
                    let (fields, supp) = entry_field_changes(a, b, k, opts);
                    *suppressed = suppressed.saturating_add(supp);
                    if fields.len() > 0 {
                        proof {
                            assert(modk.contains(k));
                            assert(!ksm.to_set().contains(k));
                            lemma_push_nodup(ksm, k);
                            lemma_nodup_subset_len(ksm.push(k), modk);
                            assert(ksm.push(k).drop_last() =~= ksm);
                        }
                        *entries = *entries + 1;
                        *fields_changed = fields_changed.saturating_add(fields.len());
                        let c = Change::Entry {
                            uuid: k,
                            path: na.path.duplicate(),
                            kind: EntryChangeKind::Modified { fields },
                        };
                        proof {
                            assert(c@ == fmod(k));
                        }
                        push_change(changes, c);
                        proof {
                            assert(ksm.push(k).map_values(fmod) =~= ksm.map_values(fmod).push(fmod(k)));
                            ksm = ksm.push(k);
                        }
                    } else {
                        proof {
                            assert(!modk.contains(k));
                        }
                    }
                    proof {
                        ksp = ksp.push(k);
                        assert(ksm.to_set() =~= ksp.to_set().filter(|k: u128| modk.contains(k)));
                    }
                } else {
                    proof {
                        assert(!same.contains(k));
                    }
                }
            },
            None => {
                proof {
                    assert(!same.contains(k));
                }
            },
        }
        proof {
            assert(ksp.to_set() =~= keys@.take(i + 1).to_set().filter(|k: u128| same.contains(k)));
        }
        i = i + 1;
    }
    proof {
        assert(keys@.take(keys@.len() as int) =~= keys@);
        assert(ksp.to_set() =~= same);
        assert(ksm.to_set() =~= modk);
        ksm.unique_seq_to_set();
        lemma_set_sum(ksm, flen);
        lemma_set_sum(ksp, fsup);
        assert(change_views(changes@).skip(c0.len() as int) =~= ksm.map_values(fmod));
        assert(change_views(changes@).take(c0.len() as int) =~= c0);
    }
}

/// The UUID a change concerns, for each change of a sequence.
pub open spec fn change_uuids(s: Seq<SpecChange>) -> Seq<u128> {
    s.map_values(|c: SpecChange| change_uuid(c))
}

/// A listing made by a function that keeps the key: its UUIDs are the
/// keys, each once, and its changes are the keys' images.
proof fn lemma_listed_uuids(s: Seq<SpecChange>, keys: Set<u128>, f: spec_fn(u128) -> SpecChange)
    requires
        lists(s, keys, f),
        forall|k: u128| #[trigger] change_uuid(f(k)) == k,
    ensures
        change_uuids(s).no_duplicates(),
        change_uuids(s).to_set() == keys,
        s.to_set() == keys.map(f),
{
    let ks = choose|ks: Seq<u128>| ks.no_duplicates() && ks.to_set() == keys && s == ks.map_values(f);
    assert(change_uuids(s) =~= ks) by {
        assert forall|i: int| 0 <= i < ks.len() implies change_uuids(s)[i] == ks[i] by {
            assert(change_uuid(f(ks[i])) == ks[i]);
        }
    }
    ks.lemma_to_set_map_commutes(f);
}

/// Two UUID listings with disjoint key sets concatenate without repeats.
proof fn lemma_uuids_concat(s: Seq<SpecChange>, t: Seq<SpecChange>, ks: Set<u128>, kt: Set<u128>)
    requires
        change_uuids(s).no_duplicates(),
        change_uuids(t).no_duplicates(),
        change_uuids(s).to_set() == ks,
        change_uuids(t).to_set() == kt,
        ks.disjoint(kt),
    ensures
        change_uuids(s + t).no_duplicates(),
        change_uuids(s + t).to_set() == ks + kt,
{
    let us = change_uuids(s);
    let ut = change_uuids(t);
    assert(change_uuids(s + t) =~= us + ut);
    assert forall|i: int, j: int| 0 <= i < us.len() && 0 <= j < ut.len() implies us[i] != ut[j] by {
        assert(us.to_set().contains(us[i]));
        assert(ut.to_set().contains(ut[j]));
    }
    vstd::seq_lib::lemma_no_dup_in_concat(us, ut);
    vstd::seq_lib::seq_to_set_distributes_over_add(us, ut);
}

/// The group and entry changes that `compute` collects before sorting
/// are exactly the node changes, with no two sharing a sort key.
proof fn lemma_node_changes_listed(a: Database, b: Database, opts: DiffOptions, head: Seq<SpecChange>, all: Seq<SpecChange>)
    requires
        structural_changes(head, walked(a, opts), walked(b, opts)),
        all.take(head.len() as int) == head,
        all.len() >= head.len(),
        lists(
            all.skip(head.len() as int),
            modified_keys(a, b, opts),
            |k: u128| modified_change(k, walked(a, opts)[k], kept_fields(a, b, k, opts)),
        ),
    ensures
        distinct_keys(all),
        all.to_set() == node_changes(a, b, opts),
{
    let ma = walked(a, opts);
    let mb = walked(b, opts);
    let (p1, p2, p3) = choose|p1: Seq<SpecChange>, p2: Seq<SpecChange>, p3: Seq<SpecChange>|
        head == p1 + p2 + p3 && #[trigger] lists_added(p1, ma, mb) && #[trigger] lists_removed(p2, ma, mb)
            && #[trigger] lists_moved(p3, ma, mb);
    let p4 = all.skip(head.len() as int);
    let f1 = |k: u128| presence_change(k, mb[k], true);
    let f2 = |k: u128| presence_change(k, ma[k], false);
    let f3 = |k: u128| moved_change(k, ma[k], mb[k]);
    let f4 = |k: u128| modified_change(k, ma[k], kept_fields(a, b, k, opts));
    let k1 = added_keys(ma, mb);
    let k2 = removed_keys(ma, mb);
    let k3 = moved_keys(ma, mb);
    let k4 = modified_keys(a, b, opts);
    lemma_listed_uuids(p1, k1, f1);
    lemma_listed_uuids(p2, k2, f2);
    lemma_listed_uuids(p3, k3, f3);
    lemma_listed_uuids(p4, k4, f4);
    assert(k1.disjoint(k2));
    lemma_uuids_concat(p1, p2, k1, k2);
    assert((k1 + k2).disjoint(k3));
    lemma_uuids_concat(p1 + p2, p3, k1 + k2, k3);
    assert((k1 + k2 + k3).disjoint(k4));
    lemma_uuids_concat(p1 + p2 + p3, p4, k1 + k2 + k3, k4);
    assert(all =~= p1 + p2 + p3 + p4);
    let u = change_uuids(all);
    assert forall|i: int, j: int| 0 <= i < all.len() && 0 <= j < all.len() && i != j implies !same_key(all[i], all[j]) by {
        assert(u[i] != u[j]);
    }
    vstd::seq_lib::seq_to_set_distributes_over_add(p1, p2);
    vstd::seq_lib::seq_to_set_distributes_over_add(p1 + p2, p3);
    vstd::seq_lib::seq_to_set_distributes_over_add(p1 + p2 + p3, p4);
}

/// Top-level diff entry point.
///
/// Produces a complete `ChangeSet` by:
/// 1. Emitting a `DiffWarning::VersionMismatch` when the two databases use
///    different KDBX format versions.
/// 2. Diffing database-level metadata (name, color, recycle bin).
/// 3. Walking both trees with `tree_walk` and emitting structural changes
///    (added/removed/moved groups and entries) via `symmetric_diff`.
/// 4. For each entry present in both databases at the same path, comparing
///    field content with `field_diff_entry` and applying suppression policy.
/// 5. Sorting the changes deterministically: database changes first, then
///    groups and entries by path and UUID.
///
/// Counts that could exceed `usize::MAX` (fields changed, suppressed)
/// saturate there.
pub fn compute(a: &Database, b: &Database, opts: &DiffOptions) -> (cs: ChangeSet)
    ensures
        warning_views(cs.warnings@) == version_warnings(*a, *b),
        change_views(cs.changes@) == database_changes(*a, *b) + sorted_changes(node_changes(*a, *b, *opts)),
        sorted_by(sorted_changes(node_changes(*a, *b, *opts)), |x: SpecChange, y: SpecChange| change_lt(x, y)),
        sorted_changes(node_changes(*a, *b, *opts)).to_set() == node_changes(*a, *b, *opts),
        cs.summary == compute_summary(*a, *b, *opts),
        counts_listed(cs.summary, change_views(cs.changes@)),
{
    // 1. Cross-version warning.
    let mut warnings: Vec<DiffWarning> = Vec::new();
    if a.version != b.version {
        warnings.push(DiffWarning::VersionMismatch { a: a.version.clone(), b: b.version.clone() });
    }
    proof {
        assert(warning_views(warnings@) =~= version_warnings(*a, *b));
    }

    // 2. Database-level metadata.
    let mut db_changes: Vec<Change> = Vec::new();
    proof {
        assert(change_views(db_changes@) =~= Seq::<SpecChange>::empty());
    }
    diff_database_metadata(a, b, &mut db_changes);
    let metadata_changed = db_changes.len();

    // 3. Tree walk + structural symmetric diff.
    let map_a = tree_walk(a, opts);
    let map_b = tree_walk(b, opts);
    let ghost av = node_views(map_a@);
    let ghost bv = node_views(map_b@);
    let len_a = map_a.len();
    let len_b = map_b.len();
    let mut cs = ChangeSet { changes: Vec::new(), summary: Summary::default(), warnings: Vec::new() };
    symmetric_diff(&map_a, &map_b, &mut cs);
    let ghost after_struct = change_views(cs.changes@);

    // 4. Modified entries: same UUID in both, same path.
    let ka = map_keys(&map_a);
    let ghost moved_entries = of_kind(moved_keys(av, bv), av, NodeKind::Entry);
    let ghost modk = modified_keys(*a, *b, *opts);
    proof {
        assert(av.dom() == map_a@.dom());
        assert(moved_entries.disjoint(modk));
        assert((moved_entries + modk).subset_of(av.dom()));
        vstd::set_lib::lemma_set_disjoint_lens(moved_entries, modk);
        vstd::set_lib::lemma_len_subset(moved_entries + modk, av.dom());
    }
    let mut entries_modified = cs.summary.entries_modified;
    let mut fields_changed: usize = 0;
    let mut suppressed: usize = 0;
    emit_modified(
        &ka,
        &map_a,
        &map_b,
        a,
        b,
        opts,
        &mut cs.changes,
        &mut entries_modified,
        &mut fields_changed,
        &mut suppressed,
    );
    let ghost all_nodes = change_views(cs.changes@);

    // 5. Sort for deterministic output.
    proof {
        assert(after_struct.skip(0) =~= after_struct);
        assert(av == walked(*a, *opts));
        assert(bv == walked(*b, *opts));
        lemma_node_changes_listed(*a, *b, *opts, after_struct, all_nodes);
    }
    let mut sorted = sort_changes(cs.changes);
    proof {
        let srt = change_views(sorted@);
        let target = sorted_changes(node_changes(*a, *b, *opts));
        lemma_change_lt_strict_order();
        assert(sorted_by(target, |x: SpecChange, y: SpecChange| change_lt(x, y)) && target.to_set() == node_changes(*a, *b, *opts));
        lemma_sorted_unique(srt, target, |x: SpecChange, y: SpecChange| change_lt(x, y));
    }
    let ghost dbv = change_views(db_changes@);
    let ghost srtv = change_views(sorted@);
    let mut changes = db_changes;
    changes.append(&mut sorted);
    proof {
        assert(change_views(changes@) =~= dbv + srtv);
    }
    let summary = Summary {
        groups_added: cs.summary.groups_added,
        groups_removed: cs.summary.groups_removed,
        groups_modified: cs.summary.groups_modified,
        entries_added: cs.summary.entries_added,
        entries_removed: cs.summary.entries_removed,
        entries_modified,
        fields_changed,
        attachments_changed: 0,
        history_changes: 0,
        metadata_changed,
        suppressed,
    };
    proof {
        crate::properties::law_listed_counts(*a, *b, *opts, sorted_changes(node_changes(*a, *b, *opts)));
    }
    ChangeSet { changes, summary, warnings }
}

} // verus!
