//! Properties of the diff that span several functions.

use vstd::prelude::*;

use crate::change_set::{
    counts_listed, field_count, is_database_change, is_entry_added, is_entry_modified, is_entry_moved, is_entry_removed, is_group_added, is_group_moved,
    is_group_removed, opt_view, SpecChange, SpecDatabaseChange, SpecDiffWarning, SpecEntryChangeKind, SpecFieldChange,
    SpecGroupChangeKind, SpecValueChange, SpecValueDisplay, Summary,
};
use crate::compute::{
    change_lt, lemma_change_lt_strict_order,     added_keys, change_uuid, compute_summary, database_changes, insert_all, is_noisy_name, kept_changes, kept_fields,
    lookup_entry, modified_change, modified_keys, moved_change, moved_keys, presence_change, node_changes, of_kind, or_empty, raw_entry_diff, removed_keys, same_path_entries, sorted_changes,
    spec_is_suppressible, spec_tree_walk, suppressed_count, suppressed_fields, version_warnings, walk_database,
    walk_entries, walk_group, walk_groups, walked, NodeKind, SpecLocatedNode,
};
use crate::dump::{entry_head, entry_tail, entry_text, field_line, line};
use crate::fields::{
    attachment_change, attachment_changes, attachment_changes_over, attachment_hash, attachment_names, custom_change,
    custom_changes, custom_changes_over, custom_field_names, field_names, history_changes, is_standard_name, spec_field_diff,
    standard_change, standard_changes, tag_changes, tag_changes_over, tag_set,
};
use crate::mask::hash_of_text;
use crate::model::{Database, Entry, Field, Group};
use crate::options::{DiffOptions, DumpOptions};
use crate::sums::{
    cap, enumeration, lemma_filter_unique, lemma_seq_sum_append, lemma_seq_sum_filter, lemma_seq_sum_zero,
    lemma_set_sum, lemma_set_sum_image, seq_sum, set_sum,
};
use crate::text::sorted_listing;

verus! {

proof fn lemma_custom_changes_over_self(ks: Seq<Seq<char>>, e: Entry, show: bool)
    ensures
        custom_changes_over(ks, e, e, show) == Seq::<SpecFieldChange>::empty(),
    decreases ks.len(),
{
    if ks.len() > 0 {
        lemma_custom_changes_over_self(ks.drop_last(), e, show);
    }
}

proof fn lemma_attachment_changes_over_self(ks: Seq<Seq<char>>, e: Entry)
    ensures
        attachment_changes_over(ks, e, e) == Seq::<SpecFieldChange>::empty(),
    decreases ks.len(),
{
    if ks.len() > 0 {
        lemma_attachment_changes_over_self(ks.drop_last(), e);
    }
}

proof fn lemma_sorted_listing_empty()
    ensures
        sorted_listing(Set::<Seq<char>>::empty()) == Seq::<Seq<char>>::empty(),
{
    let e = Seq::<Seq<char>>::empty();
    assert(crate::text::str_sorted(e) && e.to_set() =~= Set::<Seq<char>>::empty());
    let s = sorted_listing(Set::<Seq<char>>::empty());
    if s.len() > 0 {
        assert(s.to_set().contains(s[0]));
    }
    assert(s =~= e);
}

/// An entry compared with itself has no field changes.
pub proof fn law_field_diff_self_is_empty(e: Entry, show: bool)
    ensures
        spec_field_diff(e, e, show) == Seq::<SpecFieldChange>::empty(),
{
    lemma_custom_changes_over_self(crate::text::sorted_listing(crate::fields::custom_field_names(e, e)), e, show);
    lemma_attachment_changes_over_self(
        sorted_listing(
            crate::fields::attachment_names(e.attachments@).union(crate::fields::attachment_names(e.attachments@)),
        ),
        e,
    );
    assert(crate::fields::tag_set(e).difference(crate::fields::tag_set(e)) =~= Set::<Seq<char>>::empty());
    lemma_sorted_listing_empty();
    assert(tag_changes(e, e) =~= Seq::<SpecFieldChange>::empty());
    assert(spec_field_diff(e, e, show) =~= Seq::<SpecFieldChange>::empty());
}

proof fn lemma_enumeration_empty()
    ensures
        enumeration(Set::<u128>::empty()) == Seq::<u128>::empty(),
{
    let e = Seq::<u128>::empty();
    assert(e.no_duplicates() && e.to_set() =~= Set::<u128>::empty());
    let s = enumeration(Set::<u128>::empty());
    if s.len() > 0 {
        assert(s.to_set().contains(s[0]));
    }
    assert(s =~= e);
}

proof fn lemma_sorted_changes_empty()
    ensures
        sorted_changes(Set::<SpecChange>::empty()) == Seq::<SpecChange>::empty(),
{
    let e = Seq::<SpecChange>::empty();
    assert(crate::text::sorted_by(e, |x: SpecChange, y: SpecChange| crate::compute::change_lt(x, y)));
    assert(e.to_set() =~= Set::<SpecChange>::empty());
    let s = sorted_changes(Set::<SpecChange>::empty());
    if s.len() > 0 {
        assert(s.to_set().contains(s[0]));
    }
    assert(s =~= e);
}

/// A vault compared with itself shows nothing: no warning, no change, and
/// every count is zero.
pub proof fn law_compute_self_is_empty(db: Database, opts: DiffOptions)
    ensures
        version_warnings(db, db) == Seq::<SpecDiffWarning>::empty(),
        database_changes(db, db) + sorted_changes(node_changes(db, db, opts)) == Seq::<SpecChange>::empty(),
        compute_summary(db, db, opts) == Summary::zero(),
{
    let m = walked(db, opts);
    assert forall|k: u128| #[trigger] kept_fields(db, db, k, opts) == Seq::<SpecFieldChange>::empty() by {
        match lookup_entry(db.root, k) {
            Some(e) => {
                law_field_diff_self_is_empty(e, opts.show_secrets);
            },
            None => {},
        }
        assert(raw_entry_diff(db, db, k, opts.show_secrets) =~= Seq::<SpecFieldChange>::empty());
    }
    assert forall|k: u128| #[trigger] suppressed_fields(db, db, k, opts) == 0 by {
        assert(kept_fields(db, db, k, opts) == Seq::<SpecFieldChange>::empty());
        match lookup_entry(db.root, k) {
            Some(e) => {
                law_field_diff_self_is_empty(e, opts.show_secrets);
            },
            None => {},
        }
        assert(raw_entry_diff(db, db, k, opts.show_secrets) =~= Seq::<SpecFieldChange>::empty());
    }
    assert(added_keys(m, m) =~= Set::<u128>::empty());
    assert(removed_keys(m, m) =~= Set::<u128>::empty());
    assert(moved_keys(m, m) =~= Set::<u128>::empty());
    assert(modified_keys(db, db, opts) =~= Set::<u128>::empty());
    assert(node_changes(db, db, opts) =~= Set::<SpecChange>::empty());
    lemma_sorted_changes_empty();
    assert(database_changes(db, db) =~= Seq::<SpecChange>::empty());
    assert(database_changes(db, db) + sorted_changes(node_changes(db, db, opts)) =~= Seq::<SpecChange>::empty());
    lemma_enumeration_empty();
    let fsup = |k: u128| suppressed_fields(db, db, k, opts);
    lemma_seq_sum_zero(enumeration(same_path_entries(m, m)), fsup);
    assert(of_kind(Set::<u128>::empty(), m, NodeKind::Group) =~= Set::<u128>::empty());
    assert(of_kind(Set::<u128>::empty(), m, NodeKind::Entry) =~= Set::<u128>::empty());
    assert(version_warnings(db, db) =~= Seq::<SpecDiffWarning>::empty());
}

/// Swapping the two vaults swaps what is added with what is removed, for
/// groups and for entries, and reports as many metadata changes and
/// warnings.
pub proof fn law_compute_swap(a: Database, b: Database, opts: DiffOptions)
    ensures
        compute_summary(a, b, opts).entries_added == compute_summary(b, a, opts).entries_removed,
        compute_summary(a, b, opts).entries_removed == compute_summary(b, a, opts).entries_added,
        compute_summary(a, b, opts).groups_added == compute_summary(b, a, opts).groups_removed,
        compute_summary(a, b, opts).groups_removed == compute_summary(b, a, opts).groups_added,
        compute_summary(a, b, opts).metadata_changed == compute_summary(b, a, opts).metadata_changed,
        version_warnings(a, b).len() == version_warnings(b, a).len(),
{
    let ma = walked(a, opts);
    let mb = walked(b, opts);
    assert(added_keys(ma, mb) == removed_keys(mb, ma));
    assert(removed_keys(ma, mb) == added_keys(mb, ma));
}

/// Keeping and dropping noisy changes partitions them: every change is
/// either kept or counted as suppressed, and no kept change is noisy.
pub proof fn law_suppression_partitions(s: Seq<SpecFieldChange>)
    ensures
        kept_changes(s).len() + suppressed_count(s) == s.len(),
        forall|i: int| 0 <= i < kept_changes(s).len() ==> !spec_is_suppressible(#[trigger] kept_changes(s)[i]),
    decreases s.len(),
{
    if s.len() > 0 {
        law_suppression_partitions(s.drop_last());
    }
}

/// No node of a walk that skips `u` is a group with UUID `u` or lies
/// below one, given that no ancestor already is one.
proof fn lemma_walk_group_skips(g: Group, names: Seq<Seq<char>>, ids: Seq<u128>, u: u128)
    requires
        !ids.contains(u),
    ensures
        forall|i: int|
            0 <= i < walk_group(g, names, ids, Some(u)).len() ==> {
                let n = #[trigger] walk_group(g, names, ids, Some(u))[i];
                &&& !n.path.uuids.drop_last().contains(u)
                &&& (n.kind == NodeKind::Group ==> n.uuid != u)
            },
    decreases g,
{
    if g.uuid != u {
        let n2 = names.push(g.name@);
        let i2 = ids.push(g.uuid);
        assert(!i2.contains(u)) by {
            if i2.contains(u) {
                let j = choose|j: int| 0 <= j < i2.len() && i2[j] == u;
                assert(ids[j] == u);
            }
        }
        lemma_walk_groups_skips(g.groups@, n2, i2, u);
        lemma_walk_entries_under(g.entries@, n2, i2, u);
        assert(i2.drop_last() =~= ids);
    }
}

proof fn lemma_walk_groups_skips(gs: Seq<Group>, names: Seq<Seq<char>>, ids: Seq<u128>, u: u128)
    requires
        !ids.contains(u),
    ensures
        forall|i: int|
            0 <= i < walk_groups(gs, names, ids, Some(u)).len() ==> {
                let n = #[trigger] walk_groups(gs, names, ids, Some(u))[i];
                &&& !n.path.uuids.drop_last().contains(u)
                &&& (n.kind == NodeKind::Group ==> n.uuid != u)
            },
    decreases gs,
{
    if gs.len() > 0 {
        lemma_walk_groups_skips(gs.drop_last(), names, ids, u);
        lemma_walk_group_skips(gs.last(), names, ids, u);
    }
}

proof fn lemma_walk_entries_under(es: Seq<Entry>, names: Seq<Seq<char>>, ids: Seq<u128>, u: u128)
    requires
        !ids.contains(u),
    ensures
        forall|i: int|
            0 <= i < walk_entries(es, names, ids).len() ==> {
                let n = #[trigger] walk_entries(es, names, ids)[i];
                &&& !n.path.uuids.drop_last().contains(u)
                &&& n.kind == NodeKind::Entry
            },
    decreases es.len(),
{
    if es.len() > 0 {
        lemma_walk_entries_under(es.drop_last(), names, ids, u);
        assert(ids.push(es.last().uuid).drop_last() =~= ids);
    }
}

proof fn lemma_insert_all_from(m: Map<u128, SpecLocatedNode>, s: Seq<SpecLocatedNode>, k: u128)
    requires
        insert_all(m, s).contains_key(k),
    ensures
        m.contains_key(k) && insert_all(m, s)[k] == m[k] || exists|i: int| 0 <= i < s.len() && insert_all(m, s)[k] == s[i],
    decreases s.len(),
{
    if s.len() > 0 {
        if k == s.last().uuid {
            assert(insert_all(m, s)[k] == s[s.len() - 1]);
        } else {
            lemma_insert_all_from(m, s.drop_last(), k);
            if !(m.contains_key(k) && insert_all(m, s.drop_last())[k] == m[k]) {
                let i = choose|i: int| 0 <= i < s.drop_last().len() && insert_all(m, s.drop_last())[k] == s.drop_last()[i];
                assert(insert_all(m, s)[k] == s[i]);
            }
        }
    }
}

/// With the recycle bin left out (the default), no walked node is the
/// recycle bin group or lies anywhere below it.
pub proof fn law_walk_hides_recycle_bin(db: Database, u: u128, k: u128)
    requires
        db.meta.recyclebin_uuid == Some(u),
        spec_tree_walk(db, false).contains_key(k),
    ensures
        !spec_tree_walk(db, false)[k].path.uuids.drop_last().contains(u),
        spec_tree_walk(db, false)[k].kind == NodeKind::Group ==> spec_tree_walk(db, false)[k].uuid != u,
{
    let s = walk_database(db, false);
    lemma_walk_group_skips(db.root, seq![], seq![], u);
    lemma_insert_all_from(Map::empty(), s, k);
    let i = choose|i: int| 0 <= i < s.len() && spec_tree_walk(db, false)[k] == s[i];
    assert(s[i] == walk_group(db.root, seq![], seq![], Some(u))[i]);
}

/// A field change that shows values only as hash prefixes.
pub open spec fn masked_only(f: SpecFieldChange) -> bool {
    match f {
        SpecFieldChange::Added { value, .. } => value is Masked,
        SpecFieldChange::Removed { value, .. } => value is Masked,
        SpecFieldChange::Modified { change, .. } => change.from is Masked && change.to is Masked,
        _ => true,
    }
}

/// Without `show_secrets`, a password never shows in plain text: every
/// change of the Password field carries only hash prefixes, whatever the
/// fields' protection flags say.
pub proof fn law_password_changes_masked(a: Entry, b: Entry)
    ensures
        forall|i: int|
            0 <= i < standard_change(a, b, "Password"@, true, false).len() ==> masked_only(
                #[trigger] standard_change(a, b, "Password"@, true, false)[i],
            ),
{
}

/// Without `show_secrets`, the dump shows a password as the hash prefix of
/// its NFC text.
pub proof fn law_dump_password_masked(e: Entry)
    ensures
        field_line(e, "Password"@, "password"@, true, false) == line(
            "  "@ + "password"@ + ": "@ + "<hash:"@ + hash_of_text(or_empty(e.value_of("Password"@))) + ">"@,
        ),
{
    assert(field_line(e, "Password"@, "password"@, true, false) =~= line(
        "  "@ + "password"@ + ": "@ + "<hash:"@ + hash_of_text(or_empty(e.value_of("Password"@))) + ">"@,
    ));
}

/// A field change that is reported: every change in strict mode, the
/// changes that are not noise otherwise.
pub open spec fn reported(f: SpecFieldChange, strict: bool) -> bool {
    strict || !spec_is_suppressible(f)
}

/// Some change of `s` is reported.
pub open spec fn any_reported(s: Seq<SpecFieldChange>, strict: bool) -> bool {
    exists|i: int| 0 <= i < s.len() && #[trigger] reported(s[i], strict)
}

proof fn lemma_any_reported_concat(s: Seq<SpecFieldChange>, t: Seq<SpecFieldChange>, st: bool)
    ensures
        any_reported(s + t, st) == (any_reported(s, st) || any_reported(t, st)),
{
    if any_reported(s + t, st) {
        let i = choose|i: int| 0 <= i < (s + t).len() && #[trigger] reported((s + t)[i], st);
        if i < s.len() {
            assert(reported(s[i], st));
        } else {
            assert(reported(t[i - s.len()], st));
        }
    }
    if any_reported(s, st) {
        let i = choose|i: int| 0 <= i < s.len() && #[trigger] reported(s[i], st);
        assert(reported((s + t)[i], st));
    }
    if any_reported(t, st) {
        let i = choose|i: int| 0 <= i < t.len() && #[trigger] reported(t[i], st);
        assert(reported((s + t)[s.len() + i], st));
    }
}

proof fn lemma_kept_nonempty(s: Seq<SpecFieldChange>)
    ensures
        (kept_changes(s).len() > 0) == any_reported(s, false),
    decreases s.len(),
{
    if s.len() > 0 {
        lemma_kept_nonempty(s.drop_last());
        lemma_any_reported_concat(s.drop_last(), seq![s.last()], false);
        assert(s =~= s.drop_last() + seq![s.last()]);
        if reported(s.last(), false) {
            assert(reported(seq![s.last()][0], false));
        }
        if any_reported(seq![s.last()], false) {
            let i = choose|i: int| 0 <= i < 1 && #[trigger] reported(seq![s.last()][i], false);
            assert(i == 0);
        }
    }
}

/// Reported changes of one entry pair exist exactly when its kept
/// field changes are not empty.
proof fn lemma_kept_fields_nonempty(a: Database, b: Database, k: u128, opts: DiffOptions)
    ensures
        (kept_fields(a, b, k, opts).len() > 0) == any_reported(
            raw_entry_diff(a, b, k, opts.show_secrets),
            opts.strict,
        ),
{
    let raw = raw_entry_diff(a, b, k, opts.show_secrets);
    if opts.strict {
        if raw.len() > 0 {
            assert(reported(raw[0], true));
        }
    } else {
        lemma_kept_nonempty(raw);
    }
}

proof fn lemma_reported_single(f: SpecFieldChange, st: bool)
    ensures
        any_reported(seq![f], st) == reported(f, st),
{
    if reported(f, st) {
        assert(reported(seq![f][0], st));
    }
}

proof fn lemma_noisy_names_not_standard()
    ensures
        !is_noisy_name("Title"@),
        !is_noisy_name("UserName"@),
        !is_noisy_name("Password"@),
        !is_noisy_name("URL"@),
        !is_noisy_name("Notes"@),
{
    reveal_strlit("Title");
    reveal_strlit("UserName");
    reveal_strlit("Password");
    reveal_strlit("URL");
    reveal_strlit("Notes");
    reveal_strlit("LastAccessTime");
    reveal_strlit("UsageCount");
    reveal_strlit("LocationChanged");
    assert("Title"@[0] != "LastAccessTime"@[0]);
    assert("UserName"@.len() != "UsageCount"@.len());
    assert("UserName"@.len() != "LastAccessTime"@.len());
    assert("UserName"@.len() != "LocationChanged"@.len());
    assert("Password"@[0] != "LastAccessTime"@[0]);
    assert("URL"@.len() != "UsageCount"@.len());
    assert("Notes"@[0] != "LastAccessTime"@[0]);
}

/// A field's change under `protected`: some change is reported exactly
/// when the values differ and, outside strict mode, the name is not noise.
proof fn lemma_change_for_reported(
    name: Seq<char>,
    av: Option<Seq<char>>,
    bv: Option<Seq<char>>,
    protected: bool,
    show: bool,
    st: bool,
)
    ensures
        any_reported(crate::fields::change_for(name, av, bv, protected, show), st) == (av != bv && (st
            || !is_noisy_name(name))),
{
    let c = crate::fields::change_for(name, av, bv, protected, show);
    if c.len() == 1 {
        lemma_reported_single(c[0], st);
        assert(c =~= seq![c[0]]);
    }
}

proof fn lemma_custom_over_reported(ks: Seq<Seq<char>>, x: Entry, y: Entry, show: bool, st: bool)
    ensures
        any_reported(custom_changes_over(ks, x, y, show), st) == exists|j: int|
            0 <= j < ks.len() && #[trigger] x.value_of(ks[j]) != y.value_of(ks[j]) && (st || !is_noisy_name(ks[j])),
    decreases ks.len(),
{
    if ks.len() > 0 {
        let r = ks.drop_last();
        lemma_custom_over_reported(r, x, y, show, st);
        lemma_any_reported_concat(custom_changes_over(r, x, y, show), custom_change(x, y, ks.last(), show), st);
        lemma_change_for_reported(
            ks.last(),
            x.value_of(ks.last()),
            y.value_of(ks.last()),
            x.protected_of(ks.last()) || y.protected_of(ks.last()),
            show,
            st,
        );
        let p = exists|j: int|
            0 <= j < ks.len() && #[trigger] x.value_of(ks[j]) != y.value_of(ks[j]) && (st || !is_noisy_name(ks[j]));
        if p {
            let j = choose|j: int|
                0 <= j < ks.len() && #[trigger] x.value_of(ks[j]) != y.value_of(ks[j]) && (st || !is_noisy_name(ks[j]));
            if j < r.len() {
                assert(r[j] == ks[j]);
            }
        }
        if exists|j: int|
            0 <= j < r.len() && #[trigger] x.value_of(r[j]) != y.value_of(r[j]) && (st || !is_noisy_name(r[j])) {
            let j = choose|j: int|
                0 <= j < r.len() && #[trigger] x.value_of(r[j]) != y.value_of(r[j]) && (st || !is_noisy_name(r[j]));
            assert(ks[j] == r[j]);
        }
        if x.value_of(ks.last()) != y.value_of(ks.last()) && (st || !is_noisy_name(ks.last())) {
            assert(ks[ks.len() - 1] == ks.last());
        }
    }
}

proof fn lemma_tag_over_reported(ks: Seq<Seq<char>>, added: bool, st: bool)
    ensures
        any_reported(tag_changes_over(ks, added), st) == (ks.len() > 0),
    decreases ks.len(),
{
    if ks.len() > 0 {
        lemma_tag_over_reported(ks.drop_last(), added, st);
        let last = if added {
            seq![SpecFieldChange::TagAdded { tag: ks.last() }]
        } else {
            seq![SpecFieldChange::TagRemoved { tag: ks.last() }]
        };
        lemma_any_reported_concat(tag_changes_over(ks.drop_last(), added), last, st);
        lemma_reported_single(last[0], st);
        assert(last =~= seq![last[0]]);
    }
}

proof fn lemma_attachment_over_reported(ks: Seq<Seq<char>>, x: Entry, y: Entry, st: bool)
    ensures
        any_reported(attachment_changes_over(ks, x, y), st) == exists|j: int|
            0 <= j < ks.len() && #[trigger] attachment_hash(x.attachments@, ks[j]) != attachment_hash(
                y.attachments@,
                ks[j],
            ),
    decreases ks.len(),
{
    if ks.len() > 0 {
        let r = ks.drop_last();
        let k = ks.last();
        lemma_attachment_over_reported(r, x, y, st);
        let c = attachment_change(x, y, k);
        lemma_any_reported_concat(attachment_changes_over(r, x, y), c, st);
        if c.len() == 1 {
            lemma_reported_single(c[0], st);
            assert(c =~= seq![c[0]]);
        }
        if exists|j: int|
            0 <= j < ks.len() && #[trigger] attachment_hash(x.attachments@, ks[j]) != attachment_hash(
                y.attachments@,
                ks[j],
            ) {
            let j = choose|j: int|
                0 <= j < ks.len() && #[trigger] attachment_hash(x.attachments@, ks[j]) != attachment_hash(
                    y.attachments@,
                    ks[j],
                );
            if j < r.len() {
                assert(r[j] == ks[j]);
            }
        }
        if exists|j: int|
            0 <= j < r.len() && #[trigger] attachment_hash(x.attachments@, r[j]) != attachment_hash(
                y.attachments@,
                r[j],
            ) {
            let j = choose|j: int|
                0 <= j < r.len() && #[trigger] attachment_hash(x.attachments@, r[j]) != attachment_hash(
                    y.attachments@,
                    r[j],
                );
            assert(ks[j] == r[j]);
        }
        if attachment_hash(x.attachments@, k) != attachment_hash(y.attachments@, k) {
            assert(ks[ks.len() - 1] == k);
        }
    }
}

/// What makes two entries show a reported change: a standard field
/// differs, a custom field (not noise, outside strict mode) differs, a
/// tag is only in one of them, an attachment differs, or the history
/// length differs.
pub open spec fn entries_differ(x: Entry, y: Entry, st: bool) -> bool {
    let std_names = seq!["Title"@, "UserName"@, "Password"@, "URL"@, "Notes"@];
    let cks = crate::text::sorted_listing(custom_field_names(x, y));
    let aks = crate::text::sorted_listing(attachment_names(x.attachments@).union(attachment_names(y.attachments@)));
    ||| exists|j: int| 0 <= j < 5 && #[trigger] x.value_of(std_names[j]) != y.value_of(std_names[j])
    ||| exists|j: int|
        0 <= j < cks.len() && #[trigger] x.value_of(cks[j]) != y.value_of(cks[j]) && (st || !is_noisy_name(cks[j]))
    ||| crate::text::sorted_listing(tag_set(y).difference(tag_set(x))).len() > 0
    ||| crate::text::sorted_listing(tag_set(x).difference(tag_set(y))).len() > 0
    ||| exists|j: int|
        0 <= j < aks.len() && #[trigger] attachment_hash(x.attachments@, aks[j]) != attachment_hash(
            y.attachments@,
            aks[j],
        )
    ||| x.history_len != y.history_len
}

proof fn lemma_field_diff_reported(x: Entry, y: Entry, show: bool, st: bool)
    ensures
        any_reported(spec_field_diff(x, y, show), st) == entries_differ(x, y, st),
{
    lemma_noisy_names_not_standard();
    let std_names = seq!["Title"@, "UserName"@, "Password"@, "URL"@, "Notes"@];
    let s1 = standard_change(x, y, "Title"@, false, show);
    let s2 = standard_change(x, y, "UserName"@, false, show);
    let s3 = standard_change(x, y, "Password"@, true, show);
    let s4 = standard_change(x, y, "URL"@, false, show);
    let s5 = standard_change(x, y, "Notes"@, false, show);
    lemma_change_for_reported("Title"@, x.value_of("Title"@), y.value_of("Title"@), x.protected_of("Title"@) || y.protected_of("Title"@), show, st);
    lemma_change_for_reported("UserName"@, x.value_of("UserName"@), y.value_of("UserName"@), x.protected_of("UserName"@) || y.protected_of("UserName"@), show, st);
    lemma_change_for_reported("Password"@, x.value_of("Password"@), y.value_of("Password"@), true, show, st);
    lemma_change_for_reported("URL"@, x.value_of("URL"@), y.value_of("URL"@), x.protected_of("URL"@) || y.protected_of("URL"@), show, st);
    lemma_change_for_reported("Notes"@, x.value_of("Notes"@), y.value_of("Notes"@), x.protected_of("Notes"@) || y.protected_of("Notes"@), show, st);
    lemma_any_reported_concat(s1, s2, st);
    lemma_any_reported_concat(s1 + s2, s3, st);
    lemma_any_reported_concat(s1 + s2 + s3, s4, st);
    lemma_any_reported_concat(s1 + s2 + s3 + s4, s5, st);
    let sd = standard_changes(x, y, show);
    assert(sd == s1 + s2 + s3 + s4 + s5);
    let stdp = exists|j: int| 0 <= j < 5 && #[trigger] x.value_of(std_names[j]) != y.value_of(std_names[j]);
    assert(any_reported(sd, st) == stdp) by {
        if stdp {
            let j = choose|j: int| 0 <= j < 5 && #[trigger] x.value_of(std_names[j]) != y.value_of(std_names[j]);
            assert(j == 0 || j == 1 || j == 2 || j == 3 || j == 4);
        }
        assert(x.value_of(std_names[0]) == x.value_of("Title"@));
        assert(x.value_of(std_names[1]) == x.value_of("UserName"@));
        assert(x.value_of(std_names[2]) == x.value_of("Password"@));
        assert(x.value_of(std_names[3]) == x.value_of("URL"@));
        assert(x.value_of(std_names[4]) == x.value_of("Notes"@));
        assert(y.value_of(std_names[0]) == y.value_of("Title"@));
        assert(y.value_of(std_names[1]) == y.value_of("UserName"@));
        assert(y.value_of(std_names[2]) == y.value_of("Password"@));
        assert(y.value_of(std_names[3]) == y.value_of("URL"@));
        assert(y.value_of(std_names[4]) == y.value_of("Notes"@));
    }
    let cks = crate::text::sorted_listing(custom_field_names(x, y));
    lemma_custom_over_reported(cks, x, y, show, st);
    let bt = crate::text::sorted_listing(tag_set(y).difference(tag_set(x)));
    let at = crate::text::sorted_listing(tag_set(x).difference(tag_set(y)));
    lemma_tag_over_reported(bt, true, st);
    lemma_tag_over_reported(at, false, st);
    lemma_any_reported_concat(tag_changes_over(bt, true), tag_changes_over(at, false), st);
    let aks = crate::text::sorted_listing(attachment_names(x.attachments@).union(attachment_names(y.attachments@)));
    lemma_attachment_over_reported(aks, x, y, st);
    let h = history_changes(x, y);
    if h.len() == 1 {
        lemma_reported_single(h[0], st);
        assert(h =~= seq![h[0]]);
    }
    let c = custom_changes(x, y, show);
    let t = tag_changes(x, y);
    let a = attachment_changes(x, y);
    lemma_any_reported_concat(sd, c, st);
    lemma_any_reported_concat(sd + c, t, st);
    lemma_any_reported_concat(sd + c + t, a, st);
    lemma_any_reported_concat(sd + c + t + a, h, st);
}

/// `entries_differ` does not depend on the order of the entries.
proof fn lemma_entries_differ_symmetric(x: Entry, y: Entry, st: bool)
    ensures
        entries_differ(x, y, st) == entries_differ(y, x, st),
{
    assert(custom_field_names(x, y) =~= custom_field_names(y, x));
    assert(attachment_names(x.attachments@).union(attachment_names(y.attachments@)) =~= attachment_names(
        y.attachments@,
    ).union(attachment_names(x.attachments@)));
    let std_names = seq!["Title"@, "UserName"@, "Password"@, "URL"@, "Notes"@];
    let cks = crate::text::sorted_listing(custom_field_names(x, y));
    let aks = crate::text::sorted_listing(attachment_names(x.attachments@).union(attachment_names(y.attachments@)));
    if exists|j: int| 0 <= j < 5 && #[trigger] x.value_of(std_names[j]) != y.value_of(std_names[j]) {
        let j = choose|j: int| 0 <= j < 5 && #[trigger] x.value_of(std_names[j]) != y.value_of(std_names[j]);
        assert(y.value_of(std_names[j]) != x.value_of(std_names[j]));
    }
    if exists|j: int| 0 <= j < 5 && #[trigger] y.value_of(std_names[j]) != x.value_of(std_names[j]) {
        let j = choose|j: int| 0 <= j < 5 && #[trigger] y.value_of(std_names[j]) != x.value_of(std_names[j]);
        assert(x.value_of(std_names[j]) != y.value_of(std_names[j]));
    }
    if exists|j: int|
        0 <= j < cks.len() && #[trigger] x.value_of(cks[j]) != y.value_of(cks[j]) && (st || !is_noisy_name(cks[j])) {
        let j = choose|j: int|
            0 <= j < cks.len() && #[trigger] x.value_of(cks[j]) != y.value_of(cks[j]) && (st || !is_noisy_name(cks[j]));
        assert(y.value_of(cks[j]) != x.value_of(cks[j]));
    }
    if exists|j: int|
        0 <= j < cks.len() && #[trigger] y.value_of(cks[j]) != x.value_of(cks[j]) && (st || !is_noisy_name(cks[j])) {
        let j = choose|j: int|
            0 <= j < cks.len() && #[trigger] y.value_of(cks[j]) != x.value_of(cks[j]) && (st || !is_noisy_name(cks[j]));
        assert(x.value_of(cks[j]) != y.value_of(cks[j]));
    }
    if exists|j: int|
        0 <= j < aks.len() && #[trigger] attachment_hash(x.attachments@, aks[j]) != attachment_hash(y.attachments@, aks[j]) {
        let j = choose|j: int|
            0 <= j < aks.len() && #[trigger] attachment_hash(x.attachments@, aks[j]) != attachment_hash(
                y.attachments@,
                aks[j],
            );
        assert(attachment_hash(y.attachments@, aks[j]) != attachment_hash(x.attachments@, aks[j]));
    }
    if exists|j: int|
        0 <= j < aks.len() && #[trigger] attachment_hash(y.attachments@, aks[j]) != attachment_hash(x.attachments@, aks[j]) {
        let j = choose|j: int|
            0 <= j < aks.len() && #[trigger] attachment_hash(y.attachments@, aks[j]) != attachment_hash(
                x.attachments@,
                aks[j],
            );
        assert(attachment_hash(x.attachments@, aks[j]) != attachment_hash(y.attachments@, aks[j]));
    }
}

/// Whether entry `k` is reported as modified does not depend on the order
/// of the vaults.
proof fn lemma_kept_fields_symmetric(a: Database, b: Database, k: u128, opts: DiffOptions)
    ensures
        (kept_fields(a, b, k, opts).len() > 0) == (kept_fields(b, a, k, opts).len() > 0),
{
    lemma_kept_fields_nonempty(a, b, k, opts);
    lemma_kept_fields_nonempty(b, a, k, opts);
    match (lookup_entry(a.root, k), lookup_entry(b.root, k)) {
        (Some(x), Some(y)) => {
            lemma_field_diff_reported(x, y, opts.show_secrets, opts.strict);
            lemma_field_diff_reported(y, x, opts.show_secrets, opts.strict);
            lemma_entries_differ_symmetric(x, y, opts.strict);
        },
        _ => {
            assert(!any_reported(Seq::<SpecFieldChange>::empty(), opts.strict));
        },
    }
}

/// No UUID whose path differs between the walked vaults is a group in
/// one and an entry in the other.
pub open spec fn moves_keep_kind(a: Database, b: Database, opts: DiffOptions) -> bool {
    forall|k: u128|
        #[trigger] walked(a, opts).contains_key(k) && walked(b, opts).contains_key(k) && walked(a, opts)[k].path
            != walked(b, opts)[k].path ==> walked(a, opts)[k].kind == walked(b, opts)[k].kind
}

/// Swapping the two vaults leaves the modified counts unchanged, as long
/// as no moved UUID changes between group and entry (moves count by the
/// node's kind in the first vault).
pub proof fn law_compute_swap_modified(a: Database, b: Database, opts: DiffOptions)
    requires
        moves_keep_kind(a, b, opts),
    ensures
        compute_summary(a, b, opts).entries_modified == compute_summary(b, a, opts).entries_modified,
        compute_summary(a, b, opts).groups_modified == compute_summary(b, a, opts).groups_modified,
{
    let ma = walked(a, opts);
    let mb = walked(b, opts);
    assert(moved_keys(ma, mb) =~= moved_keys(mb, ma));
    let mv = moved_keys(ma, mb);
    assert(of_kind(mv, ma, NodeKind::Entry) =~= of_kind(mv, mb, NodeKind::Entry));
    assert(of_kind(mv, ma, NodeKind::Group) =~= of_kind(mv, mb, NodeKind::Group));
    assert(same_path_entries(ma, mb) =~= same_path_entries(mb, ma));
    assert forall|k: u128| modified_keys(a, b, opts).contains(k) <==> modified_keys(b, a, opts).contains(k) by {
        lemma_kept_fields_symmetric(a, b, k, opts);
    }
    assert(modified_keys(a, b, opts) =~= modified_keys(b, a, opts));
}

proof fn lemma_insert_all_finite(m: Map<u128, SpecLocatedNode>, s: Seq<SpecLocatedNode>)
    requires
        m.dom().finite(),
    ensures
        insert_all(m, s).dom().finite(),
    decreases s.len(),
{
    if s.len() > 0 {
        lemma_insert_all_finite(m, s.drop_last());
    }
}

proof fn lemma_walked_finite(db: Database, opts: DiffOptions)
    ensures
        walked(db, opts).dom().finite(),
{
    lemma_insert_all_finite(Map::empty(), walk_database(db, opts.include_recycle_bin));
}

/// A set of changes that is the image of a finite key set under a
/// function that keeps the key has as many elements as the key set.
proof fn lemma_count_image(keys: Set<u128>, f: spec_fn(u128) -> SpecChange, part: Set<SpecChange>)
    requires
        keys.finite(),
        forall|k: u128| #[trigger] change_uuid(f(k)) == k,
        part == keys.map(f),
    ensures
        part.len() == keys.len(),
{
    assert(vstd::relations::injective_on(f, keys)) by {
        assert forall|x1: u128, x2: u128| keys.contains(x1) && keys.contains(x2) && #[trigger] f(x1) == #[trigger] f(x2)
            implies x1 == x2 by {
            assert(change_uuid(f(x1)) == x1);
            assert(change_uuid(f(x2)) == x2);
        }
    }
    vstd::set_lib::lemma_map_size(keys, part, f);
}

/// Membership in the image of a key set under a function.
proof fn lemma_in_image(keys: Set<u128>, f: spec_fn(u128) -> SpecChange, c: SpecChange) -> (k: u128)
    requires
        keys.map(f).contains(c),
    ensures
        keys.contains(k),
        f(k) == c,
{
    choose|k: u128| keys.contains(k) && f(k) == c
}

/// The union of four key-set images, filtered by `p`, is the image of
/// `target` under the `t`-th function when `p` picks out exactly the
/// images of `target`.
proof fn lemma_filter_image(
    ks: Seq<Set<u128>>,
    fs: Seq<spec_fn(u128) -> SpecChange>,
    p: spec_fn(SpecChange) -> bool,
    t: int,
    target: Set<u128>,
)
    requires
        ks.len() == 4,
        fs.len() == 4,
        0 <= t < 4,
        target.subset_of(ks[t]),
        forall|i: int, k: u128|
            0 <= i < 4 && #[trigger] ks[i].contains(k) ==> (p((fs[i])(k)) <==> (i == t && target.contains(k))),
    ensures
        (ks[0].map(fs[0]) + ks[1].map(fs[1]) + ks[2].map(fs[2]) + ks[3].map(fs[3])).filter(p) == target.map(fs[t]),
{
    let all = ks[0].map(fs[0]) + ks[1].map(fs[1]) + ks[2].map(fs[2]) + ks[3].map(fs[3]);
    assert forall|c: SpecChange| all.filter(p).contains(c) <==> target.map(fs[t]).contains(c) by {
        if all.contains(c) && p(c) {
            let i: int = if ks[0].map(fs[0]).contains(c) {
                0
            } else if ks[1].map(fs[1]).contains(c) {
                1
            } else if ks[2].map(fs[2]).contains(c) {
                2
            } else {
                3
            };
            let k = lemma_in_image(ks[i], fs[i], c);
            assert(ks[i].contains(k));
            assert(target.contains(k));
            assert(target.map(fs[t]).contains((fs[t])(k)));
        }
        if target.map(fs[t]).contains(c) {
            let k = lemma_in_image(target, fs[t], c);
            assert(ks[t].contains(k));
            assert(ks[t].map(fs[t]).contains(c));
        }
    }
    assert(all.filter(p) =~= target.map(fs[t]));
}

proof fn lemma_counts_added_removed(a: Database, b: Database, opts: DiffOptions)
    ensures
        ({
            let cs = node_changes(a, b, opts);
            let s = compute_summary(a, b, opts);
            &&& s.entries_added == cs.filter(|c: SpecChange| is_entry_added(c)).len() as usize
            &&& s.entries_removed == cs.filter(|c: SpecChange| is_entry_removed(c)).len() as usize
            &&& s.groups_added == cs.filter(|c: SpecChange| is_group_added(c)).len() as usize
            &&& s.groups_removed == cs.filter(|c: SpecChange| is_group_removed(c)).len() as usize
        }),
{
    let ma = walked(a, opts);
    let mb = walked(b, opts);
    lemma_walked_finite(a, opts);
    lemma_walked_finite(b, opts);
    let cs = node_changes(a, b, opts);
    let f1 = |k: u128| presence_change(k, mb[k], true);
    let f2 = |k: u128| presence_change(k, ma[k], false);
    let f3 = |k: u128| moved_change(k, ma[k], mb[k]);
    let f4 = |k: u128| modified_change(k, ma[k], kept_fields(a, b, k, opts));
    let added = added_keys(ma, mb);
    let removed = removed_keys(ma, mb);
    let moved = moved_keys(ma, mb);
    let modk = modified_keys(a, b, opts);
    let ks = seq![added, removed, moved, modk];
    let fs = seq![f1, f2, f3, f4];
    assert(cs == ks[0].map(fs[0]) + ks[1].map(fs[1]) + ks[2].map(fs[2]) + ks[3].map(fs[3]));
    assert(added.subset_of(mb.dom()));
    assert(removed.subset_of(ma.dom()));
    assert(moved.subset_of(ma.dom()));
    assert(modk.subset_of(ma.dom()));
    vstd::set_lib::lemma_set_subset_finite(mb.dom(), added);
    vstd::set_lib::lemma_set_subset_finite(ma.dom(), removed);
    vstd::set_lib::lemma_set_subset_finite(ma.dom(), moved);
    vstd::set_lib::lemma_set_subset_finite(ma.dom(), modk);
    let ea = of_kind(added, mb, NodeKind::Entry);
    assert(cs.filter(|c: SpecChange| is_entry_added(c)).len() == ea.len()) by {
        lemma_filter_image(ks, fs, |c: SpecChange| is_entry_added(c), 0, ea);
        vstd::set_lib::lemma_set_subset_finite(added, ea);
        lemma_count_image(ea, f1, cs.filter(|c: SpecChange| is_entry_added(c)));
    }
    let ga = of_kind(added, mb, NodeKind::Group);
    assert(cs.filter(|c: SpecChange| is_group_added(c)).len() == ga.len()) by {
        lemma_filter_image(ks, fs, |c: SpecChange| is_group_added(c), 0, ga);
        vstd::set_lib::lemma_set_subset_finite(added, ga);
        lemma_count_image(ga, f1, cs.filter(|c: SpecChange| is_group_added(c)));
    }
    let er = of_kind(removed, ma, NodeKind::Entry);
    assert(cs.filter(|c: SpecChange| is_entry_removed(c)).len() == er.len()) by {
        lemma_filter_image(ks, fs, |c: SpecChange| is_entry_removed(c), 1, er);
        vstd::set_lib::lemma_set_subset_finite(removed, er);
        lemma_count_image(er, f2, cs.filter(|c: SpecChange| is_entry_removed(c)));
    }
    let gr = of_kind(removed, ma, NodeKind::Group);
    assert(cs.filter(|c: SpecChange| is_group_removed(c)).len() == gr.len()) by {
        lemma_filter_image(ks, fs, |c: SpecChange| is_group_removed(c), 1, gr);
        vstd::set_lib::lemma_set_subset_finite(removed, gr);
        lemma_count_image(gr, f2, cs.filter(|c: SpecChange| is_group_removed(c)));
    }
}

proof fn lemma_counts_moved_modified(a: Database, b: Database, opts: DiffOptions)
    ensures
        ({
            let cs = node_changes(a, b, opts);
            let s = compute_summary(a, b, opts);
            &&& s.groups_modified == cs.filter(|c: SpecChange| is_group_moved(c)).len() as usize
            &&& s.entries_modified == (cs.filter(|c: SpecChange| is_entry_moved(c)).len() + cs.filter(
                |c: SpecChange| is_entry_modified(c),
            ).len()) as usize
        }),
{
    let ma = walked(a, opts);
    let mb = walked(b, opts);
    lemma_walked_finite(a, opts);
    lemma_walked_finite(b, opts);
    let cs = node_changes(a, b, opts);
    let f1 = |k: u128| presence_change(k, mb[k], true);
    let f2 = |k: u128| presence_change(k, ma[k], false);
    let f3 = |k: u128| moved_change(k, ma[k], mb[k]);
    let f4 = |k: u128| modified_change(k, ma[k], kept_fields(a, b, k, opts));
    let added = added_keys(ma, mb);
    let removed = removed_keys(ma, mb);
    let moved = moved_keys(ma, mb);
    let modk = modified_keys(a, b, opts);
    let ks = seq![added, removed, moved, modk];
    let fs = seq![f1, f2, f3, f4];
    assert(cs == ks[0].map(fs[0]) + ks[1].map(fs[1]) + ks[2].map(fs[2]) + ks[3].map(fs[3]));
    assert(added.subset_of(mb.dom()));
    assert(removed.subset_of(ma.dom()));
    assert(moved.subset_of(ma.dom()));
    assert(modk.subset_of(ma.dom()));
    vstd::set_lib::lemma_set_subset_finite(mb.dom(), added);
    vstd::set_lib::lemma_set_subset_finite(ma.dom(), removed);
    vstd::set_lib::lemma_set_subset_finite(ma.dom(), moved);
    vstd::set_lib::lemma_set_subset_finite(ma.dom(), modk);
    let gm = of_kind(moved, ma, NodeKind::Group);
    assert(cs.filter(|c: SpecChange| is_group_moved(c)).len() == gm.len()) by {
        lemma_filter_image(ks, fs, |c: SpecChange| is_group_moved(c), 2, gm);
        vstd::set_lib::lemma_set_subset_finite(moved, gm);
        lemma_count_image(gm, f3, cs.filter(|c: SpecChange| is_group_moved(c)));
    }
    let em = of_kind(moved, ma, NodeKind::Entry);
    assert(cs.filter(|c: SpecChange| is_entry_moved(c)).len() == em.len()) by {
        lemma_filter_image(ks, fs, |c: SpecChange| is_entry_moved(c), 2, em);
        vstd::set_lib::lemma_set_subset_finite(moved, em);
        lemma_count_image(em, f3, cs.filter(|c: SpecChange| is_entry_moved(c)));
    }
    assert(cs.filter(|c: SpecChange| is_entry_modified(c)).len() == modk.len()) by {
        lemma_filter_image(ks, fs, |c: SpecChange| is_entry_modified(c), 3, modk);
        lemma_count_image(modk, f4, cs.filter(|c: SpecChange| is_entry_modified(c)));
    }
}

proof fn lemma_modified_changes_nonempty(a: Database, b: Database, opts: DiffOptions)
    ensures
        forall|c: SpecChange|
            node_changes(a, b, opts).contains(c) && is_entry_modified(c) ==> (c->Entry_kind)->Modified_fields.len()
                > 0,
{
    let ma = walked(a, opts);
    let mb = walked(b, opts);
    lemma_walked_finite(a, opts);
    lemma_walked_finite(b, opts);
    let cs = node_changes(a, b, opts);
    let f1 = |k: u128| presence_change(k, mb[k], true);
    let f2 = |k: u128| presence_change(k, ma[k], false);
    let f3 = |k: u128| moved_change(k, ma[k], mb[k]);
    let f4 = |k: u128| modified_change(k, ma[k], kept_fields(a, b, k, opts));
    let added = added_keys(ma, mb);
    let removed = removed_keys(ma, mb);
    let moved = moved_keys(ma, mb);
    let modk = modified_keys(a, b, opts);
    let ks = seq![added, removed, moved, modk];
    let fs = seq![f1, f2, f3, f4];
    assert(cs == ks[0].map(fs[0]) + ks[1].map(fs[1]) + ks[2].map(fs[2]) + ks[3].map(fs[3]));
    assert(added.subset_of(mb.dom()));
    assert(removed.subset_of(ma.dom()));
    assert(moved.subset_of(ma.dom()));
    assert(modk.subset_of(ma.dom()));
    vstd::set_lib::lemma_set_subset_finite(mb.dom(), added);
    vstd::set_lib::lemma_set_subset_finite(ma.dom(), removed);
    vstd::set_lib::lemma_set_subset_finite(ma.dom(), moved);
    vstd::set_lib::lemma_set_subset_finite(ma.dom(), modk);
    assert forall|c: SpecChange| cs.contains(c) && is_entry_modified(c) implies (c->Entry_kind)->Modified_fields.len()
        > 0 by {
        if ks[3].map(fs[3]).contains(c) {
            let k = lemma_in_image(modk, f4, c);
        } else if ks[0].map(fs[0]).contains(c) {
            let k = lemma_in_image(added, f1, c);
        } else if ks[1].map(fs[1]).contains(c) {
            let k = lemma_in_image(removed, f2, c);
        } else {
            let k = lemma_in_image(moved, f3, c);
        }
    }
}

proof fn lemma_fields_total(a: Database, b: Database, opts: DiffOptions)
    ensures
        compute_summary(a, b, opts).fields_changed == cap(
            set_sum(node_changes(a, b, opts).filter(|c: SpecChange| is_entry_modified(c)), |c: SpecChange| field_count(c))
                as int,
        ),
{
    let ma = walked(a, opts);
    let mb = walked(b, opts);
    lemma_walked_finite(a, opts);
    lemma_walked_finite(b, opts);
    let cs = node_changes(a, b, opts);
    let f1 = |k: u128| presence_change(k, mb[k], true);
    let f2 = |k: u128| presence_change(k, ma[k], false);
    let f3 = |k: u128| moved_change(k, ma[k], mb[k]);
    let f4 = |k: u128| modified_change(k, ma[k], kept_fields(a, b, k, opts));
    let added = added_keys(ma, mb);
    let removed = removed_keys(ma, mb);
    let moved = moved_keys(ma, mb);
    let modk = modified_keys(a, b, opts);
    let ks = seq![added, removed, moved, modk];
    let fs = seq![f1, f2, f3, f4];
    assert(cs == ks[0].map(fs[0]) + ks[1].map(fs[1]) + ks[2].map(fs[2]) + ks[3].map(fs[3]));
    assert(added.subset_of(mb.dom()));
    assert(removed.subset_of(ma.dom()));
    assert(moved.subset_of(ma.dom()));
    assert(modk.subset_of(ma.dom()));
    vstd::set_lib::lemma_set_subset_finite(mb.dom(), added);
    vstd::set_lib::lemma_set_subset_finite(ma.dom(), removed);
    vstd::set_lib::lemma_set_subset_finite(ma.dom(), moved);
    vstd::set_lib::lemma_set_subset_finite(ma.dom(), modk);
    lemma_filter_image(ks, fs, |c: SpecChange| is_entry_modified(c), 3, modk);
    assert(vstd::relations::injective_on(f4, modk)) by {
        assert forall|x1: u128, x2: u128| modk.contains(x1) && modk.contains(x2) && #[trigger] f4(x1) == #[trigger] f4(x2)
            implies x1 == x2 by {
            assert(change_uuid(f4(x1)) == x1);
            assert(change_uuid(f4(x2)) == x2);
        }
    }
    let g = |c: SpecChange| field_count(c);
    let h = |k: u128| kept_fields(a, b, k, opts).len();
    lemma_set_sum_image(modk, f4, g, h);
}

/// The summary counts the changes that `compute` lists: each added,
/// removed and moved count is the number of such changes, the modified
/// entry count is the number of moved plus modified entries, every
/// modified entry carries at least one field change, the field count is
/// the number of field changes the modified entries carry (saturating at
/// `usize::MAX`), and the metadata count is the number of
/// database-level changes.
pub proof fn law_summary_counts_changes(a: Database, b: Database, opts: DiffOptions)
    ensures
        ({
            let cs = node_changes(a, b, opts);
            let s = compute_summary(a, b, opts);
            &&& s.entries_added == cs.filter(|c: SpecChange| is_entry_added(c)).len() as usize
            &&& s.entries_removed == cs.filter(|c: SpecChange| is_entry_removed(c)).len() as usize
            &&& s.groups_added == cs.filter(|c: SpecChange| is_group_added(c)).len() as usize
            &&& s.groups_removed == cs.filter(|c: SpecChange| is_group_removed(c)).len() as usize
            &&& s.groups_modified == cs.filter(|c: SpecChange| is_group_moved(c)).len() as usize
            &&& s.entries_modified == (cs.filter(|c: SpecChange| is_entry_moved(c)).len() + cs.filter(
                |c: SpecChange| is_entry_modified(c),
            ).len()) as usize
            &&& forall|c: SpecChange|
                cs.contains(c) && is_entry_modified(c) ==> (c->Entry_kind)->Modified_fields.len() > 0
            &&& s.metadata_changed == database_changes(a, b).len() as usize
            &&& s.fields_changed == cap(
                set_sum(cs.filter(|c: SpecChange| is_entry_modified(c)), |c: SpecChange| field_count(c)) as int,
            )
        }),
{
    lemma_fields_total(a, b, opts);
    lemma_counts_added_removed(a, b, opts);
    lemma_counts_moved_modified(a, b, opts);
    lemma_modified_changes_nonempty(a, b, opts);
}

proof fn lemma_filter_all<T>(s: Seq<T>, p: spec_fn(T) -> bool)
    requires
        forall|i: int| 0 <= i < s.len() ==> #[trigger] p(s[i]),
    ensures
        s.filter(p) == s,
    decreases s.len(),
{
    reveal(Seq::filter);
    if s.len() > 0 {
        lemma_filter_all(s.drop_last(), p);
        assert(s.drop_last().push(s.last()) =~= s);
    }
}

proof fn lemma_filter_none<T>(s: Seq<T>, p: spec_fn(T) -> bool)
    requires
        forall|i: int| 0 <= i < s.len() ==> !#[trigger] p(s[i]),
    ensures
        s.filter(p) == Seq::<T>::empty(),
{
    s.lemma_all_neg_filter_empty(p);
    assert(s.filter(p) =~= Seq::<T>::empty());
}

/// The changes of a strictly sorted list are pairwise distinct.
proof fn lemma_sorted_changes_distinct(s: Seq<SpecChange>)
    requires
        crate::text::sorted_by(s, |x: SpecChange, y: SpecChange| change_lt(x, y)),
    ensures
        s.no_duplicates(),
{
    lemma_change_lt_strict_order();
    let lt = |x: SpecChange, y: SpecChange| change_lt(x, y);
    assert forall|i: int, j: int| 0 <= i < s.len() && 0 <= j < s.len() && i != j implies s[i] != s[j] by {
        if i < j {
            assert(lt(s[i], s[j]));
        } else {
            assert(lt(s[j], s[i]));
        }
        if s[i] == s[j] {
            assert(lt(s[i], s[i]));
        }
    }
}

/// Every database-level change is one.
proof fn lemma_database_changes_are_database(a: Database, b: Database)
    ensures
        forall|i: int| 0 <= i < database_changes(a, b).len() ==> is_database_change(#[trigger] database_changes(a, b)[i]),
{
}

/// The node changes hold no database-level change.
proof fn lemma_node_changes_not_database(a: Database, b: Database, opts: DiffOptions)
    ensures
        forall|c: SpecChange| #[trigger] node_changes(a, b, opts).contains(c) ==> !is_database_change(c),
{
    let ma = walked(a, opts);
    let mb = walked(b, opts);
    let f1 = |k: u128| presence_change(k, mb[k], true);
    let f2 = |k: u128| presence_change(k, ma[k], false);
    let f3 = |k: u128| moved_change(k, ma[k], mb[k]);
    let f4 = |k: u128| modified_change(k, ma[k], kept_fields(a, b, k, opts));
    let added = added_keys(ma, mb);
    let removed = removed_keys(ma, mb);
    let moved = moved_keys(ma, mb);
    let modk = modified_keys(a, b, opts);
    assert forall|c: SpecChange| #[trigger] node_changes(a, b, opts).contains(c) implies !is_database_change(c) by {
        if added.map(f1).contains(c) {
            let k = lemma_in_image(added, f1, c);
        } else if removed.map(f2).contains(c) {
            let k = lemma_in_image(removed, f2, c);
        } else if moved.map(f3).contains(c) {
            let k = lemma_in_image(moved, f3, c);
        } else {
            let k = lemma_in_image(modk, f4, c);
        }
    }
}

/// Counting by `p` over database changes followed by a listing of a set:
/// the database changes never pass, so the count is that of the set.
proof fn lemma_count_in_listing(db: Seq<SpecChange>, srt: Seq<SpecChange>, p: spec_fn(SpecChange) -> bool)
    requires
        srt.no_duplicates(),
        forall|i: int| 0 <= i < db.len() ==> !#[trigger] p(db[i]),
    ensures
        (db + srt).filter(p).len() == srt.to_set().filter(p).len(),
{
    Seq::filter_distributes_over_add(db, srt, p);
    lemma_filter_none(db, p);
    lemma_filter_unique(srt, p);
    srt.filter(p).unique_seq_to_set();
    assert((db + srt).filter(p) =~= srt.filter(p));
}

/// The summary counts the changes in the order `compute` lists them:
/// database changes, then the node changes sorted. Each count is the
/// number of listed changes of its kind, every listed modified entry
/// carries a field change, and the field count is the sum of the field
/// changes listed (saturating at `usize::MAX`).
pub proof fn law_listed_counts(a: Database, b: Database, opts: DiffOptions, srt: Seq<SpecChange>)
    requires
        crate::text::sorted_by(srt, |x: SpecChange, y: SpecChange| change_lt(x, y)),
        srt.to_set() == node_changes(a, b, opts),
    ensures
        counts_listed(compute_summary(a, b, opts), database_changes(a, b) + srt),
{
    let db = database_changes(a, b);
    let cs = node_changes(a, b, opts);
    let l = db + srt;
    law_summary_counts_changes(a, b, opts);
    lemma_sorted_changes_distinct(srt);
    lemma_database_changes_are_database(a, b);
    lemma_node_changes_not_database(a, b, opts);
    lemma_count_in_listing(db, srt, |c: SpecChange| is_entry_added(c));
    lemma_count_in_listing(db, srt, |c: SpecChange| is_entry_removed(c));
    lemma_count_in_listing(db, srt, |c: SpecChange| is_group_added(c));
    lemma_count_in_listing(db, srt, |c: SpecChange| is_group_removed(c));
    lemma_count_in_listing(db, srt, |c: SpecChange| is_group_moved(c));
    lemma_count_in_listing(db, srt, |c: SpecChange| is_entry_moved(c));
    lemma_count_in_listing(db, srt, |c: SpecChange| is_entry_modified(c));
    assert(l.filter(|c: SpecChange| is_database_change(c)).len() == db.len()) by {
        let p = |c: SpecChange| is_database_change(c);
        Seq::filter_distributes_over_add(db, srt, p);
        lemma_filter_all(db, p);
        assert forall|i: int| 0 <= i < srt.len() implies !#[trigger] p(srt[i]) by {
            assert(srt.to_set().contains(srt[i]));
        }
        lemma_filter_none(srt, p);
        assert(l.filter(p) =~= db);
    }
    assert(seq_sum(l, |c: SpecChange| field_count(c)) == set_sum(
        cs.filter(|c: SpecChange| is_entry_modified(c)),
        |c: SpecChange| field_count(c),
    )) by {
        let p = |c: SpecChange| is_entry_modified(c);
        let f = |c: SpecChange| field_count(c);
        lemma_seq_sum_append(db, srt, f);
        lemma_seq_sum_filter(db, p, f);
        lemma_filter_none(db, p);
        lemma_seq_sum_filter(srt, p, f);
        lemma_filter_unique(srt, p);
        lemma_set_sum(srt.filter(p), f);
    }
    assert forall|i: int| 0 <= i < l.len() && is_entry_modified(#[trigger] l[i]) implies (l[i]->Entry_kind)->Modified_fields.len()
        > 0 by {
        if i < db.len() {
            assert(is_database_change(db[i]));
        } else {
            assert(l[i] == srt[i - db.len()]);
            assert(srt.to_set().contains(srt[i - db.len()]));
        }
    }
}

/// The database-level changes of a diff report what differs in the two
/// vaults' metadata, from the first vault to the second: a name change
/// (first) carries the first vault's name as `from` and the second's as
/// `to`, each empty where the vault has none; a color change and a
/// recycle-bin change likewise carry the first vault's value as `from`.
/// Nothing else is reported at that level, and nothing when the vaults
/// agree.
pub proof fn law_database_changes_direction(a: Database, b: Database)
    ensures
        ({
            let d = database_changes(a, b);
            let name_a = match a.meta.database_name {
                Some(n) => n@,
                None => Seq::<char>::empty(),
            };
            let name_b = match b.meta.database_name {
                Some(n) => n@,
                None => Seq::<char>::empty(),
            };
            &&& opt_view(a.meta.database_name) != opt_view(b.meta.database_name) ==> d.len() > 0 && d[0]
                == SpecChange::Database(SpecDatabaseChange::NameChanged { from: name_a, to: name_b })
            &&& opt_view(a.meta.color) != opt_view(b.meta.color) ==> d.contains(
                SpecChange::Database(
                    SpecDatabaseChange::ColorChanged { from: opt_view(a.meta.color), to: opt_view(b.meta.color) },
                ),
            )
            &&& a.meta.recyclebin_uuid != b.meta.recyclebin_uuid ==> d.contains(
                SpecChange::Database(
                    SpecDatabaseChange::RecycleBinChanged {
                        from: a.meta.recyclebin_uuid,
                        to: b.meta.recyclebin_uuid,
                    },
                ),
            )
            &&& forall|i: int|
                0 <= i < d.len() ==> match #[trigger] d[i] {
                    SpecChange::Database(SpecDatabaseChange::NameChanged { from, to }) => from == name_a && to
                        == name_b && opt_view(a.meta.database_name) != opt_view(b.meta.database_name),
                    SpecChange::Database(SpecDatabaseChange::ColorChanged { from, to }) => from == opt_view(
                        a.meta.color,
                    ) && to == opt_view(b.meta.color) && from != to,
                    SpecChange::Database(SpecDatabaseChange::RecycleBinChanged { from, to }) => from
                        == a.meta.recyclebin_uuid && to == b.meta.recyclebin_uuid && from != to,
                    _ => false,
                }
            &&& opt_view(a.meta.database_name) == opt_view(b.meta.database_name) && opt_view(a.meta.color)
                == opt_view(b.meta.color) && a.meta.recyclebin_uuid == b.meta.recyclebin_uuid ==> d.len() == 0
        }),
{
    let d = database_changes(a, b);
    let n = if opt_view(a.meta.database_name) != opt_view(b.meta.database_name) { 1int } else { 0int };
    let c = if opt_view(a.meta.color) != opt_view(b.meta.color) { 1int } else { 0int };
    let r = if a.meta.recyclebin_uuid != b.meta.recyclebin_uuid { 1int } else { 0int };
    assert(d.len() == n + c + r);
    if c == 1 {
        assert(d[n] == SpecChange::Database(
            SpecDatabaseChange::ColorChanged { from: opt_view(a.meta.color), to: opt_view(b.meta.color) },
        ));
    }
    if r == 1 {
        assert(d[n + c] == SpecChange::Database(
            SpecDatabaseChange::RecycleBinChanged { from: a.meta.recyclebin_uuid, to: b.meta.recyclebin_uuid },
        ));
    }
}

/// How a field value is shown in a diff: as its hash prefix when the
/// field is protected and secrets are hidden, as the value itself
/// otherwise.
pub open spec fn shown(v: Seq<char>, protected: bool, show: bool) -> SpecValueDisplay {
    if protected && !show {
        SpecValueDisplay::Masked { hash: hash_of_text(v) }
    } else {
        SpecValueDisplay::Plain { value: v }
    }
}

/// Whether a field counts as protected when two entries are compared: the
/// password always, any other field when either entry marks it protected.
pub open spec fn name_protected(x: Entry, y: Entry, n: Seq<char>) -> bool {
    n == "Password"@ || x.protected_of(n) || y.protected_of(n)
}

/// A field change agrees with the entries `x` (first) and `y` (second):
/// an added field is missing from `x` and carries `y`'s value; a removed
/// field is missing from `y` and carries `x`'s value; a modified field is
/// in both with different values and goes from `x`'s value to `y`'s
/// (values shown as `shown` says); an added tag is only on `y`, a removed
/// one only on `x`; an attachment change carries the content hashes of
/// the attachment of that name in `x` and `y`; history growth is the
/// difference of the history lengths, a shrink is reported as a rewrite
/// from `x`'s length to `y`'s.
pub open spec fn field_change_sound(f: SpecFieldChange, x: Entry, y: Entry, show: bool) -> bool {
    match f {
        SpecFieldChange::Added { name, value } => x.value_of(name) is None && match y.value_of(name) {
            Some(v) => value == shown(v, name_protected(x, y, name), show),
            None => false,
        },
        SpecFieldChange::Removed { name, value } => y.value_of(name) is None && match x.value_of(name) {
            Some(u) => value == shown(u, name_protected(x, y, name), show),
            None => false,
        },
        SpecFieldChange::Modified { name, change } => match (x.value_of(name), y.value_of(name)) {
            (Some(u), Some(v)) => u != v && change.from == shown(u, name_protected(x, y, name), show) && change.to
                == shown(v, name_protected(x, y, name), show),
            _ => false,
        },
        SpecFieldChange::TagAdded { tag } => tag_set(y).contains(tag) && !tag_set(x).contains(tag),
        SpecFieldChange::TagRemoved { tag } => tag_set(x).contains(tag) && !tag_set(y).contains(tag),
        SpecFieldChange::AttachmentAdded { name, hash } => attachment_hash(x.attachments@, name) is None
            && attachment_hash(y.attachments@, name) == Some(hash),
        SpecFieldChange::AttachmentRemoved { name, hash } => attachment_hash(x.attachments@, name) == Some(hash)
            && attachment_hash(y.attachments@, name) is None,
        SpecFieldChange::AttachmentModified { name, from_hash, to_hash } => from_hash != to_hash && attachment_hash(
            x.attachments@,
            name,
        ) == Some(from_hash) && attachment_hash(y.attachments@, name) == Some(to_hash),
        SpecFieldChange::HistoryGrew { added } => x.history_len < y.history_len && added == y.history_len
            - x.history_len,
        SpecFieldChange::HistoryRewritten { from_len, to_len } => from_len == x.history_len && to_len
            == y.history_len && to_len < from_len,
    }
}

/// Every change of `s` agrees with `x` and `y`.
pub open spec fn all_sound(s: Seq<SpecFieldChange>, x: Entry, y: Entry, show: bool) -> bool {
    forall|i: int| 0 <= i < s.len() ==> field_change_sound(#[trigger] s[i], x, y, show)
}

proof fn lemma_all_sound_concat(s: Seq<SpecFieldChange>, t: Seq<SpecFieldChange>, x: Entry, y: Entry, show: bool)
    requires
        all_sound(s, x, y, show),
        all_sound(t, x, y, show),
    ensures
        all_sound(s + t, x, y, show),
{
    assert forall|i: int| 0 <= i < (s + t).len() implies field_change_sound(#[trigger] (s + t)[i], x, y, show) by {
        if i < s.len() {
            assert((s + t)[i] == s[i]);
        } else {
            assert((s + t)[i] == t[i - s.len()]);
        }
    }
}

proof fn lemma_change_for_sound(n: Seq<char>, x: Entry, y: Entry, protected: bool, show: bool)
    requires
        protected == name_protected(x, y, n),
    ensures
        all_sound(crate::fields::change_for(n, x.value_of(n), y.value_of(n), protected, show), x, y, show),
{
    let c = crate::fields::change_for(n, x.value_of(n), y.value_of(n), protected, show);
    assert forall|i: int| 0 <= i < c.len() implies field_change_sound(#[trigger] c[i], x, y, show) by {
        assert(i == 0);
    }
}

proof fn lemma_standard_names_distinct()
    ensures
        "Title"@ != "Password"@,
        "UserName"@ != "Password"@,
        "URL"@ != "Password"@,
        "Notes"@ != "Password"@,
        is_standard_name("Title"@),
        is_standard_name("UserName"@),
        is_standard_name("Password"@),
        is_standard_name("URL"@),
        is_standard_name("Notes"@),
{
    reveal_strlit("Title");
    reveal_strlit("UserName");
    reveal_strlit("Password");
    reveal_strlit("URL");
    reveal_strlit("Notes");
    assert("Title"@.len() != "Password"@.len());
    assert("UserName"@[0] != "Password"@[0]);
    assert("URL"@.len() != "Password"@.len());
    assert("Notes"@.len() != "Password"@.len());
}

proof fn lemma_custom_over_sound(ks: Seq<Seq<char>>, x: Entry, y: Entry, show: bool)
    requires
        forall|i: int| 0 <= i < ks.len() ==> #[trigger] ks[i] != "Password"@,
    ensures
        all_sound(custom_changes_over(ks, x, y, show), x, y, show),
    decreases ks.len(),
{
    if ks.len() > 0 {
        let r = ks.drop_last();
        assert forall|i: int| 0 <= i < r.len() implies #[trigger] r[i] != "Password"@ by {
            assert(r[i] == ks[i]);
        }
        lemma_custom_over_sound(r, x, y, show);
        assert(ks[ks.len() - 1] == ks.last());
        let k = ks.last();
        lemma_change_for_sound(k, x, y, x.protected_of(k) || y.protected_of(k), show);
        lemma_all_sound_concat(custom_changes_over(r, x, y, show), custom_change(x, y, k, show), x, y, show);
    }
}

proof fn lemma_tag_over_sound(ks: Seq<Seq<char>>, added: bool, x: Entry, y: Entry, show: bool)
    requires
        forall|i: int|
            0 <= i < ks.len() ==> (if added {
                tag_set(y).difference(tag_set(x))
            } else {
                tag_set(x).difference(tag_set(y))
            }).contains(#[trigger] ks[i]),
    ensures
        all_sound(tag_changes_over(ks, added), x, y, show),
    decreases ks.len(),
{
    if ks.len() > 0 {
        let r = ks.drop_last();
        assert forall|i: int| 0 <= i < r.len() implies (if added {
            tag_set(y).difference(tag_set(x))
        } else {
            tag_set(x).difference(tag_set(y))
        }).contains(#[trigger] r[i]) by {
            assert(r[i] == ks[i]);
        }
        assert(ks[ks.len() - 1] == ks.last());
        lemma_tag_over_sound(ks.drop_last(), added, x, y, show);
        let last = if added {
            seq![SpecFieldChange::TagAdded { tag: ks.last() }]
        } else {
            seq![SpecFieldChange::TagRemoved { tag: ks.last() }]
        };
        assert(all_sound(last, x, y, show));
        lemma_all_sound_concat(tag_changes_over(ks.drop_last(), added), last, x, y, show);
    }
}

proof fn lemma_attachment_over_sound(ks: Seq<Seq<char>>, x: Entry, y: Entry, show: bool)
    ensures
        all_sound(attachment_changes_over(ks, x, y), x, y, show),
    decreases ks.len(),
{
    if ks.len() > 0 {
        lemma_attachment_over_sound(ks.drop_last(), x, y, show);
        let c = attachment_change(x, y, ks.last());
        assert forall|i: int| 0 <= i < c.len() implies field_change_sound(#[trigger] c[i], x, y, show) by {
            assert(i == 0);
        }
        lemma_all_sound_concat(attachment_changes_over(ks.drop_last(), x, y), c, x, y, show);
    }
}

proof fn lemma_field_names_finite(e: Entry)
    ensures
        field_names(e).finite(),
{
    vstd::seq_lib::seq_to_set_is_finite(e.fields@.map_values(|f: Field| f.name@));
}

/// The tags only on `y`, and those only on `x`, in sorted order.
proof fn lemma_tag_listings(x: Entry, y: Entry)
    ensures
        crate::text::str_sorted(sorted_listing(tag_set(y).difference(tag_set(x)))),
        sorted_listing(tag_set(y).difference(tag_set(x))).to_set() == tag_set(y).difference(tag_set(x)),
        crate::text::str_sorted(sorted_listing(tag_set(x).difference(tag_set(y)))),
        sorted_listing(tag_set(x).difference(tag_set(y))).to_set() == tag_set(x).difference(tag_set(y)),
{
    vstd::seq_lib::seq_to_set_is_finite(crate::text::views(x.tags@));
    vstd::seq_lib::seq_to_set_is_finite(crate::text::views(y.tags@));
    vstd::set_lib::lemma_set_subset_finite(tag_set(y), tag_set(y).difference(tag_set(x)));
    vstd::set_lib::lemma_set_subset_finite(tag_set(x), tag_set(x).difference(tag_set(y)));
    crate::text::lemma_sorted_listing_exists(tag_set(y).difference(tag_set(x)));
    crate::text::lemma_sorted_listing_exists(tag_set(x).difference(tag_set(y)));
}

/// The custom field names of two entries, in sorted order, are exactly
/// the names that are not standard and occur in either entry.
proof fn lemma_custom_listing(x: Entry, y: Entry)
    ensures
        crate::text::str_sorted(sorted_listing(custom_field_names(x, y))),
        sorted_listing(custom_field_names(x, y)).to_set() == custom_field_names(x, y),
{
    lemma_field_names_finite(x);
    lemma_field_names_finite(y);
    let u = field_names(x).union(field_names(y));
    vstd::set::axiom_set_union_finite(field_names(x), field_names(y));
    u.lemma_len_filter(|n: Seq<char>| !is_standard_name(n));
    crate::text::lemma_sorted_listing_exists(custom_field_names(x, y));
}

/// Every change a field diff reports agrees with the two entries: added
/// fields are only in the second entry and carry its value, removed
/// fields only in the first and carry its value, modified fields are in
/// both, go from the first entry's value to the second's, and all values
/// are masked exactly when the field is protected (the password always)
/// and `show` is off; tag, attachment and history changes likewise go
/// from the first entry to the second (see `field_change_sound`).
pub proof fn law_field_diff_sound(x: Entry, y: Entry, show: bool)
    ensures
        all_sound(spec_field_diff(x, y, show), x, y, show),
{
    lemma_standard_names_distinct();
    let s1 = standard_change(x, y, "Title"@, false, show);
    let s2 = standard_change(x, y, "UserName"@, false, show);
    let s3 = standard_change(x, y, "Password"@, true, show);
    let s4 = standard_change(x, y, "URL"@, false, show);
    let s5 = standard_change(x, y, "Notes"@, false, show);
    lemma_change_for_sound("Title"@, x, y, x.protected_of("Title"@) || y.protected_of("Title"@), show);
    lemma_change_for_sound("UserName"@, x, y, x.protected_of("UserName"@) || y.protected_of("UserName"@), show);
    lemma_change_for_sound("Password"@, x, y, true, show);
    lemma_change_for_sound("URL"@, x, y, x.protected_of("URL"@) || y.protected_of("URL"@), show);
    lemma_change_for_sound("Notes"@, x, y, x.protected_of("Notes"@) || y.protected_of("Notes"@), show);
    lemma_all_sound_concat(s1, s2, x, y, show);
    lemma_all_sound_concat(s1 + s2, s3, x, y, show);
    lemma_all_sound_concat(s1 + s2 + s3, s4, x, y, show);
    lemma_all_sound_concat(s1 + s2 + s3 + s4, s5, x, y, show);
    let sd = standard_changes(x, y, show);
    assert(sd == s1 + s2 + s3 + s4 + s5);
    lemma_custom_listing(x, y);
    let cks = sorted_listing(custom_field_names(x, y));
    assert forall|i: int| 0 <= i < cks.len() implies #[trigger] cks[i] != "Password"@ by {
        assert(cks.to_set().contains(cks[i]));
    }
    lemma_custom_over_sound(cks, x, y, show);
    let bt = sorted_listing(tag_set(y).difference(tag_set(x)));
    let at = sorted_listing(tag_set(x).difference(tag_set(y)));
    lemma_tag_listings(x, y);
    assert forall|i: int| 0 <= i < bt.len() implies tag_set(y).difference(tag_set(x)).contains(#[trigger] bt[i]) by {
        assert(bt.to_set().contains(bt[i]));
    }
    assert forall|i: int| 0 <= i < at.len() implies tag_set(x).difference(tag_set(y)).contains(#[trigger] at[i]) by {
        assert(at.to_set().contains(at[i]));
    }
    lemma_tag_over_sound(bt, true, x, y, show);
    lemma_tag_over_sound(at, false, x, y, show);
    lemma_all_sound_concat(tag_changes_over(bt, true), tag_changes_over(at, false), x, y, show);
    let aks = sorted_listing(attachment_names(x.attachments@).union(attachment_names(y.attachments@)));
    lemma_attachment_over_sound(aks, x, y, show);
    let h = history_changes(x, y);
    assert(all_sound(h, x, y, show));
    let c = custom_changes(x, y, show);
    let t = tag_changes(x, y);
    let a = attachment_changes(x, y);
    lemma_all_sound_concat(sd, c, x, y, show);
    lemma_all_sound_concat(sd + c, t, x, y, show);
    lemma_all_sound_concat(sd + c + t, a, x, y, show);
    lemma_all_sound_concat(sd + c + t + a, h, x, y, show);
}

proof fn lemma_contains_concat<T>(s: Seq<T>, t: Seq<T>, e: T)
    ensures
        s.contains(e) ==> (s + t).contains(e),
        t.contains(e) ==> (s + t).contains(e),
{
    if s.contains(e) {
        let j = choose|j: int| 0 <= j < s.len() && s[j] == e;
        assert((s + t)[j] == e);
    }
    if t.contains(e) {
        let j = choose|j: int| 0 <= j < t.len() && t[j] == e;
        assert((s + t)[s.len() + j] == e);
    }
}

proof fn lemma_custom_over_has(ks: Seq<Seq<char>>, x: Entry, y: Entry, show: bool, i: int, e: SpecFieldChange)
    requires
        0 <= i < ks.len(),
        custom_change(x, y, ks[i], show).contains(e),
    ensures
        custom_changes_over(ks, x, y, show).contains(e),
    decreases ks.len(),
{
    let r = ks.drop_last();
    if i == ks.len() - 1 {
        lemma_contains_concat(custom_changes_over(r, x, y, show), custom_change(x, y, ks.last(), show), e);
    } else {
        assert(r[i] == ks[i]);
        lemma_custom_over_has(r, x, y, show, i, e);
        lemma_contains_concat(custom_changes_over(r, x, y, show), custom_change(x, y, ks.last(), show), e);
    }
}

proof fn lemma_value_of_named(fs: Seq<Field>, n: Seq<char>)
    requires
        crate::model::find_field(fs, n) is Some,
    ensures
        exists|j: int| 0 <= j < fs.len() && (#[trigger] fs[j]).name@ == n,
    decreases fs.len(),
{
    if fs[0].name@ != n {
        lemma_value_of_named(fs.drop_first(), n);
        let j = choose|j: int| 0 <= j < fs.drop_first().len() && (#[trigger] fs.drop_first()[j]).name@ == n;
        assert(fs[j + 1] == fs.drop_first()[j]);
    } else {
        assert(fs[0].name@ == n);
    }
}

proof fn lemma_in_field_names(e: Entry, n: Seq<char>)
    requires
        e.value_of(n) is Some,
    ensures
        field_names(e).contains(n),
{
    lemma_value_of_named(e.fields@, n);
    let j = choose|j: int| 0 <= j < e.fields@.len() && (#[trigger] e.fields@[j]).name@ == n;
    let m = e.fields@.map_values(|f: Field| f.name@);
    assert(m[j] == n);
    assert(m.contains(n));
}

/// The change a field diff holds for one field name, if any: the entry's
/// single change for that name, as `field_change_sound` describes it.
proof fn lemma_field_diff_has(x: Entry, y: Entry, show: bool, n: Seq<char>, e: SpecFieldChange)
    requires
        crate::fields::change_for(n, x.value_of(n), y.value_of(n), name_protected(x, y, n), show).contains(e),
    ensures
        spec_field_diff(x, y, show).contains(e),
{
    lemma_standard_names_distinct();
    let s1 = standard_change(x, y, "Title"@, false, show);
    let s2 = standard_change(x, y, "UserName"@, false, show);
    let s3 = standard_change(x, y, "Password"@, true, show);
    let s4 = standard_change(x, y, "URL"@, false, show);
    let s5 = standard_change(x, y, "Notes"@, false, show);
    let sd = standard_changes(x, y, show);
    assert(sd == s1 + s2 + s3 + s4 + s5);
    let c = custom_changes(x, y, show);
    let t = tag_changes(x, y);
    let a = attachment_changes(x, y);
    let h = history_changes(x, y);
    assert(spec_field_diff(x, y, show) == sd + c + t + a + h);
    let cn = crate::fields::change_for(n, x.value_of(n), y.value_of(n), name_protected(x, y, n), show);
    if is_standard_name(n) {
        if n == "Title"@ {
            assert(s1 == cn);
        } else if n == "UserName"@ {
            assert(s2 == cn);
        } else if n == "Password"@ {
            assert(s3 == cn);
        } else if n == "URL"@ {
            assert(s4 == cn);
        } else {
            assert(s5 == cn);
        }
        lemma_contains_concat(s1, s2, e);
        lemma_contains_concat(s1 + s2, s3, e);
        lemma_contains_concat(s1 + s2 + s3, s4, e);
        lemma_contains_concat(s1 + s2 + s3 + s4, s5, e);
        assert(sd.contains(e));
    } else {
        let v = if x.value_of(n) is Some { x } else { y };
        assert(x.value_of(n) is Some || y.value_of(n) is Some);
        lemma_in_field_names(v, n);
        assert(custom_field_names(x, y).contains(n));
        lemma_custom_listing(x, y);
        let cks = sorted_listing(custom_field_names(x, y));
        assert(cks.to_set().contains(n));
        let i = choose|i: int| 0 <= i < cks.len() && cks[i] == n;
        assert(n != "Password"@);
        lemma_custom_over_has(cks, x, y, show, i, e);
    }
    lemma_contains_concat(sd, c, e);
    lemma_contains_concat(sd + c, t, e);
    lemma_contains_concat(sd + c + t, a, e);
    lemma_contains_concat(sd + c + t + a, h, e);
}

proof fn lemma_tag_over_has(ks: Seq<Seq<char>>, added: bool, i: int)
    requires
        0 <= i < ks.len(),
    ensures
        tag_changes_over(ks, added).contains(
            if added {
                SpecFieldChange::TagAdded { tag: ks[i] }
            } else {
                SpecFieldChange::TagRemoved { tag: ks[i] }
            },
        ),
    decreases ks.len(),
{
    let r = ks.drop_last();
    let e = if added {
        SpecFieldChange::TagAdded { tag: ks[i] }
    } else {
        SpecFieldChange::TagRemoved { tag: ks[i] }
    };
    let last = if added {
        seq![SpecFieldChange::TagAdded { tag: ks.last() }]
    } else {
        seq![SpecFieldChange::TagRemoved { tag: ks.last() }]
    };
    if i == ks.len() - 1 {
        assert(last[0] == e);
        assert(last.contains(e));
    } else {
        assert(r[i] == ks[i]);
        lemma_tag_over_has(r, added, i);
    }
    lemma_contains_concat(tag_changes_over(r, added), last, e);
}

proof fn lemma_attachment_over_has(ks: Seq<Seq<char>>, x: Entry, y: Entry, i: int, e: SpecFieldChange)
    requires
        0 <= i < ks.len(),
        attachment_change(x, y, ks[i]).contains(e),
    ensures
        attachment_changes_over(ks, x, y).contains(e),
    decreases ks.len(),
{
    let r = ks.drop_last();
    if i < ks.len() - 1 {
        assert(r[i] == ks[i]);
        lemma_attachment_over_has(r, x, y, i, e);
    }
    lemma_contains_concat(attachment_changes_over(r, x, y), attachment_change(x, y, ks.last()), e);
}

proof fn lemma_attachment_named(atts: Seq<crate::model::Attachment>, n: Seq<char>)
    requires
        attachment_hash(atts, n) is Some,
    ensures
        atts.map_values(|t: crate::model::Attachment| t.name@).contains(n),
    decreases atts.len(),
{
    let m = atts.map_values(|t: crate::model::Attachment| t.name@);
    if atts.last().name@ == n && atts.last().content is Some {
        assert(m[atts.len() - 1] == n);
    } else {
        lemma_attachment_named(atts.drop_last(), n);
        let m2 = atts.drop_last().map_values(|t: crate::model::Attachment| t.name@);
        let j = choose|j: int| 0 <= j < m2.len() && m2[j] == n;
        assert(m[j] == m2[j]);
    }
}

proof fn lemma_attachment_names_finite(atts: Seq<crate::model::Attachment>)
    ensures
        attachment_names(atts).finite(),
{
    let m = atts.map_values(|t: crate::model::Attachment| t.name@);
    vstd::seq_lib::seq_to_set_is_finite(m);
    assert forall|n: Seq<char>| attachment_names(atts).contains(n) implies m.to_set().contains(n) by {
        lemma_attachment_named(atts, n);
    }
    vstd::set_lib::lemma_set_subset_finite(m.to_set(), attachment_names(atts));
}

/// Every field that differs between two entries is reported by their
/// field diff: a field only in the second entry as added, carrying the
/// second entry's value; a field only in the first as removed, carrying
/// the first entry's value; a field in both with different values as
/// modified, from the first entry's value to the second's. Likewise a
/// tag only on the second entry is reported as added and one only on the
/// first as removed, and an attachment name whose content hash differs
/// is reported as added, removed or modified with both hashes.
pub proof fn law_field_diff_complete(x: Entry, y: Entry, show: bool, n: Seq<char>)
    ensures
        ({
            let d = spec_field_diff(x, y, show);
            let p = name_protected(x, y, n);
            let ha = attachment_hash(x.attachments@, n);
            let hb = attachment_hash(y.attachments@, n);
            &&& (x.value_of(n) is None && y.value_of(n) is Some) ==> d.contains(
                SpecFieldChange::Added { name: n, value: shown(y.value_of(n)->0, p, show) },
            )
            &&& (x.value_of(n) is Some && y.value_of(n) is None) ==> d.contains(
                SpecFieldChange::Removed { name: n, value: shown(x.value_of(n)->0, p, show) },
            )
            &&& (x.value_of(n) is Some && y.value_of(n) is Some && x.value_of(n) != y.value_of(n)) ==> d.contains(
                SpecFieldChange::Modified {
                    name: n,
                    change: SpecValueChange {
                        from: shown(x.value_of(n)->0, p, show),
                        to: shown(y.value_of(n)->0, p, show),
                    },
                },
            )
            &&& (tag_set(y).contains(n) && !tag_set(x).contains(n)) ==> d.contains(SpecFieldChange::TagAdded { tag: n })
            &&& (tag_set(x).contains(n) && !tag_set(y).contains(n)) ==> d.contains(
                SpecFieldChange::TagRemoved { tag: n },
            )
            &&& (ha is None && hb is Some) ==> d.contains(SpecFieldChange::AttachmentAdded { name: n, hash: hb->0 })
            &&& (ha is Some && hb is None) ==> d.contains(
                SpecFieldChange::AttachmentRemoved { name: n, hash: ha->0 },
            )
            &&& (ha is Some && hb is Some && ha != hb) ==> d.contains(
                SpecFieldChange::AttachmentModified { name: n, from_hash: ha->0, to_hash: hb->0 },
            )
        }),
{
    let d = spec_field_diff(x, y, show);
    let sd = standard_changes(x, y, show);
    let cc = custom_changes(x, y, show);
    let t = tag_changes(x, y);
    let a = attachment_changes(x, y);
    let h = history_changes(x, y);
    assert(d == sd + cc + t + a + h);
    lemma_tag_listings(x, y);
    let bt = sorted_listing(tag_set(y).difference(tag_set(x)));
    let at = sorted_listing(tag_set(x).difference(tag_set(y)));
    if tag_set(y).contains(n) && !tag_set(x).contains(n) {
        let e = SpecFieldChange::TagAdded { tag: n };
        assert(bt.to_set().contains(n));
        let i = choose|i: int| 0 <= i < bt.len() && bt[i] == n;
        lemma_tag_over_has(bt, true, i);
        lemma_contains_concat(tag_changes_over(bt, true), tag_changes_over(at, false), e);
        lemma_contains_concat(sd + cc, t, e);
        lemma_contains_concat(sd + cc + t, a, e);
        lemma_contains_concat(sd + cc + t + a, h, e);
    }
    if tag_set(x).contains(n) && !tag_set(y).contains(n) {
        let e = SpecFieldChange::TagRemoved { tag: n };
        assert(at.to_set().contains(n));
        let i = choose|i: int| 0 <= i < at.len() && at[i] == n;
        lemma_tag_over_has(at, false, i);
        lemma_contains_concat(tag_changes_over(bt, true), tag_changes_over(at, false), e);
        lemma_contains_concat(sd + cc, t, e);
        lemma_contains_concat(sd + cc + t, a, e);
        lemma_contains_concat(sd + cc + t + a, h, e);
    }
    if attachment_hash(x.attachments@, n) != attachment_hash(y.attachments@, n) {
        let ac = attachment_change(x, y, n);
        let e = ac[0];
        assert(ac.contains(e));
        let an = attachment_names(x.attachments@).union(attachment_names(y.attachments@));
        lemma_attachment_names_finite(x.attachments@);
        lemma_attachment_names_finite(y.attachments@);
        vstd::set::axiom_set_union_finite(attachment_names(x.attachments@), attachment_names(y.attachments@));
        crate::text::lemma_sorted_listing_exists(an);
        let aks = sorted_listing(an);
        assert(an.contains(n));
        assert(aks.to_set().contains(n));
        let i = choose|i: int| 0 <= i < aks.len() && aks[i] == n;
        lemma_attachment_over_has(aks, x, y, i, e);
        lemma_contains_concat(sd + cc + t, a, e);
        lemma_contains_concat(sd + cc + t + a, h, e);
    }

    let c = crate::fields::change_for(n, x.value_of(n), y.value_of(n), name_protected(x, y, n), show);
    if c.len() > 0 {
        assert(c.contains(c[0]));
        lemma_field_diff_has(x, y, show, n, c[0]);
    }
}

proof fn lemma_kept_from(s: Seq<SpecFieldChange>)
    ensures
        forall|i: int| 0 <= i < kept_changes(s).len() ==> s.contains(#[trigger] kept_changes(s)[i]),
    decreases s.len(),
{
    if s.len() > 0 {
        let r = s.drop_last();
        lemma_kept_from(r);
        let k = kept_changes(s);
        assert forall|i: int| 0 <= i < k.len() implies s.contains(#[trigger] k[i]) by {
            if i < kept_changes(r).len() {
                assert(k[i] == kept_changes(r)[i]);
                let j = choose|j: int| 0 <= j < r.len() && r[j] == k[i];
                assert(s[j] == r[j]);
            } else {
                assert(k[i] == s.last());
                assert(s[s.len() - 1] == s.last());
            }
        }
    }
}

/// A same-path entry that a diff reports as modified exists in both
/// vaults, and each field change listed for it agrees with the two
/// entries under the caller's `show_secrets`: added fields carry the
/// second entry's value, removed fields the first's, modified fields go
/// from the first's to the second's, and with `show_secrets` set every
/// value is shown in plain text.
pub proof fn law_modified_entry_fields(a: Database, b: Database, opts: DiffOptions, c: SpecChange)
    requires
        node_changes(a, b, opts).contains(c),
        c is Entry,
        c->Entry_kind is Modified,
    ensures
        match (lookup_entry(a.root, c->Entry_uuid), lookup_entry(b.root, c->Entry_uuid)) {
            (Some(x), Some(y)) => all_sound((c->Entry_kind)->Modified_fields, x, y, opts.show_secrets),
            _ => false,
        },
{
    let ma = walked(a, opts);
    let mb = walked(b, opts);
    let f1 = |k: u128| presence_change(k, mb[k], true);
    let f2 = |k: u128| presence_change(k, ma[k], false);
    let f3 = |k: u128| moved_change(k, ma[k], mb[k]);
    let f4 = |k: u128| modified_change(k, ma[k], kept_fields(a, b, k, opts));
    let added = added_keys(ma, mb);
    let removed = removed_keys(ma, mb);
    let moved = moved_keys(ma, mb);
    let modk = modified_keys(a, b, opts);
    assert(node_changes(a, b, opts) == added.map(f1) + removed.map(f2) + moved.map(f3) + modk.map(f4));
    if added.map(f1).contains(c) {
        let k = lemma_in_image(added, f1, c);
    } else if removed.map(f2).contains(c) {
        let k = lemma_in_image(removed, f2, c);
    } else if moved.map(f3).contains(c) {
        let k = lemma_in_image(moved, f3, c);
    } else {
        let k = lemma_in_image(modk, f4, c);
        assert(c->Entry_uuid == k);
        let kept = kept_fields(a, b, k, opts);
        assert((c->Entry_kind)->Modified_fields == kept);
        assert(kept.len() > 0);
        let raw = raw_entry_diff(a, b, k, opts.show_secrets);
        lemma_kept_from(raw);
        if raw.len() == 0 {
            if !opts.strict {
                assert(raw.contains(kept_changes(raw)[0]));
            }
            assert(false);
        }
        match (lookup_entry(a.root, k), lookup_entry(b.root, k)) {
            (Some(x), Some(y)) => {
                law_field_diff_sound(x, y, opts.show_secrets);
                assert forall|i: int| 0 <= i < kept.len() implies field_change_sound(
                    #[trigger] kept[i],
                    x,
                    y,
                    opts.show_secrets,
                ) by {
                    if !opts.strict {
                        assert(raw.contains(kept_changes(raw)[i]));
                        let j = choose|j: int| 0 <= j < raw.len() && raw[j] == kept[i];
                        assert(field_change_sound(raw[j], x, y, opts.show_secrets));
                    }
                }
            },
            _ => {},
        }
    }
}

/// The text a dump shows for an entry's field `name`: the field's value,
/// or empty when the entry has no such field; as `<hash:..>` of that text
/// when the field is protected (the password always) and secrets are
/// hidden.
pub open spec fn dump_shown(e: Entry, name: Seq<char>, show: bool) -> Seq<char> {
    let raw = match e.value_of(name) {
        Some(v) => v,
        None => Seq::<char>::empty(),
    };
    if (name == "Password"@ || e.protected_of(name)) && !show {
        "<hash:"@ + hash_of_text(raw) + ">"@
    } else {
        raw
    }
}

proof fn lemma_dump_field_line(e: Entry, name: Seq<char>, label: Seq<char>, forced: bool, show: bool)
    requires
        forced == (name == "Password"@),
    ensures
        field_line(e, name, label, forced, show) == "  "@ + label + ": "@ + dump_shown(e, name, show) + seq!['\n'],
{
    assert(field_line(e, name, label, forced, show) =~= "  "@ + label + ": "@ + dump_shown(e, name, show) + seq!['\n']);
}

/// A dumped entry block is its header line, then the five standard
/// fields in the fixed order title, username, password, url, notes, each
/// line showing that entry's own value of the field named `Title`,
/// `UserName`, `Password`, `URL` and `Notes` (see `dump_shown`), then the
/// rest of the block.
pub proof fn law_dump_entry_fields(e: Entry, uuid: u128, display: Seq<char>, opts: DumpOptions)
    ensures
        entry_text(e, uuid, display, opts) == entry_head(uuid, display) + ("  "@ + "title"@ + ": "@ + dump_shown(
            e,
            "Title"@,
            opts.show_secrets,
        ) + seq!['\n']) + ("  "@ + "username"@ + ": "@ + dump_shown(e, "UserName"@, opts.show_secrets) + seq!['\n'])
            + ("  "@ + "password"@ + ": "@ + dump_shown(e, "Password"@, opts.show_secrets) + seq!['\n']) + ("  "@
            + "url"@ + ": "@ + dump_shown(e, "URL"@, opts.show_secrets) + seq!['\n']) + ("  "@ + "notes"@ + ": "@
            + dump_shown(e, "Notes"@, opts.show_secrets) + seq!['\n']) + entry_tail(e),
{
    lemma_standard_names_distinct();
    let show = opts.show_secrets;
    lemma_dump_field_line(e, "Title"@, "title"@, false, show);
    lemma_dump_field_line(e, "UserName"@, "username"@, false, show);
    lemma_dump_field_line(e, "Password"@, "password"@, true, show);
    lemma_dump_field_line(e, "URL"@, "url"@, false, show);
    lemma_dump_field_line(e, "Notes"@, "notes"@, false, show);
}

/// A dumped entry block opens with `ENTRY <path> [uuid:<first 8 hex
/// digits of the UUID>]` and, after the standard fields, shows the
/// entry's tags sorted and joined by `, ` (only when it has tags), its
/// attachment count, its history length and, when it has one, its
/// modification time, one per line.
pub proof fn law_dump_entry_frame(e: Entry, uuid: u128, display: Seq<char>)
    ensures
        entry_head(uuid, display) == "ENTRY "@ + display + " [uuid:"@ + crate::text::uuid_hyphenated(uuid).take(8)
            + "]"@ + seq!['\n'],
        entry_tail(e) == (if e.tags@.len() == 0 {
            Seq::<char>::empty()
        } else {
            "  tags: "@ + crate::text::joined(crate::text::sorted_strings(crate::text::views(e.tags@)), ", "@)
                + seq!['\n']
        }) + "  attachments: "@ + crate::text::decimal(e.attachments@.len()) + seq!['\n'] + "  history: "@
            + crate::text::decimal(e.history_len as nat) + " entries"@ + seq!['\n'] + (match e.last_modification {
            Some(t) => "  modified: "@ + t@ + seq!['\n'],
            None => Seq::<char>::empty(),
        }),
{
    assert(entry_head(uuid, display) =~= "ENTRY "@ + display + " [uuid:"@ + crate::text::uuid_hyphenated(uuid).take(8)
        + "]"@ + seq!['\n']);
    assert(entry_tail(e) =~= (if e.tags@.len() == 0 {
        Seq::<char>::empty()
    } else {
        "  tags: "@ + crate::text::joined(crate::text::sorted_strings(crate::text::views(e.tags@)), ", "@)
            + seq!['\n']
    }) + "  attachments: "@ + crate::text::decimal(e.attachments@.len()) + seq!['\n'] + "  history: "@
        + crate::text::decimal(e.history_len as nat) + " entries"@ + seq!['\n'] + (match e.last_modification {
        Some(t) => "  modified: "@ + t@ + seq!['\n'],
        None => Seq::<char>::empty(),
    }));
}

/// Where each group or entry change of a diff comes from, in the two
/// vaults' walks `ma` (first) and `mb` (second): an addition is a node
/// only in the second vault, listed at its path there; a removal a node
/// only in the first, listed at its path there; a move a node in both
/// under different paths, listed at its path in the first vault with its
/// path in the second as destination; a modification an entry in both at
/// the same path, with at least one field change. The change is a group
/// or an entry change as the node (in the first vault, for a move) is a
/// group or an entry.
pub proof fn law_node_changes_placed(a: Database, b: Database, opts: DiffOptions, c: SpecChange)
    requires
        node_changes(a, b, opts).contains(c),
    ensures
        ({
            let ma = walked(a, opts);
            let mb = walked(b, opts);
            match c {
                SpecChange::Entry { uuid, path, kind } => match kind {
                    SpecEntryChangeKind::Added => !ma.contains_key(uuid) && mb.contains_key(uuid) && mb[uuid].path
                        == path && mb[uuid].kind == NodeKind::Entry,
                    SpecEntryChangeKind::Removed => ma.contains_key(uuid) && !mb.contains_key(uuid) && ma[uuid].path
                        == path && ma[uuid].kind == NodeKind::Entry,
                    SpecEntryChangeKind::Moved { to } => ma.contains_key(uuid) && mb.contains_key(uuid)
                        && ma[uuid].path == path && mb[uuid].path == to && path != to && ma[uuid].kind
                        == NodeKind::Entry,
                    SpecEntryChangeKind::Modified { fields } => ma.contains_key(uuid) && mb.contains_key(uuid)
                        && ma[uuid].path == path && mb[uuid].path == path && ma[uuid].kind == NodeKind::Entry
                        && mb[uuid].kind == NodeKind::Entry && fields.len() > 0,
                },
                SpecChange::Group { uuid, path, kind } => match kind {
                    SpecGroupChangeKind::Added => !ma.contains_key(uuid) && mb.contains_key(uuid) && mb[uuid].path
                        == path && mb[uuid].kind == NodeKind::Group,
                    SpecGroupChangeKind::Removed => ma.contains_key(uuid) && !mb.contains_key(uuid) && ma[uuid].path
                        == path && ma[uuid].kind == NodeKind::Group,
                    SpecGroupChangeKind::Moved { to } => ma.contains_key(uuid) && mb.contains_key(uuid)
                        && ma[uuid].path == path && mb[uuid].path == to && path != to && ma[uuid].kind
                        == NodeKind::Group,
                    _ => false,
                },
                SpecChange::Database(_) => false,
            }
        }),
{
    let ma = walked(a, opts);
    let mb = walked(b, opts);
    let f1 = |k: u128| presence_change(k, mb[k], true);
    let f2 = |k: u128| presence_change(k, ma[k], false);
    let f3 = |k: u128| moved_change(k, ma[k], mb[k]);
    let f4 = |k: u128| modified_change(k, ma[k], kept_fields(a, b, k, opts));
    let added = added_keys(ma, mb);
    let removed = removed_keys(ma, mb);
    let moved = moved_keys(ma, mb);
    let modk = modified_keys(a, b, opts);
    assert(node_changes(a, b, opts) == added.map(f1) + removed.map(f2) + moved.map(f3) + modk.map(f4));
    if added.map(f1).contains(c) {
        let k = lemma_in_image(added, f1, c);
    } else if removed.map(f2).contains(c) {
        let k = lemma_in_image(removed, f2, c);
    } else if moved.map(f3).contains(c) {
        let k = lemma_in_image(moved, f3, c);
    } else {
        let k = lemma_in_image(modk, f4, c);
        assert(same_path_entries(ma, mb).contains(k));
    }
}

/// A diff warns of differing format versions exactly when the two vaults'
/// versions differ, with the first vault's version as `a` and the
/// second's as `b`; it gives no other warning.
pub proof fn law_version_warning(a: Database, b: Database)
    ensures
        version_warnings(a, b).len() == (if a.version@ == b.version@ {
            0int
        } else {
            1int
        }),
        forall|i: int|
            0 <= i < version_warnings(a, b).len() ==> (#[trigger] version_warnings(a, b)[i]
                == (SpecDiffWarning::VersionMismatch { a: a.version@, b: b.version@ })),
{
}

/// A dump starts with the database header: the line `DATABASE`, then the
/// vault's name (empty when it has none), its format version and its
/// recycle bin's UUID (or `none`), one per line.
pub proof fn law_dump_header(db: Database, opts: DumpOptions)
    ensures
        ({
            let name = match db.meta.database_name {
                Some(n) => n@,
                None => Seq::<char>::empty(),
            };
            let bin = match db.meta.recyclebin_uuid {
                Some(u) => crate::text::uuid_hyphenated(u),
                None => "none"@,
            };
            crate::dump::dump_text(db, opts).take(crate::dump::header_text(db).len() as int) == "DATABASE"@ + seq!['\n']
                + "  name: "@ + name + seq!['\n'] + "  version: "@ + db.version@ + seq!['\n'] + "  recycle_bin: "@ + bin
                + seq!['\n']
        }),
{
    let h = crate::dump::header_text(db);
    let d = crate::dump::dump_text(db, opts);
    assert(d.take(h.len() as int) =~= h);
    assert(h =~= "DATABASE"@ + seq!['\n'] + "  name: "@ + match db.meta.database_name {
        Some(n) => n@,
        None => Seq::<char>::empty(),
    } + seq!['\n'] + "  version: "@ + db.version@ + seq!['\n'] + "  recycle_bin: "@ + match db.meta.recyclebin_uuid {
        Some(u) => crate::text::uuid_hyphenated(u),
        None => "none"@,
    } + seq!['\n']);
}

} // verus!
