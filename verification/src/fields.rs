//! Field-level comparison of two matched entries.
//!
//! Sets of names (custom field names, tags, attachment names) are kept as
//! strictly sorted vectors of strings rather than as `BTreeSet`s: their
//! contents and order are stated exactly over the vectors' `Seq` views,
//! which vstd's ordered-set specifications do not give for `String` keys.

use vstd::prelude::*;

use crate::change_set::{
    field_views, spec_value_display, FieldChange, SpecFieldChange, SpecValueChange, ValueChange,
    ValueDisplay,
};
use crate::mask::{hash_of_bytes, HashPrefix};
use crate::model::{Attachment, Entry, Field};
use crate::text::{contains_str, lemma_sorted_listing, sorted_insert, sorted_listing, str_eq, str_sorted, views};

verus! {

/// Optional string reference, by value.
pub open spec fn ref_view(o: Option<&String>) -> Option<Seq<char>> {
    match o {
        Some(v) => Some(v@),
        None => None,
    }
}

/// The change (if any) of one named value between two entries.
pub open spec fn change_for(
    name: Seq<char>,
    av: Option<Seq<char>>,
    bv: Option<Seq<char>>,
    protected: bool,
    show: bool,
) -> Seq<SpecFieldChange> {
    match (av, bv) {
        (None, None) => seq![],
        (Some(v), None) => seq![SpecFieldChange::Removed { name, value: spec_value_display(v, protected, show) }],
        (None, Some(v)) => seq![SpecFieldChange::Added { name, value: spec_value_display(v, protected, show) }],
        (Some(x), Some(y)) => if x == y {
            seq![]
        } else {
            seq![
                SpecFieldChange::Modified {
                    name,
                    change: SpecValueChange {
                        from: spec_value_display(x, protected, show),
                        to: spec_value_display(y, protected, show),
                    },
                },
            ]
        },
    }
}

/// The change of a standard field; `forced` marks it protected regardless
/// of its flags.
pub open spec fn standard_change(a: Entry, b: Entry, name: Seq<char>, forced: bool, show: bool) -> Seq<SpecFieldChange> {
    change_for(name, a.value_of(name), b.value_of(name), forced || a.protected_of(name) || b.protected_of(name), show)
}

/// Changes of the five standard fields, in the fixed order Title, UserName,
/// Password, URL, Notes; Password is always treated as protected.
pub open spec fn standard_changes(a: Entry, b: Entry, show: bool) -> Seq<SpecFieldChange> {
    standard_change(a, b, "Title"@, false, show) + standard_change(a, b, "UserName"@, false, show)
        + standard_change(a, b, "Password"@, true, show) + standard_change(a, b, "URL"@, false, show)
        + standard_change(a, b, "Notes"@, false, show)
}

/// One of the five standard field names.
pub open spec fn is_standard_name(n: Seq<char>) -> bool {
    n == "Title"@ || n == "UserName"@ || n == "Password"@ || n == "URL"@ || n == "Notes"@
}

/// The names of an entry's fields.
pub open spec fn field_names(e: Entry) -> Set<Seq<char>> {
    e.fields@.map_values(|f: Field| f.name@).to_set()
}

/// Non-standard field names of either entry.
pub open spec fn custom_field_names(a: Entry, b: Entry) -> Set<Seq<char>> {
    field_names(a).union(field_names(b)).filter(|n: Seq<char>| !is_standard_name(n))
}

/// The change of a custom field.
pub open spec fn custom_change(a: Entry, b: Entry, k: Seq<char>, show: bool) -> Seq<SpecFieldChange> {
    change_for(k, a.value_of(k), b.value_of(k), a.protected_of(k) || b.protected_of(k), show)
}

/// Custom field changes for the names `ks`, in order.
pub open spec fn custom_changes_over(ks: Seq<Seq<char>>, a: Entry, b: Entry, show: bool) -> Seq<SpecFieldChange>
    decreases ks.len(),
{
    if ks.len() == 0 {
        seq![]
    } else {
        custom_changes_over(ks.drop_last(), a, b, show) + custom_change(a, b, ks.last(), show)
    }
}

/// Custom field changes in sorted name order.
pub open spec fn custom_changes(a: Entry, b: Entry, show: bool) -> Seq<SpecFieldChange> {
    custom_changes_over(sorted_listing(custom_field_names(a, b)), a, b, show)
}

/// The distinct tags of an entry.
pub open spec fn tag_set(e: Entry) -> Set<Seq<char>> {
    views(e.tags@).to_set()
}

/// Tag changes for the tags `ks`, in order.
pub open spec fn tag_changes_over(ks: Seq<Seq<char>>, added: bool) -> Seq<SpecFieldChange>
    decreases ks.len(),
{
    if ks.len() == 0 {
        seq![]
    } else {
        tag_changes_over(ks.drop_last(), added) + if added {
            seq![SpecFieldChange::TagAdded { tag: ks.last() }]
        } else {
            seq![SpecFieldChange::TagRemoved { tag: ks.last() }]
        }
    }
}

/// Added tags (sorted), then removed tags (sorted).
pub open spec fn tag_changes(a: Entry, b: Entry) -> Seq<SpecFieldChange> {
    tag_changes_over(sorted_listing(tag_set(b).difference(tag_set(a))), true) + tag_changes_over(
        sorted_listing(tag_set(a).difference(tag_set(b))),
        false,
    )
}

/// The content hash of the last attachment named `name` whose content is
/// known.
pub open spec fn attachment_hash(atts: Seq<Attachment>, name: Seq<char>) -> Option<Seq<char>>
    decreases atts.len(),
{
    if atts.len() == 0 {
        None
    } else if atts.last().name@ == name && atts.last().content is Some {
        Some(hash_of_bytes(atts.last().content->0@))
    } else {
        attachment_hash(atts.drop_last(), name)
    }
}

/// Names of attachments whose content is known.
pub open spec fn attachment_names(atts: Seq<Attachment>) -> Set<Seq<char>> {
    Set::new(|n: Seq<char>| attachment_hash(atts, n) is Some)
}

/// The change (if any) of one attachment name.
pub open spec fn attachment_change(a: Entry, b: Entry, k: Seq<char>) -> Seq<SpecFieldChange> {
    match (attachment_hash(a.attachments@, k), attachment_hash(b.attachments@, k)) {
        (None, None) => seq![],
        (None, Some(h)) => seq![SpecFieldChange::AttachmentAdded { name: k, hash: h }],
        (Some(h), None) => seq![SpecFieldChange::AttachmentRemoved { name: k, hash: h }],
        (Some(x), Some(y)) => if x == y {
            seq![]
        } else {
            seq![SpecFieldChange::AttachmentModified { name: k, from_hash: x, to_hash: y }]
        },
    }
}

/// Attachment changes for the names `ks`, in order.
pub open spec fn attachment_changes_over(ks: Seq<Seq<char>>, a: Entry, b: Entry) -> Seq<SpecFieldChange>
    decreases ks.len(),
{
    if ks.len() == 0 {
        seq![]
    } else {
        attachment_changes_over(ks.drop_last(), a, b) + attachment_change(a, b, ks.last())
    }
}

/// Attachment changes in sorted name order.
pub open spec fn attachment_changes(a: Entry, b: Entry) -> Seq<SpecFieldChange> {
    attachment_changes_over(
        sorted_listing(attachment_names(a.attachments@).union(attachment_names(b.attachments@))),
        a,
        b,
    )
}

/// History growth, or a shrink reported as a rewrite.
pub open spec fn history_changes(a: Entry, b: Entry) -> Seq<SpecFieldChange> {
    if b.history_len > a.history_len {
        seq![SpecFieldChange::HistoryGrew { added: (b.history_len - a.history_len) as usize }]
    } else if b.history_len < a.history_len {
        seq![SpecFieldChange::HistoryRewritten { from_len: a.history_len, to_len: b.history_len }]
    } else {
        seq![]
    }
}

/// All field-level changes between two matched entries.
pub open spec fn spec_field_diff(a: Entry, b: Entry, show: bool) -> Seq<SpecFieldChange> {
    standard_changes(a, b, show) + custom_changes(a, b, show) + tag_changes(a, b) + attachment_changes(a, b)
        + history_changes(a, b)
}

fn push_change(out: &mut Vec<FieldChange>, fc: FieldChange)
    ensures
        field_views(final(out)@) == field_views(old(out)@).push(fc@),
{
    out.push(fc);
    assert(field_views(out@) =~= field_views(old(out)@).push(fc@));
}

fn push_value_change(
    out: &mut Vec<FieldChange>,
    name: &str,
    av: Option<&String>,
    bv: Option<&String>,
    protected: bool,
    show: bool,
)
    ensures
        field_views(final(out)@) == field_views(old(out)@) + change_for(name@, ref_view(av), ref_view(bv), protected, show),
{
    match (av, bv) {
        (None, None) => {
            assert(field_views(out@) =~= field_views(out@) + Seq::<SpecFieldChange>::empty());
        },
        (Some(v), None) => {
            let value = ValueDisplay::from_value(v.as_str(), protected, show);
            push_change(out, FieldChange::Removed { name: name.to_owned(), value });
            assert(field_views(out@) =~= field_views(old(out)@) + change_for(name@, ref_view(av), ref_view(bv), protected, show));
        },
        (None, Some(v)) => {
            let value = ValueDisplay::from_value(v.as_str(), protected, show);
            push_change(out, FieldChange::Added { name: name.to_owned(), value });
            assert(field_views(out@) =~= field_views(old(out)@) + change_for(name@, ref_view(av), ref_view(bv), protected, show));
        },
        (Some(x), Some(y)) => {
            if *x == *y {
                assert(field_views(out@) =~= field_views(out@) + Seq::<SpecFieldChange>::empty());
            } else {
                let from = ValueDisplay::from_value(x.as_str(), protected, show);
                let to = ValueDisplay::from_value(y.as_str(), protected, show);
                push_change(out, FieldChange::Modified { name: name.to_owned(), change: ValueChange { from, to } });
                assert(field_views(out@) =~= field_views(old(out)@) + change_for(name@, ref_view(av), ref_view(bv), protected, show));
            }
        },
    }
}

fn diff_standard_field(a: &Entry, b: &Entry, name: &str, forced: bool, show: bool, out: &mut Vec<FieldChange>)
    ensures
        field_views(final(out)@) == field_views(old(out)@) + standard_change(*a, *b, name@, forced, show),
{
    let av = a.get(name);
    let bv = b.get(name);
    let protected = forced || a.is_protected(name) || b.is_protected(name);
    push_value_change(out, name, av, bv, protected, show);
}

pub(crate) fn diff_standard_fields(a: &Entry, b: &Entry, show: bool, out: &mut Vec<FieldChange>)
    ensures
        field_views(final(out)@) == field_views(old(out)@) + standard_changes(*a, *b, show),
{
    let ghost o = field_views(out@);
    diff_standard_field(a, b, "Title", false, show, out);
    diff_standard_field(a, b, "UserName", false, show, out);
    diff_standard_field(a, b, "Password", true, show, out);
    diff_standard_field(a, b, "URL", false, show, out);
    diff_standard_field(a, b, "Notes", false, show, out);
    assert(field_views(out@) =~= o + standard_changes(*a, *b, show));
}

fn is_standard(name: &str) -> (r: bool)
    ensures
        r == is_standard_name(name@),
{
    str_eq(name, "Title") || str_eq(name, "UserName") || str_eq(name, "Password") || str_eq(name, "URL")
        || str_eq(name, "Notes")
}

/// Adds the entry's non-standard field names to a sorted name list.
fn collect_custom_names(e: &Entry, names: &mut Vec<String>)
    requires
        str_sorted(views(old(names)@)),
    ensures
        str_sorted(views(final(names)@)),
        views(final(names)@).to_set() == views(old(names)@).to_set().union(
            field_names(*e).filter(|n: Seq<char>| !is_standard_name(n)),
        ),
{
    let ghost start = views(names@).to_set();
    let ghost all = e.fields@.map_values(|f: Field| f.name@);
    let mut i: usize = 0;
    while i < e.fields.len()
        invariant
            i <= e.fields@.len(),
            all == e.fields@.map_values(|f: Field| f.name@),
            str_sorted(views(names@)),
            views(names@).to_set() == start.union(all.take(i as int).to_set().filter(|n: Seq<char>| !is_standard_name(n))),
        decreases e.fields@.len() - i,
    {
        let name = &e.fields[i].name;
        let ghost before = views(names@).to_set();
        if !is_standard(name.as_str()) {
            sorted_insert(names, name.clone());
        }
        proof {
            assert(all.take(i + 1) =~= all.take(i as int).push(name@));
            all.take(i as int).lemma_push_to_set_commute(name@);
            assert(all.take(i + 1).to_set().filter(|n: Seq<char>| !is_standard_name(n)) =~= if is_standard_name(name@) {
                all.take(i as int).to_set().filter(|n: Seq<char>| !is_standard_name(n))
            } else {
                all.take(i as int).to_set().filter(|n: Seq<char>| !is_standard_name(n)).insert(name@)
            });
        }
        i = i + 1;
    }
    assert(all.take(e.fields@.len() as int) =~= all);
    assert(views(names@).to_set() =~= start.union(field_names(*e).filter(|n: Seq<char>| !is_standard_name(n))));
}

pub(crate) fn diff_custom_fields(a: &Entry, b: &Entry, show: bool, out: &mut Vec<FieldChange>)
    ensures
        field_views(final(out)@) == field_views(old(out)@) + custom_changes(*a, *b, show),
{
    let mut keys: Vec<String> = Vec::new();
    proof {
        assert(views(keys@).to_set() =~= Set::<Seq<char>>::empty());
    }
    collect_custom_names(a, &mut keys);
    collect_custom_names(b, &mut keys);
    let ghost ks = views(keys@);
    proof {
        assert(ks.to_set() =~= custom_field_names(*a, *b));
        lemma_sorted_listing(ks);
    }
    let ghost o = field_views(out@);
    let mut i: usize = 0;
    while i < keys.len()
        invariant
            i <= keys@.len(),
            ks == views(keys@),
            field_views(out@) == o + custom_changes_over(ks.take(i as int), *a, *b, show),
        decreases keys@.len() - i,
    {
        let key = keys[i].as_str();
        let av = a.get(key);
        let bv = b.get(key);
        let protected = a.is_protected(key) || b.is_protected(key);
        push_value_change(out, key, av, bv, protected, show);
        proof {
            assert(ks.take(i + 1).drop_last() =~= ks.take(i as int));
            assert(ks.take(i + 1).last() == key@);
        }
        i = i + 1;
    }
    assert(ks.take(keys@.len() as int) =~= ks);
}

fn sorted_tags(e: &Entry) -> (r: Vec<String>)
    ensures
        str_sorted(views(r@)),
        views(r@).to_set() == tag_set(*e),
{
    let mut r: Vec<String> = Vec::new();
    let ghost all = views(e.tags@);
    proof {
        assert(views(r@).to_set() =~= all.take(0).to_set());
    }
    let mut i: usize = 0;
    while i < e.tags.len()
        invariant
            i <= e.tags@.len(),
            all == views(e.tags@),
            str_sorted(views(r@)),
            views(r@).to_set() == all.take(i as int).to_set(),
        decreases e.tags@.len() - i,
    {
        sorted_insert(&mut r, e.tags[i].clone());
        proof {
            assert(all.take(i + 1) =~= all.take(i as int).push(all[i as int]));
            all.take(i as int).lemma_push_to_set_commute(all[i as int]);
            assert(all.take(i + 1).to_set() =~= all.take(i as int).to_set().insert(all[i as int]));
        }
        i = i + 1;
    }
    assert(all.take(e.tags@.len() as int) =~= all);
    r
}

/// The strings of `xs` that are not in `ys`, sorted.
fn sorted_difference(xs: &Vec<String>, ys: &Vec<String>) -> (r: Vec<String>)
    ensures
        str_sorted(views(r@)),
        views(r@).to_set() == views(xs@).to_set().difference(views(ys@).to_set()),
{
    let mut r: Vec<String> = Vec::new();
    let ghost xv = views(xs@);
    let ghost yv = views(ys@);
    proof {
        assert(views(r@).to_set() =~= xv.take(0).to_set().difference(yv.to_set()));
    }
    let mut i: usize = 0;
    while i < xs.len()
        invariant
            i <= xs@.len(),
            xv == views(xs@),
            yv == views(ys@),
            str_sorted(views(r@)),
            views(r@).to_set() == xv.take(i as int).to_set().difference(yv.to_set()),
        decreases xs@.len() - i,
    {
        if !contains_str(ys, xs[i].as_str()) {
            sorted_insert(&mut r, xs[i].clone());
        }
        proof {
            assert(xv.take(i + 1) =~= xv.take(i as int).push(xv[i as int]));
            xv.take(i as int).lemma_push_to_set_commute(xv[i as int]);
            assert(xv.take(i + 1).to_set() =~= xv.take(i as int).to_set().insert(xv[i as int]));
            assert(views(r@).to_set() =~= xv.take(i + 1).to_set().difference(yv.to_set()));
        }
        i = i + 1;
    }
    assert(xv.take(xs@.len() as int) =~= xv);
    r
}

fn push_tag_changes(tags: &Vec<String>, added: bool, out: &mut Vec<FieldChange>)
    ensures
        field_views(final(out)@) == field_views(old(out)@) + tag_changes_over(views(tags@), added),
{
    let ghost o = field_views(out@);
    let ghost ks = views(tags@);
    let mut i: usize = 0;
    while i < tags.len()
        invariant
            i <= tags@.len(),
            ks == views(tags@),
            field_views(out@) == o + tag_changes_over(ks.take(i as int), added),
        decreases tags@.len() - i,
    {
        let tag = tags[i].clone();
        if added {
            push_change(out, FieldChange::TagAdded { tag });
        } else {
            push_change(out, FieldChange::TagRemoved { tag });
        }
        proof {
            assert(ks.take(i + 1).drop_last() =~= ks.take(i as int));
            assert(ks.take(i + 1).last() == ks[i as int]);
        }
        i = i + 1;
    }
    assert(ks.take(tags@.len() as int) =~= ks);
}

pub(crate) fn diff_tags(a: &Entry, b: &Entry, out: &mut Vec<FieldChange>)
    ensures
        field_views(final(out)@) == field_views(old(out)@) + tag_changes(*a, *b),
{
    let a_tags = sorted_tags(a);
    let b_tags = sorted_tags(b);
    let added = sorted_difference(&b_tags, &a_tags);
    let removed = sorted_difference(&a_tags, &b_tags);
    proof {
        lemma_sorted_listing(views(added@));
        lemma_sorted_listing(views(removed@));
    }
    let ghost o = field_views(out@);
    push_tag_changes(&added, true, out);
    push_tag_changes(&removed, false, out);
    assert(field_views(out@) =~= o + tag_changes(*a, *b));
}

proof fn lemma_attachment_hash_some(atts: Seq<Attachment>, n: Seq<char>)
    ensures
        attachment_hash(atts, n) is Some <==> exists|i: int|
            0 <= i < atts.len() && (#[trigger] atts[i]).name@ == n && atts[i].content is Some,
    decreases atts.len(),
{
    if atts.len() > 0 {
        lemma_attachment_hash_some(atts.drop_last(), n);
        if attachment_hash(atts, n) is Some && !(atts.last().name@ == n && atts.last().content is Some) {
            let i = choose|i: int|
                0 <= i < atts.drop_last().len() && (#[trigger] atts.drop_last()[i]).name@ == n
                    && atts.drop_last()[i].content is Some;
            assert(atts[i] == atts.drop_last()[i]);
        }
        if exists|i: int| 0 <= i < atts.len() && (#[trigger] atts[i]).name@ == n && atts[i].content is Some {
            let i = choose|i: int| 0 <= i < atts.len() && (#[trigger] atts[i]).name@ == n && atts[i].content is Some;
            if i < atts.len() - 1 {
                assert(atts.drop_last()[i] == atts[i]);
            }
        }
    }
}

/// Adds the names of the entry's attachments with known content to a
/// sorted name list.
fn collect_attachment_names(e: &Entry, names: &mut Vec<String>)
    requires
        str_sorted(views(old(names)@)),
    ensures
        str_sorted(views(final(names)@)),
        views(final(names)@).to_set() == views(old(names)@).to_set().union(attachment_names(e.attachments@)),
{
    let ghost start = views(names@).to_set();
    let ghost atts = e.attachments@;
    proof {
        assert(start.union(attachment_names(atts.take(0))) =~= start) by {
            assert forall|n: Seq<char>| !(attachment_hash(atts.take(0), n) is Some) by {}
        }
    }
    let mut i: usize = 0;
    while i < e.attachments.len()
        invariant
            i <= atts.len(),
            atts == e.attachments@,
            str_sorted(views(names@)),
            views(names@).to_set() == start.union(attachment_names(atts.take(i as int))),
        decreases atts.len() - i,
    {
        let att = &e.attachments[i];
        if att.content.is_some() {
            sorted_insert(names, att.name.clone());
        }
        proof {
            let pre = atts.take(i as int);
            let post = atts.take(i + 1);
            assert(post.drop_last() =~= pre);
            assert forall|n: Seq<char>| attachment_names(post).contains(n) <==> (attachment_names(pre).contains(n) || (
                n == att.name@ && att.content is Some)) by {
                lemma_attachment_hash_some(post, n);
                lemma_attachment_hash_some(pre, n);
                if attachment_names(pre).contains(n) {
                    let k = choose|k: int| 0 <= k < pre.len() && (#[trigger] pre[k]).name@ == n && pre[k].content is Some;
                    assert(post[k] == pre[k]);
                }
                if attachment_names(post).contains(n) {
                    let k = choose|k: int| 0 <= k < post.len() && (#[trigger] post[k]).name@ == n && post[k].content is Some;
                    if k < i {
                        assert(pre[k] == post[k]);
                    }
                }
                if n == att.name@ && att.content is Some {
                    assert(post[i as int] == *att);
                }
            }
            assert(views(names@).to_set() =~= start.union(attachment_names(post)));
        }
        i = i + 1;
    }
    assert(atts.take(atts.len() as int) =~= atts);
}

/// The content hash of the last attachment named `name` with known content.
fn find_attachment_hash(atts: &Vec<Attachment>, name: &str) -> (r: Option<HashPrefix>)
    ensures
        match r {
            Some(h) => attachment_hash(atts@, name@) == Some(h@),
            None => attachment_hash(atts@, name@) is None,
        },
{
    let mut i: usize = atts.len();
    proof {
        assert(atts@.take(i as int) =~= atts@);
    }
    while i > 0
        invariant
            i <= atts@.len(),
            attachment_hash(atts@, name@) == attachment_hash(atts@.take(i as int), name@),
        decreases i,
    {
        let att = &atts[i - 1];
        proof {
            assert(atts@.take(i as int).last() == *att);
            assert(atts@.take(i as int).drop_last() =~= atts@.take(i - 1));
        }
        if str_eq(att.name.as_str(), name) {
            match &att.content {
                Some(content) => {
                    return Some(HashPrefix::of_bytes(content.as_slice()));
                },
                None => {},
            }
        }
        i = i - 1;
    }
    None
}

pub(crate) fn diff_attachments(a: &Entry, b: &Entry, out: &mut Vec<FieldChange>)
    ensures
        field_views(final(out)@) == field_views(old(out)@) + attachment_changes(*a, *b),
{
    let mut keys: Vec<String> = Vec::new();
    proof {
        assert(views(keys@).to_set() =~= Set::<Seq<char>>::empty());
    }
    collect_attachment_names(a, &mut keys);
    collect_attachment_names(b, &mut keys);
    let ghost ks = views(keys@);
    proof {
        assert(ks.to_set() =~= attachment_names(a.attachments@).union(attachment_names(b.attachments@)));
        lemma_sorted_listing(ks);
    }
    let ghost o = field_views(out@);
    let mut i: usize = 0;
    while i < keys.len()
        invariant
            i <= keys@.len(),
            ks == views(keys@),
            field_views(out@) == o + attachment_changes_over(ks.take(i as int), *a, *b),
        decreases keys@.len() - i,
    {
        let key = &keys[i];
        let ha = find_attachment_hash(&a.attachments, key.as_str());
        let hb = find_attachment_hash(&b.attachments, key.as_str());
        let ghost before = field_views(out@);
        match (ha, hb) {
            (None, None) => {
                assert(field_views(out@) =~= before + attachment_change(*a, *b, key@));
            },
            (None, Some(h)) => {
                push_change(out, FieldChange::AttachmentAdded { name: key.clone(), hash: h });
                assert(field_views(out@) =~= before + attachment_change(*a, *b, key@));
            },
            (Some(h), None) => {
                push_change(out, FieldChange::AttachmentRemoved { name: key.clone(), hash: h });
                assert(field_views(out@) =~= before + attachment_change(*a, *b, key@));
            },
            (Some(x), Some(y)) => {
                if x.0 == y.0 {
                    assert(field_views(out@) =~= before + attachment_change(*a, *b, key@));
                } else {
                    push_change(out, FieldChange::AttachmentModified { name: key.clone(), from_hash: x, to_hash: y });
                    assert(field_views(out@) =~= before + attachment_change(*a, *b, key@));
                }
            },
        }
        proof {
            assert(ks.take(i + 1).drop_last() =~= ks.take(i as int));
            assert(ks.take(i + 1).last() == key@);
        }
        i = i + 1;
    }
    assert(ks.take(keys@.len() as int) =~= ks);
}

pub(crate) fn diff_history(a: &Entry, b: &Entry, out: &mut Vec<FieldChange>)
    ensures
        field_views(final(out)@) == field_views(old(out)@) + history_changes(*a, *b),
{
    let la = a.history_len;
    let lb = b.history_len;
    if lb > la {
        push_change(out, FieldChange::HistoryGrew { added: lb - la });
    } else if lb < la {
        push_change(out, FieldChange::HistoryRewritten { from_len: la, to_len: lb });
    }
    assert(field_views(out@) =~= field_views(old(out)@) + history_changes(*a, *b));
}

} // verus!
