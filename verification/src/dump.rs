//! Stable text dump of a vault, used as a git textconv driver.
//!
//! The dump is deterministic and a local edit changes only nearby lines.
//! Each line is independently diffable. Indentation is 2 spaces.

use std::collections::HashMap;
use vstd::prelude::*;

use crate::change_set::{opt_view, spec_value_display, value_text, ValueDisplay};
use crate::compute::{
    find_entry, lookup_entry, map_keys, node_views, or_empty, spec_tree_walk, tree_walk, LocatedNode, NodeKind,
    SpecLocatedNode,
};
use crate::model::{Database, Entry};
use crate::options::{DiffOptions, DumpOptions};
use crate::path::Path;
use crate::text::{
    decimal, joined, lemma_str_lt_irreflexive, lemma_str_lt_total, lemma_str_lt_transitive, lemma_uuid_hyphenated_len,
    push_char, push_decimal, push_joined, push_prefix, push_str, sort_strings, sorted_by, sorted_strings, str_eq,
    str_less, str_lt, strict_order, uuid_hyphenated, uuid_text, views,
};

verus! {

/// A line of text.
pub open spec fn line(t: Seq<char>) -> Seq<char> {
    t.push('\n')
}

/// The header block: name, format version and recycle bin.
pub open spec fn header_text(db: Database) -> Seq<char> {
    line("DATABASE"@) + line("  name: "@ + or_empty(opt_view(db.meta.database_name))) + line(
        "  version: "@ + db.version@,
    ) + line(
        "  recycle_bin: "@ + match db.meta.recyclebin_uuid {
            Some(u) => uuid_hyphenated(u),
            None => "none"@,
        },
    )
}

/// The line of one standard field, under a lowercase label; a missing
/// field shows as empty. `forced` marks the field protected regardless.
pub open spec fn field_line(e: Entry, name: Seq<char>, label: Seq<char>, forced: bool, show: bool) -> Seq<char> {
    line(
        "  "@ + label + ": "@ + value_text(
            spec_value_display(or_empty(e.value_of(name)), forced || e.protected_of(name), show),
        ),
    )
}

/// The tags line, sorted, present only when the entry has tags.
pub open spec fn tags_text(e: Entry) -> Seq<char> {
    if e.tags@.len() == 0 {
        seq![]
    } else {
        line("  tags: "@ + joined(sorted_strings(views(e.tags@)), ", "@))
    }
}

/// The modification line, present when the entry has a modification
/// time, in every mode.
pub open spec fn modified_text(e: Entry) -> Seq<char> {
    match e.last_modification {
        Some(t) => line("  modified: "@ + t@),
        None => seq![],
    }
}

/// The first line of an entry block: its path and a short UUID tag,
/// the first 8 hex digits of the UUID.
pub open spec fn entry_head(uuid: u128, display: Seq<char>) -> Seq<char> {
    line("ENTRY "@ + display + " [uuid:"@ + uuid_hyphenated(uuid).take(8) + "]"@)
}

/// The standard fields in a canonical order; the password is always
/// protected.
pub open spec fn entry_fields(e: Entry, show: bool) -> Seq<char> {
    field_line(e, "Title"@, "title"@, false, show) + field_line(e, "UserName"@, "username"@, false, show)
        + field_line(e, "Password"@, "password"@, true, show) + field_line(e, "URL"@, "url"@, false, show)
        + field_line(e, "Notes"@, "notes"@, false, show)
}

/// Tags, attachment count, history length and modification time.
pub open spec fn entry_tail(e: Entry) -> Seq<char> {
    tags_text(e) + line("  attachments: "@ + decimal(e.attachments@.len())) + line(
        "  history: "@ + decimal(e.history_len as nat) + " entries"@,
    ) + modified_text(e)
}

/// One entry block.
pub open spec fn entry_text(e: Entry, uuid: u128, display: Seq<char>, opts: DumpOptions) -> Seq<char> {
    entry_head(uuid, display) + entry_fields(e, opts.show_secrets) + entry_tail(e)
}

/// The text of one walked node: a group line, or the entry's block.
pub open spec fn node_text(db: Database, n: SpecLocatedNode, opts: DumpOptions) -> Seq<char> {
    match n.kind {
        NodeKind::Group => line("GROUP "@ + n.path.display),
        NodeKind::Entry => match lookup_entry(db.root, n.uuid) {
            Some(e) => entry_text(e, n.uuid, n.path.display, opts),
            None => seq![],
        },
    }
}

/// The order of dumped nodes: by display path, then by UUID.
pub open spec fn key_lt(m: Map<u128, SpecLocatedNode>, x: u128, y: u128) -> bool {
    str_lt(m[x].path.display, m[y].path.display) || (m[x].path.display == m[y].path.display && x < y)
}

/// The keys of `m` in dump order.
pub open spec fn dump_order(m: Map<u128, SpecLocatedNode>) -> Seq<u128> {
    choose|ks: Seq<u128>| sorted_by(ks, |x: u128, y: u128| key_lt(m, x, y)) && ks.to_set() == m.dom()
}

/// The texts of the nodes keyed by `ks`, in order.
pub open spec fn nodes_text(db: Database, m: Map<u128, SpecLocatedNode>, ks: Seq<u128>, opts: DumpOptions) -> Seq<char>
    decreases ks.len(),
{
    if ks.len() == 0 {
        seq![]
    } else {
        nodes_text(db, m, ks.drop_last(), opts) + node_text(db, m[ks.last()], opts)
    }
}

/// The nodes a dump lists: the walk of the tree, recycle bin left out
/// unless asked for.
pub open spec fn dumped_nodes(db: Database, opts: DumpOptions) -> Map<u128, SpecLocatedNode> {
    spec_tree_walk(db, opts.include_recycle_bin)
}

/// The whole dump.
pub open spec fn dump_text(db: Database, opts: DumpOptions) -> Seq<char> {
    header_text(db) + nodes_text(db, dumped_nodes(db, opts), dump_order(dumped_nodes(db, opts)), opts)
}

proof fn lemma_key_lt_strict_order(m: Map<u128, SpecLocatedNode>)
    ensures
        strict_order(|x: u128, y: u128| key_lt(m, x, y)),
{
    assert forall|x: u128| !key_lt(m, x, x) by {
        lemma_str_lt_irreflexive(m[x].path.display);
    }
    assert forall|x: u128, y: u128, z: u128| key_lt(m, x, y) && key_lt(m, y, z) implies key_lt(m, x, z) by {
        if str_lt(m[x].path.display, m[y].path.display) && str_lt(m[y].path.display, m[z].path.display) {
            lemma_str_lt_transitive(m[x].path.display, m[y].path.display, m[z].path.display);
        }
    }
}

fn key_less(map: &HashMap<u128, LocatedNode>, x: u128, y: u128) -> (r: bool)
    requires
        map@.contains_key(x),
        map@.contains_key(y),
    ensures
        r == key_lt(node_views(map@), x, y),
{
    let dx = map.get(&x).unwrap().path.display.as_str();
    let dy = map.get(&y).unwrap().path.display.as_str();
    str_less(dx, dy) || (str_eq(dx, dy) && x < y)
}

/// The keys of the map in dump order.
fn sorted_keys(map: &HashMap<u128, LocatedNode>) -> (r: Vec<u128>)
    ensures
        r@ == dump_order(node_views(map@)),
        r@.to_set() == map@.dom(),
        sorted_by(r@, |x: u128, y: u128| key_lt(node_views(map@), x, y)),
{
    let ghost m = node_views(map@);
    let ghost lt = |x: u128, y: u128| key_lt(m, x, y);
    let keys = map_keys(map);
    let ghost all = keys@;
    let mut out: Vec<u128> = Vec::new();
    let mut i: usize = 0;
    proof {
        lemma_key_lt_strict_order(m);
        assert(m.dom() =~= map@.dom());
        assert(all.take(0).to_set() =~= out@.to_set());
    }
    while i < keys.len()
        invariant
            i <= all.len(),
            all == keys@,
            all.no_duplicates(),
            all.to_set() == map@.dom(),
            m == node_views(map@),
            m.dom() == map@.dom(),
            lt == (|x: u128, y: u128| key_lt(m, x, y)),
            strict_order(lt),
            sorted_by(out@, lt),
            out@.to_set() == all.take(i as int).to_set(),
            out@.len() == i,
        decreases all.len() - i,
    {
        let x = keys[i];
        let ghost ov = out@;
        proof {
            assert(all.to_set().contains(x));
            assert forall|q: int| 0 <= q < ov.len() implies #[trigger] ov[q] != x && map@.contains_key(ov[q]) by {
                assert(all.take(i as int).to_set().contains(ov[q]));
                let j = choose|j: int| 0 <= j < all.take(i as int).len() && all.take(i as int)[j] == ov[q];
                assert(all[j] == ov[q]);
                assert(all.to_set().contains(ov[q]));
            }
        }
        let mut p: usize = 0;
        while p < out.len() && !key_less(map, x, out[p])
            invariant
                p <= out@.len(),
                ov == out@,
                map@.contains_key(x),
                forall|q: int| 0 <= q < ov.len() ==> #[trigger] ov[q] != x && map@.contains_key(ov[q]),
                m == node_views(map@),
                forall|q: int| 0 <= q < p ==> key_lt(m, #[trigger] ov[q], x),
            decreases out@.len() - p,
        {
            proof {
                lemma_str_lt_total(m[ov[p as int]].path.display, m[x].path.display);
            }
            p = p + 1;
        }
        out.insert(p, x);
        proof {
            let nv = out@;
            assert(nv =~= ov.insert(p as int, x));
            assert forall|a: int, b: int| 0 <= a < b < nv.len() implies #[trigger] lt(nv[a], nv[b]) by {
                if b < p {
                    assert(lt(ov[a], ov[b]));
                } else if a < p && b == p {
                } else if a < p && b > p {
                    assert(lt(ov[a], x));
                    if b - 1 > p {
                        assert(lt(ov[p as int], ov[b - 1]));
                    }
                    assert(lt(x, ov[p as int]));
                    assert(lt(ov[a], ov[p as int]));
                } else if a == p {
                    if b - 1 > p {
                        assert(lt(ov[p as int], ov[b - 1]));
                    }
                    assert(lt(x, ov[p as int]));
                } else {
                    assert(lt(ov[a - 1], ov[b - 1]));
                }
            }
            assert(all.take(i + 1) =~= all.take(i as int).push(x));
            all.take(i as int).lemma_push_to_set_commute(x);
            assert forall|c: u128| nv.to_set().contains(c) <==> ov.to_set().insert(x).contains(c) by {
                if nv.to_set().contains(c) {
                    let k = choose|k: int| 0 <= k < nv.len() && nv[k] == c;
                    if k < p {
                        assert(ov[k] == c);
                    } else if k > p {
                        assert(ov[k - 1] == c);
                    }
                }
                if ov.to_set().contains(c) {
                    let k = choose|k: int| 0 <= k < ov.len() && ov[k] == c;
                    if k < p {
                        assert(nv[k] == c);
                    } else {
                        assert(nv[k + 1] == c);
                    }
                }
                if c == x {
                    assert(nv[p as int] == c);
                }
            }
            assert(nv.to_set() =~= all.take(i + 1).to_set());
        }
        i = i + 1;
    }
    proof {
        assert(all.take(all.len() as int) =~= all);
        let target = dump_order(m);
        assert(sorted_by(out@, lt) && out@.to_set() == m.dom());
        crate::text::lemma_sorted_unique(out@, target, lt);
    }
    out
}

/// Emit the header: name, version and recycle bin.
fn dump_header(db: &Database, out: &mut String)
    ensures
        final(out)@ == old(out)@ + header_text(*db),
{
    let ghost o = out@;
    push_str(out, "DATABASE");
    push_char(out, '\n');
    push_str(out, "  name: ");
    match &db.meta.database_name {
        Some(n) => push_str(out, n.as_str()),
        None => {},
    }
    push_char(out, '\n');
    push_str(out, "  version: ");
    push_str(out, db.version.as_str());
    push_char(out, '\n');
    push_str(out, "  recycle_bin: ");
    match db.meta.recyclebin_uuid {
        Some(u) => {
            let t = uuid_text(u);
            push_str(out, t.as_str());
        },
        None => push_str(out, "none"),
    }
    push_char(out, '\n');
    proof {
        assert(out@ =~= o + header_text(*db));
    }
}

/// Emit one standard field line.
fn dump_field(e: &Entry, name: &str, label: &str, forced: bool, show: bool, out: &mut String)
    ensures
        final(out)@ == old(out)@ + field_line(*e, name@, label@, forced, show),
{
    let ghost o = out@;
    let raw = match e.get(name) {
        Some(v) => v.as_str(),
        None => "",
    };
    proof {
        reveal_strlit("");
        assert(raw@ == or_empty(e.value_of(name@)));
    }
    let protected = forced || e.is_protected(name);
    let display = ValueDisplay::from_value(raw, protected, show);
    push_str(out, "  ");
    push_str(out, label);
    push_str(out, ": ");
    match &display {
        ValueDisplay::Plain { value } => push_str(out, value.as_str()),
        ValueDisplay::Masked { hash } => {
            push_str(out, "<hash:");
            push_str(out, hash.0.as_str());
            push_str(out, ">");
        },
    }
    push_char(out, '\n');
    proof {
        assert(out@ =~= o + field_line(*e, name@, label@, forced, show));
    }
}

fn dump_entry_head(uuid: u128, path: &Path, out: &mut String)
    ensures
        final(out)@ == old(out)@ + entry_head(uuid, path.display@),
{
    let ghost o = out@;
    push_str(out, "ENTRY ");
    push_str(out, path.display.as_str());
    push_str(out, " [uuid:");
    let t = uuid_text(uuid);
    proof {
        lemma_uuid_hyphenated_len(uuid);
    }
    push_prefix(out, t.as_str(), 8);
    push_str(out, "]");
    push_char(out, '\n');
    proof {
        assert(out@ =~= o + entry_head(uuid, path.display@));
    }
}

fn dump_entry_fields(e: &Entry, show: bool, out: &mut String)
    ensures
        final(out)@ == old(out)@ + entry_fields(*e, show),
{
    let ghost o = out@;
    dump_field(e, "Title", "title", false, show, out);
    dump_field(e, "UserName", "username", false, show, out);
    dump_field(e, "Password", "password", true, show, out);
    dump_field(e, "URL", "url", false, show, out);
    dump_field(e, "Notes", "notes", false, show, out);
    proof {
        assert(out@ =~= o + entry_fields(*e, show));
    }
}

fn dump_entry_tail(e: &Entry, out: &mut String)
    ensures
        final(out)@ == old(out)@ + entry_tail(*e),
{
    let ghost o = out@;
    // Tags, sorted for stability.
    if e.tags.len() > 0 {
        let tags = sort_strings(&e.tags);
        push_str(out, "  tags: ");
        push_joined(out, &tags, ", ");
        push_char(out, '\n');
    }
    let ghost o1 = out@;
    proof {
        assert(o1 =~= o + tags_text(*e));
    }
    push_str(out, "  attachments: ");
    push_decimal(out, e.attachments.len());
    push_char(out, '\n');
    push_str(out, "  history: ");
    push_decimal(out, e.history_len);
    push_str(out, " entries");
    push_char(out, '\n');
    let ghost o2 = out@;
    proof {
        assert(o2 =~= o1 + line("  attachments: "@ + decimal(e.attachments@.len())) + line(
            "  history: "@ + decimal(e.history_len as nat) + " entries"@,
        ));
    }
    // Modification time.
    match &e.last_modification {
        Some(t) => {
            push_str(out, "  modified: ");
            push_str(out, t.as_str());
            push_char(out, '\n');
        },
        None => {},
    }
    proof {
        assert(out@ =~= o2 + modified_text(*e));
        assert(out@ =~= o + entry_tail(*e));
    }
}

/// Emit one entry block. Fields come in a fixed order so that a
/// single-field change gives a single changed line.
fn dump_entry(e: &Entry, uuid: u128, path: &Path, opts: &DumpOptions, out: &mut String)
    ensures
        final(out)@ == old(out)@ + entry_text(*e, uuid, path.display@, *opts),
{
    let ghost o = out@;
    dump_entry_head(uuid, path, out);
    dump_entry_fields(e, opts.show_secrets, out);
    dump_entry_tail(e, out);
    proof {
        assert(out@ =~= o + entry_text(*e, uuid, path.display@, *opts));
    }
}

/// Emit all groups and entries in path-sorted order. When
/// `opts.include_recycle_bin` is false, the recycle bin and its
/// descendants are left out.
fn dump_groups(db: &Database, opts: &DumpOptions, out: &mut String)
    ensures
        final(out)@ == old(out)@ + nodes_text(*db, dumped_nodes(*db, *opts), dump_order(dumped_nodes(*db, *opts)), *opts),
        sorted_by(
            dump_order(dumped_nodes(*db, *opts)),
            |x: u128, y: u128| key_lt(dumped_nodes(*db, *opts), x, y),
        ),
        dump_order(dumped_nodes(*db, *opts)).to_set() == dumped_nodes(*db, *opts).dom(),
{
    let walk_opts = DiffOptions {
        strict: opts.strict,
        show_secrets: opts.show_secrets,
        include_recycle_bin: opts.include_recycle_bin,
    };
    let map = tree_walk(db, &walk_opts);
    let ghost m = node_views(map@);
    let keys = sorted_keys(&map);
    let ghost o = out@;
    proof {
        assert(m.dom() =~= map@.dom());
        assert(keys@.take(0) =~= Seq::<u128>::empty());
    }
    let mut i: usize = 0;
    while i < keys.len()
        invariant
            i <= keys@.len(),
            m == node_views(map@),
            m == dumped_nodes(*db, *opts),
            keys@.to_set() == m.dom(),
            out@ == o + nodes_text(*db, m, keys@.take(i as int), *opts),
        decreases keys@.len() - i,
    {
        let k = keys[i];
        proof {
            assert(keys@.to_set().contains(k));
            assert(m.dom().contains(k));
        }
        let node = map.get(&k).unwrap();
        let ghost before = out@;
        match node.kind {
            NodeKind::Group => {
                push_str(out, "GROUP ");
                push_str(out, node.path.display.as_str());
                push_char(out, '\n');
            },
            NodeKind::Entry => {
                match find_entry(&db.root, node.uuid) {
                    Some(e) => dump_entry(e, node.uuid, &node.path, opts, out),
                    None => {},
                }
            },
        }
        proof {
            assert(m[k] == node@);
            assert(out@ =~= before + node_text(*db, m[k], *opts));
            assert(keys@.take(i + 1).drop_last() =~= keys@.take(i as int));
        }
        i = i + 1;
    }
    proof {
        assert(keys@.take(keys@.len() as int) =~= keys@);
        let lt = |x: u128, y: u128| key_lt(m, x, y);
        assert(sorted_by(keys@, lt) && keys@.to_set() == m.dom());
    }
}

/// Generate a stable text representation of a vault.
///
/// This output is suitable for use as a git textconv driver: two vaults
/// diffed via `dump` show semantically meaningful line-by-line changes.
pub fn dump(db: &Database, opts: &DumpOptions) -> (r: String)
    ensures
        r@ == dump_text(*db, *opts),
        sorted_by(
            dump_order(dumped_nodes(*db, *opts)),
            |x: u128, y: u128| key_lt(dumped_nodes(*db, *opts), x, y),
        ),
        dump_order(dumped_nodes(*db, *opts)).to_set() == dumped_nodes(*db, *opts).dom(),
{
    let mut out = String::new();
    dump_header(db, &mut out);
    dump_groups(db, opts, &mut out);
    out
}

} // verus!
