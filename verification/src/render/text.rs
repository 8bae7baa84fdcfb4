//! Tree-shaped text rendering of a ChangeSet.

use vstd::prelude::*;

use crate::change_set::{
    change_views, field_views, value_text, warning_views, Change, ChangeSet, DatabaseChange, DiffWarning,
    EntryChangeKind, FieldChange, GroupChangeKind, SpecChange, SpecDatabaseChange, SpecDiffWarning,
    SpecEntryChangeKind, SpecFieldChange, SpecGroupChangeKind, SpecValueChange, Summary, ValueChange, ValueDisplay,
};
use crate::options::RenderOptions;
use crate::path::{Path, SpecPath};
use crate::text::{decimal, push_char, push_decimal, push_str, uuid_hyphenated, uuid_text};

verus! {

/// The `Debug` form of a string: the text in double quotes, with quotes,
/// backslashes and special characters escaped.
pub uninterp spec fn str_debug_form(s: Seq<char>) -> Seq<char>;

/// The `Debug` form of a string.
///
/// Wraps `format!("{:?}", s)`, std's `Debug` for `str`, which writes the
/// text in double quotes with escapes. What those escapes are is not
/// stated here: the result is only named.
#[verifier::external_body]
fn str_debug(s: &str) -> (r: String)
    ensures
        r@ == str_debug_form(s@),
{
    format!("{:?}", s)
}

/// A line of text.
pub open spec fn line(t: Seq<char>) -> Seq<char> {
    t.push('\n')
}

/// The decimal form of a count.
pub open spec fn dec(n: usize) -> Seq<char> {
    decimal(n as nat)
}

/// The summary line.
pub open spec fn summary_text(s: Summary) -> Seq<char> {
    line(
        "summary: +"@ + dec(s.entries_added) + "/-"@ + dec(s.entries_removed) + "/~"@ + dec(s.entries_modified)
            + " entries, +"@ + dec(s.groups_added) + "/-"@ + dec(s.groups_removed) + "/~"@ + dec(
            s.groups_modified,
        ) + " groups, "@ + dec(s.fields_changed) + " fields, "@ + dec(s.suppressed) + " suppressed"@,
    )
}

/// The `Debug` form of a warning, as `derive(Debug)` writes it.
pub open spec fn warning_debug(w: SpecDiffWarning) -> Seq<char> {
    match w {
        SpecDiffWarning::VersionMismatch { a, b } => "VersionMismatch { a: "@ + str_debug_form(a) + ", b: "@
            + str_debug_form(b) + " }"@,
        SpecDiffWarning::HashCollision { plaintext_a_hash_full, plaintext_b_hash_full } => "HashCollision { plaintext_a_hash_full: "@
            + str_debug_form(plaintext_a_hash_full) + ", plaintext_b_hash_full: "@ + str_debug_form(
            plaintext_b_hash_full,
        ) + " }"@,
    }
}

/// One `warning:` line per warning, in order.
pub open spec fn warnings_text(ws: Seq<SpecDiffWarning>) -> Seq<char>
    decreases ws.len(),
{
    if ws.len() == 0 {
        seq![]
    } else {
        warnings_text(ws.drop_last()) + line("warning: "@ + warning_debug(ws.last()))
    }
}

/// A value change: `from -> to`.
pub open spec fn value_change_text(c: SpecValueChange) -> Seq<char> {
    value_text(c.from) + " -> "@ + value_text(c.to)
}

/// The ANSI escape that starts a color.
pub open spec fn color_on(code: Seq<char>) -> Seq<char> {
    "\x1b["@ + code + "m"@
}

/// The ANSI escape that resets the color.
pub open spec fn color_off() -> Seq<char> {
    "\x1b[0m"@
}

/// A line of text, wrapped in the ANSI escapes of color `code` when
/// `color` is set; plain otherwise.
pub open spec fn painted(color: bool, code: Seq<char>, t: Seq<char>) -> Seq<char> {
    (if color {
        color_on(code)
    } else {
        seq![]
    }) + t + (if color {
        color_off()
    } else {
        seq![]
    }) + seq!['\n']
}

/// Green, for what was added.
pub open spec fn green() -> Seq<char> {
    "32"@
}

/// Red, for what was removed.
pub open spec fn red() -> Seq<char> {
    "31"@
}

/// Yellow, for what was modified or moved.
pub open spec fn yellow() -> Seq<char> {
    "33"@
}

/// Cyan, for history and database-level lines.
pub open spec fn cyan() -> Seq<char> {
    "36"@
}

/// The text of one field change's line.
pub open spec fn field_body(f: SpecFieldChange) -> Seq<char> {
    match f {
        SpecFieldChange::Added { name, value } => "  + "@ + name + ": "@ + value_text(value),
        SpecFieldChange::Removed { name, value } => "  - "@ + name + ": "@ + value_text(value),
        SpecFieldChange::Modified { name, change } => "  ~ "@ + name + ": "@ + value_change_text(change),
        SpecFieldChange::TagAdded { tag } => "  + tag: "@ + tag,
        SpecFieldChange::TagRemoved { tag } => "  - tag: "@ + tag,
        SpecFieldChange::AttachmentAdded { name, hash } => "  + attachment "@ + name + " <hash:"@ + hash + ">"@,
        SpecFieldChange::AttachmentRemoved { name, hash } => "  - attachment "@ + name + " <hash:"@ + hash + ">"@,
        SpecFieldChange::AttachmentModified { name, from_hash, to_hash } => "  ~ attachment "@ + name + " [<hash:"@
            + from_hash + "> -> <hash:"@ + to_hash + ">]"@,
        SpecFieldChange::HistoryGrew { added } => "  H "@ + dec(added) + " history entries added"@,
        SpecFieldChange::HistoryRewritten { from_len, to_len } => "  H history rewritten: "@ + dec(from_len) + " -> "@
            + dec(to_len),
    }
}

/// The color of a field change's line.
pub open spec fn field_color(f: SpecFieldChange) -> Seq<char> {
    match f {
        SpecFieldChange::Added { .. } => green(),
        SpecFieldChange::TagAdded { .. } => green(),
        SpecFieldChange::AttachmentAdded { .. } => green(),
        SpecFieldChange::Removed { .. } => red(),
        SpecFieldChange::TagRemoved { .. } => red(),
        SpecFieldChange::AttachmentRemoved { .. } => red(),
        SpecFieldChange::Modified { .. } => yellow(),
        SpecFieldChange::AttachmentModified { .. } => yellow(),
        SpecFieldChange::HistoryGrew { .. } => cyan(),
        SpecFieldChange::HistoryRewritten { .. } => cyan(),
    }
}

/// The line of one field change.
pub open spec fn field_text(f: SpecFieldChange, color: bool) -> Seq<char> {
    painted(color, field_color(f), field_body(f))
}

/// The lines of a list of field changes, in order.
pub open spec fn fields_text(fs: Seq<SpecFieldChange>, color: bool) -> Seq<char>
    decreases fs.len(),
{
    if fs.len() == 0 {
        seq![]
    } else {
        fields_text(fs.drop_last(), color) + field_text(fs.last(), color)
    }
}

/// The `Debug` form of an optional string.
pub open spec fn opt_str_debug(o: Option<Seq<char>>) -> Seq<char> {
    match o {
        Some(s) => "Some("@ + str_debug_form(s) + ")"@,
        None => "None"@,
    }
}

/// The `Debug` form of an optional UUID.
pub open spec fn opt_uuid_debug(o: Option<u128>) -> Seq<char> {
    match o {
        Some(u) => "Some("@ + uuid_hyphenated(u) + ")"@,
        None => "None"@,
    }
}

/// The text of a database-level change's line.
pub open spec fn database_body(d: SpecDatabaseChange) -> Seq<char> {
    match d {
        SpecDatabaseChange::NameChanged { from, to } => "DATABASE name: "@ + from + " -> "@ + to,
        SpecDatabaseChange::ColorChanged { from, to } => "DATABASE color: "@ + opt_str_debug(from) + " -> "@
            + opt_str_debug(to),
        SpecDatabaseChange::RecycleBinChanged { from, to } => "DATABASE recycle_bin: "@ + opt_uuid_debug(from)
            + " -> "@ + opt_uuid_debug(to),
        SpecDatabaseChange::CustomDataModified { key, change } => "DATABASE custom_data["@ + key + "]: "@
            + value_change_text(change),
        SpecDatabaseChange::CustomDataAdded { key, value } => "DATABASE custom_data["@ + key + "] = "@ + value_text(
            value,
        ),
        SpecDatabaseChange::CustomDataRemoved { key, value } => "DATABASE custom_data["@ + key + "] removed (was "@
            + value_text(value) + ")"@,
    }
}

/// The line of a database-level change.
pub open spec fn database_text(d: SpecDatabaseChange, color: bool) -> Seq<char> {
    painted(color, cyan(), database_body(d))
}

/// The lines of a group change.
pub open spec fn group_text(path: SpecPath, kind: SpecGroupChangeKind, color: bool) -> Seq<char> {
    match kind {
        SpecGroupChangeKind::Added => painted(color, green(), "+ GROUP "@ + path.display),
        SpecGroupChangeKind::Removed => painted(color, red(), "- GROUP "@ + path.display),
        SpecGroupChangeKind::Moved { to } => painted(color, yellow(), "~ GROUP "@ + path.display + " -> "@ + to.display),
        SpecGroupChangeKind::Renamed { from, to } => painted(
            color,
            yellow(),
            "~ GROUP "@ + path.display + " (renamed: "@ + from + " -> "@ + to + ")"@,
        ),
        SpecGroupChangeKind::PropertiesChanged { fields } => painted(color, yellow(), "~ GROUP "@ + path.display)
            + fields_text(fields, color),
    }
}

/// The lines of an entry change.
pub open spec fn entry_change_text(path: SpecPath, kind: SpecEntryChangeKind, color: bool) -> Seq<char> {
    match kind {
        SpecEntryChangeKind::Added => painted(color, green(), "+ ENTRY "@ + path.display),
        SpecEntryChangeKind::Removed => painted(color, red(), "- ENTRY "@ + path.display),
        SpecEntryChangeKind::Moved { to } => painted(color, yellow(), "~ ENTRY "@ + path.display + " -> "@ + to.display),
        SpecEntryChangeKind::Modified { fields } => painted(color, yellow(), "~ ENTRY "@ + path.display) + fields_text(
            fields,
            color,
        ),
    }
}

/// The lines of one change.
pub open spec fn change_text(c: SpecChange, color: bool) -> Seq<char> {
    match c {
        SpecChange::Database(d) => database_text(d, color),
        SpecChange::Group { path, kind, .. } => group_text(path, kind, color),
        SpecChange::Entry { path, kind, .. } => entry_change_text(path, kind, color),
    }
}

/// The lines of a list of changes, in order.
pub open spec fn changes_text(cs: Seq<SpecChange>, color: bool) -> Seq<char>
    decreases cs.len(),
{
    if cs.len() == 0 {
        seq![]
    } else {
        changes_text(cs.drop_last(), color) + change_text(cs.last(), color)
    }
}

/// The whole rendering: summary, warnings, then each change (in ANSI
/// colors when `color` is set), or `(no changes)` when there is none.
pub open spec fn render_text(
    changes: Seq<SpecChange>,
    summary: Summary,
    warnings: Seq<SpecDiffWarning>,
    color: bool,
) -> Seq<char> {
    summary_text(summary) + warnings_text(warnings) + if changes.len() == 0 {
        line("(no changes)"@)
    } else {
        changes_text(changes, color)
    }
}

/// Appends the summary line.
pub fn render_summary(s: &Summary, out: &mut String)
    ensures
        final(out)@ == old(out)@ + summary_text(*s),
{
    let ghost o = out@;
    push_str(out, "summary: +");
    push_decimal(out, s.entries_added);
    push_str(out, "/-");
    push_decimal(out, s.entries_removed);
    push_str(out, "/~");
    push_decimal(out, s.entries_modified);
    push_str(out, " entries, +");
    push_decimal(out, s.groups_added);
    push_str(out, "/-");
    push_decimal(out, s.groups_removed);
    push_str(out, "/~");
    push_decimal(out, s.groups_modified);
    push_str(out, " groups, ");
    push_decimal(out, s.fields_changed);
    push_str(out, " fields, ");
    push_decimal(out, s.suppressed);
    push_str(out, " suppressed");
    push_char(out, '\n');
    proof {
        assert(out@ =~= o + summary_text(*s));
    }
}

fn push_warning(w: &DiffWarning, out: &mut String)
    ensures
        final(out)@ == old(out)@ + line("warning: "@ + warning_debug(w@)),
{
    let ghost o = out@;
    push_str(out, "warning: ");
    match w {
        DiffWarning::VersionMismatch { a, b } => {
            push_str(out, "VersionMismatch { a: ");
            push_str(out, str_debug(a.as_str()).as_str());
            push_str(out, ", b: ");
            push_str(out, str_debug(b.as_str()).as_str());
            push_str(out, " }");
        },
        DiffWarning::HashCollision { plaintext_a_hash_full, plaintext_b_hash_full } => {
            push_str(out, "HashCollision { plaintext_a_hash_full: ");
            push_str(out, str_debug(plaintext_a_hash_full.as_str()).as_str());
            push_str(out, ", plaintext_b_hash_full: ");
            push_str(out, str_debug(plaintext_b_hash_full.as_str()).as_str());
            push_str(out, " }");
        },
    }
    push_char(out, '\n');
    proof {
        assert(out@ =~= o + line("warning: "@ + warning_debug(w@)));
    }
}

/// Appends one `warning:` line per warning.
pub fn render_warnings(warnings: &[DiffWarning], out: &mut String)
    ensures
        final(out)@ == old(out)@ + warnings_text(warning_views(warnings@)),
{
    let ghost o = out@;
    let ghost ws = warning_views(warnings@);
    let mut i: usize = 0;
    proof {
        assert(ws.take(0) =~= Seq::<SpecDiffWarning>::empty());
    }
    while i < warnings.len()
        invariant
            i <= warnings@.len(),
            ws == warning_views(warnings@),
            out@ == o + warnings_text(ws.take(i as int)),
        decreases warnings@.len() - i,
    {
        push_warning(&warnings[i], out);
        proof {
            assert(ws.take(i + 1).drop_last() =~= ws.take(i as int));
            assert(ws.take(i + 1).last() == warnings@[i as int]@);
        }
        i = i + 1;
    }
    proof {
        assert(ws.take(warnings@.len() as int) =~= ws);
    }
}

/// A value as shown: itself, or its hash prefix in `<hash:..>`.
pub fn fmt_value_display(v: &ValueDisplay) -> (r: String)
    ensures
        r@ == value_text(v@),
{
    match v {
        ValueDisplay::Plain { value } => value.clone(),
        ValueDisplay::Masked { hash } => {
            let mut s = String::new();
            push_str(&mut s, "<hash:");
            push_str(&mut s, hash.0.as_str());
            push_str(&mut s, ">");
            s
        },
    }
}

/// A value change as `from -> to`.
pub fn fmt_value_change(c: &ValueChange) -> (r: String)
    ensures
        r@ == value_change_text(c@),
{
    let mut s = fmt_value_display(&c.from);
    push_str(&mut s, " -> ");
    push_str(&mut s, fmt_value_display(&c.to).as_str());
    s
}

fn start_color(out: &mut String, color: bool, code: &str)
    ensures
        final(out)@ == old(out)@ + (if color {
            color_on(code@)
        } else {
            seq![]
        }),
{
    if color {
        push_str(out, "\x1b[");
        push_str(out, code);
        push_str(out, "m");
    }
    proof {
        if !color {
            assert(out@ =~= old(out)@ + Seq::<char>::empty());
        }
    }
}

fn end_line(out: &mut String, color: bool)
    ensures
        final(out)@ == old(out)@ + (if color {
            color_off()
        } else {
            seq![]
        }) + seq!['\n'],
{
    if color {
        push_str(out, "\x1b[0m");
    }
    push_char(out, '\n');
    proof {
        if !color {
            assert(out@ =~= old(out)@ + Seq::<char>::empty() + seq!['\n']);
        }
    }
}

fn field_color_code(f: &FieldChange) -> (r: &'static str)
    ensures
        r@ == field_color(f@),
{
    match f {
        FieldChange::Added { .. } => "32",
        FieldChange::TagAdded { .. } => "32",
        FieldChange::AttachmentAdded { .. } => "32",
        FieldChange::Removed { .. } => "31",
        FieldChange::TagRemoved { .. } => "31",
        FieldChange::AttachmentRemoved { .. } => "31",
        FieldChange::Modified { .. } => "33",
        FieldChange::AttachmentModified { .. } => "33",
        FieldChange::HistoryGrew { .. } => "36",
        FieldChange::HistoryRewritten { .. } => "36",
    }
}

fn push_field_body(f: &FieldChange, out: &mut String)
    ensures
        final(out)@ == old(out)@ + field_body(f@),
{
    let ghost o = out@;
    match f {
        FieldChange::Added { name, value } => {
            push_str(out, "  + ");
            push_str(out, name.as_str());
            push_str(out, ": ");
            push_str(out, fmt_value_display(value).as_str());
        },
        FieldChange::Removed { name, value } => {
            push_str(out, "  - ");
            push_str(out, name.as_str());
            push_str(out, ": ");
            push_str(out, fmt_value_display(value).as_str());
        },
        FieldChange::Modified { name, change } => {
            push_str(out, "  ~ ");
            push_str(out, name.as_str());
            push_str(out, ": ");
            push_str(out, fmt_value_change(change).as_str());
        },
        FieldChange::TagAdded { tag } => {
            push_str(out, "  + tag: ");
            push_str(out, tag.as_str());
        },
        FieldChange::TagRemoved { tag } => {
            push_str(out, "  - tag: ");
            push_str(out, tag.as_str());
        },
        FieldChange::AttachmentAdded { name, hash } => {
            push_str(out, "  + attachment ");
            push_str(out, name.as_str());
            push_str(out, " <hash:");
            push_str(out, hash.0.as_str());
            push_str(out, ">");
        },
        FieldChange::AttachmentRemoved { name, hash } => {
            push_str(out, "  - attachment ");
            push_str(out, name.as_str());
            push_str(out, " <hash:");
            push_str(out, hash.0.as_str());
            push_str(out, ">");
        },
        FieldChange::AttachmentModified { name, from_hash, to_hash } => {
            push_str(out, "  ~ attachment ");
            push_str(out, name.as_str());
            push_str(out, " [<hash:");
            push_str(out, from_hash.0.as_str());
            push_str(out, "> -> <hash:");
            push_str(out, to_hash.0.as_str());
            push_str(out, ">]");
        },
        FieldChange::HistoryGrew { added } => {
            push_str(out, "  H ");
            push_decimal(out, *added);
            push_str(out, " history entries added");
        },
        FieldChange::HistoryRewritten { from_len, to_len } => {
            push_str(out, "  H history rewritten: ");
            push_decimal(out, *from_len);
            push_str(out, " -> ");
            push_decimal(out, *to_len);
        },
    }
    proof {
        assert(out@ =~= o + field_body(f@));
    }
}

fn render_field_in(f: &FieldChange, color: bool, out: &mut String)
    ensures
        final(out)@ == old(out)@ + field_text(f@, color),
{
    let ghost o = out@;
    start_color(out, color, field_color_code(f));
    push_field_body(f, out);
    end_line(out, color);
    proof {
        assert(out@ =~= o + field_text(f@, color));
    }
}

/// Appends the line of one field change, without color.
pub fn render_field(f: &FieldChange, out: &mut String)
    ensures
        final(out)@ == old(out)@ + field_text(f@, false),
{
    render_field_in(f, false, out);
}

fn render_fields(fields: &Vec<FieldChange>, color: bool, out: &mut String)
    ensures
        final(out)@ == old(out)@ + fields_text(field_views(fields@), color),
{
    let ghost o = out@;
    let ghost fs = field_views(fields@);
    let mut i: usize = 0;
    proof {
        assert(fs.take(0) =~= Seq::<SpecFieldChange>::empty());
    }
    while i < fields.len()
        invariant
            i <= fields@.len(),
            fs == field_views(fields@),
            out@ == o + fields_text(fs.take(i as int), color),
        decreases fields@.len() - i,
    {
        render_field_in(&fields[i], color, out);
        proof {
            assert(fs.take(i + 1).drop_last() =~= fs.take(i as int));
            assert(fs.take(i + 1).last() == fields@[i as int]@);
        }
        i = i + 1;
    }
    proof {
        assert(fs.take(fields@.len() as int) =~= fs);
    }
}

fn push_opt_str_debug(o: &Option<String>, out: &mut String)
    ensures
        final(out)@ == old(out)@ + opt_str_debug(crate::change_set::opt_view(*o)),
{
    match o {
        Some(s) => {
            push_str(out, "Some(");
            push_str(out, str_debug(s.as_str()).as_str());
            push_str(out, ")");
        },
        None => push_str(out, "None"),
    }
}

fn push_opt_uuid_debug(o: Option<u128>, out: &mut String)
    ensures
        final(out)@ == old(out)@ + opt_uuid_debug(o),
{
    match o {
        Some(u) => {
            push_str(out, "Some(");
            push_str(out, uuid_text(u).as_str());
            push_str(out, ")");
        },
        None => push_str(out, "None"),
    }
}

fn push_database_body(d: &DatabaseChange, out: &mut String)
    ensures
        final(out)@ == old(out)@ + database_body(d@),
{
    let ghost o = out@;
    match d {
        DatabaseChange::NameChanged { from, to } => {
            push_str(out, "DATABASE name: ");
            push_str(out, from.as_str());
            push_str(out, " -> ");
            push_str(out, to.as_str());
        },
        DatabaseChange::ColorChanged { from, to } => {
            push_str(out, "DATABASE color: ");
            push_opt_str_debug(from, out);
            push_str(out, " -> ");
            push_opt_str_debug(to, out);
        },
        DatabaseChange::RecycleBinChanged { from, to } => {
            push_str(out, "DATABASE recycle_bin: ");
            push_opt_uuid_debug(*from, out);
            push_str(out, " -> ");
            push_opt_uuid_debug(*to, out);
        },
        DatabaseChange::CustomDataModified { key, change } => {
            push_str(out, "DATABASE custom_data[");
            push_str(out, key.as_str());
            push_str(out, "]: ");
            push_str(out, fmt_value_change(change).as_str());
        },
        DatabaseChange::CustomDataAdded { key, value } => {
            push_str(out, "DATABASE custom_data[");
            push_str(out, key.as_str());
            push_str(out, "] = ");
            push_str(out, fmt_value_display(value).as_str());
        },
        DatabaseChange::CustomDataRemoved { key, value } => {
            push_str(out, "DATABASE custom_data[");
            push_str(out, key.as_str());
            push_str(out, "] removed (was ");
            push_str(out, fmt_value_display(value).as_str());
            push_str(out, ")");
        },
    }
    proof {
        assert(out@ =~= o + database_body(d@));
    }
}

fn render_database(d: &DatabaseChange, color: bool, out: &mut String)
    ensures
        final(out)@ == old(out)@ + database_text(d@, color),
{
    let ghost o = out@;
    start_color(out, color, "36");
    push_database_body(d, out);
    end_line(out, color);
    proof {
        assert(out@ =~= o + database_text(d@, color));
    }
}

/// Appends one painted line: `head`, the path, and `tail`.
fn push_node_line(head: &str, path: &Path, tail: &str, color: bool, code: &str, out: &mut String)
    ensures
        final(out)@ == old(out)@ + painted(color, code@, head@ + path.display@ + tail@),
{
    let ghost o = out@;
    start_color(out, color, code);
    push_str(out, head);
    push_str(out, path.display.as_str());
    push_str(out, tail);
    end_line(out, color);
    proof {
        assert(out@ =~= o + painted(color, code@, head@ + path.display@ + tail@));
    }
}

fn render_group(path: &Path, kind: &GroupChangeKind, color: bool, out: &mut String)
    ensures
        final(out)@ == old(out)@ + group_text(path@, kind@, color),
{
    let ghost o = out@;
    match kind {
        GroupChangeKind::Added => {
            push_node_line("+ GROUP ", path, "", color, "32", out);
            proof {
                reveal_strlit("");
                assert("+ GROUP "@ + path.display@ + ""@ =~= "+ GROUP "@ + path.display@);
            }
        },
        GroupChangeKind::Removed => {
            push_node_line("- GROUP ", path, "", color, "31", out);
            proof {
                reveal_strlit("");
                assert("- GROUP "@ + path.display@ + ""@ =~= "- GROUP "@ + path.display@);
            }
        },
        GroupChangeKind::Moved { to } => {
            let mut tail = String::new();
            push_str(&mut tail, " -> ");
            push_str(&mut tail, to.display.as_str());
            push_node_line("~ GROUP ", path, tail.as_str(), color, "33", out);
            proof {
                assert("~ GROUP "@ + path.display@ + tail@ =~= "~ GROUP "@ + path.display@ + " -> "@ + to.display@);
            }
        },
        GroupChangeKind::Renamed { from, to } => {
            let mut tail = String::new();
            push_str(&mut tail, " (renamed: ");
            push_str(&mut tail, from.as_str());
            push_str(&mut tail, " -> ");
            push_str(&mut tail, to.as_str());
            push_str(&mut tail, ")");
            push_node_line("~ GROUP ", path, tail.as_str(), color, "33", out);
            proof {
                assert("~ GROUP "@ + path.display@ + tail@ =~= "~ GROUP "@ + path.display@ + " (renamed: "@ + from@
                    + " -> "@ + to@ + ")"@);
            }
        },
        GroupChangeKind::PropertiesChanged { fields } => {
            push_node_line("~ GROUP ", path, "", color, "33", out);
            proof {
                reveal_strlit("");
                assert("~ GROUP "@ + path.display@ + ""@ =~= "~ GROUP "@ + path.display@);
            }
            let ghost mid = out@;
            render_fields(fields, color, out);
            proof {
                assert(out@ =~= mid + fields_text(field_views(fields@), color));
            }
        },
    }
    proof {
        assert(out@ =~= o + group_text(path@, kind@, color));
    }
}

fn render_entry(path: &Path, kind: &EntryChangeKind, color: bool, out: &mut String)
    ensures
        final(out)@ == old(out)@ + entry_change_text(path@, kind@, color),
{
    let ghost o = out@;
    match kind {
        EntryChangeKind::Added => {
            push_node_line("+ ENTRY ", path, "", color, "32", out);
            proof {
                reveal_strlit("");
                assert("+ ENTRY "@ + path.display@ + ""@ =~= "+ ENTRY "@ + path.display@);
            }
        },
        EntryChangeKind::Removed => {
            push_node_line("- ENTRY ", path, "", color, "31", out);
            proof {
                reveal_strlit("");
                assert("- ENTRY "@ + path.display@ + ""@ =~= "- ENTRY "@ + path.display@);
            }
        },
        EntryChangeKind::Moved { to } => {
            let mut tail = String::new();
            push_str(&mut tail, " -> ");
            push_str(&mut tail, to.display.as_str());
            push_node_line("~ ENTRY ", path, tail.as_str(), color, "33", out);
            proof {
                assert("~ ENTRY "@ + path.display@ + tail@ =~= "~ ENTRY "@ + path.display@ + " -> "@ + to.display@);
            }
        },
        EntryChangeKind::Modified { fields } => {
            push_node_line("~ ENTRY ", path, "", color, "33", out);
            proof {
                reveal_strlit("");
                assert("~ ENTRY "@ + path.display@ + ""@ =~= "~ ENTRY "@ + path.display@);
            }
            render_fields(fields, color, out);
        },
    }
    proof {
        assert(out@ =~= o + entry_change_text(path@, kind@, color));
    }
}

fn render_change(c: &Change, color: bool, out: &mut String)
    ensures
        final(out)@ == old(out)@ + change_text(c@, color),
{
    match c {
        Change::Database(d) => render_database(d, color, out),
        Change::Group { path, kind, .. } => render_group(path, kind, color, out),
        Change::Entry { path, kind, .. } => render_entry(path, kind, color, out),
    }
}

proof fn lemma_changes_text_first(cs: Seq<SpecChange>, color: bool)
    requires
        cs.len() > 0,
    ensures
        changes_text(cs, color) == change_text(cs[0], color) + changes_text(cs.drop_first(), color),
    decreases cs.len(),
{
    if cs.len() == 1 {
        assert(cs.drop_last() =~= Seq::<SpecChange>::empty());
        assert(cs.drop_first() =~= Seq::<SpecChange>::empty());
        assert(changes_text(cs, color) =~= change_text(cs[0], color) + changes_text(cs.drop_first(), color));
    } else {
        lemma_changes_text_first(cs.drop_last(), color);
        assert(cs.drop_last().drop_first() =~= cs.drop_first().drop_last());
        assert(cs.drop_first().last() == cs.last());
        assert(cs.drop_last()[0] == cs[0]);
        assert(changes_text(cs, color) =~= change_text(cs[0], color) + changes_text(cs.drop_first(), color));
    }
}

proof fn lemma_painted_starts_with_escape(code: Seq<char>, t: Seq<char>, rest: Seq<char>)
    ensures
        (painted(true, code, t) + rest).len() >= 2,
        (painted(true, code, t) + rest).subrange(0, 2) == seq!['\x1b', '['],
{
    reveal_strlit("\x1b[");
    let p = painted(true, code, t);
    assert(p == color_on(code) + t + color_off() + seq!['\n']);
    assert((p + rest)[0] == '\x1b');
    assert((p + rest)[1] == '[');
    assert((p + rest).subrange(0, 2) =~= seq!['\x1b', '[']);
}

proof fn lemma_change_text_starts_with_escape(c: SpecChange)
    ensures
        change_text(c, true).len() >= 2,
        change_text(c, true).subrange(0, 2) == seq!['\x1b', '['],
{
    match c {
        SpecChange::Database(d) => {
            lemma_painted_starts_with_escape(cyan(), database_body(d), seq![]);
            assert(painted(true, cyan(), database_body(d)) + seq![] =~= change_text(c, true));
        },
        SpecChange::Group { path, kind, .. } => {
            match kind {
                SpecGroupChangeKind::Added => {
                    lemma_painted_starts_with_escape(green(), "+ GROUP "@ + path.display, seq![]);
                    assert(painted(true, green(), "+ GROUP "@ + path.display) + seq![] =~= change_text(c, true));
                },
                SpecGroupChangeKind::Removed => {
                    lemma_painted_starts_with_escape(red(), "- GROUP "@ + path.display, seq![]);
                    assert(painted(true, red(), "- GROUP "@ + path.display) + seq![] =~= change_text(c, true));
                },
                SpecGroupChangeKind::Moved { to } => {
                    let t = "~ GROUP "@ + path.display + " -> "@ + to.display;
                    lemma_painted_starts_with_escape(yellow(), t, seq![]);
                    assert(painted(true, yellow(), t) + seq![] =~= change_text(c, true));
                },
                SpecGroupChangeKind::Renamed { from, to } => {
                    let t = "~ GROUP "@ + path.display + " (renamed: "@ + from + " -> "@ + to + ")"@;
                    lemma_painted_starts_with_escape(yellow(), t, seq![]);
                    assert(painted(true, yellow(), t) + seq![] =~= change_text(c, true));
                },
                SpecGroupChangeKind::PropertiesChanged { fields } => {
                    lemma_painted_starts_with_escape(yellow(), "~ GROUP "@ + path.display, fields_text(fields, true));
                },
            }
        },
        SpecChange::Entry { path, kind, .. } => {
            match kind {
                SpecEntryChangeKind::Added => {
                    lemma_painted_starts_with_escape(green(), "+ ENTRY "@ + path.display, seq![]);
                    assert(painted(true, green(), "+ ENTRY "@ + path.display) + seq![] =~= change_text(c, true));
                },
                SpecEntryChangeKind::Removed => {
                    lemma_painted_starts_with_escape(red(), "- ENTRY "@ + path.display, seq![]);
                    assert(painted(true, red(), "- ENTRY "@ + path.display) + seq![] =~= change_text(c, true));
                },
                SpecEntryChangeKind::Moved { to } => {
                    let t = "~ ENTRY "@ + path.display + " -> "@ + to.display;
                    lemma_painted_starts_with_escape(yellow(), t, seq![]);
                    assert(painted(true, yellow(), t) + seq![] =~= change_text(c, true));
                },
                SpecEntryChangeKind::Modified { fields } => {
                    lemma_painted_starts_with_escape(yellow(), "~ ENTRY "@ + path.display, fields_text(fields, true));
                },
            }
        },
    }
}

/// With color on and at least one change, the change lines start with an
/// ANSI color escape (`ESC [`) right after the summary and warnings.
pub proof fn law_color_marks_changes(changes: Seq<SpecChange>, summary: Summary, warnings: Seq<SpecDiffWarning>)
    requires
        changes.len() > 0,
    ensures
        ({
            let p = (summary_text(summary) + warnings_text(warnings)).len();
            render_text(changes, summary, warnings, true).subrange(p as int, p + 2int) == seq!['\x1b', '[']
        }),
{
    lemma_changes_text_first(changes, true);
    let t = change_text(changes[0], true);
    lemma_change_text_starts_with_escape(changes[0]);
    let head = summary_text(summary) + warnings_text(warnings);
    let all = render_text(changes, summary, warnings, true);
    assert(all =~= head + (t + changes_text(changes.drop_first(), true)));
    assert(all.subrange(head.len() as int, head.len() + 2int) =~= t.subrange(0, 2));
}

proof fn lemma_changes_text_append(a: Seq<SpecChange>, b: Seq<SpecChange>, color: bool)
    ensures
        changes_text(a + b, color) == changes_text(a, color) + changes_text(b, color),
    decreases b.len(),
{
    if b.len() == 0 {
        assert(a + b =~= a);
        assert(changes_text(b, color) =~= Seq::<char>::empty());
        assert(changes_text(a, color) + changes_text(b, color) =~= changes_text(a, color));
    } else {
        lemma_changes_text_append(a, b.drop_last(), color);
        assert((a + b).drop_last() =~= a + b.drop_last());
        assert((a + b).last() == b.last());
        assert(changes_text(a + b, color) =~= changes_text(a, color) + changes_text(b, color));
    }
}

proof fn lemma_fields_text_append(a: Seq<SpecFieldChange>, b: Seq<SpecFieldChange>, color: bool)
    ensures
        fields_text(a + b, color) == fields_text(a, color) + fields_text(b, color),
    decreases b.len(),
{
    if b.len() == 0 {
        assert(a + b =~= a);
        assert(fields_text(b, color) =~= Seq::<char>::empty());
        assert(fields_text(a, color) + fields_text(b, color) =~= fields_text(a, color));
    } else {
        lemma_fields_text_append(a, b.drop_last(), color);
        assert((a + b).drop_last() =~= a + b.drop_last());
        assert((a + b).last() == b.last());
        assert(fields_text(a + b, color) =~= fields_text(a, color) + fields_text(b, color));
    }
}

/// The rendering of a non-empty change list, split at change `i`: what
/// comes before it, its own lines, and what comes after it.
proof fn lemma_render_split(
    changes: Seq<SpecChange>,
    summary: Summary,
    warnings: Seq<SpecDiffWarning>,
    color: bool,
    i: int,
)
    requires
        0 <= i < changes.len(),
    ensures
        render_text(changes, summary, warnings, color) == summary_text(summary) + warnings_text(warnings)
            + changes_text(changes.take(i), color) + change_text(changes[i], color) + changes_text(
            changes.skip(i + 1),
            color,
        ),
{
    let before = changes.take(i);
    let after = changes.skip(i + 1);
    assert(changes =~= before + (seq![changes[i]] + after));
    lemma_changes_text_append(before, seq![changes[i]] + after, color);
    lemma_changes_text_append(seq![changes[i]], after, color);
    let one = seq![changes[i]];
    assert(one.drop_last() =~= Seq::<SpecChange>::empty());
    assert(changes_text(one.drop_last(), color) =~= Seq::<char>::empty());
    assert(one.last() == changes[i]);
    assert(changes_text(one, color) =~= change_text(changes[i], color));
}

/// The lines of a list of field changes, split at change `j`.
proof fn lemma_fields_split(fs: Seq<SpecFieldChange>, color: bool, j: int)
    requires
        0 <= j < fs.len(),
    ensures
        fields_text(fs, color) == fields_text(fs.take(j), color) + field_text(fs[j], color) + fields_text(
            fs.skip(j + 1),
            color,
        ),
{
    let before = fs.take(j);
    let after = fs.skip(j + 1);
    assert(fs =~= before + (seq![fs[j]] + after));
    lemma_fields_text_append(before, seq![fs[j]] + after, color);
    lemma_fields_text_append(seq![fs[j]], after, color);
    let one = seq![fs[j]];
    assert(one.drop_last() =~= Seq::<SpecFieldChange>::empty());
    assert(fields_text(one.drop_last(), color) =~= Seq::<char>::empty());
    assert(one.last() == fs[j]);
    assert(fields_text(one, color) =~= field_text(fs[j], color));
}

/// The rendering of a modified entry's field change `j`, in context.
proof fn lemma_render_field_split(
    changes: Seq<SpecChange>,
    summary: Summary,
    warnings: Seq<SpecDiffWarning>,
    i: int,
    j: int,
)
    requires
        0 <= i < changes.len(),
        changes[i] is Entry,
        changes[i]->Entry_kind is Modified,
        0 <= j < (changes[i]->Entry_kind)->Modified_fields.len(),
    ensures
        ({
            let fs = (changes[i]->Entry_kind)->Modified_fields;
            render_text(changes, summary, warnings, false) == summary_text(summary) + warnings_text(warnings)
                + changes_text(changes.take(i), false) + ("~ ENTRY "@ + changes[i]->Entry_path.display + seq!['\n'])
                + fields_text(fs.take(j), false) + field_text(fs[j], false) + fields_text(fs.skip(j + 1), false)
                + changes_text(changes.skip(i + 1), false)
        }),
{
    let fs = (changes[i]->Entry_kind)->Modified_fields;
    let head = "~ ENTRY "@ + changes[i]->Entry_path.display;
    lemma_render_split(changes, summary, warnings, false, i);
    lemma_fields_split(fs, false, j);
    assert(painted(false, yellow(), head) =~= head + seq!['\n']);
    assert(change_text(changes[i], false) == painted(false, yellow(), head) + fields_text(fs, false));
    let pre = summary_text(summary) + warnings_text(warnings) + changes_text(changes.take(i), false);
    let post = changes_text(changes.skip(i + 1), false);
    let a = fields_text(fs.take(j), false);
    let f = field_text(fs[j], false);
    let b = fields_text(fs.skip(j + 1), false);
    assert(pre + ((head + seq!['\n']) + (a + f + b)) + post =~= pre + (head + seq!['\n']) + a + f + b + post);
}

/// In plain text, an entry move is rendered, at the place of the change,
/// as the line `~ ENTRY <path> -> <to>`: the path the change is listed at
/// (where the entry was) before the arrow, its destination after it.
pub proof fn law_render_entry_move_line(
    changes: Seq<SpecChange>,
    summary: Summary,
    warnings: Seq<SpecDiffWarning>,
    i: int,
)
    requires
        0 <= i < changes.len(),
        changes[i] is Entry,
        changes[i]->Entry_kind is Moved,
    ensures
        render_text(changes, summary, warnings, false) == summary_text(summary) + warnings_text(warnings)
            + changes_text(changes.take(i), false) + ("~ ENTRY "@ + changes[i]->Entry_path.display + " -> "@
            + (changes[i]->Entry_kind)->Moved_to.display + seq!['\n']) + changes_text(changes.skip(i + 1), false),
{
    lemma_render_split(changes, summary, warnings, false, i);
}

/// In plain text, a group move is rendered, at the place of the change,
/// as the line `~ GROUP <path> -> <to>`: the group's old path before the
/// arrow, its destination after it.
pub proof fn law_render_group_move_line(
    changes: Seq<SpecChange>,
    summary: Summary,
    warnings: Seq<SpecDiffWarning>,
    i: int,
)
    requires
        0 <= i < changes.len(),
        changes[i] is Group,
        changes[i]->Group_kind is Moved,
    ensures
        render_text(changes, summary, warnings, false) == summary_text(summary) + warnings_text(warnings)
            + changes_text(changes.take(i), false) + ("~ GROUP "@ + changes[i]->Group_path.display + " -> "@
            + (changes[i]->Group_kind)->Moved_to.display + seq!['\n']) + changes_text(changes.skip(i + 1), false),
{
    lemma_render_split(changes, summary, warnings, false, i);
}

/// In plain text, a group rename is rendered, at the place of the change,
/// as the line `~ GROUP <path> (renamed: <from> -> <to>)`: the old name
/// before the arrow, the new one after it.
pub proof fn law_render_group_rename_line(
    changes: Seq<SpecChange>,
    summary: Summary,
    warnings: Seq<SpecDiffWarning>,
    i: int,
)
    requires
        0 <= i < changes.len(),
        changes[i] is Group,
        changes[i]->Group_kind is Renamed,
    ensures
        render_text(changes, summary, warnings, false) == summary_text(summary) + warnings_text(warnings)
            + changes_text(changes.take(i), false) + ("~ GROUP "@ + changes[i]->Group_path.display
            + " (renamed: "@ + (changes[i]->Group_kind)->Renamed_from + " -> "@
            + (changes[i]->Group_kind)->Renamed_to + ")"@ + seq!['\n']) + changes_text(
            changes.skip(i + 1),
            false,
        ),
{
    lemma_render_split(changes, summary, warnings, false, i);
}

/// In plain text, a database name change is rendered, at the place of the
/// change, as the line `DATABASE name: <from> -> <to>`.
pub proof fn law_render_database_name_line(
    changes: Seq<SpecChange>,
    summary: Summary,
    warnings: Seq<SpecDiffWarning>,
    i: int,
)
    requires
        0 <= i < changes.len(),
        changes[i] is Database,
        changes[i]->Database_0 is NameChanged,
    ensures
        render_text(changes, summary, warnings, false) == summary_text(summary) + warnings_text(warnings)
            + changes_text(changes.take(i), false) + ("DATABASE name: "@ + (changes[i]->Database_0)->NameChanged_from
            + " -> "@ + (changes[i]->Database_0)->NameChanged_to + seq!['\n']) + changes_text(
            changes.skip(i + 1),
            false,
        ),
{
    lemma_render_split(changes, summary, warnings, false, i);
}

/// In plain text, a modified field of a modified entry is rendered as the
/// line `  ~ <name>: <from> -> <to>` right after the entry's header line
/// and the field lines before it: the old value before the arrow, the new
/// one after it.
pub proof fn law_render_field_modified_line(
    changes: Seq<SpecChange>,
    summary: Summary,
    warnings: Seq<SpecDiffWarning>,
    i: int,
    j: int,
)
    requires
        0 <= i < changes.len(),
        changes[i] is Entry,
        changes[i]->Entry_kind is Modified,
        0 <= j < (changes[i]->Entry_kind)->Modified_fields.len(),
        (changes[i]->Entry_kind)->Modified_fields[j] is Modified,
    ensures
        ({
            let fs = (changes[i]->Entry_kind)->Modified_fields;
            let f = fs[j];
            render_text(changes, summary, warnings, false) == summary_text(summary) + warnings_text(warnings)
                + changes_text(changes.take(i), false) + ("~ ENTRY "@ + changes[i]->Entry_path.display + seq!['\n'])
                + fields_text(fs.take(j), false) + ("  ~ "@ + f->Modified_name + ": "@ + value_text(
                f->Modified_change.from,
            ) + " -> "@ + value_text(f->Modified_change.to) + seq!['\n']) + fields_text(fs.skip(j + 1), false)
                + changes_text(changes.skip(i + 1), false)
        }),
{
    let f = (changes[i]->Entry_kind)->Modified_fields[j];
    lemma_render_field_split(changes, summary, warnings, i, j);
    let body = "  ~ "@ + f->Modified_name + ": "@ + value_text(f->Modified_change.from) + " -> "@ + value_text(
        f->Modified_change.to,
    );
    assert(field_body(f) =~= body);
    assert(field_text(f, false) =~= body + seq!['\n']);
}

/// In plain text, an added or removed group or entry is rendered, at the
/// place of the change, as one line: `+` for an addition, `-` for a
/// removal, then `GROUP` or `ENTRY` and the path the change is listed at.
pub proof fn law_render_presence_line(
    changes: Seq<SpecChange>,
    summary: Summary,
    warnings: Seq<SpecDiffWarning>,
    i: int,
)
    requires
        0 <= i < changes.len(),
        changes[i] matches SpecChange::Entry { kind: SpecEntryChangeKind::Added, .. } || changes[i] matches SpecChange::Entry { kind: SpecEntryChangeKind::Removed, .. }
            || changes[i] matches SpecChange::Group { kind: SpecGroupChangeKind::Added, .. } || changes[i] matches SpecChange::Group { kind: SpecGroupChangeKind::Removed, .. },
    ensures
        ({
            let t = match changes[i] {
                SpecChange::Entry { path, kind: SpecEntryChangeKind::Added, .. } => "+ ENTRY "@ + path.display,
                SpecChange::Entry { path, .. } => "- ENTRY "@ + path.display,
                SpecChange::Group { path, kind: SpecGroupChangeKind::Added, .. } => "+ GROUP "@ + path.display,
                SpecChange::Group { path, .. } => "- GROUP "@ + path.display,
                SpecChange::Database(_) => seq![],
            };
            render_text(changes, summary, warnings, false) == summary_text(summary) + warnings_text(warnings)
                + changes_text(changes.take(i), false) + (t + seq!['\n']) + changes_text(changes.skip(i + 1), false)
        }),
{
    lemma_render_split(changes, summary, warnings, false, i);
}

/// In plain text, a database color or recycle-bin change is rendered, at
/// the place of the change, as one line with the old value before the
/// arrow and the new one after it, each in its `Debug` form.
pub proof fn law_render_database_value_line(
    changes: Seq<SpecChange>,
    summary: Summary,
    warnings: Seq<SpecDiffWarning>,
    i: int,
)
    requires
        0 <= i < changes.len(),
        changes[i] matches SpecChange::Database(SpecDatabaseChange::ColorChanged { .. }) || changes[i] matches SpecChange::Database(SpecDatabaseChange::RecycleBinChanged { .. }),
    ensures
        ({
            let t = match changes[i] {
                SpecChange::Database(SpecDatabaseChange::ColorChanged { from, to }) => "DATABASE color: "@
                    + opt_str_debug(from) + " -> "@ + opt_str_debug(to),
                SpecChange::Database(SpecDatabaseChange::RecycleBinChanged { from, to }) => "DATABASE recycle_bin: "@
                    + opt_uuid_debug(from) + " -> "@ + opt_uuid_debug(to),
                _ => seq![],
            };
            render_text(changes, summary, warnings, false) == summary_text(summary) + warnings_text(warnings)
                + changes_text(changes.take(i), false) + (t + seq!['\n']) + changes_text(changes.skip(i + 1), false)
        }),
{
    lemma_render_split(changes, summary, warnings, false, i);
}

/// In plain text, an added or removed field of a modified entry is
/// rendered as the line `  + <name>: <value>` or `  - <name>: <value>`
/// right after the entry's header line and the field lines before it.
pub proof fn law_render_field_presence_line(
    changes: Seq<SpecChange>,
    summary: Summary,
    warnings: Seq<SpecDiffWarning>,
    i: int,
    j: int,
)
    requires
        0 <= i < changes.len(),
        changes[i] is Entry,
        changes[i]->Entry_kind is Modified,
        0 <= j < (changes[i]->Entry_kind)->Modified_fields.len(),
        (changes[i]->Entry_kind)->Modified_fields[j] is Added || (changes[i]->Entry_kind)->Modified_fields[j] is Removed,
    ensures
        ({
            let fs = (changes[i]->Entry_kind)->Modified_fields;
            let t = match fs[j] {
                SpecFieldChange::Added { name, value } => "  + "@ + name + ": "@ + value_text(value),
                SpecFieldChange::Removed { name, value } => "  - "@ + name + ": "@ + value_text(value),
                _ => seq![],
            };
            render_text(changes, summary, warnings, false) == summary_text(summary) + warnings_text(warnings)
                + changes_text(changes.take(i), false) + ("~ ENTRY "@ + changes[i]->Entry_path.display + seq!['\n'])
                + fields_text(fs.take(j), false) + (t + seq!['\n']) + fields_text(fs.skip(j + 1), false)
                + changes_text(changes.skip(i + 1), false)
        }),
{
    lemma_render_field_split(changes, summary, warnings, i, j);
    let f = (changes[i]->Entry_kind)->Modified_fields[j];
    let body = match f {
        SpecFieldChange::Added { name, value } => "  + "@ + name + ": "@ + value_text(value),
        SpecFieldChange::Removed { name, value } => "  - "@ + name + ": "@ + value_text(value),
        _ => seq![],
    };
    assert(field_body(f) =~= body);
    assert(field_text(f, false) =~= body + seq!['\n']);
}

/// The rendering starts with the summary line: added, removed and
/// modified entries, then added, removed and modified groups, then the
/// changed fields and the suppressed changes, each count in decimal.
pub proof fn law_render_summary_line(
    changes: Seq<SpecChange>,
    summary: Summary,
    warnings: Seq<SpecDiffWarning>,
    color: bool,
)
    ensures
        render_text(changes, summary, warnings, color) == ("summary: +"@ + decimal(summary.entries_added as nat)
            + "/-"@ + decimal(summary.entries_removed as nat) + "/~"@ + decimal(summary.entries_modified as nat)
            + " entries, +"@ + decimal(summary.groups_added as nat) + "/-"@ + decimal(summary.groups_removed as nat)
            + "/~"@ + decimal(summary.groups_modified as nat) + " groups, "@ + decimal(summary.fields_changed as nat)
            + " fields, "@ + decimal(summary.suppressed as nat) + " suppressed"@ + seq!['\n']) + warnings_text(
            warnings,
        ) + (if changes.len() == 0 {
            "(no changes)"@ + seq!['\n']
        } else {
            changes_text(changes, color)
        }),
{
    assert(line("(no changes)"@) =~= "(no changes)"@ + seq!['\n']);
}

/// Renders a change set as text: the summary line, any warnings, then
/// each change in order, or `(no changes)` when there is none. With
/// `opts.color`, each change line is wrapped in ANSI color escapes: green
/// for additions, red for removals, yellow for modifications and moves,
/// cyan for history and database-level lines.
pub fn render(cs: &ChangeSet, opts: &RenderOptions) -> (r: String)
    ensures
        r@ == render_text(change_views(cs.changes@), cs.summary, warning_views(cs.warnings@), opts.color),
{
    let mut out = String::new();
    render_summary(&cs.summary, &mut out);
    render_warnings(cs.warnings.as_slice(), &mut out);
    let ghost head = out@;
    let ghost cv = change_views(cs.changes@);
    if cs.changes.len() == 0 {
        push_str(&mut out, "(no changes)");
        push_char(&mut out, '\n');
        proof {
            assert(out@ =~= head + line("(no changes)"@));
        }
        return out;
    }
    let mut i: usize = 0;
    proof {
        assert(cv.take(0) =~= Seq::<SpecChange>::empty());
        assert(out@ =~= head + changes_text(cv.take(0), opts.color));
    }
    while i < cs.changes.len()
        invariant
            i <= cs.changes@.len(),
            cv == change_views(cs.changes@),
            out@ == head + changes_text(cv.take(i as int), opts.color),
        decreases cs.changes@.len() - i,
    {
        render_change(&cs.changes[i], opts.color, &mut out);
        proof {
            assert(cv.take(i + 1).drop_last() =~= cv.take(i as int));
            assert(cv.take(i + 1).last() == cs.changes@[i as int]@);
        }
        i = i + 1;
    }
    proof {
        assert(cv.take(cs.changes@.len() as int) =~= cv);
    }
    out
}

} // verus!
