//! Path: a hierarchical location of a group or entry.
//!
//! Display form: slash-separated segments where `/` and control chars in
//! names are backslash-escaped (`\/`, `\n`, `\t`, `\\`).
//! Identity form: ordered list of ancestor UUIDs from root to this node
//! (inclusive). UUIDs are held as their 128-bit big-endian values.

use vstd::prelude::*;

use crate::text::{exec_hex_char, hex_char, push_char, push_str};

verus! {

broadcast use vstd::string::group_string_axioms;

/// `char::is_control`: the general category Cc (C0 and C1 control codes).
pub open spec fn is_control(c: char) -> bool {
    (c as u32) <= 0x1f || (0x7f <= (c as u32) && (c as u32) <= 0x9f)
}

/// Four lowercase hex digits of `n < 0x10000`, as `{:04x}` prints it.
pub open spec fn hex4(n: nat) -> Seq<char> {
    seq![hex_char((n / 4096) % 16), hex_char((n / 256) % 16), hex_char((n / 16) % 16), hex_char(n % 16)]
}

/// The display encoding of one character of a name.
pub open spec fn encode_char(c: char) -> Seq<char> {
    if c == '\\' {
        seq!['\\', '\\']
    } else if c == '/' {
        seq!['\\', '/']
    } else if c == '\n' {
        seq!['\\', 'n']
    } else if c == '\t' {
        seq!['\\', 't']
    } else if c == '\r' {
        seq!['\\', 'r']
    } else if is_control(c) {
        seq!['\\', 'u', '{'] + hex4(c as nat) + seq!['}']
    } else {
        seq![c]
    }
}

/// The display encoding of a name: each character encoded in turn.
pub open spec fn encode_name(s: Seq<char>) -> Seq<char>
    decreases s.len(),
{
    if s.len() == 0 {
        seq![]
    } else {
        encode_name(s.drop_last()) + encode_char(s.last())
    }
}


proof fn lemma_encode_name_first(s: Seq<char>)
    requires
        s.len() > 0,
    ensures
        encode_name(s) == encode_char(s[0]) + encode_name(s.drop_first()),
    decreases s.len(),
{
    if s.len() == 1 {
        assert(s.drop_last() =~= Seq::<char>::empty());
        assert(s.drop_first() =~= Seq::<char>::empty());
        assert(encode_name(s) =~= encode_char(s[0]) + encode_name(s.drop_first()));
    } else {
        lemma_encode_name_first(s.drop_last());
        assert(s.drop_last().drop_first() =~= s.drop_first().drop_last());
        assert(s.drop_first().last() == s.last());
        assert(s.drop_last()[0] == s[0]);
        assert(encode_name(s) =~= encode_char(s[0]) + encode_name(s.drop_first()));
    }
}

proof fn lemma_hex_char_injective(a: nat, b: nat)
    requires
        a < 16,
        b < 16,
        hex_char(a) == hex_char(b),
    ensures
        a == b,
{
}

/// The encodings of two characters never overlap as prefixes: a
/// character's encoding determines the character.
proof fn lemma_encode_char_prefix_free(c: char, d: char, x: Seq<char>, y: Seq<char>)
    requires
        encode_char(c) + x == encode_char(d) + y,
    ensures
        c == d,
        x == y,
{
    let ec = encode_char(c);
    let ed = encode_char(d);
    let w = ec + x;
    assert(w[0] == ec[0]);
    assert(w[0] == (ed + y)[0]);
    if ec[0] == '\\' {
        assert(ed[0] == '\\');
        assert(w[1] == ec[1]);
        assert(w[1] == (ed + y)[1]);
        if ec[1] == 'u' {
            assert(ed[1] == 'u');
            let n = c as nat;
            let m = d as nat;
            assert(n <= 0x9f && m <= 0x9f);
            assert(w[5] == ec[5] && w[5] == (ed + y)[5]);
            assert(w[6] == ec[6] && w[6] == (ed + y)[6]);
            lemma_hex_char_injective((n / 16) % 16, (m / 16) % 16);
            lemma_hex_char_injective(n % 16, m % 16);
            assert(n == 16 * ((n / 16) % 16) + n % 16);
            assert(m == 16 * ((m / 16) % 16) + m % 16);
        }
    }
    assert(c == d);
    assert(x =~= w.skip(ec.len() as int));
    assert(y =~= (ed + y).skip(ed.len() as int));
}

/// Escaping loses nothing: distinct names have distinct display forms.
pub proof fn law_encode_name_injective(s: Seq<char>, t: Seq<char>)
    requires
        encode_name(s) == encode_name(t),
    ensures
        s == t,
    decreases s.len(),
{
    if s.len() == 0 || t.len() == 0 {
        if s.len() > 0 {
            lemma_encode_name_first(s);
        }
        if t.len() > 0 {
            lemma_encode_name_first(t);
        }
        assert(s =~= t);
    } else {
        lemma_encode_name_first(s);
        lemma_encode_name_first(t);
        lemma_encode_char_prefix_free(s[0], t[0], encode_name(s.drop_first()), encode_name(t.drop_first()));
        law_encode_name_injective(s.drop_first(), t.drop_first());
        assert(s =~= seq![s[0]] + s.drop_first());
        assert(t =~= seq![t[0]] + t.drop_first());
    }
}

proof fn lemma_encode_char_clean(c: char)
    ensures
        forall|i: int| 0 <= i < encode_char(c).len() ==> !is_control(#[trigger] encode_char(c)[i]),
        forall|i: int|
            0 <= i < encode_char(c).len() && #[trigger] encode_char(c)[i] == '/' ==> i == 1 && encode_char(c)[0]
                == '\\',
{
    let e = encode_char(c);
    if is_control(c) && c != '\n' && c != '\t' && c != '\r' {
        let n = c as nat;
        assert(e == seq!['\\', 'u', '{'] + hex4(n) + seq!['}']);
        assert forall|i: int| 0 <= i < e.len() implies !is_control(#[trigger] e[i]) && e[i] != '/' by {
            if 3 <= i < 7 {
                assert(e[i] == hex4(n)[i - 3]);
            }
        }
    }
}

/// An encoded name holds no control character, and every `/` in it
/// directly follows a backslash (it is an escaped `/`).
pub proof fn law_encode_name_escapes(s: Seq<char>)
    ensures
        forall|i: int| 0 <= i < encode_name(s).len() ==> !is_control(#[trigger] encode_name(s)[i]),
        forall|i: int|
            0 <= i < encode_name(s).len() && #[trigger] encode_name(s)[i] == '/' ==> i > 0 && encode_name(s)[i - 1]
                == '\\',
    decreases s.len(),
{
    if s.len() > 0 {
        law_encode_name_escapes(s.drop_last());
        let p = encode_name(s.drop_last());
        let e = encode_char(s.last());
        let w = encode_name(s);
        assert(w == p + e);
        lemma_encode_char_clean(s.last());
        assert forall|i: int| 0 <= i < w.len() implies !is_control(#[trigger] w[i]) by {
            if i < p.len() {
                assert(w[i] == p[i]);
            } else {
                assert(w[i] == e[i - p.len()]);
            }
        }
        assert forall|i: int| 0 <= i < w.len() && #[trigger] w[i] == '/' implies i > 0 && w[i - 1] == '\\' by {
            if i < p.len() {
                assert(w[i] == p[i]);
                assert(w[i - 1] == p[i - 1]);
            } else {
                assert(w[i] == e[i - p.len()]);
                assert(w[i - 1] == e[i - 1 - p.len()]);
            }
        }
    }
}

/// A name with no backslash, no `/` and no control character displays as
/// itself.
pub proof fn law_encode_name_plain(s: Seq<char>)
    requires
        forall|i: int| 0 <= i < s.len() ==> #[trigger] s[i] != '\\' && s[i] != '/' && !is_control(s[i]),
    ensures
        encode_name(s) == s,
    decreases s.len(),
{
    if s.len() > 0 {
        assert forall|i: int| 0 <= i < s.drop_last().len() implies #[trigger] s.drop_last()[i] != '\\'
            && s.drop_last()[i] != '/' && !is_control(s.drop_last()[i]) by {
            assert(s.drop_last()[i] == s[i]);
        }
        law_encode_name_plain(s.drop_last());
        assert(s[s.len() - 1] == s.last());
        assert(encode_name(s) =~= s);
    }
}

/// Encoded names joined with `/`.
pub open spec fn join_names(segs: Seq<Seq<char>>) -> Seq<char>
    decreases segs.len(),
{
    if segs.len() == 0 {
        seq![]
    } else if segs.len() == 1 {
        encode_name(segs[0])
    } else {
        join_names(segs.drop_last()) + seq!['/'] + encode_name(segs.last())
    }
}

/// The display form for a list of names: `/` followed by the joined,
/// encoded names, or just `/` when that join is empty.
pub open spec fn display_of(segs: Seq<Seq<char>>) -> Seq<char> {
    let j = join_names(segs);
    if j.len() == 0 {
        seq!['/']
    } else {
        seq!['/'] + j
    }
}

/// The views of a slice of string slices.
pub open spec fn str_views(s: Seq<&str>) -> Seq<Seq<char>> {
    s.map_values(|x: &str| x@)
}

fn push_encoded_char(out: &mut String, ch: char)
    ensures
        final(out)@ == old(out)@ + encode_char(ch),
{
    if ch == '\\' {
        push_char(out, '\\');
        push_char(out, '\\');
    } else if ch == '/' {
        push_char(out, '\\');
        push_char(out, '/');
    } else if ch == '\n' {
        push_char(out, '\\');
        push_char(out, 'n');
    } else if ch == '\t' {
        push_char(out, '\\');
        push_char(out, 't');
    } else if ch == '\r' {
        push_char(out, '\\');
        push_char(out, 'r');
    } else if (ch as u32) <= 0x1f || (0x7f <= (ch as u32) && (ch as u32) <= 0x9f) {
        let n = ch as u32;
        push_char(out, '\\');
        push_char(out, 'u');
        push_char(out, '{');
        push_char(out, exec_hex_char((n / 4096) % 16));
        push_char(out, exec_hex_char((n / 256) % 16));
        push_char(out, exec_hex_char((n / 16) % 16));
        push_char(out, exec_hex_char(n % 16));
        push_char(out, '}');
    } else {
        push_char(out, ch);
    }
}

/// A path: escaped display form and the UUID chain from the root.
#[derive(Debug, Clone, PartialEq, Eq, Hash)]
pub struct Path {
    /// Human-readable, escaped form.
    pub display: String,
    /// Ancestor chain UUIDs from root to this node (inclusive).
    pub uuids: Vec<u128>,
}

/// The mathematical value of a `Path`.
pub struct SpecPath {
    pub display: Seq<char>,
    pub uuids: Seq<u128>,
}

impl View for Path {
    type V = SpecPath;

    open spec fn view(&self) -> SpecPath {
        SpecPath { display: self.display@, uuids: self.uuids@ }
    }
}

impl Path {
    /// Encode a name segment for display use.
    pub fn encode_segment(s: &str) -> (r: String)
        ensures
            r@ == encode_name(s@),
    {
        let mut out = String::new();
        for ch in it: s.chars()
            invariant
                it.seq() == s@,
                out@ == encode_name(s@.take(it.index())),
        {
            proof {
                assert(s@.take(it.index() + 1).drop_last() =~= s@.take(it.index()));
            }
            push_encoded_char(&mut out, ch);
        }
        proof {
            assert(s@.take(s@.len() as int) =~= s@);
        }
        out
    }


    /// A copy of the path.
    pub fn duplicate(&self) -> (r: Path)
        ensures
            r@ == self@,
    {
        let mut uuids: Vec<u128> = Vec::new();
        let mut i: usize = 0;
        while i < self.uuids.len()
            invariant
                i <= self.uuids@.len(),
                uuids@ == self.uuids@.take(i as int),
            decreases self.uuids@.len() - i,
        {
            uuids.push(self.uuids[i]);
            assert(self.uuids@.take(i + 1) =~= self.uuids@.take(i as int).push(self.uuids@[i as int]));
            i = i + 1;
        }
        assert(self.uuids@.take(self.uuids@.len() as int) =~= self.uuids@);
        Path { display: self.display.clone(), uuids }
    }

    /// Whether two paths are equal (same display and same UUID chain).
    pub fn same_as(&self, other: &Path) -> (r: bool)
        ensures
            r == (self@ == other@),
    {
        if self.display != other.display || self.uuids.len() != other.uuids.len() {
            return false;
        }
        let mut i: usize = 0;
        while i < self.uuids.len()
            invariant
                i <= self.uuids@.len(),
                self.uuids@.len() == other.uuids@.len(),
                self.display@ == other.display@,
                forall|k: int| 0 <= k < i ==> self.uuids@[k] == other.uuids@[k],
            decreases self.uuids@.len() - i,
        {
            if self.uuids[i] != other.uuids[i] {
                return false;
            }
            i = i + 1;
        }
        assert(self.uuids@ =~= other.uuids@);
        true
    }

    /// Build a Path by joining encoded name segments and UUIDs.
    pub fn from_segments(segments: &[&str], uuids: Vec<u128>) -> (r: Self)
        ensures
            r.display@ == display_of(str_views(segments@)),
            r.uuids@ == uuids@,
    {
        let ghost segs = str_views(segments@);
        let mut joined = String::new();
        let mut i: usize = 0;
        while i < segments.len()
            invariant
                i <= segments@.len(),
                segs == str_views(segments@),
                joined@ == join_names(segs.take(i as int)),
            decreases segments@.len() - i,
        {
            let enc = Self::encode_segment(segments[i]);
            if i > 0 {
                push_char(&mut joined, '/');
            }
            push_str(&mut joined, enc.as_str());
            proof {
                assert(segs.take(i + 1).drop_last() =~= segs.take(i as int));
                if i == 0 {
                    assert(joined@ =~= encode_name(segs.take(1)[0]));
                } else {
                    assert(joined@ =~= join_names(segs.take(i as int)) + seq!['/'] + encode_name(segs[i as int]));
                }
            }
            i = i + 1;
        }
        proof {
            assert(segs.take(segments@.len() as int) =~= segs);
        }
        let mut display = String::new();
        push_char(&mut display, '/');
        if !joined.as_str().is_empty() {
            push_str(&mut display, joined.as_str());
        }
        proof {
            if joined@.len() == 0 {
                assert(display@ =~= seq!['/']);
            }
        }
        Path { display, uuids }
    }
}

} // verus!
