//! Small verified string helpers shared by the renderers.

use vstd::prelude::*;
use vstd::string::*;
use vstd::utf8::*;
use vstd::arithmetic::power2::pow2;
use vstd::relations::total_ordering;

verus! {

/// Appends one character to a string.
///
/// Wraps `String::push`, which std documents as appending the given char
/// to the end of the string.
#[verifier::external_body]
pub(crate) fn push_char(s: &mut String, c: char)
    ensures
        final(s)@ == old(s)@.push(c),
{
    s.push(c);
}

/// The decimal digit character for `d < 10`.
pub open spec fn digit_char(d: nat) -> char {
    if d == 0 { '0' } else if d == 1 { '1' } else if d == 2 { '2' } else if d == 3 { '3' }
    else if d == 4 { '4' } else if d == 5 { '5' } else if d == 6 { '6' } else if d == 7 { '7' }
    else if d == 8 { '8' } else { '9' }
}

/// Decimal rendering of a natural number, as `Display` prints an unsigned integer.
pub open spec fn decimal(n: nat) -> Seq<char>
    decreases n,
{
    if n < 10 {
        seq![digit_char(n)]
    } else {
        decimal(n / 10).push(digit_char(n % 10))
    }
}

fn exec_digit_char(d: usize) -> (c: char)
    requires
        d < 10,
    ensures
        c == digit_char(d as nat),
{
    if d == 0 { '0' } else if d == 1 { '1' } else if d == 2 { '2' } else if d == 3 { '3' }
    else if d == 4 { '4' } else if d == 5 { '5' } else if d == 6 { '6' } else if d == 7 { '7' }
    else if d == 8 { '8' } else { '9' }
}

/// Appends the decimal rendering of `n`.
pub fn push_decimal(s: &mut String, n: usize)
    ensures
        final(s)@ == old(s)@ + decimal(n as nat),
    decreases n,
{
    if n >= 10 {
        push_decimal(s, n / 10);
    }
    push_char(s, exec_digit_char(n % 10));
}


/// Appends a string slice.
pub fn push_str(s: &mut String, t: &str)
    ensures
        final(s)@ == old(s)@ + t@,
{
    s.append(t);
}

/// The lowercase hexadecimal digit for `d < 16`.
pub open spec fn hex_char(d: nat) -> char {
    if d < 10 { digit_char(d) } else if d == 10 { 'a' } else if d == 11 { 'b' } else if d == 12 { 'c' }
    else if d == 13 { 'd' } else if d == 14 { 'e' } else { 'f' }
}

/// Two lowercase hex digits for one byte, high nibble first.
pub open spec fn hex_byte(b: u8) -> Seq<char> {
    seq![hex_char((b / 16) as nat), hex_char((b % 16) as nat)]
}

/// Lowercase hex rendering of a byte sequence, as `{:x}` prints a digest.
pub open spec fn hex_lower(bs: Seq<u8>) -> Seq<char>
    decreases bs.len(),
{
    if bs.len() == 0 {
        seq![]
    } else {
        hex_byte(bs[0]) + hex_lower(bs.drop_first())
    }
}

pub(crate) fn exec_hex_char(d: u32) -> (c: char)
    requires
        d < 16,
    ensures
        c == hex_char(d as nat),
{
    if d < 10 { exec_digit_char(d as usize) } else if d == 10 { 'a' } else if d == 11 { 'b' }
    else if d == 12 { 'c' } else if d == 13 { 'd' } else if d == 14 { 'e' } else { 'f' }
}

/// A lowercase hexadecimal digit: `0`-`9` or `a`-`f`.
pub open spec fn is_hex_digit_lower(c: char) -> bool {
    ('0' <= c && c <= '9') || ('a' <= c && c <= 'f')
}

/// Every character of a hex rendering is a lowercase hex digit.
pub proof fn lemma_hex_lower_digits(bs: Seq<u8>)
    ensures
        forall|i: int| 0 <= i < hex_lower(bs).len() ==> is_hex_digit_lower(#[trigger] hex_lower(bs)[i]),
    decreases bs.len(),
{
    if bs.len() > 0 {
        lemma_hex_lower_digits(bs.drop_first());
        let h = hex_lower(bs);
        let b = bs[0];
        assert(h == hex_byte(b) + hex_lower(bs.drop_first()));
        assert forall|i: int| 0 <= i < h.len() implies is_hex_digit_lower(#[trigger] h[i]) by {
            if i >= 2 {
                assert(h[i] == hex_lower(bs.drop_first())[i - 2]);
            } else if i == 0 {
                assert(h[i] == hex_char((b / 16) as nat));
            } else {
                assert(h[i] == hex_char((b % 16) as nat));
            }
        }
    }
}

/// Lexicographic order on byte strings (a proper prefix comes first),
/// the order of `[u8]` and therefore of `str` and `String` in std.
pub open spec fn bytes_lt(a: Seq<u8>, b: Seq<u8>) -> bool
    decreases a.len(),
{
    if a.len() == 0 {
        b.len() > 0
    } else if b.len() == 0 {
        false
    } else if a[0] < b[0] {
        true
    } else if a[0] > b[0] {
        false
    } else {
        bytes_lt(a.drop_first(), b.drop_first())
    }
}

/// The order of `String`: byte order of the UTF-8 encodings.
pub open spec fn str_lt(a: Seq<char>, b: Seq<char>) -> bool {
    bytes_lt(encode_utf8(a), encode_utf8(b))
}

pub proof fn lemma_bytes_lt_irreflexive(a: Seq<u8>)
    ensures
        !bytes_lt(a, a),
    decreases a.len(),
{
    if a.len() > 0 {
        lemma_bytes_lt_irreflexive(a.drop_first());
    }
}

pub proof fn lemma_bytes_lt_transitive(a: Seq<u8>, b: Seq<u8>, c: Seq<u8>)
    requires
        bytes_lt(a, b),
        bytes_lt(b, c),
    ensures
        bytes_lt(a, c),
    decreases a.len(),
{
    if a.len() > 0 && b.len() > 0 && c.len() > 0 && a[0] == b[0] && b[0] == c[0] {
        lemma_bytes_lt_transitive(a.drop_first(), b.drop_first(), c.drop_first());
    }
}

pub proof fn lemma_bytes_lt_total(a: Seq<u8>, b: Seq<u8>)
    ensures
        a == b || bytes_lt(a, b) || bytes_lt(b, a),
    decreases a.len(),
{
    if a.len() > 0 && b.len() > 0 && a[0] == b[0] {
        lemma_bytes_lt_total(a.drop_first(), b.drop_first());
        if a.drop_first() == b.drop_first() {
            assert(a =~= seq![a[0]] + a.drop_first());
            assert(b =~= seq![b[0]] + b.drop_first());
        }
    } else if a.len() == 0 && b.len() == 0 {
        assert(a =~= b);
    }
}

pub proof fn lemma_str_lt_irreflexive(a: Seq<char>)
    ensures
        !str_lt(a, a),
{
    lemma_bytes_lt_irreflexive(encode_utf8(a));
}

pub proof fn lemma_str_lt_transitive(a: Seq<char>, b: Seq<char>, c: Seq<char>)
    requires
        str_lt(a, b),
        str_lt(b, c),
    ensures
        str_lt(a, c),
{
    lemma_bytes_lt_transitive(encode_utf8(a), encode_utf8(b), encode_utf8(c));
}

pub proof fn lemma_str_lt_total(a: Seq<char>, b: Seq<char>)
    ensures
        a == b || str_lt(a, b) || str_lt(b, a),
{
    lemma_bytes_lt_total(encode_utf8(a), encode_utf8(b));
    if encode_utf8(a) == encode_utf8(b) {
        encode_utf8_decode_utf8(a);
        encode_utf8_decode_utf8(b);
    }
}

proof fn lemma_bytes_lt_common_prefix(a: Seq<u8>, b: Seq<u8>, i: int)
    requires
        0 <= i <= a.len(),
        i <= b.len(),
        a.take(i) == b.take(i),
    ensures
        bytes_lt(a, b) == bytes_lt(a.skip(i), b.skip(i)),
    decreases i,
{
    if i > 0 {
        assert(a[0] == a.take(i)[0]);
        assert(b[0] == b.take(i)[0]);
        assert(a.drop_first().take(i - 1) =~= a.take(i).drop_first());
        assert(b.drop_first().take(i - 1) =~= b.take(i).drop_first());
        lemma_bytes_lt_common_prefix(a.drop_first(), b.drop_first(), i - 1);
        assert(a.drop_first().skip(i - 1) =~= a.skip(i));
        assert(b.drop_first().skip(i - 1) =~= b.skip(i));
    } else {
        assert(a.skip(0) =~= a);
        assert(b.skip(0) =~= b);
    }
}


/// String equality.
pub fn str_eq(a: &str, b: &str) -> (r: bool)
    ensures
        r == (a@ == b@),
{
    let x = a.as_bytes();
    let y = b.as_bytes();
    if x.len() != y.len() {
        return false;
    }
    let mut i: usize = 0;
    while i < x.len()
        invariant
            x@.len() == y@.len(),
            i <= x@.len(),
            x@ == encode_utf8(a@),
            y@ == encode_utf8(b@),
            x@.take(i as int) == y@.take(i as int),
        decreases x@.len() - i,
    {
        if x[i] != y[i] {
            return false;
        }
        assert(x@.take(i + 1) =~= x@.take(i as int).push(x@[i as int]));
        assert(y@.take(i + 1) =~= y@.take(i as int).push(y@[i as int]));
        i = i + 1;
    }
    proof {
        assert(x@ =~= x@.take(i as int));
        assert(y@ =~= y@.take(i as int));
        encode_utf8_decode_utf8(a@);
        encode_utf8_decode_utf8(b@);
    }
    true
}


/// The sorted listing of a set of strings: the strictly increasing
/// sequence holding exactly its elements.
pub open spec fn sorted_listing(s: Set<Seq<char>>) -> Seq<Seq<char>> {
    choose|ks: Seq<Seq<char>>| str_sorted(ks) && ks.to_set() == s
}

/// A strictly sorted sequence is the sorted listing of its elements.
pub proof fn lemma_sorted_listing(ks: Seq<Seq<char>>)
    requires
        str_sorted(ks),
    ensures
        ks == sorted_listing(ks.to_set()),
{
    let c = sorted_listing(ks.to_set());
    assert(str_sorted(c) && c.to_set() == ks.to_set());
    lemma_str_strict_order();
    let lt = |a: Seq<char>, b: Seq<char>| str_lt(a, b);
    assert(sorted_by(ks, lt));
    assert(sorted_by(c, lt));
    lemma_sorted_unique(ks, c, lt);
}

/// Every finite set of strings has a sorted listing: `sorted_listing`
/// of it is strictly sorted and holds exactly its elements.
pub proof fn lemma_sorted_listing_exists(s: Set<Seq<char>>)
    requires
        s.finite(),
    ensures
        str_sorted(sorted_listing(s)),
        sorted_listing(s).to_set() == s,
{
    broadcast use vstd::seq_lib::group_to_multiset_ensures;

    crate::sums::lemma_to_seq_no_duplicates(s);
    s.lemma_to_seq_to_set_id();
    let ks = s.to_seq();
    let le = |a: Seq<char>, b: Seq<char>| str_le(a, b);
    lemma_str_le_total_ordering();
    ks.lemma_sort_by_ensures(le);
    let t = ks.sort_by(le);
    ks.lemma_multiset_has_no_duplicates();
    assert forall|x: Seq<char>| t.to_multiset().contains(x) implies t.to_multiset().count(x) == 1 by {
        assert(ks.to_multiset().contains(x));
    }
    t.lemma_multiset_has_no_duplicates_conv();
    assert forall|x: Seq<char>| t.to_set().contains(x) <==> s.contains(x) by {
        if t.to_set().contains(x) {
            assert(t.contains(x));
            assert(t.to_multiset().count(x) > 0);
            assert(ks.contains(x));
            assert(ks.to_set().contains(x));
        }
        if s.contains(x) {
            assert(ks.to_set().contains(x));
            assert(ks.contains(x));
            assert(ks.to_multiset().count(x) > 0);
            assert(t.contains(x));
        }
    }
    assert(t.to_set() =~= s);
    assert forall|i: int, j: int| 0 <= i < j < t.len() implies str_lt(t[i], t[j]) by {
        assert(le(t[i], t[j]));
        assert(t[i] != t[j]);
        lemma_str_lt_total(t[i], t[j]);
    }
    assert(str_sorted(t));
}

/// Whether `s` occurs in `v`.
pub fn contains_str(v: &Vec<String>, s: &str) -> (r: bool)
    ensures
        r == views(v@).contains(s@),
{
    let mut i: usize = 0;
    while i < v.len()
        invariant
            i <= v@.len(),
            forall|k: int| 0 <= k < i ==> (#[trigger] v@[k])@ != s@,
        decreases v@.len() - i,
    {
        if str_eq(v[i].as_str(), s) {
            assert(views(v@)[i as int] == s@);
            return true;
        }
        i = i + 1;
    }
    proof {
        if views(v@).contains(s@) {
            let k = choose|k: int| 0 <= k < views(v@).len() && views(v@)[k] == s@;
            assert(v@[k]@ == s@);
        }
    }
    false
}

/// Byte-wise lexicographic comparison.
pub fn bytes_less(a: &[u8], b: &[u8]) -> (r: bool)
    ensures
        r == bytes_lt(a@, b@),
{
    let mut i: usize = 0;
    while i < a.len() && i < b.len() && a[i] == b[i]
        invariant
            i <= a@.len(),
            i <= b@.len(),
            a@.take(i as int) == b@.take(i as int),
        decreases a@.len() - i,
    {
        assert(a@.take(i + 1) =~= a@.take(i as int).push(a@[i as int]));
        assert(b@.take(i + 1) =~= b@.take(i as int).push(b@[i as int]));
        i = i + 1;
    }
    proof {
        lemma_bytes_lt_common_prefix(a@, b@, i as int);
    }
    if i == a.len() {
        i < b.len()
    } else if i == b.len() {
        false
    } else {
        a[i] < b[i]
    }
}

/// `a < b` for strings, in std's order.
pub fn str_less(a: &str, b: &str) -> (r: bool)
    ensures
        r == str_lt(a@, b@),
{
    bytes_less(a.as_bytes(), b.as_bytes())
}

/// The views of a sequence of strings.
pub open spec fn views(v: Seq<String>) -> Seq<Seq<char>> {
    v.map_values(|s: String| s@)
}

/// Strictly increasing in std's string order (so also free of repeats).
pub open spec fn str_sorted(s: Seq<Seq<char>>) -> bool {
    forall|i: int, j: int| 0 <= i < j < s.len() ==> str_lt(s[i], s[j])
}

/// Inserts `x` into a strictly sorted vector of strings unless it is
/// already there, keeping it strictly sorted.
pub fn sorted_insert(v: &mut Vec<String>, x: String)
    requires
        str_sorted(views(old(v)@)),
    ensures
        str_sorted(views(final(v)@)),
        views(final(v)@).to_set() == views(old(v)@).to_set().insert(x@),
{
    let ghost old_v = views(v@);
    let mut i: usize = 0;
    while i < v.len() && str_less(v[i].as_str(), x.as_str())
        invariant
            i <= v.len(),
            views(v@) == old_v,
            forall|k: int| 0 <= k < i ==> str_lt(#[trigger] old_v[k], x@),
        decreases v.len() - i,
    {
        i = i + 1;
    }
    if i < v.len() && v[i] == x {
        assert(old_v[i as int] == x@);
        assert(old_v.to_set().insert(x@) =~= old_v.to_set());
        return;
    }
    proof {
        if i < v.len() {
            lemma_str_lt_total(old_v[i as int], x@);
        }
    }
    let ghost xv = x@;
    v.insert(i, x);
    proof {
        let nv = views(v@);
        assert(nv =~= old_v.insert(i as int, xv));
        assert forall|p: int, q: int| 0 <= p < q < nv.len() implies str_lt(nv[p], nv[q]) by {
            if q < i {
            } else if p < i && q == i {
            } else if p < i && q > i {
                lemma_str_lt_transitive(nv[p], xv, old_v[i as int]);
                if q - 1 > i {
                    lemma_str_lt_transitive(nv[p], old_v[i as int], nv[q]);
                }
            } else if p == i {
                if q - 1 > i {
                    lemma_str_lt_transitive(xv, old_v[i as int], nv[q]);
                }
            } else {
            }
        }
        assert forall|s: Seq<char>| nv.to_set().contains(s) <==> old_v.to_set().insert(xv).contains(s) by {
            if nv.to_set().contains(s) {
                let k = choose|k: int| 0 <= k < nv.len() && nv[k] == s;
                if k < i { assert(old_v[k] == s); } else if k > i { assert(old_v[k - 1] == s); }
            }
            if old_v.to_set().contains(s) {
                let k = choose|k: int| 0 <= k < old_v.len() && old_v[k] == s;
                if k < i { assert(nv[k] == s); } else { assert(nv[k + 1] == s); }
            }
            if s == xv { assert(nv[i as int] == s); }
        }
        assert(nv.to_set() =~= old_v.to_set().insert(xv));
    }
}

/// `s` is strictly increasing under `lt`.
pub open spec fn sorted_by<T>(s: Seq<T>, lt: spec_fn(T, T) -> bool) -> bool {
    forall|i: int, j: int| 0 <= i < j < s.len() ==> #[trigger] lt(s[i], s[j])
}

/// `lt` is irreflexive and transitive.
pub open spec fn strict_order<T>(lt: spec_fn(T, T) -> bool) -> bool {
    &&& forall|x: T| !#[trigger] lt(x, x)
    &&& forall|x: T, y: T, z: T| #[trigger] lt(x, y) && #[trigger] lt(y, z) ==> lt(x, z)
}

/// Two sequences that are strictly increasing under the same strict order
/// and hold the same elements are equal: a sorted listing of a set is unique.
pub proof fn lemma_sorted_unique<T>(s1: Seq<T>, s2: Seq<T>, lt: spec_fn(T, T) -> bool)
    requires
        strict_order(lt),
        sorted_by(s1, lt),
        sorted_by(s2, lt),
        s1.to_set() == s2.to_set(),
    ensures
        s1 == s2,
    decreases s1.len(),
{
    if s1.len() == 0 {
        if s2.len() > 0 {
            assert(s2.to_set().contains(s2[0]));
        }
        assert(s1 =~= s2);
    } else {
        assert(s1.to_set().contains(s1[0]));
        assert(s2.len() > 0);
        let a = s1[0];
        let b = s2[0];
        assert(s2.to_set().contains(b));
        let k = choose|k: int| 0 <= k < s1.len() && s1[k] == b;
        let m = choose|m: int| 0 <= m < s2.len() && s2[m] == a;
        if a != b {
            assert(k > 0 && m > 0);
            assert(lt(s1[0], s1[k]));
            assert(lt(s2[0], s2[m]));
            assert(lt(a, a));
        }
        let t1 = s1.drop_first();
        let t2 = s2.drop_first();
        assert forall|x: T| t1.to_set().contains(x) <==> t2.to_set().contains(x) by {
            if t1.to_set().contains(x) {
                let i = choose|i: int| 0 <= i < t1.len() && t1[i] == x;
                assert(lt(s1[0], s1[i + 1]));
                assert(s1.to_set().contains(x));
                let j = choose|j: int| 0 <= j < s2.len() && s2[j] == x;
                if j == 0 { assert(lt(x, x)); }
                assert(t2[j - 1] == x);
            }
            if t2.to_set().contains(x) {
                let i = choose|i: int| 0 <= i < t2.len() && t2[i] == x;
                assert(lt(s2[0], s2[i + 1]));
                assert(s2.to_set().contains(x));
                let j = choose|j: int| 0 <= j < s1.len() && s1[j] == x;
                if j == 0 { assert(lt(x, x)); }
                assert(t1[j - 1] == x);
            }
        }
        assert(t1.to_set() =~= t2.to_set());
        assert(sorted_by(t1, lt)) by {
            assert forall|i: int, j: int| 0 <= i < j < t1.len() implies #[trigger] lt(t1[i], t1[j]) by {
                assert(lt(s1[i + 1], s1[j + 1]));
            }
        }
        assert(sorted_by(t2, lt)) by {
            assert forall|i: int, j: int| 0 <= i < j < t2.len() implies #[trigger] lt(t2[i], t2[j]) by {
                assert(lt(s2[i + 1], s2[j + 1]));
            }
        }
        lemma_sorted_unique(t1, t2, lt);
        assert(s1 =~= seq![a] + t1);
        assert(s2 =~= seq![b] + t2);
    }
}

/// Std's string order is a strict order.
pub proof fn lemma_str_strict_order()
    ensures
        strict_order(|a: Seq<char>, b: Seq<char>| str_lt(a, b)),
{
    assert forall|x: Seq<char>| !str_lt(x, x) by {
        lemma_str_lt_irreflexive(x);
    }
    assert forall|x: Seq<char>, y: Seq<char>, z: Seq<char>| str_lt(x, y) && str_lt(y, z) implies str_lt(x, z) by {
        lemma_str_lt_transitive(x, y, z);
    }
}

/// `a <= b` in std's string order.
pub open spec fn str_le(a: Seq<char>, b: Seq<char>) -> bool {
    !str_lt(b, a)
}

/// Std's `<=` on strings is a total order.
pub proof fn lemma_str_le_total_ordering()
    ensures
        total_ordering(|a: Seq<char>, b: Seq<char>| str_le(a, b)),
{
    assert forall|x: Seq<char>| str_le(x, x) by {
        lemma_str_lt_irreflexive(x);
    }
    assert forall|x: Seq<char>, y: Seq<char>| str_le(x, y) && str_le(y, x) implies x == y by {
        lemma_str_lt_total(x, y);
    }
    assert forall|x: Seq<char>, y: Seq<char>, z: Seq<char>| str_le(x, y) && str_le(y, z) implies str_le(x, z) by {
        if str_lt(z, x) {
            lemma_str_lt_total(x, y);
            if str_lt(x, y) {
                lemma_str_lt_transitive(z, x, y);
            } else if x != y {
                lemma_str_lt_transitive(z, x, y);
            }
        }
    }
    assert forall|x: Seq<char>, y: Seq<char>| str_le(x, y) || str_le(y, x) by {
        if str_lt(y, x) && str_lt(x, y) {
            lemma_str_lt_transitive(x, y, x);
            lemma_str_lt_irreflexive(x);
        }
    }
}

/// The strings of `v` in std's order, repeats kept (what `sort` leaves).
pub open spec fn sorted_strings(v: Seq<Seq<char>>) -> Seq<Seq<char>> {
    v.sort_by(|a: Seq<char>, b: Seq<char>| str_le(a, b))
}

/// A sorted copy of a vector of strings, repeats kept.
pub fn sort_strings(v: &Vec<String>) -> (r: Vec<String>)
    ensures
        views(r@) == sorted_strings(views(v@)),
{
    let ghost le = |a: Seq<char>, b: Seq<char>| str_le(a, b);
    let ghost all = views(v@);
    let mut out: Vec<String> = Vec::new();
    let mut i: usize = 0;
    proof {
        lemma_str_le_total_ordering();
        assert(views(out@) =~= Seq::<Seq<char>>::empty());
        assert(all.take(0) =~= Seq::<Seq<char>>::empty());
    }
    while i < v.len()
        invariant
            i <= v@.len(),
            all == views(v@),
            le == (|a: Seq<char>, b: Seq<char>| str_le(a, b)),
            total_ordering(le),
            vstd::relations::sorted_by(views(out@), le),
            views(out@).to_multiset() == all.take(i as int).to_multiset(),
        decreases v@.len() - i,
    {
        let x = v[i].clone();
        let ghost ov = views(out@);
        let mut p: usize = 0;
        while p < out.len() && !str_less(x.as_str(), out[p].as_str())
            invariant
                p <= out@.len(),
                ov == views(out@),
                forall|q: int| 0 <= q < p ==> str_le(#[trigger] ov[q], x@),
            decreases out@.len() - p,
        {
            p = p + 1;
        }
        let ghost xv = x@;
        out.insert(p, x);
        proof {
            if p < ov.len() {
                assert(str_lt(xv, ov[p as int]));
                if str_lt(ov[p as int], xv) {
                    lemma_str_lt_transitive(xv, ov[p as int], xv);
                    lemma_str_lt_irreflexive(xv);
                }
                assert(le(xv, ov[p as int]));
            }
            let nv = views(out@);
            assert(nv =~= ov.insert(p as int, xv));
            assert forall|a: int, b: int| 0 <= a < b < nv.len() implies #[trigger] le(nv[a], nv[b]) by {
                if b < p {
                    assert(le(ov[a], ov[b]));
                } else if a < p && b == p {
                } else if a < p && b > p {
                    assert(le(ov[a], xv));
                    if b - 1 > p {
                        assert(le(ov[p as int], ov[b - 1]));
                    }
                    assert(le(xv, ov[b - 1]));
                } else if a == p {
                    if b - 1 > p {
                        assert(le(ov[p as int], ov[b - 1]));
                    }
                } else {
                    assert(le(ov[a - 1], ov[b - 1]));
                }
            }
            vstd::seq_lib::lemma_seq_union_to_multiset_commutative(ov.take(p as int), ov.skip(p as int));
            assert(ov =~= ov.take(p as int) + ov.skip(p as int));
            assert(nv =~= ov.take(p as int) + seq![xv] + ov.skip(p as int));
            assert(all.take(i + 1) =~= all.take(i as int).push(xv));
            broadcast use vstd::seq_lib::group_to_multiset_ensures;
            vstd::seq_lib::lemma_multiset_commutative(ov.take(p as int) + seq![xv], ov.skip(p as int));
            vstd::seq_lib::lemma_multiset_commutative(ov.take(p as int), seq![xv]);
            vstd::seq_lib::lemma_multiset_commutative(ov.take(p as int), ov.skip(p as int));
            assert(seq![xv] =~= Seq::<Seq<char>>::empty().push(xv));
            assert(nv.to_multiset() =~= ov.to_multiset().insert(xv));
        }
        i = i + 1;
    }
    proof {
        assert(all.take(v@.len() as int) =~= all);
        all.lemma_sort_by_ensures(le);
        vstd::seq_lib::lemma_sorted_unique(views(out@), all.sort_by(le), le);
    }
    out
}

/// Strings joined with a separator.
pub open spec fn joined(s: Seq<Seq<char>>, sep: Seq<char>) -> Seq<char>
    decreases s.len(),
{
    if s.len() == 0 {
        seq![]
    } else if s.len() == 1 {
        s[0]
    } else {
        joined(s.drop_last(), sep) + sep + s.last()
    }
}

/// Appends the strings of `v` joined by `sep`.
pub fn push_joined(out: &mut String, v: &Vec<String>, sep: &str)
    ensures
        final(out)@ == old(out)@ + joined(views(v@), sep@),
{
    let ghost o = out@;
    let mut i: usize = 0;
    while i < v.len()
        invariant
            i <= v@.len(),
            out@ == o + joined(views(v@).take(i as int), sep@),
        decreases v@.len() - i,
    {
        if i > 0 {
            push_str(out, sep);
        }
        push_str(out, v[i].as_str());
        proof {
            let t = views(v@).take(i + 1);
            assert(t.drop_last() =~= views(v@).take(i as int));
            if i == 0 {
                assert(joined(views(v@).take(i as int), sep@) =~= Seq::<char>::empty());
            }
        }
        i = i + 1;
    }
    proof {
        assert(views(v@).take(v@.len() as int) =~= views(v@));
    }
}

/// The 16 big-endian bytes of a UUID value.
pub open spec fn uuid_bytes(u: u128) -> Seq<u8> {
    Seq::new(16, |i: int| ((u as int / pow2((8 * (15 - i)) as nat) as int) % 256) as u8)
}

/// The hyphenated lowercase form of a UUID: 8-4-4-4-12 hex digits.
pub open spec fn uuid_hyphenated(u: u128) -> Seq<char> {
    let h = hex_lower(uuid_bytes(u));
    h.subrange(0, 8) + seq!['-'] + h.subrange(8, 12) + seq!['-'] + h.subrange(12, 16) + seq!['-']
        + h.subrange(16, 20) + seq!['-'] + h.subrange(20, 32)
}

/// Two hex digits per byte.
pub proof fn lemma_hex_lower_len(bs: Seq<u8>)
    ensures
        hex_lower(bs).len() == 2 * bs.len(),
    decreases bs.len(),
{
    if bs.len() > 0 {
        lemma_hex_lower_len(bs.drop_first());
    }
}

/// Hex rendering distributes over concatenation.
pub proof fn lemma_hex_lower_append(a: Seq<u8>, b: Seq<u8>)
    ensures
        hex_lower(a + b) == hex_lower(a) + hex_lower(b),
    decreases a.len(),
{
    if a.len() == 0 {
        assert(a + b =~= b);
    } else {
        assert((a + b).drop_first() =~= a.drop_first() + b);
        lemma_hex_lower_append(a.drop_first(), b);
        assert(hex_lower(a + b) =~= hex_byte(a[0]) + (hex_lower(a.drop_first()) + hex_lower(b)));
    }
}

/// The hyphenated form has 36 characters.
pub proof fn lemma_uuid_hyphenated_len(u: u128)
    ensures
        uuid_hyphenated(u).len() == 36,
{
    lemma_hex_lower_len(uuid_bytes(u));
}

/// The text of a UUID.
///
/// Wraps `uuid::Uuid::from_u128` and the `Display` impl of `Uuid`: the
/// former takes the value's big-endian bytes, the latter writes them as
/// the hyphenated lowercase form.
#[verifier::external_body]
pub(crate) fn uuid_text(u: u128) -> (r: String)
    ensures
        r@ == uuid_hyphenated(u),
{
    uuid::Uuid::from_u128(u).to_string()
}

/// Appends the first `n` characters of `s` (all of it if shorter).
pub fn push_prefix(out: &mut String, s: &str, n: usize)
    ensures
        final(out)@ == old(out)@ + s@.take(if n <= s@.len() { n as int } else { s@.len() as int }),
{
    let ghost o = out@;
    let mut k: usize = 0;
    for ch in it: s.chars()
        invariant
            it.seq() == s@,
            k == if it.index() <= n { it.index() as int } else { n as int },
            out@ == o + s@.take(k as int),
    {
        if k < n {
            push_char(out, ch);
            proof {
                assert(s@.take(k + 1) =~= s@.take(k as int).push(ch));
            }
            k = k + 1;
        }
    }
}

} // verus!
