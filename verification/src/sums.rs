//! Sums over finite sets.

use vstd::prelude::*;

verus! {

/// The sum of `f` over the keys of `ks`, in order.
pub open spec fn seq_sum<T>(ks: Seq<T>, f: spec_fn(T) -> nat) -> nat
    decreases ks.len(),
{
    if ks.len() == 0 {
        0
    } else {
        seq_sum(ks.drop_last(), f) + f(ks.last())
    }
}

/// Some listing of the set `s`, each element once.
pub open spec fn enumeration<T>(s: Set<T>) -> Seq<T> {
    choose|ks: Seq<T>| ks.no_duplicates() && ks.to_set() == s
}

/// The sum of `f` over the finite set `s`.
pub open spec fn set_sum<T>(s: Set<T>, f: spec_fn(T) -> nat) -> nat {
    seq_sum(enumeration(s), f)
}

/// A sum capped at `usize::MAX`, as saturating additions compute it.
pub open spec fn cap(n: int) -> usize {
    if n > usize::MAX {
        usize::MAX
    } else {
        n as usize
    }
}

proof fn lemma_seq_sum_remove<T>(ks: Seq<T>, j: int, f: spec_fn(T) -> nat)
    requires
        0 <= j < ks.len(),
    ensures
        seq_sum(ks, f) == seq_sum(ks.remove(j), f) + f(ks[j]),
    decreases ks.len(),
{
    if j == ks.len() - 1 {
        assert(ks.remove(j) =~= ks.drop_last());
    } else {
        lemma_seq_sum_remove(ks.drop_last(), j, f);
        assert(ks.remove(j).drop_last() =~= ks.drop_last().remove(j));
        assert(ks.remove(j).last() == ks.last());
    }
}

/// Sums over two listings of the same set agree.
pub proof fn lemma_seq_sum_reorder<T>(k1: Seq<T>, k2: Seq<T>, f: spec_fn(T) -> nat)
    requires
        k1.no_duplicates(),
        k2.no_duplicates(),
        k1.to_set() == k2.to_set(),
    ensures
        seq_sum(k1, f) == seq_sum(k2, f),
    decreases k1.len(),
{
    if k1.len() == 0 {
        if k2.len() > 0 {
            assert(k2.to_set().contains(k2[0]));
        }
    } else {
        let x = k1.last();
        assert(k1.to_set().contains(x));
        let j = choose|j: int| 0 <= j < k2.len() && k2[j] == x;
        let r1 = k1.drop_last();
        let r2 = k2.remove(j);
        lemma_seq_sum_remove(k2, j, f);
        assert forall|y: T| r1.to_set().contains(y) <==> r2.to_set().contains(y) by {
            if r1.to_set().contains(y) {
                let i = choose|i: int| 0 <= i < r1.len() && r1[i] == y;
                assert(k1[i] == y);
                assert(k1.to_set().contains(y));
                let m = choose|m: int| 0 <= m < k2.len() && k2[m] == y;
                assert(m != j);
                if m < j {
                    assert(r2[m] == y);
                } else {
                    assert(r2[m - 1] == y);
                }
            }
            if r2.to_set().contains(y) {
                let i = choose|i: int| 0 <= i < r2.len() && r2[i] == y;
                let m = if i < j { i } else { i + 1 };
                assert(k2[m] == y);
                assert(m != j);
                assert(k2.to_set().contains(y));
                let n = choose|n: int| 0 <= n < k1.len() && k1[n] == y;
                assert(n != k1.len() - 1);
                assert(r1[n] == y);
            }
        }
        assert(r1.to_set() =~= r2.to_set());
        lemma_seq_sum_reorder(r1, r2, f);
    }
}

/// The sum over any listing of a set is its set sum.
pub proof fn lemma_set_sum<T>(ks: Seq<T>, f: spec_fn(T) -> nat)
    requires
        ks.no_duplicates(),
    ensures
        seq_sum(ks, f) == set_sum(ks.to_set(), f),
{
    let e = enumeration(ks.to_set());
    assert(e.no_duplicates() && e.to_set() == ks.to_set());
    lemma_seq_sum_reorder(ks, e, f);
}

/// A sum over the image of a set under a function that is one-to-one on
/// it is the sum of the composed function over the set.
pub proof fn lemma_set_sum_image<A, B>(s: Set<A>, f: spec_fn(A) -> B, g: spec_fn(B) -> nat, h: spec_fn(A) -> nat)
    requires
        s.finite(),
        vstd::relations::injective_on(f, s),
        forall|x: A| s.contains(x) ==> #[trigger] h(x) == g(f(x)),
    ensures
        set_sum(s.map(f), g) == set_sum(s, h),
{
    let ks = enumeration(s);
    lemma_enumeration(s);
    let ms = ks.map_values(f);
    assert(ms.no_duplicates()) by {
        assert forall|i: int, j: int| 0 <= i < ms.len() && 0 <= j < ms.len() && i != j implies ms[i] != ms[j] by {
            assert(ks.to_set().contains(ks[i]));
            assert(ks.to_set().contains(ks[j]));
        }
    }
    ks.lemma_to_set_map_commutes(f);
    lemma_set_sum(ms, g);
    lemma_set_sum(ks, h);
    lemma_seq_sum_compose(ks, f, g, h, s);
}

proof fn lemma_seq_sum_compose<A, B>(ks: Seq<A>, f: spec_fn(A) -> B, g: spec_fn(B) -> nat, h: spec_fn(A) -> nat, s: Set<A>)
    requires
        ks.to_set().subset_of(s),
        forall|x: A| s.contains(x) ==> #[trigger] h(x) == g(f(x)),
    ensures
        seq_sum(ks.map_values(f), g) == seq_sum(ks, h),
    decreases ks.len(),
{
    if ks.len() > 0 {
        let r = ks.drop_last();
        assert(r.to_set().subset_of(s)) by {
            assert forall|x: A| r.to_set().contains(x) implies s.contains(x) by {
                let i = choose|i: int| 0 <= i < r.len() && r[i] == x;
                assert(ks[i] == x);
                assert(ks.to_set().contains(x));
            }
        }
        lemma_seq_sum_compose(r, f, g, h, s);
        assert(ks.map_values(f).drop_last() =~= r.map_values(f));
        assert(ks.to_set().contains(ks.last()));
    }
}

/// Every finite set has an enumeration.
pub proof fn lemma_enumeration<T>(s: Set<T>)
    requires
        s.finite(),
    ensures
        enumeration(s).no_duplicates(),
        enumeration(s).to_set() == s,
{
    lemma_to_seq_no_duplicates(s);
    s.lemma_to_seq_to_set_id();
    let ks = s.to_seq();
    assert(ks.no_duplicates() && ks.to_set() == s);
}

pub proof fn lemma_to_seq_no_duplicates<T>(s: Set<T>)
    requires
        s.finite(),
    ensures
        s.to_seq().no_duplicates(),
    decreases s.len(),
{
    if s.len() > 0 {
        let x = s.choose();
        let r = s.remove(x);
        lemma_to_seq_no_duplicates(r);
        r.lemma_to_seq_to_set_id();
        let t = r.to_seq();
        assert(s.to_seq() == seq![x] + t);
        assert forall|i: int| 0 <= i < t.len() implies t[i] != x by {
            assert(t.to_set().contains(t[i]));
        }
        vstd::seq_lib::lemma_no_dup_in_concat(seq![x], t);
    }
}

/// A sum of a function that is zero everywhere is zero.
pub proof fn lemma_seq_sum_zero<T>(ks: Seq<T>, f: spec_fn(T) -> nat)
    requires
        forall|k: T| #[trigger] f(k) == 0,
    ensures
        seq_sum(ks, f) == 0,
    decreases ks.len(),
{
    if ks.len() > 0 {
        lemma_seq_sum_zero(ks.drop_last(), f);
    }
}

/// The sum over a concatenation is the sum of the sums.
pub proof fn lemma_seq_sum_append<T>(s: Seq<T>, t: Seq<T>, f: spec_fn(T) -> nat)
    ensures
        seq_sum(s + t, f) == seq_sum(s, f) + seq_sum(t, f),
    decreases t.len(),
{
    if t.len() == 0 {
        assert(s + t =~= s);
    } else {
        lemma_seq_sum_append(s, t.drop_last(), f);
        assert((s + t).drop_last() =~= s + t.drop_last());
        assert((s + t).last() == t.last());
    }
}

/// Filtering a sequence without repeats gives one without repeats, made
/// of the elements of the sequence that pass.
pub proof fn lemma_filter_unique<T>(s: Seq<T>, p: spec_fn(T) -> bool)
    requires
        s.no_duplicates(),
    ensures
        s.filter(p).no_duplicates(),
        s.filter(p).to_set() == s.to_set().filter(p),
    decreases s.len(),
{
    reveal(Seq::filter);
    if s.len() == 0 {
        assert(s.to_set() =~= Set::<T>::empty());
        assert(s.filter(p) =~= Seq::<T>::empty());
        assert(s.filter(p).to_set() =~= Set::<T>::empty());
        assert(s.to_set().filter(p) =~= Set::<T>::empty());
    } else {
        let r = s.drop_last();
        let x = s.last();
        assert(r.no_duplicates()) by {
            assert forall|i: int, j: int| 0 <= i < r.len() && 0 <= j < r.len() && i != j implies r[i] != r[j] by {
                assert(s[i] != s[j]);
            }
        }
        lemma_filter_unique(r, p);
        assert(!r.to_set().contains(x)) by {
            if r.to_set().contains(x) {
                let i = choose|i: int| 0 <= i < r.len() && r[i] == x;
                assert(s[i] == s[s.len() - 1]);
            }
        }
        assert(s =~= r.push(x));
        r.lemma_push_to_set_commute(x);
        let rf = r.filter(p);
        if p(x) {
            assert(s.filter(p) == rf.push(x));
            assert(!rf.to_set().contains(x));
            assert forall|i: int, j: int|
                0 <= i < rf.push(x).len() && 0 <= j < rf.push(x).len() && i != j implies rf.push(x)[i] != rf.push(
                x,
            )[j] by {
                if i == rf.len() {
                    assert(rf.to_set().contains(rf[j]));
                } else if j == rf.len() {
                    assert(rf.to_set().contains(rf[i]));
                }
            }
            rf.lemma_push_to_set_commute(x);
        } else {
            assert(s.filter(p) == rf);
        }
        assert(s.filter(p).to_set() =~= s.to_set().filter(p));
    }
}

/// Filtering leaves a sum unchanged when what it drops counts nothing.
pub proof fn lemma_seq_sum_filter<T>(s: Seq<T>, p: spec_fn(T) -> bool, f: spec_fn(T) -> nat)
    requires
        forall|x: T| !p(x) ==> #[trigger] f(x) == 0,
    ensures
        seq_sum(s.filter(p), f) == seq_sum(s, f),
    decreases s.len(),
{
    reveal(Seq::filter);
    if s.len() > 0 {
        let r = s.drop_last();
        lemma_seq_sum_filter(r, p, f);
        if p(s.last()) {
            assert(r.filter(p).push(s.last()).drop_last() =~= r.filter(p));
        }
    }
}

} // verus!
