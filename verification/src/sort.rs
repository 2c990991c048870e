//! Stable sorting by a total preorder, used where the tool sorts names,
//! lints and name pieces.
use vstd::prelude::*;
use vstd::multiset::Multiset;

verus! {

broadcast use vstd::seq_lib::group_to_multiset_ensures;

/// A type with a total preorder and an executable comparison.
pub trait Ordered: Sized {
    /// `self` orders no later than `other`.
    spec fn le(&self, other: &Self) -> bool;

    proof fn lemma_total(a: &Self, b: &Self)
        ensures
            a.le(b) || b.le(a),
    ;

    proof fn lemma_trans(a: &Self, b: &Self, c: &Self)
        requires
            a.le(b),
            b.le(c),
        ensures
            a.le(c),
    ;

    /// Executable form of [`Ordered::le`].
    fn le_exec(&self, other: &Self) -> (r: bool)
        ensures
            r == self.le(other),
    ;
}

/// `s` is in non-decreasing order.
pub open spec fn sorted<T: Ordered>(s: Seq<T>) -> bool {
    forall|i: int, j: int| #![trigger s[i], s[j]] 0 <= i < j < s.len() ==> s[i].le(&s[j])
}

/// Where [`insert_sorted`] puts `x` into `s`: before the first element
/// that does not order before or with `x`.
pub open spec fn ins_pos<T: Ordered>(s: Seq<T>, x: T) -> int
    decreases s.len(),
{
    if s.len() == 0 {
        0
    } else if s[0].le(&x) {
        1 + ins_pos(s.drop_first(), x)
    } else {
        0
    }
}

/// `x` inserted into `s` after every element that orders before or with it.
pub open spec fn insert_sorted<T: Ordered>(s: Seq<T>, x: T) -> Seq<T> {
    s.insert(ins_pos(s, x), x)
}

/// The stable insertion sort of `s`: its elements inserted one by one,
/// first to last.
pub open spec fn isort<T: Ordered>(s: Seq<T>) -> Seq<T>
    decreases s.len(),
{
    if s.len() == 0 {
        s
    } else {
        insert_sorted(isort(s.drop_last()), s.last())
    }
}

/// [`ins_pos`] is a position of `s`.
pub proof fn lemma_ins_pos_bound<T: Ordered>(s: Seq<T>, x: T)
    ensures
        0 <= ins_pos(s, x) <= s.len(),
    decreases s.len(),
{
    if s.len() > 0 {
        lemma_ins_pos_bound(s.drop_first(), x);
    }
}

proof fn lemma_ins_pos<T: Ordered>(s: Seq<T>, x: T, p: int)
    requires
        0 <= p <= s.len(),
        forall|k: int| 0 <= k < p ==> (#[trigger] s[k]).le(&x),
        p == s.len() || !s[p].le(&x),
    ensures
        ins_pos(s, x) == p,
    decreases p,
{
    if p > 0 {
        assert forall|k: int| 0 <= k < p - 1 implies (#[trigger] s.drop_first()[k]).le(&x) by {
            assert(s.drop_first()[k] == s[k + 1]);
        }
        if p < s.len() {
            assert(s.drop_first()[p - 1] == s[p]);
        }
        lemma_ins_pos(s.drop_first(), x, p - 1);
        assert(s[0].le(&x));
    }
}

/// Inserting into a sorted sequence at [`ins_pos`] keeps it sorted.
pub proof fn lemma_insert_sorted<T: Ordered>(s: Seq<T>, x: T)
    requires
        sorted(s),
    ensures
        sorted(insert_sorted(s, x)),
        insert_sorted(s, x).len() == s.len() + 1,
{
    lemma_ins_pos_bound(s, x);
    let p = ins_pos(s, x);
    lemma_ins_pos_le(s, x);
    let a = insert_sorted(s, x);
    assert forall|i: int, j: int| #![trigger a[i], a[j]] 0 <= i < j < a.len() implies a[i].le(&a[j]) by {
        if j < p {
            assert(a[i] == s[i] && a[j] == s[j]);
        } else if j == p {
            assert(a[i] == s[i]);
        } else if i == p {
            assert(a[j] == s[j - 1]);
            if j - 1 > p {
                T::lemma_trans(&x, &s[p], &s[j - 1]);
            }
        } else if i < p {
            assert(a[i] == s[i] && a[j] == s[j - 1]);
            assert(i < j - 1);
        } else {
            assert(a[i] == s[i - 1] && a[j] == s[j - 1]);
        }
    }
}

/// What [`ins_pos`] means: everything before it orders before or with `x`,
/// and `x` orders before the element at it.
proof fn lemma_ins_pos_le<T: Ordered>(s: Seq<T>, x: T)
    ensures
        forall|k: int| 0 <= k < ins_pos(s, x) ==> (#[trigger] s[k]).le(&x),
        ins_pos(s, x) < s.len() ==> x.le(&s[ins_pos(s, x)]),
    decreases s.len(),
{
    if s.len() > 0 {
        lemma_ins_pos_le(s.drop_first(), x);
        lemma_ins_pos_bound(s.drop_first(), x);
        if s[0].le(&x) {
            assert forall|k: int| 0 <= k < ins_pos(s, x) implies (#[trigger] s[k]).le(&x) by {
                if k > 0 {
                    assert(s[k] == s.drop_first()[k - 1]);
                }
            }
            let q = ins_pos(s.drop_first(), x);
            assert(ins_pos(s, x) == 1 + q);
            if ins_pos(s, x) < s.len() {
                assert(s[1 + q] == s.drop_first()[q]);
            }
        } else {
            T::lemma_total(&s[0], &x);
        }
    }
}

/// The insertion sort of a sequence is sorted and a permutation of it.
pub proof fn lemma_isort<T: Ordered>(s: Seq<T>)
    ensures
        sorted(isort(s)),
        isort(s).len() == s.len(),
        isort(s).to_multiset() == s.to_multiset(),
    decreases s.len(),
{
    if s.len() > 0 {
        lemma_isort(s.drop_last());
        let t = isort(s.drop_last());
        lemma_insert_sorted(t, s.last());
        lemma_ins_pos_bound(t, s.last());
        let u = t.insert(ins_pos(t, s.last()), s.last());
        assert(u.remove(ins_pos(t, s.last())) =~= t);
        assert(u[ins_pos(t, s.last())] == s.last());
        assert(u.to_multiset().count(s.last()) > 0);
        assert(t.to_multiset() =~= u.to_multiset().remove(s.last()));
        assert(s.drop_last().push(s.last()) =~= s);
        assert(u.to_multiset() =~= s.to_multiset());
    }
}

/// Sorting a sorted sequence leaves it as it is.
pub proof fn lemma_isort_sorted_id<T: Ordered>(s: Seq<T>)
    requires
        sorted(s),
    ensures
        isort(s) == s,
    decreases s.len(),
{
    if s.len() > 0 {
        let f = s.drop_last();
        assert(sorted(f)) by {
            assert forall|i: int, j: int| #![trigger f[i], f[j]] 0 <= i < j < f.len() implies f[i].le(&f[j]) by {
                assert(f[i] == s[i] && f[j] == s[j]);
            }
        }
        lemma_isort_sorted_id(f);
        assert forall|k: int| 0 <= k < f.len() implies (#[trigger] f[k]).le(&s.last()) by {
            assert(f[k] == s[k]);
            assert(s[k].le(&s[s.len() - 1]));
        }
        lemma_ins_pos(f, s.last(), f.len() as int);
        assert(f.insert(f.len() as int, s.last()) =~= s);
    }
}

/// Sort `v` stably: the result is a sorted permutation of `v`, namely
/// its insertion sort.
pub fn sort_vec<T: Ordered>(v: Vec<T>) -> (r: Vec<T>)
    ensures
        sorted(r@),
        r@.to_multiset() == v@.to_multiset(),
        r@.len() == v@.len(),
        r@ == isort(v@),
{
    let mut v = v;
    let ghost orig = v@;
    let mut out: Vec<T> = Vec::new();
    let mut i: usize = 0;
    let n: usize = v.len();
    assert(orig.take(0) =~= Seq::<T>::empty());
    assert(v@ =~= orig.skip(0));
    while v.len() > 0
        invariant
            i <= orig.len(),
            orig.len() == n,
            v@ == orig.skip(i as int),
            out@ == isort(orig.take(i as int)),
            sorted(out@),
            out@.to_multiset().add(v@.to_multiset()) == orig.to_multiset(),
            out@.len() + v@.len() == orig.len(),
        decreases v@.len(),
    {
        let ghost vs = v@;
        let x = v.remove(0);
        proof {
            assert(vs.to_multiset() == v@.to_multiset().insert(x)) by {
                assert(vs.remove(0) =~= v@);
            }
            assert(orig.skip(i as int)[0] == orig[i as int]);
            assert(v@ =~= orig.skip(i + 1));
            assert(orig.take(i + 1).drop_last() =~= orig.take(i as int));
            assert(orig.take(i + 1).last() == x);
        }
        let mut p: usize = 0;
        while p < out.len() && out[p].le_exec(&x)
            invariant
                p <= out@.len(),
                forall|k: int| 0 <= k < p ==> (#[trigger] out@[k]).le(&x),
            decreases out@.len() - p,
        {
            p = p + 1;
        }
        let ghost before = out@;
        proof {
            if p < before.len() {
                T::lemma_total(&before[p as int], &x);
            }
        }
        proof {
            lemma_ins_pos(before, x, p as int);
        }
        out.insert(p, x);
        i = i + 1;
        proof {
            let a = out@;
            assert(a =~= before.insert(p as int, x));
            assert forall|i: int, j: int| #![trigger a[i], a[j]] 0 <= i < j < a.len() implies a[i].le(
                &a[j],
            ) by {
                if j < p {
                    assert(a[i] == before[i] && a[j] == before[j]);
                } else if j == p {
                    assert(a[i] == before[i]);
                } else if i == p {
                    assert(a[j] == before[j - 1]);
                    // x <= before[p] <= before[j - 1]
                    if j - 1 > p {
                        T::lemma_trans(&x, &before[p as int], &before[j - 1]);
                    }
                } else if i < p {
                    assert(a[i] == before[i] && a[j] == before[j - 1]);
                } else {
                    assert(a[i] == before[i - 1] && a[j] == before[j - 1]);
                }
            }
            assert(out@.to_multiset() == before.to_multiset().insert(x));
            assert(out@.to_multiset().add(v@.to_multiset()) =~= before.to_multiset().add(
                vs.to_multiset(),
            ));
        }
    }
    assert(v@.to_multiset() =~= Multiset::empty());
    assert(orig.take(orig.len() as int) =~= orig);
    out
}


/// Lexicographic order on character sequences, by code point (the order of
/// `String`, whose bytes are UTF-8).
pub open spec fn chars_le(a: Seq<char>, b: Seq<char>) -> bool
    decreases a.len(),
{
    if a.len() == 0 {
        true
    } else if b.len() == 0 {
        false
    } else if a[0] < b[0] {
        true
    } else if a[0] > b[0] {
        false
    } else {
        chars_le(a.drop_first(), b.drop_first())
    }
}

pub proof fn lemma_chars_le_total(a: Seq<char>, b: Seq<char>)
    ensures
        chars_le(a, b) || chars_le(b, a),
    decreases a.len(),
{
    if a.len() > 0 && b.len() > 0 && a[0] == b[0] {
        lemma_chars_le_total(a.drop_first(), b.drop_first());
    }
}

pub proof fn lemma_chars_le_trans(a: Seq<char>, b: Seq<char>, c: Seq<char>)
    requires
        chars_le(a, b),
        chars_le(b, c),
    ensures
        chars_le(a, c),
    decreases a.len(),
{
    if a.len() > 0 && b.len() > 0 && c.len() > 0 && a[0] == b[0] && b[0] == c[0] {
        lemma_chars_le_trans(a.drop_first(), b.drop_first(), c.drop_first());
    }
}

pub proof fn lemma_chars_le_antisym(a: Seq<char>, b: Seq<char>)
    requires
        chars_le(a, b),
        chars_le(b, a),
    ensures
        a == b,
    decreases a.len(),
{
    if a.len() > 0 && b.len() > 0 {
        lemma_chars_le_antisym(a.drop_first(), b.drop_first());
        assert(a =~= seq![a[0]] + a.drop_first());
        assert(b =~= seq![b[0]] + b.drop_first());
    }
}

/// Executable form of [`chars_le`] on two strings.
pub fn string_le(a: &String, b: &String) -> (r: bool)
    ensures
        r == chars_le(a@, b@),
{
    let x = crate::text::str_chars(a.as_str());
    let y = crate::text::str_chars(b.as_str());
    chars_vec_le(x.as_slice(), y.as_slice())
}

/// Executable form of [`chars_le`] on two character slices.
pub fn chars_vec_le(x: &[char], y: &[char]) -> (r: bool)
    ensures
        r == chars_le(x@, y@),
{
    let mut i: usize = 0;
    assert(x@.skip(0) =~= x@);
    assert(y@.skip(0) =~= y@);
    while i < x.len() && i < y.len() && x[i] == y[i]
        invariant
            i <= x@.len(),
            i <= y@.len(),
            chars_le(x@, y@) == chars_le(x@.skip(i as int), y@.skip(i as int)),
        decreases x@.len() - i,
    {
        proof {
            assert(x@.skip(i as int).drop_first() =~= x@.skip(i + 1));
            assert(y@.skip(i as int).drop_first() =~= y@.skip(i + 1));
        }
        i = i + 1;
    }
    if i == x.len() {
        true
    } else if i == y.len() {
        false
    } else {
        assert(x@.skip(i as int)[0] == x@[i as int]);
        assert(y@.skip(i as int)[0] == y@[i as int]);
        x[i] < y[i]
    }
}

} // verus!
