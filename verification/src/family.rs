//! The "family" of an artifact: its parent (`REQ-foo` for `REQ-foo-bar`)
//! and the artifact it is automatically linked to (`REQ-foo` for
//! `SPC-foo`, `SPC-foo` for `TST-foo`).
use vstd::prelude::*;
use crate::name::{
    ascii_upper, check_name, is_name_char, name_type, prefix_type, type_of, upper, valid_elements,
    valid_name, dedup_keys, InternalName, Name, Type,
};
use crate::text::{chars_to_string, str_chars};
use crate::sort::{chars_le, isort, lemma_chars_le_total, lemma_chars_le_trans, sort_vec, sorted, string_le, Ordered};

verus! {

// ------------------------------------------------------------------
// Sets of names keyed by their upper-cased key

/// Index of the first name in `s` whose key is `key`, or -1.
pub open spec fn key_index(s: Seq<Name>, key: Seq<char>) -> int
    decreases s.len(),
{
    if s.len() == 0 {
        -1
    } else if key_index(s.drop_last(), key) >= 0 {
        key_index(s.drop_last(), key)
    } else if s.last().key_v() == key {
        s.len() - 1
    } else {
        -1
    }
}

/// Does `s` hold a name with key `key`?
pub open spec fn has_key(s: Seq<Name>, key: Seq<char>) -> bool {
    exists|i: int| 0 <= i < s.len() && (#[trigger] s[i]).key_v() == key
}

/// No two names of `s` have the same key.
pub open spec fn keys_unique(s: Seq<Name>) -> bool {
    forall|i: int, j: int|
        0 <= i < s.len() && 0 <= j < s.len() && i != j ==> (#[trigger] s[i]).key_v() != (
        #[trigger] s[j]).key_v()
}

/// All names of `s` are well formed.
pub open spec fn all_wf(s: Seq<Name>) -> bool {
    forall|i: int| 0 <= i < s.len() ==> (#[trigger] s[i]).wf()
}

/// The raw forms of a sequence of names.
pub open spec fn raws(s: Seq<Name>) -> Seq<Seq<char>> {
    s.map_values(|n: Name| n.raw_v())
}

/// `s` with the name of key `key` removed by swap-removal: the last
/// element takes its place.
pub open spec fn swap_remove_key(s: Seq<Name>, key: Seq<char>) -> Seq<Name> {
    let i = key_index(s, key);
    if i < 0 {
        s
    } else {
        s.update(i, s.last()).drop_last()
    }
}

pub proof fn lemma_key_index(s: Seq<Name>, key: Seq<char>)
    ensures
        -1 <= key_index(s, key) < s.len(),
        key_index(s, key) >= 0 ==> s[key_index(s, key)].key_v() == key,
        key_index(s, key) >= 0 ==> forall|j: int| 0 <= j < key_index(s, key) ==> (
        #[trigger] s[j]).key_v() != key,
        key_index(s, key) < 0 <==> !has_key(s, key),
    decreases s.len(),
{
    if s.len() > 0 {
        lemma_key_index(s.drop_last(), key);
        if key_index(s.drop_last(), key) >= 0 {
            assert(s.drop_last()[key_index(s, key)] == s[key_index(s, key)]);
            assert forall|j: int| 0 <= j < key_index(s, key) implies (#[trigger] s[j]).key_v()
                != key by {
                assert(s.drop_last()[j] == s[j]);
            }
        } else {
            assert forall|j: int| 0 <= j < s.len() - 1 implies (#[trigger] s[j]).key_v() != key by {
                assert(s.drop_last()[j] == s[j]);
            }
        }
    }
}

/// Removing a key from names with unique keys leaves unique keys, no name
/// of that key, and only names that were there.
pub proof fn lemma_swap_remove_key(s: Seq<Name>, k: Seq<char>)
    requires
        keys_unique(s),
    ensures
        keys_unique(swap_remove_key(s, k)),
        !has_key(swap_remove_key(s, k), k),
        forall|j: int| 0 <= j < swap_remove_key(s, k).len() ==> s.contains(#[trigger] swap_remove_key(s, k)[j]),
{
    lemma_key_index(s, k);
    let i = key_index(s, k);
    let r = swap_remove_key(s, k);
    if i >= 0 {
        let n = s.len() - 1;
        // where each element of the result comes from
        assert forall|j: int| 0 <= j < r.len() implies #[trigger] r[j] == s[if j == i { n } else { j }] by {}
        assert forall|a: int, b: int| 0 <= a < r.len() && 0 <= b < r.len() && a != b implies (#[trigger] r[a]).key_v()
            != (#[trigger] r[b]).key_v() by {
            let sa = if a == i { n } else { a };
            let sb = if b == i { n } else { b };
            assert(r[a] == s[sa] && r[b] == s[sb]);
        }
        assert forall|j: int| 0 <= j < r.len() implies (#[trigger] r[j]).key_v() != k by {
            let sj = if j == i { n } else { j };
            assert(r[j] == s[sj]);
            assert(sj != i);
        }
        assert forall|j: int| 0 <= j < r.len() implies s.contains(#[trigger] r[j]) by {
            let sj = if j == i { n } else { j };
            assert(r[j] == s[sj]);
        }
    } else {
        assert forall|j: int| 0 <= j < r.len() implies s.contains(#[trigger] r[j]) by {
            assert(r[j] == s[j]);
        }
    }
}

/// Index of the first name in `v` with key `key`.
pub fn find_key(v: &[Name], key: &String) -> (r: Option<usize>)
    ensures
        r matches Some(i) ==> i == key_index(v@, key@),
        r is None ==> key_index(v@, key@) == -1,
{
    let mut i: usize = 0;
    proof { lemma_key_index(v@, key@); }
    while i < v.len()
        invariant
            i <= v@.len(),
            forall|j: int| 0 <= j < i ==> (#[trigger] v@[j]).key_v() != key@,
        decreases v@.len() - i,
    {
        if v[i].0.key == *key {
            proof {
                lemma_key_index(v@, key@);
                assert(v@[i as int].key_v() == key@);
                assert(has_key(v@, key@));
                let ki = key_index(v@, key@);
                if ki > i {
                    assert(v@[i as int].key_v() == key@);
                }
            }
            return Some(i);
        }
        i = i + 1;
    }
    None
}

/// A set of names, in insertion order, each key at most once.
#[derive(Debug)]
pub struct Names(pub Vec<Name>);

impl Names {
    /// Well formed: every name is well formed and no key repeats.
    pub open spec fn wf(&self) -> bool {
        all_wf(self.0@) && keys_unique(self.0@)
    }

    /// An empty set of names.
    pub fn new() -> (r: Names)
        ensures
            r.wf(),
            r.0@ == Seq::<Name>::empty(),
    {
        Names(Vec::new())
    }

    /// Insert `name` unless a name of the same key is already present, in
    /// which case the set is unchanged. Returns whether
    /// the name was inserted.
    pub fn insert(&mut self, name: Name) -> (r: bool)
        requires
            old(self).wf(),
            name.wf(),
        ensures
            final(self).wf(),
            r == !has_key(old(self).0@, name.key_v()),
            r ==> final(self).0@ == old(self).0@.push(name),
            !r ==> final(self).0@ == old(self).0@,
    {
        proof { lemma_key_index(self.0@, name.key_v()); }
        match find_key(self.0.as_slice(), &name.0.key) {
            Some(_) => false,
            None => {
                self.0.push(name);
                true
            },
        }
    }

    /// Remove the name with the key of `name`, if present, by swap-removal:
    /// the last name takes its place.
    pub fn remove(&mut self, name: &Name)
        requires
            old(self).wf(),
        ensures
            final(self).wf(),
            final(self).0@ == swap_remove_key(old(self).0@, name.key_v()),
    {
        proof { lemma_key_index(self.0@, name.key_v()); }
        match find_key(self.0.as_slice(), &name.0.key) {
            Some(i) => {
                let ghost s = self.0@;
                self.0.swap_remove(i);
                proof {
                    assert(self.0@ =~= s.update(i as int, s.last()).drop_last());
                    let t = self.0@;
                    assert forall|a: int| 0 <= a < t.len() implies (#[trigger] t[a]).wf() by {
                        if a == i {
                            assert(t[a] == s[s.len() - 1]);
                        } else {
                            assert(t[a] == s[a]);
                        }
                    }
                    assert forall|a: int, b: int|
                        0 <= a < t.len() && 0 <= b < t.len() && a != b implies (
                        #[trigger] t[a]).key_v() != (#[trigger] t[b]).key_v() by {
                        let a2 = if a == i { s.len() - 1 } else { a };
                        let b2 = if b == i { s.len() - 1 } else { b };
                        assert(t[a] == s[a2]);
                        assert(t[b] == s[b2]);
                    }
                }
            },
            None => {},
        }
    }

    /// Does the set hold a name with the key of `name`?
    pub fn contains(&self, name: &Name) -> (r: bool)
        ensures
            r == has_key(self.0@, name.key_v()),
    {
        proof { lemma_key_index(self.0@, name.key_v()); }
        find_key(self.0.as_slice(), &name.0.key).is_some()
    }

    /// Number of names.
    pub fn len(&self) -> (r: usize)
        ensures
            r == self.0@.len(),
    {
        self.0.len()
    }
}


impl Ordered for Name {
    /// Names are ordered by their keys.
    open spec fn le(&self, other: &Self) -> bool {
        chars_le(self.key_v(), other.key_v())
    }

    proof fn lemma_total(a: &Self, b: &Self) {
        lemma_chars_le_total(a.key_v(), b.key_v());
    }

    proof fn lemma_trans(a: &Self, b: &Self, c: &Self) {
        lemma_chars_le_trans(a.key_v(), b.key_v(), c.key_v());
    }

    fn le_exec(&self, other: &Self) -> (r: bool) {
        string_le(&self.0.key, &other.0.key)
    }
}

/// A sequence of names with unique keys holds no value twice.
proof fn lemma_unique_keys_no_dup(s: Seq<Name>)
    requires
        keys_unique(s),
    ensures
        s.no_duplicates(),
{
    assert forall|i: int, j: int| 0 <= i < s.len() && 0 <= j < s.len() && i != j implies s[i]
        != s[j] by {
        assert(s[i].key_v() != s[j].key_v());
    }
}

/// A permutation of well-formed names with unique keys is well formed and
/// has unique keys.
pub(crate) proof fn lemma_permutation_wf(s: Seq<Name>, t: Seq<Name>)
    requires
        all_wf(s),
        keys_unique(s),
        t.to_multiset() == s.to_multiset(),
    ensures
        all_wf(t),
        keys_unique(t),
{
    broadcast use vstd::seq_lib::group_to_multiset_ensures;

    assert forall|i: int| 0 <= i < t.len() implies #[trigger] s.contains(t[i]) by {
        assert(t.to_multiset().count(t[i]) > 0);
    }
    assert forall|i: int| 0 <= i < t.len() implies (#[trigger] t[i]).wf() by {
        assert(s.contains(t[i]));
    }
    lemma_unique_keys_no_dup(s);
    s.lemma_multiset_has_no_duplicates();
    t.lemma_multiset_has_no_duplicates_conv();
    assert forall|i: int, j: int| 0 <= i < t.len() && 0 <= j < t.len() && i != j implies (
    #[trigger] t[i]).key_v() != (#[trigger] t[j]).key_v() by {
        assert(s.contains(t[i]));
        assert(s.contains(t[j]));
        let p = choose|p: int| 0 <= p < s.len() && s[p] == t[i];
        let q = choose|q: int| 0 <= q < s.len() && s[q] == t[j];
        assert(t[i] != t[j]);
    }
}

impl Names {
    /// Sort the names by key.
    pub fn sort(&mut self)
        requires
            old(self).wf(),
        ensures
            final(self).wf(),
            sorted(final(self).0@),
            final(self).0@.to_multiset() == old(self).0@.to_multiset(),
            final(self).0@ == isort(old(self).0@),
    {
        let mut v: Vec<Name> = Vec::new();
        std::mem::swap(&mut v, &mut self.0);
        let r = sort_vec(v);
        proof {
            lemma_permutation_wf(v@, r@);
        }
        self.0 = r;
    }
}

/// No two elements of `s` have the same upper-cased form.
pub open spec fn upper_unique(s: Seq<Seq<char>>) -> bool {
    forall|i: int, j: int|
        0 <= i < s.len() && 0 <= j < s.len() && i != j ==> upper(#[trigger] s[i]) != upper(
            #[trigger] s[j],
        )
}

/// Removing repeated keys from a sequence without them changes nothing.
pub proof fn lemma_dedup_unique(s: Seq<Seq<char>>)
    requires
        upper_unique(s),
    ensures
        dedup_keys(s) == s,
    decreases s.len(),
{
    if s.len() > 0 {
        let t = s.drop_last();
        assert(upper_unique(t)) by {
            assert forall|i: int, j: int|
                0 <= i < t.len() && 0 <= j < t.len() && i != j implies upper(#[trigger] t[i])
                != upper(#[trigger] t[j]) by {
                assert(t[i] == s[i] && t[j] == s[j]);
            }
        }
        lemma_dedup_unique(t);
        if exists|k: int| 0 <= k < t.len() && upper(#[trigger] t[k]) == upper(s.last()) {
            let k = choose|k: int| 0 <= k < t.len() && upper(#[trigger] t[k]) == upper(s.last());
            assert(s[k] == t[k]);
            assert(upper(s[k]) != upper(s[s.len() - 1]));
        }
        assert(s =~= t.push(s.last()));
    }
}

/// The raw forms of well-formed names with unique keys have unique
/// upper-cased forms.
pub proof fn lemma_raws_unique(s: Seq<Name>)
    requires
        all_wf(s),
        keys_unique(s),
    ensures
        upper_unique(raws(s)),
{
    assert forall|i: int, j: int|
        0 <= i < raws(s).len() && 0 <= j < raws(s).len() && i != j implies upper(
        #[trigger] raws(s)[i],
    ) != upper(#[trigger] raws(s)[j]) by {
        assert(s[i].wf() && s[j].wf());
        assert(s[i].key_v() != s[j].key_v());
    }
}

impl Names {
    /// Insert each name of `other` in turn (see [`Names::insert`]).
    pub fn extend_names(&mut self, other: &Names)
        requires
            old(self).wf(),
            other.wf(),
        ensures
            final(self).wf(),
            raws(final(self).0@) == dedup_keys(raws(old(self).0@) + raws(other.0@)),
    {
        let ghost a = raws(self.0@);
        let ghost b = raws(other.0@);
        proof {
            lemma_raws_unique(self.0@);
            lemma_dedup_unique(a);
            assert(a + b.take(0) =~= a);
        }
        let mut k: usize = 0;
        while k < other.0.len()
            invariant
                k <= other.0@.len(),
                b == raws(other.0@),
                other.wf(),
                self.wf(),
                raws(self.0@) == dedup_keys(a + b.take(k as int)),
            decreases other.0@.len() - k,
        {
            let n = other.0[k].clone();
            let ghost before = self.0@;
            let ghost x = b[k as int];
            proof {
                assert(other.0@[k as int].wf());
                assert((a + b.take(k + 1)).drop_last() =~= a + b.take(k as int));
                assert((a + b.take(k + 1)).last() == x);
                assert(x == n.raw_v());
                if has_key(before, n.key_v()) {
                    let w = choose|w: int| 0 <= w < before.len() && (#[trigger] before[w]).key_v()
                        == n.key_v();
                    assert(raws(before)[w] == before[w].raw_v());
                    assert(before[w].wf());
                    assert(upper(raws(before)[w]) == upper(x));
                }
                if exists|w: int|
                    0 <= w < raws(before).len() && upper(#[trigger] raws(before)[w]) == upper(x) {
                    let w = choose|w: int|
                        0 <= w < raws(before).len() && upper(#[trigger] raws(before)[w]) == upper(
                            x,
                        );
                    assert(before[w].wf());
                    assert(before[w].key_v() == n.key_v());
                }
            }
            self.insert(n);
            k = k + 1;
            assert(raws(self.0@) =~= dedup_keys(a + b.take(k as int)));
        }
        assert(b.take(other.0@.len() as int) =~= b);
    }
}

// ------------------------------------------------------------------
// Parent and automatic partof

/// Index of the last `-` in `s`, or -1.
pub open spec fn last_dash(s: Seq<char>) -> int
    decreases s.len(),
{
    if s.len() == 0 {
        -1
    } else if s.last() == '-' {
        s.len() - 1
    } else {
        last_dash(s.drop_last())
    }
}

/// The raw form of the parent of the name `s`: `s` up to its last `-`,
/// unless that `-` is the one after the type.
pub open spec fn parent_raw(s: Seq<char>) -> Option<Seq<char>> {
    if last_dash(s) == 3 {
        None
    } else {
        Some(s.take(last_dash(s)))
    }
}

/// The raw form of the name that `s` is automatically linked to:
/// none for `REQ`, the `REQ` of the same name for `SPC`, the `SPC` of the
/// same name for `TST`.
pub open spec fn auto_partof_raw(s: Seq<char>) -> Option<Seq<char>> {
    match name_type(s) {
        Type::REQ => None,
        Type::SPC => Some(seq!['R', 'E', 'Q'] + s.skip(3)),
        Type::TST => Some(seq!['S', 'P', 'C'] + s.skip(3)),
    }
}

proof fn lemma_last_dash(s: Seq<char>)
    ensures
        -1 <= last_dash(s) < s.len(),
        last_dash(s) >= 0 ==> s[last_dash(s)] == '-',
        forall|j: int| last_dash(s) < j < s.len() ==> #[trigger] s[j] != '-',
    decreases s.len(),
{
    if s.len() > 0 && s.last() != '-' {
        lemma_last_dash(s.drop_last());
        assert forall|j: int| last_dash(s) < j < s.len() implies #[trigger] s[j] != '-' by {
            if j < s.len() - 1 {
                assert(s.drop_last()[j] == s[j]);
            }
        }
    }
}

/// The parent of a valid name is a valid name.
proof fn lemma_parent_valid(s: Seq<char>)
    requires
        valid_name(s),
    ensures
        3 <= last_dash(s),
        last_dash(s) > 3 ==> valid_name(s.take(last_dash(s))),
{
    lemma_last_dash(s);
    let b = s.skip(4);
    assert(s[3] == '-');
    let l = last_dash(s);
    if l > 3 {
        let p = s.take(l);
        let pb = p.skip(4);
        assert(b[0] == s[4]);
        assert(l != 4);
        assert(b[l - 5] == s[l - 1]);
        assert(b[l - 4] == s[l]);
        assert(s[l - 1] != '-');
        assert(pb.last() == s[l - 1]);
        assert(pb[0] == s[4]);
        assert forall|i: int| 0 <= i < pb.len() implies (is_name_char(#[trigger] pb[i]) || pb[i]
            == '-') by {
            assert(pb[i] == b[i]);
        }
        assert forall|i: int| 0 <= i < pb.len() - 1 && #[trigger] pb[i] == '-' implies pb[i + 1]
            != '-' by {
            assert(pb[i] == b[i]);
            assert(pb[i + 1] == b[i + 1]);
        }
        assert(p[0] == s[0] && p[1] == s[1] && p[2] == s[2] && p[3] == s[3]);
    }
}

/// The name automatically linked to a valid `SPC` or `TST` name is valid.
proof fn lemma_auto_partof_valid(s: Seq<char>)
    requires
        valid_name(s),
    ensures
        auto_partof_raw(s) matches Some(p) ==> valid_name(p) && name_type(p) != name_type(s),
{
    if let Some(p) = auto_partof_raw(s) {
        assert(p.skip(4) =~= s.skip(4));
        assert(p[3] == s[3]);
    }
}

impl Name {
    /// The parent of the name, if it has one: `REQ-foo` for `REQ-foo-bar`.
    pub fn parent(&self) -> (r: Option<Name>)
        requires
            self.wf(),
        ensures
            r is None <==> parent_raw(self.raw_v()) is None,
            r matches Some(p) ==> p.wf() && Some(p.raw_v()) == parent_raw(self.raw_v()),
    {
        let v = str_chars(self.as_str());
        proof {
            lemma_last_dash(v@);
            lemma_parent_valid(v@);
        }
        let mut loc: usize = v.len();
        while loc > 0 && v[loc - 1] != '-'
            invariant
                loc <= v@.len(),
                forall|j: int| loc <= j < v@.len() ==> #[trigger] v@[j] != '-',
            decreases loc,
        {
            loc = loc - 1;
        }
        if loc == 0 {
            // a valid name always holds the `-` after its type
            assert(v@[3] == '-');
            return None;
        }
        let loc: usize = loc - 1;
        if loc == 3 {
            return None;
        }
        let raw = chars_to_string(v.as_slice(), 0, loc);
        assert(v@.subrange(0, loc as int) =~= v@.take(loc as int));
        match Name::from_str(raw.as_str()) {
            Ok(n) => Some(n),
            Err(_) => None,
        }
    }

    /// The artifact that this name is automatically linked to, if any:
    /// none for `REQ`, `REQ-x` for `SPC-x`, `SPC-x` for `TST-x`.
    pub fn auto_partof(&self) -> (r: Option<Name>)
        requires
            self.wf(),
        ensures
            r is None <==> auto_partof_raw(self.raw_v()) is None,
            r matches Some(p) ==> p.wf() && Some(p.raw_v()) == auto_partof_raw(self.raw_v()),
    {
        let prefix = match self.0.ty {
            Type::REQ => { return None; },
            Type::SPC => "REQ",
            Type::TST => "SPC",
        };
        let v = str_chars(self.as_str());
        let mut out = prefix.to_owned();
        let rest = chars_to_string(v.as_slice(), 3, v.len());
        out.append(rest.as_str());
        proof {
            reveal_strlit("REQ");
            reveal_strlit("SPC");
            lemma_auto_partof_valid(v@);
            assert(v@.subrange(3, v@.len() as int) =~= v@.skip(3));
            assert(out@ == auto_partof_raw(v@)->0);
        }
        match Name::from_str(out.as_str()) {
            Ok(n) => Some(n),
            Err(_) => None,
        }
    }
}


/// The names (keys) of a sequence of name-keyed pairs.
pub open spec fn pair_keys<T>(s: Seq<(Name, T)>) -> Seq<Name> {
    s.map_values(|x: (Name, T)| x.0)
}

/// Does `s` hold a pair keyed by a name of key `key`?
pub fn pairs_have_key<T>(s: &[(Name, T)], key: &String) -> (r: bool)
    ensures
        r == has_key(pair_keys(s@), key@),
{
    let mut i: usize = 0;
    while i < s.len()
        invariant
            i <= s@.len(),
            forall|j: int| 0 <= j < i ==> (#[trigger] pair_keys(s@)[j]).key_v() != key@,
        decreases s@.len() - i,
    {
        if s[i].0.0.key == *key {
            assert(pair_keys(s@)[i as int].key_v() == key@);
            return true;
        }
        i = i + 1;
    }
    false
}

/// The raw forms of the automatic `partof` of the name `raw` among the
/// names `keys`: its parent, then the artifact it is automatically linked
/// to, each only if it is among `keys`.
pub open spec fn auto_partof_set(keys: Seq<Name>, raw: Seq<char>) -> Seq<Seq<char>> {
    let p = match parent_raw(raw) {
        Some(p) => if has_key(keys, upper(p)) { seq![p] } else { seq![] },
        None => seq![],
    };
    let a = match auto_partof_raw(raw) {
        Some(a) => if has_key(keys, upper(a)) { seq![a] } else { seq![] },
        None => seq![],
    };
    p + a
}

pub(crate) proof fn lemma_family_types(s: Seq<char>)
    requires
        valid_name(s),
    ensures
        parent_raw(s) matches Some(p) ==> valid_name(p) && name_type(p) == name_type(s),
        auto_partof_raw(s) matches Some(a) ==> valid_name(a) && name_type(a) != name_type(s),
        parent_raw(s) matches Some(p) ==> (auto_partof_raw(s) matches Some(a) ==> upper(p) != upper(
            a,
        )),
{
    lemma_parent_valid(s);
    lemma_auto_partof_valid(s);
    lemma_last_dash(s);
    if let Some(p) = parent_raw(s) {
        assert(p[0] == s[0] && p[1] == s[1] && p[2] == s[2]);
        if let Some(a) = auto_partof_raw(s) {
            if upper(p) == upper(a) {
                assert(upper(p)[0] == upper(a)[0]);
                assert(upper(p)[1] == upper(a)[1]);
                assert(upper(p)[2] == upper(a)[2]);
            }
        }
    }
}

/// Given all names, return the `partof` that each gains automatically:
/// its parent and the artifact it is automatically linked to, where those
/// exist among the names.
pub fn auto_partofs<T>(names: &Vec<(Name, T)>) -> (r: Vec<(Name, Names)>)
    requires
        all_wf(pair_keys(names@)),
    ensures
        r@.len() == names@.len(),
        forall|i: int|
            0 <= i < r@.len() ==> {
                &&& (#[trigger] r@[i]).0 == names@[i].0
                &&& r@[i].1.wf()
                &&& raws(r@[i].1.0@) == auto_partof_set(pair_keys(names@), names@[i].0.raw_v())
            },
{
    let mut out: Vec<(Name, Names)> = Vec::new();
    let mut i: usize = 0;
    while i < names.len()
        invariant
            i <= names@.len(),
            out@.len() == i,
            all_wf(pair_keys(names@)),
            forall|k: int|
                0 <= k < i ==> {
                    &&& (#[trigger] out@[k]).0 == names@[k].0
                    &&& out@[k].1.wf()
                    &&& raws(out@[k].1.0@) == auto_partof_set(
                        pair_keys(names@),
                        names@[k].0.raw_v(),
                    )
                },
        decreases names@.len() - i,
    {
        let name = &names[i].0;
        assert(pair_keys(names@)[i as int] == names@[i as int].0);
        assert(name.wf());
        proof { lemma_family_types(name.raw_v()); }
        let mut auto = Names::new();
        if let Some(parent) = name.parent() {
            if pairs_have_key(names.as_slice(), &parent.0.key) {
                auto.insert(parent);
            }
        }
        assert(raws(auto.0@) =~= (match parent_raw(name.raw_v()) {
            Some(p) => if has_key(pair_keys(names@), upper(p)) { seq![p] } else { seq![] },
            None => seq![],
        }));
        if let Some(partof) = name.auto_partof() {
            if pairs_have_key(names.as_slice(), &partof.0.key) {
                let ghost before = auto.0@;
                auto.insert(partof);
                proof {
                    if before.len() == 1 {
                        assert(before[0].key_v() != partof.key_v());
                    }
                    assert(!has_key(before, partof.key_v()));
                }
            }
        }
        assert(raws(auto.0@) =~= auto_partof_set(pair_keys(names@), name.raw_v()));
        out.push((name.clone(), auto));
        i = i + 1;
    }
    out
}

/// Strip the automatic family (parent and automatic link) of `name` from a
/// `partof` set.
pub fn strip_auto_partofs(name: &Name, names: &mut Names)
    requires
        name.wf(),
        old(names).wf(),
    ensures
        final(names).wf(),
        final(names).0@ == (match (parent_raw(name.raw_v()), auto_partof_raw(name.raw_v())) {
            (Some(p), Some(a)) => swap_remove_key(swap_remove_key(old(names).0@, upper(p)), upper(a)),
            (Some(p), None) => swap_remove_key(old(names).0@, upper(p)),
            (None, Some(a)) => swap_remove_key(old(names).0@, upper(a)),
            (None, None) => old(names).0@,
        }),
{
    if let Some(p) = name.parent() {
        names.remove(&p);
    }
    if let Some(p) = name.auto_partof() {
        names.remove(&p);
    }
}

/// The raw forms of the names, in order.
pub fn names_raw(names: &[Name]) -> (r: Vec<String>)
    ensures
        r@.map_values(|s: String| s@) == raws(names@),
{
    let mut out: Vec<String> = Vec::new();
    let mut i: usize = 0;
    while i < names.len()
        invariant
            i <= names@.len(),
            out@.map_values(|s: String| s@) == raws(names@).take(i as int),
        decreases names@.len() - i,
    {
        let ghost before = out@;
        let s = names[i].as_str().to_owned();
        assert(s@ == raws(names@)[i as int]);
        out.push(s);
        assert(out@.map_values(|s: String| s@) =~= before.map_values(|s: String| s@).push(s@));
        assert(raws(names@).take(i + 1) =~= raws(names@).take(i as int).push(raws(names@)[i as int]));
        i = i + 1;
    }
    assert(raws(names@).take(names@.len() as int) =~= raws(names@));
    out
}

} // verus!
