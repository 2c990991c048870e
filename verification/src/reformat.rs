//! Formatting a loaded project: the editable part read back from a loaded
//! artifact is the artifact as it was read.
use vstd::prelude::*;
use crate::artifact::{clean_of, strip_spec, ArtifactIm, ImplCode};
use crate::family::{
    all_wf, auto_partof_raw, auto_partof_set, key_index, keys_unique, lemma_key_index, pair_keys,
    parent_raw, raws, swap_remove_key, upper_unique,
};
use crate::graph::Graphs;
use crate::implemented::{first_index, lemma_first_index, name_keys_of};
use crate::loaded::{determined, files_of, joined, last_with_key, lemma_last_with_key};
use crate::modify::im_of;
use crate::project::Artifact;
use crate::name::{dedup_keys, upper, valid_name, Name};
use crate::sort::{isort, lemma_chars_le_antisym, sorted, Ordered};

verus! {

/// Two sequences of well-formed names, each sorted by key with unique
/// keys, that hold the same raw names hold them in the same order.
proof fn lemma_sorted_same_raws(s: Seq<Name>, t: Seq<Name>)
    requires
        all_wf(s),
        all_wf(t),
        keys_unique(s),
        keys_unique(t),
        sorted(s),
        sorted(t),
        raws(s).to_set() == raws(t).to_set(),
    ensures
        raws(s) == raws(t),
    decreases s.len(),
{
    if s.len() == 0 {
        if t.len() > 0 {
            assert(raws(t).to_set().contains(raws(t)[0]));
        }
        assert(raws(s) =~= raws(t));
    } else {
        assert(raws(s).to_set().contains(raws(s)[0]));
        assert(raws(t).to_set().contains(raws(s)[0]));
        let k = choose|k: int| 0 <= k < raws(t).len() && raws(t)[k] == raws(s)[0];
        assert(raws(t).to_set().contains(raws(t)[0]));
        assert(raws(s).to_set().contains(raws(t)[0]));
        let m = choose|m: int| 0 <= m < raws(s).len() && raws(s)[m] == raws(t)[0];
        assert(t[k].key_v() == s[0].key_v()) by {
            assert(t[k].wf() && s[0].wf());
        }
        assert(s[m].key_v() == t[0].key_v()) by {
            assert(t[0].wf() && s[m].wf());
        }
        if k > 0 {
            assert(t[0].le(&t[k]));
            if m > 0 {
                assert(s[0].le(&s[m]));
            }
            lemma_chars_le_antisym(t[0].key_v(), s[0].key_v());
            assert(t[0].key_v() == t[k].key_v());
            assert(false);
        }
        let s1 = s.drop_first();
        let t1 = t.drop_first();
        assert(raws(s1) =~= raws(s).drop_first());
        assert(raws(t1) =~= raws(t).drop_first());
        assert forall|x: Seq<char>| raws(s1).to_set().contains(x) implies raws(t1).to_set().contains(x) by {
            let a = choose|a: int| 0 <= a < raws(s1).len() && raws(s1)[a] == x;
            assert(raws(s)[a + 1] == x);
            assert(raws(s).to_set().contains(x));
            assert(raws(t).to_set().contains(x));
            let b = choose|b: int| 0 <= b < raws(t).len() && raws(t)[b] == x;
            if b == 0 {
                assert(s[a + 1].key_v() == s[0].key_v()) by {
                    assert(s[a + 1].wf() && t[0].wf() && s[0].wf());
                }
            }
            assert(raws(t1)[b - 1] == x);
        }
        assert forall|x: Seq<char>| raws(t1).to_set().contains(x) implies raws(s1).to_set().contains(x) by {
            let a = choose|a: int| 0 <= a < raws(t1).len() && raws(t1)[a] == x;
            assert(raws(t)[a + 1] == x);
            assert(raws(t).to_set().contains(x));
            assert(raws(s).to_set().contains(x));
            let b = choose|b: int| 0 <= b < raws(s).len() && raws(s)[b] == x;
            if b == 0 {
                assert(t[a + 1].key_v() == t[0].key_v()) by {
                    assert(t[a + 1].wf() && t[0].wf() && s[0].wf());
                }
            }
            assert(raws(s1)[b - 1] == x);
        }
        assert(raws(s1).to_set() =~= raws(t1).to_set());
        assert(sorted(s1)) by {
            assert forall|i: int, j: int| #![trigger s1[i], s1[j]] 0 <= i < j < s1.len() implies s1[i].le(&s1[j]) by {
                assert(s1[i] == s[i + 1] && s1[j] == s[j + 1]);
            }
        }
        assert(sorted(t1)) by {
            assert forall|i: int, j: int| #![trigger t1[i], t1[j]] 0 <= i < j < t1.len() implies t1[i].le(&t1[j]) by {
                assert(t1[i] == t[i + 1] && t1[j] == t[j + 1]);
            }
        }
        assert(keys_unique(s1)) by {
            assert forall|i: int, j: int| 0 <= i < s1.len() && 0 <= j < s1.len() && i != j implies (#[trigger] s1[i]).key_v() != (#[trigger] s1[j]).key_v() by {
                assert(s1[i] == s[i + 1] && s1[j] == s[j + 1]);
            }
        }
        assert(keys_unique(t1)) by {
            assert forall|i: int, j: int| 0 <= i < t1.len() && 0 <= j < t1.len() && i != j implies (#[trigger] t1[i]).key_v() != (#[trigger] t1[j]).key_v() by {
                assert(t1[i] == t[i + 1] && t1[j] == t[j + 1]);
            }
        }
        lemma_sorted_same_raws(s1, t1);
        assert(raws(s) =~= raws(t)) by {
            assert(raws(s)[0] == raws(t)[0]);
            assert forall|q: int| 0 <= q < raws(s).len() implies raws(s)[q] == raws(t)[q] by {
                if q > 0 {
                    assert(raws(s)[q] == raws(s1)[q - 1]);
                    assert(raws(t)[q] == raws(t1)[q - 1]);
                }
            }
        }
    }
}

/// Removing the name of key `k` keeps every name of another key.
proof fn lemma_swap_remove_keeps(s: Seq<Name>, k: Seq<char>, j: int)
    requires
        0 <= j < s.len(),
        s[j].key_v() != k,
    ensures
        swap_remove_key(s, k).contains(s[j]),
{
    lemma_key_index(s, k);
    let i = key_index(s, k);
    let r = swap_remove_key(s, k);
    if i >= 0 {
        if j == s.len() - 1 {
            assert(r[i] == s[j]);
        } else {
            assert(r[j] == s[j]);
        }
    } else {
        assert(r[j] == s[j]);
    }
}

/// The names of `s` that survive removing the keys of `ks`.
pub open spec fn kept_by(ks: Seq<Seq<char>>, n: Name) -> bool {
    forall|q: int| 0 <= q < ks.len() ==> n.key_v() != ks[q]
}

/// The keys that stripping the automatic family of `raw` removes.
pub open spec fn family_keys(raw: Seq<char>) -> Seq<Seq<char>> {
    let p = match parent_raw(raw) {
        Some(p) => seq![upper(p)],
        None => seq![],
    };
    let a = match auto_partof_raw(raw) {
        Some(a) => seq![upper(a)],
        None => seq![],
    };
    p + a
}

/// Stripping the automatic family keeps exactly the names of other keys.
proof fn lemma_strip_exact(raw: Seq<char>, names: Seq<Name>)
    requires
        keys_unique(names),
    ensures
        forall|j: int| 0 <= j < strip_spec(raw, names).len() ==> kept_by(family_keys(raw), #[trigger] strip_spec(raw, names)[j]) && names.contains(strip_spec(raw, names)[j]),
        forall|j: int| 0 <= j < names.len() && kept_by(family_keys(raw), #[trigger] names[j]) ==> strip_spec(raw, names).contains(names[j]),
{
    crate::artifact::lemma_strip(raw, names);
    let r = strip_spec(raw, names);
    let fk = family_keys(raw);
    assert forall|j: int| 0 <= j < r.len() implies kept_by(fk, #[trigger] r[j]) by {
        assert forall|q: int| 0 <= q < fk.len() implies r[j].key_v() != fk[q] by {
            match (parent_raw(raw), auto_partof_raw(raw)) {
                (Some(p), Some(a)) => {
                    if q == 0 {
                        assert(fk[q] == upper(p));
                    } else {
                        assert(fk[q] == upper(a));
                    }
                },
                (Some(p), None) => {
                    assert(fk[q] == upper(p));
                },
                (None, Some(a)) => {
                    assert(fk[q] == upper(a));
                },
                (None, None) => {},
            }
        }
    }
    assert forall|j: int| 0 <= j < names.len() && kept_by(fk, #[trigger] names[j]) implies r.contains(names[j]) by {
        match (parent_raw(raw), auto_partof_raw(raw)) {
            (Some(p), Some(a)) => {
                assert(fk[0] == upper(p));
                assert(fk[1] == upper(a));
                lemma_swap_remove_keeps(names, upper(p), j);
                let r1 = swap_remove_key(names, upper(p));
                let m = choose|m: int| 0 <= m < r1.len() && r1[m] == names[j];
                lemma_swap_remove_keeps(r1, upper(a), m);
            },
            (Some(p), None) => {
                assert(fk[0] == upper(p));
                lemma_swap_remove_keeps(names, upper(p), j);
            },
            (None, Some(a)) => {
                assert(fk[0] == upper(a));
                lemma_swap_remove_keeps(names, upper(a), j);
            },
            (None, None) => {
                assert(r[j] == names[j]);
            },
        }
    }
}

/// The `partof` that the editable part of an artifact gets back from its
/// full `partof` (its automatic family first, then the `partof` it was
/// read with) is, by raw names, the one it was read with.
proof fn lemma_partof_back(raw: Seq<char>, keys: Seq<Name>, p: Seq<Name>, n: Seq<Name>)
    requires
        valid_name(raw),
        all_wf(p),
        keys_unique(p),
        sorted(p),
        forall|j: int| 0 <= j < p.len() ==> kept_by(family_keys(raw), #[trigger] p[j]),
        all_wf(n),
        keys_unique(n),
        raws(n) == dedup_keys(auto_partof_set(keys, raw) + raws(p)),
    ensures
        raws(isort(strip_spec(raw, n))) == raws(p),
{
    broadcast use vstd::seq_lib::group_to_multiset_ensures;
    let fk = family_keys(raw);
    let a = auto_partof_set(keys, raw);
    let rp = raws(p);
    crate::family::lemma_family_types(raw);
    assert forall|m: int| 0 <= m < a.len() implies fk.contains(upper(#[trigger] a[m])) by {
        match (parent_raw(raw), auto_partof_raw(raw)) {
            (Some(pr), Some(ar)) => {
                assert(fk[0] == upper(pr));
                assert(fk[1] == upper(ar));
            },
            (Some(pr), None) => {
                assert(fk[0] == upper(pr));
            },
            (None, Some(ar)) => {
                assert(fk[0] == upper(ar));
            },
            (None, None) => {},
        }
    }
    assert(upper_unique(a + rp)) by {
        let x = a + rp;
        assert forall|i: int, j: int| 0 <= i < x.len() && 0 <= j < x.len() && i != j implies upper(
            #[trigger] x[i],
        ) != upper(#[trigger] x[j]) by {
            if i < a.len() && j < a.len() {
                match (parent_raw(raw), auto_partof_raw(raw)) {
                    (Some(pr), Some(ar)) => {},
                    _ => {},
                }
            } else if i < a.len() {
                let q = j - a.len();
                assert(x[j] == rp[q] && rp[q] == p[q].raw_v());
                assert(p[q].wf());
                assert(fk.contains(upper(a[i])));
                let w = choose|w: int| 0 <= w < fk.len() && fk[w] == upper(a[i]);
                assert(kept_by(fk, p[q]));
            } else if j < a.len() {
                let q = i - a.len();
                assert(x[i] == rp[q] && rp[q] == p[q].raw_v());
                assert(p[q].wf());
                assert(fk.contains(upper(a[j])));
                let w = choose|w: int| 0 <= w < fk.len() && fk[w] == upper(a[j]);
                assert(kept_by(fk, p[q]));
            } else {
                let qi = i - a.len();
                let qj = j - a.len();
                assert(x[i] == p[qi].raw_v() && x[j] == p[qj].raw_v());
                assert(p[qi].wf() && p[qj].wf());
            }
        }
    }
    crate::family::lemma_dedup_unique(a + rp);
    assert(raws(n) == a + rp);
    let st = strip_spec(raw, n);
    lemma_strip_exact(raw, n);
    crate::artifact::lemma_strip(raw, n);
    assert(all_wf(st)) by {
        assert forall|j: int| 0 <= j < st.len() implies (#[trigger] st[j]).wf() by {
            assert(n.contains(st[j]));
        }
    }
    assert(raws(st).to_set() =~= rp.to_set()) by {
        assert forall|x: Seq<char>| raws(st).to_set().contains(x) implies rp.to_set().contains(x) by {
            let j = choose|j: int| 0 <= j < raws(st).len() && raws(st)[j] == x;
            assert(n.contains(st[j]));
            let m = choose|m: int| 0 <= m < n.len() && n[m] == st[j];
            assert(raws(n)[m] == x);
            if m < a.len() {
                assert((a + rp)[m] == a[m]);
                assert(n[m].wf());
                assert(fk.contains(upper(a[m])));
                let w = choose|w: int| 0 <= w < fk.len() && fk[w] == upper(a[m]);
                assert(kept_by(fk, st[j]));
            } else {
                assert((a + rp)[m] == rp[m - a.len()]);
            }
        }
        assert forall|x: Seq<char>| rp.to_set().contains(x) implies raws(st).to_set().contains(x) by {
            let q = choose|q: int| 0 <= q < rp.len() && rp[q] == x;
            let m = a.len() + q;
            assert((a + rp)[m] == rp[q]);
            assert(raws(n)[m] == x);
            assert(n[m].wf() && p[q].wf());
            assert(n[m].key_v() == p[q].key_v());
            assert(kept_by(fk, p[q]));
            assert(kept_by(fk, n[m]));
            assert(st.contains(n[m]));
            let j = choose|j: int| 0 <= j < st.len() && st[j] == n[m];
            assert(raws(st)[j] == x);
        }
    }
    let t = isort(st);
    crate::sort::lemma_isort(st);
    crate::family::lemma_permutation_wf(st, t);
    assert(raws(t).to_set() =~= raws(st).to_set()) by {
        assert forall|x: Seq<char>| raws(t).to_set().contains(x) implies raws(st).to_set().contains(x) by {
            let j = choose|j: int| 0 <= j < raws(t).len() && raws(t)[j] == x;
            assert(t.to_multiset().count(t[j]) > 0);
            assert(st.contains(t[j]));
            let m = choose|m: int| 0 <= m < st.len() && st[m] == t[j];
            assert(raws(st)[m] == x);
        }
        assert forall|x: Seq<char>| raws(st).to_set().contains(x) implies raws(t).to_set().contains(x) by {
            let j = choose|j: int| 0 <= j < raws(st).len() && raws(st)[j] == x;
            assert(st.to_multiset().count(st[j]) > 0);
            assert(t.contains(st[j]));
            let m = choose|m: int| 0 <= m < t.len() && t[m] == st[j];
            assert(raws(t)[m] == x);
        }
    }
    lemma_sorted_same_raws(t, p);
}

/// No two artifacts of `s` have the same name key: no name is defined
/// twice.
pub open spec fn names_unique(s: Seq<ArtifactIm>) -> bool {
    forall|i: int, j: int|
        0 <= i < s.len() && 0 <= j < s.len() && i != j ==> (#[trigger] s[i]).name.key_v() != (
        #[trigger] s[j]).name.key_v()
}

/// Where no name is defined twice, each artifact keeps its own name and
/// file, in order, and is its name's last definition.
proof fn lemma_files_of_unique(s: Seq<ArtifactIm>)
    requires
        names_unique(s),
    ensures
        files_of(s).len() == s.len(),
        forall|i: int| 0 <= i < s.len() ==> (#[trigger] files_of(s)[i]) == (s[i].name, s[i].file),
        forall|i: int| 0 <= i < s.len() ==> last_with_key(s, (#[trigger] s[i]).name.key_v()) == i,
    decreases s.len(),
{
    if s.len() > 0 {
        let d = s.drop_last();
        let e = s.last();
        assert(names_unique(d)) by {
            assert forall|i: int, j: int| 0 <= i < d.len() && 0 <= j < d.len() && i != j implies (
            #[trigger] d[i]).name.key_v() != (#[trigger] d[j]).name.key_v() by {
                assert(d[i] == s[i] && d[j] == s[j]);
            }
        }
        lemma_files_of_unique(d);
        let f = files_of(d);
        lemma_first_index(name_keys_of(f), e.name.key_v());
        let fi = first_index(name_keys_of(f), e.name.key_v());
        if fi >= 0 {
            assert(name_keys_of(f)[fi] == f[fi].0.key_v());
            assert(f[fi] == (d[fi].name, d[fi].file));
            assert(d[fi] == s[fi]);
            assert(s[s.len() - 1] == e);
            assert(false);
        }
        assert(files_of(s) == f.push((e.name, e.file)));
        assert forall|i: int| 0 <= i < s.len() implies last_with_key(s, (#[trigger] s[i]).name.key_v()) == i by {
            lemma_last_with_key(s, s[i].name.key_v());
            let r = last_with_key(s, s[i].name.key_v());
            if r < i {
                assert(s[i].name.key_v() == s[i].name.key_v());
            }
            if r > i {
                assert(s[r].name.key_v() == s[i].name.key_v());
            }
        }
    }
}

/// Formatting a freshly loaded project writes each artifact back as it
/// was read: where no name is defined twice, the editable part read back
/// from an artifact that [`crate::loaded::determine_artifacts`]
/// determined from the joined artifacts has the name, file, `done` and
/// text of the artifact as joined, and the same `partof` by raw names.
pub proof fn lemma_reformat_stable(
    art_ims: Seq<ArtifactIm>,
    arts: Seq<(Name, ArtifactIm)>,
    code_impls: Seq<(Name, ImplCode)>,
    x: (Vec<(Name, Artifact)>, Graphs),
    i: int,
    im: ArtifactIm,
)
    requires
        forall|k: int| 0 <= k < art_ims.len() ==> (#[trigger] art_ims[k]).wf(),
        names_unique(art_ims),
        joined(art_ims, files_of(art_ims), arts),
        determined(files_of(art_ims), arts, code_impls, x),
        0 <= i < arts.len(),
        im_of(im, x.0@[i].1),
    ensures
        im.name == arts[i].1.name,
        im.file == arts[i].1.file,
        im.done == arts[i].1.done,
        im.text@ == arts[i].1.text@,
        raws(im.partof.0@) == raws(arts[i].1.partof.0@),
{
    broadcast use vstd::seq_lib::group_to_multiset_ensures;
    let defined = files_of(art_ims);
    lemma_files_of_unique(art_ims);
    let a = x.0@[i].1;
    let orig = art_ims[i];
    let b = arts[i].1;
    assert(defined[i] == (orig.name, orig.file));
    assert(last_with_key(art_ims, orig.name.key_v()) == i);
    assert(clean_of(b, orig));
    crate::text::lemma_cleaned_idempotent(orig.text@);
    let raw = orig.name.raw_v();
    let y = strip_spec(raw, orig.partof.0@);
    crate::artifact::lemma_strip(raw, orig.partof.0@);
    crate::sort::lemma_isort(y);
    crate::artifact::lemma_clean_wf(orig, b);
    let p = b.partof.0@;
    assert forall|j: int| 0 <= j < p.len() implies kept_by(family_keys(raw), #[trigger] p[j]) by {
        assert(p.to_multiset().count(p[j]) > 0);
        assert(y.contains(p[j]));
        let m = choose|m: int| 0 <= m < y.len() && y[m] == p[j];
        let fk = family_keys(raw);
        assert forall|q: int| 0 <= q < fk.len() implies p[j].key_v() != fk[q] by {
            match (parent_raw(raw), auto_partof_raw(raw)) {
                (Some(pr), Some(ar)) => {
                    if q == 0 {
                        assert(fk[q] == upper(pr));
                    } else {
                        assert(fk[q] == upper(ar));
                    }
                },
                (Some(pr), None) => {
                    assert(fk[q] == upper(pr));
                },
                (None, Some(ar)) => {
                    assert(fk[q] == upper(ar));
                },
                (None, None) => {},
            }
        }
    }
    lemma_partof_back(raw, pair_keys(arts), p, a.partof.0@);
}

} // verus!
