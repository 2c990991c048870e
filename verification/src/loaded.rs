//! From artifact files to artifacts: converting raw artifacts, joining
//! those of all files, and determining each artifact's full `partof`, its
//! subnames and how it is implemented.
use vstd::prelude::*;
use crate::artifact::{clean_of, strip_spec, ArtifactIm, CodeLoc, Impl, ImplCode};
use crate::family::{
    all_wf, auto_partof_set, auto_partofs, has_key, keys_unique, pair_keys, raws, strip_auto_partofs,
    Names,
};
use crate::implemented::{
    find_name_pair, first_index, insert_by_name, lemma_first_index, lemma_upsert_name_keys,
    name_keys_of, upsert_name,
};
use crate::lint::{Category, Level, Lint, LintView};
use crate::name::{dedup_keys, parse_subnames, sub_decls, sub_raws, upper, Name, SubName};
use crate::raw::{ArtifactRaw, NamesRaw, TextRaw};
use crate::sort::isort;
use crate::graph::{
    determine_graphs, determine_parts, edges_of, graph_edges, id_count, id_of, ids_of, parts_raws,
    Graphs,
};
use crate::project::Artifact;
use crate::artifact::sip128;

verus! {

// ------------------------------------------------------------------
// Raw artifacts

/// Conversion between the editable part of an artifact and its raw form.
pub trait ArtifactImExt: Sized {
    /// The artifact `name` of `file` from its raw form.
    fn from_raw(name: Name, file: String, raw: ArtifactRaw) -> (r: Self)
        requires
            name.wf(),
            raw.partof matches Some(p) ==> p.inner.wf(),
    ;

    /// The file, name and raw form of the artifact.
    fn into_raw(self) -> (r: (String, Name, ArtifactRaw));
}

/// The `partof` of an artifact read in raw form as `partof`: without the
/// automatic family of `name`, sorted.
pub open spec fn raw_partof(name: Name, partof: Option<NamesRaw>) -> Seq<Name> {
    match partof {
        Some(p) => isort(strip_spec(name.raw_v(), p.inner.0@)),
        None => seq![],
    }
}

/// `r` is the artifact `name` of `file` read from its raw form `raw`.
pub open spec fn read_from_raw(name: Name, file: String, raw: ArtifactRaw, r: ArtifactIm) -> bool {
    &&& r.name == name
    &&& r.file == file
    &&& r.done == raw.done
    &&& r.text@ == (match raw.text {
        Some(t) => t.0@,
        None => Seq::<char>::empty(),
    })
    &&& r.partof.0@ == raw_partof(name, raw.partof)
}

/// `r` is the file, name and raw form of the artifact `a`: an empty
/// `partof` or text is left out.
pub open spec fn written_raw(a: ArtifactIm, r: (String, Name, ArtifactRaw)) -> bool {
    &&& r.0 == a.file
    &&& r.1 == a.name
    &&& r.2.done == a.done
    &&& match r.2.partof {
        Some(p) => p.inner == a.partof && a.partof.0@.len() > 0,
        None => a.partof.0@.len() == 0,
    }
    &&& match r.2.text {
        Some(t) => t.0 == a.text && a.text@.len() > 0,
        None => a.text@.len() == 0,
    }
}

/// An artifact in canonical form (see [`ArtifactIm::clean`]) that is
/// written to its raw form and read back is the same artifact.
pub proof fn lemma_raw_roundtrip(
    a: ArtifactIm,
    b: ArtifactIm,
    raw: (String, Name, ArtifactRaw),
    c: ArtifactIm,
)
    requires
        a.wf(),
        clean_of(b, a),
        written_raw(b, raw),
        read_from_raw(raw.1, raw.0, raw.2, c),
    ensures
        c.name == b.name,
        c.file == b.file,
        c.done == b.done,
        c.text@ == b.text@,
        c.partof.0@ == b.partof.0@,
{
    crate::artifact::lemma_clean_partof_fixed(a);
    if b.partof.0@.len() == 0 {
        assert(c.partof.0@ =~= b.partof.0@);
    }
}

impl ArtifactImExt for ArtifactIm {
    fn from_raw(name: Name, file: String, raw: ArtifactRaw) -> (r: ArtifactIm)
        ensures
            r.wf(),
            read_from_raw(name, file, raw, r),
    {
        let ArtifactRaw { done, partof, text } = raw;
        let ghost p0 = partof;
        let partof = match partof {
            Some(p) => {
                let mut inner = p.inner;
                strip_auto_partofs(&name, &mut inner);
                inner.sort();
                inner
            },
            None => {
                let n = Names::new();
                assert(n.0@ =~= isort(Seq::<Name>::empty()));
                n
            },
        };
        let text = match text {
            Some(t) => t.0,
            None => String::new(),
        };
        ArtifactIm { name, file, partof, done, text }
    }

    fn into_raw(self) -> (r: (String, Name, ArtifactRaw))
        ensures
            written_raw(self, r),
    {
        let ArtifactIm { name, file, partof, done, text } = self;
        let partof = if partof.len() == 0 {
            None
        } else {
            Some(NamesRaw { inner: partof })
        };
        let text = if text.as_str().is_empty() {
            None
        } else {
            Some(TextRaw(text))
        };
        (file, name, ArtifactRaw { done, partof, text })
    }
}

// ------------------------------------------------------------------
// Joining the artifacts of all files

/// The index of the last artifact in `s` whose name has key `key`, or -1.
pub open spec fn last_with_key(s: Seq<ArtifactIm>, key: Seq<char>) -> int
    decreases s.len(),
{
    if s.len() == 0 {
        -1
    } else if s.last().name.key_v() == key {
        s.len() - 1
    } else {
        last_with_key(s.drop_last(), key)
    }
}

pub(crate) proof fn lemma_last_with_key(s: Seq<ArtifactIm>, key: Seq<char>)
    ensures
        -1 <= last_with_key(s, key) < s.len(),
        last_with_key(s, key) >= 0 ==> s[last_with_key(s, key)].name.key_v() == key,
        forall|j: int| last_with_key(s, key) < j < s.len() ==> s[j].name.key_v() != key,
    decreases s.len(),
{
    if s.len() > 0 && s.last().name.key_v() != key {
        lemma_last_with_key(s.drop_last(), key);
        assert forall|j: int| last_with_key(s, key) < j < s.len() implies s[j].name.key_v()
            != key by {
            if j < s.len() - 1 {
                assert(s.drop_last()[j] == s[j]);
            }
        }
    }
}

/// The file of each artifact name, in order of first definition: the file
/// of its last definition.
pub open spec fn files_of(s: Seq<ArtifactIm>) -> Seq<(Name, String)>
    decreases s.len(),
{
    if s.len() == 0 {
        seq![]
    } else {
        upsert_name(files_of(s.drop_last()), s.last().name, s.last().file)
    }
}

/// The plain value of a lint about a name defined twice, at `file`.
pub open spec fn dup_name_lint(name: Seq<char>, file: Seq<char>) -> LintView {
    LintView {
        level: Level::Error,
        path: Some(file),
        line: None,
        category: Category::ParseArtifactFiles,
        msg: "duplicate name detected: "@ + name + " in "@ + file,
    }
}

/// The names that [`files_of`] keeps are names of the artifacts.
proof fn lemma_files_of_wf(s: Seq<ArtifactIm>)
    requires
        forall|k: int| 0 <= k < s.len() ==> (#[trigger] s[k]).name.wf(),
    ensures
        all_wf(pair_keys(files_of(s))),
    decreases s.len(),
{
    if s.len() > 0 {
        lemma_files_of_wf(s.drop_last());
        let f = files_of(s.drop_last());
        let r = files_of(s);
        let a = s.last();
        let fi = first_index(name_keys_of(f), a.name.key_v());
        crate::implemented::lemma_first_index(name_keys_of(f), a.name.key_v());
        assert(name_keys_of(f).len() == f.len());
        assert(r == upsert_name(f, a.name, a.file));
        assert forall|k: int| 0 <= k < r.len() implies (#[trigger] pair_keys(r)[k]).wf() by {
            assert(pair_keys(f).len() == f.len());
            assert(pair_keys(r)[k] == r[k].0);
            if fi < 0 {
                assert(r == f.push((a.name, a.file)));
                if k < f.len() {
                    assert(pair_keys(f)[k] == f[k].0);
                } else {
                    assert(s[s.len() - 1] == a);
                }
            } else {
                assert(r == f.update(fi, (f[fi].0, a.file)));
                assert(pair_keys(f)[k] == f[k].0);
            }
        }
    }
}

/// Each name that [`files_of`] keeps is defined by some artifact.
proof fn lemma_files_key_defined(s: Seq<ArtifactIm>, key: Seq<char>, i: int)
    requires
        0 <= i < files_of(s).len(),
        key == files_of(s)[i].0.key_v(),
    ensures
        last_with_key(s, key) >= 0,
    decreases s.len(),
{
    if s.len() > 0 && s.last().name.key_v() != key {
        let f = files_of(s.drop_last());
        let a = s.last();
        crate::implemented::lemma_first_index(name_keys_of(f), a.name.key_v());
        let fi = first_index(name_keys_of(f), a.name.key_v());
        if fi < 0 {
            assert(files_of(s) == f.push((a.name, a.file)));
            assert(i < f.len());
            assert(files_of(s)[i] == f[i]);
        } else {
            assert(files_of(s) == f.update(fi, (f[fi].0, a.file)));
            if i == fi {
                assert(name_keys_of(f)[fi] == f[fi].0.key_v());
            }
            assert(files_of(s)[i].0 == f[i].0);
        }
        lemma_files_key_defined(s.drop_last(), key, i);
    }
}

/// The artifacts that [`join_artifacts_raw`] gives meet what
/// [`determine_artifacts`] needs of them.
pub proof fn lemma_joined_wf(
    art_ims: Seq<ArtifactIm>,
    defined: Seq<(Name, String)>,
    arts: Seq<(Name, ArtifactIm)>,
)
    requires
        forall|i: int| 0 <= i < art_ims.len() ==> (#[trigger] art_ims[i]).wf(),
        joined(art_ims, defined, arts),
    ensures
        arts_wf(arts),
        forall|i: int| 0 <= i < arts.len() ==> (#[trigger] arts[i]).1.name.wf(),
{
    assert forall|k: int| 0 <= k < art_ims.len() implies (#[trigger] art_ims[k]).name.wf() by {
        assert(art_ims[k].wf());
    }
    lemma_files_of_wf(art_ims);
    assert forall|i: int| 0 <= i < arts.len() implies (#[trigger] arts[i]).1.wf() by {
        let key = defined[i].0.key_v();
        let j = last_with_key(art_ims, key);
        assert(pair_keys(defined)[i] == defined[i].0);
        assert(defined[i].0.wf());
        lemma_files_key_defined(art_ims, key, i);
        lemma_last_with_key(art_ims, key);
        crate::artifact::lemma_clean_wf(art_ims[j], arts[i].1);
    }
    assert forall|i: int| 0 <= i < pair_keys(arts).len() implies (#[trigger] pair_keys(arts)[i]).wf() by {
        assert(pair_keys(arts)[i] == arts[i].0);
        assert(arts[i].0 == defined[i].0);
        assert(pair_keys(defined)[i] == defined[i].0);
    }
}

/// The lints of names defined twice: at each later definition, one at the
/// file kept so far and one at the new file.
pub open spec fn dup_name_lints(s: Seq<ArtifactIm>) -> Seq<LintView>
    decreases s.len(),
{
    if s.len() == 0 {
        seq![]
    } else {
        let f = files_of(s.drop_last());
        let a = s.last();
        let i = first_index(name_keys_of(f), a.name.key_v());
        if i < 0 {
            dup_name_lints(s.drop_last())
        } else {
            dup_name_lints(s.drop_last()) + seq![
                dup_name_lint(a.name.raw_v(), f[i].1@),
                dup_name_lint(a.name.raw_v(), a.file@),
            ]
        }
    }
}

fn make_dup_name_lint(name: &Name, file: &String) -> (r: Lint)
    ensures
        r@ == dup_name_lint(name.raw_v(), file@),
{
    let mut msg = "duplicate name detected: ".to_owned();
    msg.append(name.as_str());
    msg.append(" in ");
    msg.append(file.as_str());
    Lint {
        level: Level::Error,
        category: Category::ParseArtifactFiles,
        path: Some(file.clone()),
        line: None,
        msg,
    }
}

/// `defined` and `arts` join the artifacts of all files `art_ims`: each
/// name once, in order of first definition, with the file of its last
/// definition and that definition in canonical form.
pub open spec fn joined(
    art_ims: Seq<ArtifactIm>,
    defined: Seq<(Name, String)>,
    arts: Seq<(Name, ArtifactIm)>,
) -> bool {
    &&& defined == files_of(art_ims)
    &&& arts.len() == defined.len()
    &&& forall|i: int|
        0 <= i < arts.len() ==> {
            &&& (#[trigger] arts[i]).0 == defined[i].0
            &&& clean_of(arts[i].1, art_ims[last_with_key(art_ims, defined[i].0.key_v())])
        }
}

/// Join the artifacts loaded from all files: the file of each name, and
/// each name's artifact, its last definition cleaned. A name defined more
/// than once is linted.
pub fn join_artifacts_raw(art_ims: Vec<ArtifactIm>) -> (r: (
    Vec<(Name, String)>,
    Vec<(Name, ArtifactIm)>,
    Vec<Lint>,
))
    requires
        forall|i: int| 0 <= i < art_ims@.len() ==> (#[trigger] art_ims@[i]).wf(),
    ensures
        joined(art_ims@, r.0@, r.1@),
        crate::lint::lint_views(r.2@) == dup_name_lints(art_ims@),
{
    let ghost l = art_ims@;
    let mut rest = art_ims;
    let mut files: Vec<(Name, String)> = Vec::new();
    let mut artifacts: Vec<(Name, ArtifactIm)> = Vec::new();
    let mut lints: Vec<Lint> = Vec::new();
    let n: usize = rest.len();
    let mut i: usize = 0;
    assert(l.take(0) =~= seq![]);
    assert(rest@ =~= l.skip(0));
    assert(crate::lint::lint_views(lints@) =~= seq![]);
    while rest.len() > 0
        invariant
            l.len() == n,
            i <= n,
            rest@ == l.skip(i as int),
            forall|k: int| 0 <= k < l.len() ==> (#[trigger] l[k]).wf(),
            files@ == files_of(l.take(i as int)),
            name_keys_of(files@).no_duplicates(),
            forall|k: int|
                0 <= k < files@.len() ==> last_with_key(
                    l.take(i as int),
                    (#[trigger] files@[k]).0.key_v(),
                ) >= 0,
            artifacts@.len() == files@.len(),
            forall|k: int|
                0 <= k < artifacts@.len() ==> {
                    &&& (#[trigger] artifacts@[k]).0 == files@[k].0
                    &&& clean_of(
                        artifacts@[k].1,
                        l.take(i as int)[last_with_key(l.take(i as int), files@[k].0.key_v())],
                    )
                },
            crate::lint::lint_views(lints@) == dup_name_lints(l.take(i as int)),
        decreases rest@.len(),
    {
        let mut art = rest.remove(0);
        let ghost a0 = art;
        let ghost li = l.take(i as int);
        let ghost li1 = l.take(i + 1);
        proof {
            assert(l.skip(i as int)[0] == l[i as int]);
            assert(rest@ =~= l.skip(i + 1));
            assert(li1.drop_last() =~= li);
            assert(li1.last() == a0);
            lemma_last_with_key(li, a0.name.key_v());
        }
        let ghost f0 = files@;
        let ghost arts0 = artifacts@;
        let ghost lints0 = crate::lint::lint_views(lints@);
        let new_lint = make_dup_name_lint(&art.name, &art.file);
        let key_name = art.name.clone();
        let file = art.file.clone();
        proof {
            lemma_upsert_name_keys(f0, key_name, file);
        }
        let dup = insert_by_name(&mut files, key_name, file);
        match dup {
            Some(old_file) => {
                let old_lint = make_dup_name_lint(&art.name, &old_file);
                lints.push(old_lint);
                lints.push(new_lint);
                proof {
                    let fi = first_index(name_keys_of(f0), a0.name.key_v());
                    assert(crate::lint::lint_views(lints@) =~= lints0 + seq![
                        dup_name_lint(a0.name.raw_v(), f0[fi].1@),
                        dup_name_lint(a0.name.raw_v(), a0.file@),
                    ]);
                }
            },
            None => {},
        }
        art.clean();
        let name2 = art.name.clone();
        let _ = insert_by_name(&mut artifacts, name2, art);
        proof {
            assert(name_keys_of(arts0) =~= name_keys_of(f0)) by {
                assert forall|k: int| 0 <= k < arts0.len() implies name_keys_of(arts0)[k]
                    == name_keys_of(f0)[k] by {
                    assert(arts0[k].0 == f0[k].0);
                }
            }
            let fi = first_index(name_keys_of(f0), a0.name.key_v());
            crate::implemented::lemma_first_index(name_keys_of(f0), a0.name.key_v());
            assert(li1.last() == a0);
            assert(last_with_key(li1, a0.name.key_v()) == i as int);
            assert forall|k: int| 0 <= k < files@.len() implies last_with_key(
                li1,
                (#[trigger] files@[k]).0.key_v(),
            ) >= 0 by {
                if k < f0.len() {
                    assert(name_keys_of(f0)[k] == f0[k].0.key_v());
                    assert(name_keys_of(files@)[k] == files@[k].0.key_v());
                    if files@[k].0.key_v() != a0.name.key_v() {
                        assert(files@[k].0.key_v() == f0[k].0.key_v());
                        lemma_last_with_key(li, f0[k].0.key_v());
                    }
                } else {
                    assert(name_keys_of(files@)[k] == files@[k].0.key_v());
                }
            }
            assert forall|k: int| 0 <= k < artifacts@.len() implies {
                &&& (#[trigger] artifacts@[k]).0 == files@[k].0
                &&& clean_of(
                    artifacts@[k].1,
                    li1[last_with_key(li1, files@[k].0.key_v())],
                )
            } by {
                if k < arts0.len() && k != fi {
                    assert(artifacts@[k] == arts0[k]);
                    assert(files@[k] == f0[k]);
                    assert(name_keys_of(f0)[k] == f0[k].0.key_v());
                    if fi >= 0 {
                        assert(name_keys_of(f0)[fi] == a0.name.key_v());
                    }
                    assert(f0[k].0.key_v() != a0.name.key_v());
                    assert(last_with_key(li1, files@[k].0.key_v()) == last_with_key(
                        li,
                        files@[k].0.key_v(),
                    ));
                    lemma_last_with_key(li, files@[k].0.key_v());
                    assert(li1[last_with_key(li, files@[k].0.key_v())] == li[last_with_key(
                        li,
                        files@[k].0.key_v(),
                    )]) by {
                        lemma_last_with_key(li, files@[k].0.key_v());
                    }
                } else if k == fi {
                    assert(name_keys_of(f0)[k] == f0[k].0.key_v());
                } else {
                }
            }
        }
        i = i + 1;
    }
    assert(l.take(n as int) =~= l);
    (files, artifacts, lints)
}

// ------------------------------------------------------------------
// Partof, subnames and implementations

/// Every name and every `partof` of the artifacts is well formed.
pub open spec fn arts_wf(arts: Seq<(Name, ArtifactIm)>) -> bool {
    &&& all_wf(pair_keys(arts))
    &&& forall|i: int| 0 <= i < arts.len() ==> (#[trigger] arts[i]).1.partof.wf()
}

/// The full `partof` of each artifact: its automatic family (those of its
/// parent and automatic link that are artifacts) and then its own
/// `partof`, each key once.
pub fn determine_partofs(arts: &Vec<(Name, ArtifactIm)>) -> (r: Vec<(Name, Names)>)
    requires
        arts_wf(arts@),
    ensures
        r@.len() == arts@.len(),
        forall|i: int|
            0 <= i < r@.len() ==> {
                &&& (#[trigger] r@[i]).0 == arts@[i].0
                &&& r@[i].1.wf()
                &&& raws(r@[i].1.0@) == dedup_keys(
                    auto_partof_set(pair_keys(arts@), arts@[i].0.raw_v()) + raws(
                        arts@[i].1.partof.0@,
                    ),
                )
            },
{
    let mut auto = auto_partofs(arts);
    let ghost a0 = auto@;
    let mut out: Vec<(Name, Names)> = Vec::new();
    let mut i: usize = 0;
    let n: usize = auto.len();
    assert(auto@ =~= a0.skip(0));
    while auto.len() > 0
        invariant
            arts_wf(arts@),
            a0.len() == arts@.len(),
            a0.len() == n,
            forall|k: int|
                0 <= k < a0.len() ==> {
                    &&& (#[trigger] a0[k]).0 == arts@[k].0
                    &&& a0[k].1.wf()
                    &&& raws(a0[k].1.0@) == auto_partof_set(pair_keys(arts@), arts@[k].0.raw_v())
                },
            i <= a0.len(),
            auto@ == a0.skip(i as int),
            out@.len() == i,
            forall|k: int|
                0 <= k < i ==> {
                    &&& (#[trigger] out@[k]).0 == arts@[k].0
                    &&& out@[k].1.wf()
                    &&& raws(out@[k].1.0@) == dedup_keys(
                        auto_partof_set(pair_keys(arts@), arts@[k].0.raw_v()) + raws(
                            arts@[k].1.partof.0@,
                        ),
                    )
                },
        decreases auto@.len(),
    {
        let (name, mut names) = auto.remove(0);
        proof {
            assert(i < a0.len());
            assert(a0.skip(i as int)[0] == a0[i as int]);
            assert(auto@ =~= a0.skip(i + 1));
        }
        names.extend_names(&arts[i].1.partof);
        out.push((name, names));
        i = i + 1;
    }
    out
}

/// The subnames declared in the text of each artifact.
pub fn determine_subnames(arts: &Vec<(Name, ArtifactIm)>) -> (r: Vec<(Name, Vec<SubName>)>)
    ensures
        r@.len() == arts@.len(),
        forall|i: int|
            0 <= i < r@.len() ==> {
                &&& (#[trigger] r@[i]).0 == arts@[i].0
                &&& sub_raws(r@[i].1@) == dedup_keys(sub_decls(arts@[i].1.text@, 0))
                &&& forall|k: int| 0 <= k < r@[i].1@.len() ==> (#[trigger] r@[i].1@[k]).wf()
            },
{
    let mut out: Vec<(Name, Vec<SubName>)> = Vec::new();
    let mut i: usize = 0;
    while i < arts.len()
        invariant
            i <= arts@.len(),
            out@.len() == i,
            forall|k: int|
                0 <= k < i ==> {
                    &&& (#[trigger] out@[k]).0 == arts@[k].0
                    &&& sub_raws(out@[k].1@) == dedup_keys(sub_decls(arts@[k].1.text@, 0))
                    &&& forall|j: int| 0 <= j < out@[k].1@.len() ==> (#[trigger] out@[k].1@[j]).wf()
                },
        decreases arts@.len() - i,
    {
        let subs = parse_subnames(arts[i].1.text.as_str());
        out.push((arts[i].0.clone(), subs));
        i = i + 1;
    }
    out
}

/// How an artifact is implemented: `Done` with the text of its `done`
/// attribute, else `Code` with its places in code if there are any, else
/// `NotImpl`.
pub open spec fn impl_is(r: Impl, art: ArtifactIm, codes: Seq<(Name, ImplCode)>) -> bool {
    let i = first_index(name_keys_of(codes), art.name.key_v());
    match art.done {
        Some(d) => r == Impl::Done(d),
        None => if i >= 0 {
            r matches Impl::Code(c) && c.primary == codes[i].1.primary && c.secondary@
                == codes[i].1.secondary@
        } else {
            r is NotImpl
        },
    }
}

/// The implementation of each artifact.
pub fn determine_impls(arts: &Vec<(Name, ArtifactIm)>, code_impls: &Vec<(Name, ImplCode)>) -> (r:
    Vec<(Name, Impl)>)
    ensures
        r@.len() == arts@.len(),
        forall|i: int|
            0 <= i < r@.len() ==> {
                &&& (#[trigger] r@[i]).0 == arts@[i].0
                &&& impl_is(r@[i].1, arts@[i].1, code_impls@)
            },
{
    let mut out: Vec<(Name, Impl)> = Vec::new();
    let mut i: usize = 0;
    while i < arts.len()
        invariant
            i <= arts@.len(),
            out@.len() == i,
            forall|k: int|
                0 <= k < i ==> {
                    &&& (#[trigger] out@[k]).0 == arts@[k].0
                    &&& impl_is(out@[k].1, arts@[k].1, code_impls@)
                },
        decreases arts@.len() - i,
    {
        let art = &arts[i].1;
        proof {
            crate::implemented::lemma_first_index(name_keys_of(code_impls@), art.name.key_v());
        }
        let im = match &art.done {
            Some(d) => Impl::Done(d.clone()),
            None => match crate::implemented::find_name_pair(code_impls.as_slice(), &art.name.0.key) {
                Some(j) => Impl::Code(code_impls[j].1.clone_code()),
                None => Impl::NotImpl,
            },
        };
        out.push((arts[i].0.clone(), im));
        i = i + 1;
    }
    out
}

// ------------------------------------------------------------------
// Artifacts

/// Each artifact's name with its full `partof` (the automatic family and
/// its own `partof`): what the family graph is built from.
pub open spec fn full_partofs(arts: Seq<(Name, Artifact)>) -> Seq<(Name, Names)> {
    arts.map_values(|p: (Name, Artifact)| (p.0, p.1.partof))
}

/// `r` is what the artifacts `arts` (defined in the files `defined`) and
/// the places `code_impls` in code determine: one artifact for each, in
/// order, with its hash id, its full `partof` (the automatic family
/// first), its `parts` from the family graph `r.1`, its implementation and
/// its subnames. The family graph is the one of the full `partof`s: an
/// edge from each name of an artifact's `partof` to the artifact.
pub open spec fn determined(
    defined: Seq<(Name, String)>,
    arts: Seq<(Name, ArtifactIm)>,
    code_impls: Seq<(Name, ImplCode)>,
    r: (Vec<(Name, Artifact)>, Graphs),
) -> bool {
    &&& r.0@.len() == defined.len()
    &&& r.1.wf()
    &&& r.1.lookup_id@ == ids_of(full_partofs(r.0@)).0
    &&& graph_edges(r.1.full) == edges_of(full_partofs(r.0@), r.1.lookup_id@)
    &&& forall|i: int|
        0 <= i < r.0@.len() ==> {
            let a = (#[trigger] r.0@[i]).1;
            let im = arts[i].1;
            &&& r.0@[i].0 == defined[i].0
            &&& a.name == defined[i].0
            &&& a.file == defined[i].1
            &&& a.id.0@ == sip128(im.hash_input())
            &&& a.partof.wf()
            &&& raws(a.partof.0@) == dedup_keys(
                auto_partof_set(pair_keys(arts), arts[i].0.raw_v()) + raws(im.partof.0@),
            )
            &&& a.parts.wf()
            &&& raws(a.parts.0@) == parts_raws(r.1, defined[i].0.key_v())
            &&& a.text == im.text
            &&& impl_is(a.impl_, im, code_impls)
            &&& sub_raws(a.subnames@) == dedup_keys(sub_decls(im.text@, 0))
        }
}

/// Determine the artifacts as [`determine_artifacts`] does, where the
/// family graph can number their names with `u32`; `None` where it cannot.
pub fn try_determine_artifacts(
    defined: &Vec<(Name, String)>,
    arts: &Vec<(Name, ArtifactIm)>,
    code_impls: &Vec<(Name, ImplCode)>,
) -> (r: Option<(Vec<(Name, Artifact)>, Graphs)>)
    requires
        arts_wf(arts@),
        defined@.len() == arts@.len(),
        forall|i: int| 0 <= i < arts@.len() ==> (#[trigger] defined@[i]).0 == arts@[i].0,
        forall|i: int| 0 <= i < arts@.len() ==> (#[trigger] arts@[i]).1.name.wf(),
    ensures
        r is None <==> id_count_of(arts@) >= u32::MAX,
        r matches Some(x) ==> determined(defined@, arts@, code_impls@, x),
{
    if count_ids(arts).is_none() {
        return None;
    }
    Some(determine_artifacts(defined, arts, code_impls))
}

/// [`id_count_of`] of `arts`, or `None` where it is `u32::MAX` or more.
pub fn count_ids(arts: &Vec<(Name, ArtifactIm)>) -> (r: Option<u32>)
    ensures
        match r {
            Some(n) => n == id_count_of(arts@) && n < u32::MAX,
            None => id_count_of(arts@) >= u32::MAX,
        },
{
    let mut total: u64 = 0;
    let mut i: usize = 0;
    while i < arts.len()
        invariant
            i <= arts@.len(),
            total == id_count_of(arts@.take(i as int)),
            total < u32::MAX,
        decreases arts@.len() - i,
    {
        let len: u64 = arts[i].1.partof.0.len() as u64;
        proof {
            assert(arts@.take(i as int + 1).drop_last() =~= arts@.take(i as int));
        }
        if len >= u32::MAX as u64 || 3 + len >= u32::MAX as u64 - total {
            proof {
                lemma_id_count_prefix(arts@, i as int + 1);
            }
            return None;
        }
        total = total + 3 + len;
        i = i + 1;
    }
    assert(arts@.take(arts@.len() as int) =~= arts@);
    Some(total as u32)
}

/// The count of a prefix is at most the count of the whole.
proof fn lemma_id_count_prefix(arts: Seq<(Name, ArtifactIm)>, k: int)
    requires
        0 <= k <= arts.len(),
    ensures
        id_count_of(arts.take(k)) <= id_count_of(arts),
    decreases arts.len(),
{
    if k < arts.len() {
        assert(arts.drop_last().take(k) =~= arts.take(k));
        lemma_id_count_prefix(arts.drop_last(), k);
    } else {
        assert(arts.take(k) =~= arts);
    }
}

/// Determine the artifacts: for each name defined in `defined` (with its
/// file), its hash id, full `partof`, `parts`, text, implementation and
/// subnames. Also the family graph, from which the completion ratios are
/// computed.
pub fn determine_artifacts(
    defined: &Vec<(Name, String)>,
    arts: &Vec<(Name, ArtifactIm)>,
    code_impls: &Vec<(Name, ImplCode)>,
) -> (r: (Vec<(Name, Artifact)>, Graphs))
    requires
        arts_wf(arts@),
        defined@.len() == arts@.len(),
        forall|i: int| 0 <= i < arts@.len() ==> (#[trigger] defined@[i]).0 == arts@[i].0,
        forall|i: int| 0 <= i < arts@.len() ==> (#[trigger] arts@[i]).1.name.wf(),
        id_count_of(arts@) < u32::MAX,
    ensures
        determined(defined@, arts@, code_impls@, r),
{
    let partofs = determine_partofs(arts);
    let subnames = determine_subnames(arts);
    let impls = determine_impls(arts, code_impls);
    proof {
        lemma_id_count_equal(arts@, partofs@);
        assert forall|i: int| 0 <= i < partofs@.len() implies (#[trigger] partofs@[i]).0.wf() by {
            assert(pair_keys(arts@)[i] == arts@[i].0);
        }
    }
    let graphs = determine_graphs(&partofs);
    let parts = determine_parts(&graphs);
    let ghost pk = name_keys_of(parts@);
    proof {
        assert forall|k: int| 0 <= k < parts@.len() implies #[trigger] pk[k]
            == name_keys_of(graphs.lookup_id@)[k] by {
            assert(parts@[k].0 == graphs.lookup_name@[k].1);
            assert(graphs.lookup_name@[k] == (graphs.lookup_id@[k].1, graphs.lookup_id@[k].0));
        }
        assert(pk =~= name_keys_of(graphs.lookup_id@));
    }
    let mut subnames = subnames;
    let mut impls = impls;
    let mut partofs = partofs;
    let mut out: Vec<(Name, Artifact)> = Vec::new();
    let n: usize = defined.len();
    let ghost p0 = partofs@;
    let ghost s0 = subnames@;
    let ghost i0 = impls@;
    let mut i: usize = 0;
    assert(partofs@ =~= p0.skip(0));
    assert(subnames@ =~= s0.skip(0));
    assert(impls@ =~= i0.skip(0));
    while i < n
        invariant
            n == defined@.len(),
            n == arts@.len(),
            p0.len() == n && s0.len() == n && i0.len() == n,
            i <= n,
            partofs@ == p0.skip(i as int),
            subnames@ == s0.skip(i as int),
            impls@ == i0.skip(i as int),
            forall|k: int| 0 <= k < arts@.len() ==> (#[trigger] defined@[k]).0 == arts@[k].0,
            forall|k: int|
                0 <= k < n ==> {
                    &&& (#[trigger] p0[k]).0 == arts@[k].0
                    &&& p0[k].1.wf()
                    &&& raws(p0[k].1.0@) == dedup_keys(
                        auto_partof_set(pair_keys(arts@), arts@[k].0.raw_v()) + raws(
                            arts@[k].1.partof.0@,
                        ),
                    )
                },
            forall|k: int|
                0 <= k < n ==> {
                    &&& (#[trigger] s0[k]).0 == arts@[k].0
                    &&& sub_raws(s0[k].1@) == dedup_keys(sub_decls(arts@[k].1.text@, 0))
                },
            forall|k: int|
                0 <= k < n ==> {
                    &&& (#[trigger] i0[k]).0 == arts@[k].0
                    &&& impl_is(i0[k].1, arts@[k].1, code_impls@)
                },
            graphs.wf(),
            forall|k: int| 0 <= k < n ==> name_keys_of(graphs.lookup_id@).contains(
                (#[trigger] p0[k]).0.key_v(),
            ),
            pk == name_keys_of(parts@),
            pk == name_keys_of(graphs.lookup_id@),
            parts@.len() == graphs.lookup_name@.len(),
            forall|k: int|
                0 <= k < parts@.len() ==> {
                    &&& (#[trigger] parts@[k]).0 == graphs.lookup_name@[k].1
                    &&& parts@[k].1.wf()
                    &&& raws(parts@[k].1.0@) == dedup_keys(
                        crate::graph::id_raws(
                            graphs.lookup_name@,
                            crate::graph::out_targets(
                                crate::graph::graph_edges(graphs.full),
                                graphs.lookup_name@[k].0,
                            ),
                        ),
                    )
                },
            out@.len() == i,
            forall|k: int| 0 <= k < i ==> (#[trigger] out@[k]).1.partof == p0[k].1,
            forall|k: int|
                0 <= k < i ==> {
                    let a = (#[trigger] out@[k]).1;
                    let im = arts@[k].1;
                    &&& out@[k].0 == defined@[k].0
                    &&& a.name == defined@[k].0
                    &&& a.file == defined@[k].1
                    &&& a.id.0@ == sip128(im.hash_input())
                    &&& a.partof.wf()
                    &&& raws(a.partof.0@) == dedup_keys(
                        auto_partof_set(pair_keys(arts@), arts@[k].0.raw_v()) + raws(
                            im.partof.0@,
                        ),
                    )
                    &&& a.parts.wf()
                    &&& raws(a.parts.0@) == parts_raws(graphs, defined@[k].0.key_v())
                    &&& a.text == im.text
                    &&& impl_is(a.impl_, im, code_impls@)
                    &&& sub_raws(a.subnames@) == dedup_keys(sub_decls(im.text@, 0))
                },
        decreases n - i,
    {
        let (_, partof) = partofs.remove(0);
        let (_, subs) = subnames.remove(0);
        let (_, im) = impls.remove(0);
        proof {
            assert(p0.skip(i as int)[0] == p0[i as int]);
            assert(s0.skip(i as int)[0] == s0[i as int]);
            assert(i0.skip(i as int)[0] == i0[i as int]);
            assert(partofs@ =~= p0.skip(i + 1));
            assert(subnames@ =~= s0.skip(i + 1));
            assert(impls@ =~= i0.skip(i as int + 1));
        }
        let (name, file) = &defined[i];
        let art_im = &arts[i].1;
        let id = art_im.hash_im();
        proof {
            assert(p0[i as int].0 == *name);
            assert(name_keys_of(graphs.lookup_id@).contains(name.key_v()));
            lemma_first_index(name_keys_of(parts@), name.key_v());
        }
        let pi = match find_name_pair(parts.as_slice(), &name.0.key) {
            Some(x) => x,
            None => {
                assert(false);
                0
            },
        };
        let parts_of = clone_names(&parts[pi].1);
        proof {
            let k = pi as int;
            assert(parts@[k].0.key_v() == name.key_v()) by {
                assert(pk[k] == name.key_v());
            }
            assert(graphs.lookup_name@[k].0 == graphs.lookup_id@[k].1);
            assert(first_index(name_keys_of(graphs.lookup_id@), name.key_v()) == k);
            assert(id_of(graphs.lookup_id@, name.key_v()) == graphs.lookup_name@[k].0);
        }
        let art = Artifact {
            id,
            name: name.clone(),
            file: file.clone(),
            partof,
            parts: parts_of,
            text: art_im.text.clone(),
            impl_: im,
            subnames: subs,
        };
        out.push((name.clone(), art));
        i = i + 1;
    }
    proof {
        assert(full_partofs(out@) =~= p0) by {
            assert forall|k: int| 0 <= k < n implies #[trigger] full_partofs(out@)[k] == p0[k] by {
                assert(out@[k].0 == defined@[k].0);
                assert(p0[k].0 == arts@[k].0);
            }
        }
    }
    (out, graphs)
}

/// A copy of a set of names.
fn clone_names(n: &Names) -> (r: Names)
    ensures
        r.0@ == n.0@,
{
    let mut v: Vec<Name> = Vec::new();
    let mut i: usize = 0;
    while i < n.0.len()
        invariant
            i <= n.0@.len(),
            v@ == n.0@.take(i as int),
        decreases n.0@.len() - i,
    {
        v.push(n.0[i].clone());
        i = i + 1;
        assert(v@ =~= n.0@.take(i as int));
    }
    assert(n.0@.take(n.0@.len() as int) =~= n.0@);
    Names(v)
}

/// The number of names the full `partof` of `arts` can hold: each
/// artifact, its automatic family and its own `partof`.
pub open spec fn id_count_of(arts: Seq<(Name, ArtifactIm)>) -> nat
    decreases arts.len(),
{
    if arts.len() == 0 {
        0
    } else {
        id_count_of(arts.drop_last()) + 3 + arts.last().1.partof.0@.len()
    }
}

proof fn lemma_dedup_len(s: Seq<Seq<char>>)
    ensures
        dedup_keys(s).len() <= s.len(),
    decreases s.len(),
{
    if s.len() > 0 {
        lemma_dedup_len(s.drop_last());
    }
}

proof fn lemma_id_count_le(arts: Seq<(Name, ArtifactIm)>, partofs: Seq<(Name, Names)>)
    requires
        arts.len() == partofs.len(),
        forall|k: int|
            0 <= k < arts.len() ==> (#[trigger] partofs[k]).1.0@.len() <= 2 + arts[k].1.partof.0@.len(),
    ensures
        id_count(partofs) <= id_count_of(arts),
    decreases arts.len(),
{
    if arts.len() > 0 {
        let a = arts.drop_last();
        let p = partofs.drop_last();
        assert forall|k: int| 0 <= k < a.len() implies (#[trigger] p[k]).1.0@.len() <= 2
            + a[k].1.partof.0@.len() by {
            assert(p[k] == partofs[k] && a[k] == arts[k]);
        }
        lemma_id_count_le(a, p);
        assert(partofs[partofs.len() - 1].1.0@.len() <= 2 + arts[arts.len() - 1].1.partof.0@.len());
    }
}

proof fn lemma_id_count_equal(arts: Seq<(Name, ArtifactIm)>, partofs: Seq<(Name, Names)>)
    requires
        arts.len() == partofs.len(),
        forall|k: int|
            0 <= k < arts.len() ==> raws((#[trigger] partofs[k]).1.0@) == dedup_keys(
                auto_partof_set(pair_keys(arts), arts[k].0.raw_v()) + raws(arts[k].1.partof.0@),
            ),
    ensures
        id_count(partofs) <= id_count_of(arts),
{
    assert forall|k: int| 0 <= k < arts.len() implies (#[trigger] partofs[k]).1.0@.len() <= 2
        + arts[k].1.partof.0@.len() by {
        let x = auto_partof_set(pair_keys(arts), arts[k].0.raw_v()) + raws(arts[k].1.partof.0@);
        lemma_dedup_len(x);
        assert(raws(partofs[k].1.0@).len() == partofs[k].1.0@.len());
        assert(raws(arts[k].1.partof.0@).len() == arts[k].1.partof.0@.len());
    }
    lemma_id_count_le(arts, partofs);
}

/// Parts are the inverse of `partof`, by name: among the artifacts that
/// [`determine_artifacts`] gives, the `parts` of the artifact `j` hold a
/// name of key `key` exactly when an artifact of key `key` lists the name
/// of `j` in its full `partof`.
pub proof fn lemma_parts_inverse_by_name(
    defined: Seq<(Name, String)>,
    arts: Seq<(Name, ArtifactIm)>,
    code_impls: Seq<(Name, ImplCode)>,
    r: (Vec<(Name, Artifact)>, Graphs),
    j: int,
    key: Seq<char>,
)
    requires
        determined(defined, arts, code_impls, r),
        0 <= j < r.0@.len(),
    ensures
        has_key(r.0@[j].1.parts.0@, key) <==> exists|m: int, k: int|
            0 <= m < r.0@.len() && 0 <= k < r.0@[m].1.partof.0@.len() && (#[trigger] r.0@[m]).0.key_v()
                == key && (#[trigger] r.0@[m].1.partof.0@[k]).key_v() == r.0@[j].0.key_v(),
{
    let out = r.0@;
    let g = r.1;
    let p = full_partofs(out);
    let ids = g.lookup_id@;
    let edges = graph_edges(g.full);
    let kj = out[j].0.key_v();
    assert(out[j].0 == defined[j].0);
    let a = id_of(ids, kj);
    let targets = crate::graph::out_targets(edges, a);
    let x = crate::graph::id_raws(g.lookup_name@, targets);
    let parts = out[j].1.parts.0@;
    assert(raws(parts) == dedup_keys(x));
    crate::graph::lemma_ids_of_keys(p);
    assert(p[j] == (out[j].0, out[j].1.partof));
    assert(name_keys_of(ids).contains(kj));
    if has_key(parts, key) {
        let q = choose|q: int| 0 <= q < parts.len() && (#[trigger] parts[q]).key_v() == key;
        assert(parts[q].wf());
        assert(raws(parts)[q] == parts[q].raw_v());
        crate::graph::lemma_dedup_keeps_keys(x, key);
        assert(upper(dedup_keys(x)[q]) == key);
        let i = choose|i: int| 0 <= i < x.len() && upper(#[trigger] x[i]) == key;
        let t = targets[i];
        assert(targets.contains(t));
        crate::graph::lemma_parts_inverse_of_partof(p, ids, a, t);
        let (m, k) = choose|m: int, k: int|
            0 <= m < p.len() && 0 <= k < p[m].1.0@.len() && t == crate::graph::id_of(
                ids,
                (#[trigger] p[m]).0.key_v(),
            ) && a == crate::graph::id_of(ids, (#[trigger] p[m].1.0@[k]).key_v());
        assert(p[m] == (out[m].0, out[m].1.partof));
        crate::graph::lemma_id_of_known(g, p[m].0.key_v(), p[m].0.key_v());
        crate::graph::lemma_id_of_known(g, kj, p[m].1.0@[k].key_v());
        assert(x[i] == crate::graph::name_of_id(g.lookup_name@, t).raw_v());
        assert(out[m].1.partof.0@[k] == p[m].1.0@[k]);
    }
    if exists|m: int, k: int|
        0 <= m < out.len() && 0 <= k < out[m].1.partof.0@.len() && (#[trigger] out[m]).0.key_v()
            == key && (#[trigger] out[m].1.partof.0@[k]).key_v() == kj
    {
        let (m, k) = choose|m: int, k: int|
            0 <= m < out.len() && 0 <= k < out[m].1.partof.0@.len() && (#[trigger] out[m]).0.key_v()
                == key && (#[trigger] out[m].1.partof.0@[k]).key_v() == kj;
        assert(p[m] == (out[m].0, out[m].1.partof));
        assert(p[m].1.0@[k] == out[m].1.partof.0@[k]);
        let t = id_of(ids, key);
        crate::graph::lemma_parts_inverse_of_partof(p, ids, a, t);
        assert(targets.contains(t));
        let i = choose|i: int| 0 <= i < targets.len() && targets[i] == t;
        crate::graph::lemma_id_of_known(g, key, key);
        assert(x[i] == crate::graph::name_of_id(g.lookup_name@, t).raw_v());
        assert(upper(x[i]) == key);
        crate::graph::lemma_dedup_keeps_keys(x, key);
        let q = choose|q: int| 0 <= q < dedup_keys(x).len() && upper(#[trigger] dedup_keys(x)[q]) == key;
        assert(raws(parts)[q] == parts[q].raw_v());
        assert(parts[q].wf());
        assert(parts[q].key_v() == key);
    }
}

} // verus!
