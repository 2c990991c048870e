//! A loaded project: its artifacts with everything determined of them but
//! their completion ratios, and the lints against a project.
use vstd::prelude::*;
use crate::artifact::{sub_keys, ArtifactIm, CodeLoc, Impl, ImplCode, Settings};
use crate::family::{has_key, keys_unique, pair_keys, raws, Names};
use crate::implemented::{find_name_pair, first_index, lemma_first_index, name_keys_of};
use crate::lint::{error_views, lint_views, other_views, Categorized, Category, Level, Lint, LintView};
use crate::implemented::{dup_lints_of, join_locations, joined_of, joined_views, Loc};
use crate::loaded::{
    determined, dup_name_lints, files_of, id_count_of, join_artifacts_raw, joined,
    try_determine_artifacts,
};
use crate::modify::sorted_as;
use crate::graph::Graphs;
use crate::name::{Name, SubName, Type};
use crate::ser::HashIm;
use crate::raw::{attrs_end, check_attrs_end, check_name_line, md_lines, name_line, split_lines};
use crate::expand::vv;
use crate::text::str_chars;
use crate::markdown::{code_url_vars, decimal, strfmt_code_url, strfmt_result};
use crate::implemented::{ascii_type_ok, check_fold_type, find_name_end, fold_type_at, name_end, prepend};
use crate::name::{
    check_tst_dash, closed_run, find_closed_run, is_name_char, is_tst_dash, lemma_run_end,
    run_end, type_of, upper, valid_name, valid_subname, char_is_name_char,
};
use crate::text::chars_to_string;

verus! {

/// An artifact with everything the library determines of it: its hash id,
/// its full `partof`, its `parts`, its text, how it is implemented and its
/// subnames. (Its completion ratios are computed from these outside the
/// library, in floating point.)
#[derive(Debug)]
pub struct Artifact {
    pub id: HashIm,
    pub name: Name,
    pub file: String,
    pub partof: Names,
    pub parts: Names,
    pub text: String,
    pub impl_: Impl,
    pub subnames: Vec<SubName>,
}

/// A loaded project.
#[derive(Debug)]
pub struct Project {
    pub settings: Settings,
    pub code_impls: Vec<(Name, ImplCode)>,
    pub artifacts: Vec<(Name, Artifact)>,
}

/// Does some artifact of `arts` have the key `key`?
pub open spec fn art_has_key(arts: Seq<(Name, Artifact)>, key: Seq<char>) -> bool {
    name_keys_of(arts).contains(key)
}

/// Whether `arts` holds an artifact of the key of `name`.
fn contains_art(arts: &Vec<(Name, Artifact)>, name: &Name) -> (r: bool)
    ensures
        r == art_has_key(arts@, name.key_v()),
{
    proof {
        lemma_first_index(name_keys_of(arts@), name.key_v());
    }
    find_name_pair(arts.as_slice(), &name.0.key).is_some()
}

// ------------------------------------------------------------------
// partof that does not exist

/// The plain value of an error lint about an artifact, at its file.
pub open spec fn art_lint(file: Seq<char>, msg: Seq<char>) -> LintView {
    LintView {
        level: Level::Error,
        path: Some(file),
        line: None,
        category: Category::Artifact,
        msg,
    }
}

fn make_art_lint(file: &String, msg: String) -> (r: Lint)
    ensures
        r@ == art_lint(file@, msg@),
{
    Lint { level: Level::Error, path: Some(file.clone()), line: None, category: Category::Artifact, msg }
}

/// The lints of the names of `pof` (the `partof` of `name` in `file`)
/// that are not artifacts of `arts`.
pub open spec fn dne_lints_of(
    arts: Seq<(Name, Artifact)>,
    name: Name,
    file: Seq<char>,
    pof: Seq<Name>,
) -> Seq<LintView>
    decreases pof.len(),
{
    if pof.len() == 0 {
        seq![]
    } else {
        let rest = dne_lints_of(arts, name, file, pof.drop_last());
        if art_has_key(arts, pof.last().key_v()) {
            rest
        } else {
            rest.push(
                art_lint(
                    file,
                    name.raw_v() + " defines partof="@ + pof.last().raw_v() + " which does not exist"@,
                ),
            )
        }
    }
}

/// The lints of every `partof` of `arts` that is not an artifact.
pub open spec fn partof_dne_lints(arts: Seq<(Name, Artifact)>, upto: int) -> Seq<LintView>
    decreases upto,
{
    if upto <= 0 || upto > arts.len() {
        seq![]
    } else {
        let a = arts[upto - 1];
        partof_dne_lints(arts, upto - 1) + dne_lints_of(arts, a.0, a.1.file@, a.1.partof.0@)
    }
}

/// Lint against `partof` names that are not artifacts.
pub fn lint_partof_dne(project: &Project) -> (r: Vec<Lint>)
    ensures
        lint_views(r@) == partof_dne_lints(project.artifacts@, project.artifacts@.len() as int),
{
    let arts = &project.artifacts;
    let mut out: Vec<Lint> = Vec::new();
    let mut i: usize = 0;
    assert(lint_views(out@) =~= seq![]);
    while i < arts.len()
        invariant
            arts@ == project.artifacts@,
            i <= arts@.len(),
            lint_views(out@) == partof_dne_lints(arts@, i as int),
        decreases arts@.len() - i,
    {
        let (name, art) = &arts[i];
        let pof = &art.partof.0;
        let ghost o0 = lint_views(out@);
        let mut j: usize = 0;
        assert(pof@.take(0) =~= seq![]);
        assert(lint_views(out@) =~= o0 + dne_lints_of(arts@, *name, art.file@, pof@.take(0)));
        while j < pof.len()
            invariant
                arts@ == project.artifacts@,
                i < arts@.len(),
                arts@[i as int] == (*name, *art),
                pof@ == art.partof.0@,
                j <= pof@.len(),
                lint_views(out@) == o0 + dne_lints_of(arts@, *name, art.file@, pof@.take(j as int)),
            decreases pof@.len() - j,
        {
            proof {
                assert(pof@.take(j + 1).drop_last() =~= pof@.take(j as int));
                assert(pof@.take(j + 1).last() == pof@[j as int]);
            }
            if !contains_art(arts, &pof[j]) {
                let mut msg = name.as_str().to_owned();
                msg.append(" defines partof=");
                msg.append(pof[j].as_str());
                msg.append(" which does not exist");
                let l = make_art_lint(&art.file, msg);
                let ghost v0 = lint_views(out@);
                out.push(l);
                assert(lint_views(out@) =~= v0.push(l@));
            }
            j = j + 1;
        }
        assert(pof@.take(pof@.len() as int) =~= pof@);
        i = i + 1;
    }
    out
}

// ------------------------------------------------------------------
// partof of invalid types

/// An artifact of type `a` cannot have a `partof` of type `b`: a `REQ`
/// can only be part of `REQ`s, and an `SPC` not part of a `TST`.
pub open spec fn invalid_types(a: Type, b: Type) -> bool {
    (a == Type::REQ && b == Type::SPC) || (a == Type::REQ && b == Type::TST) || (a == Type::SPC && b
        == Type::TST)
}

/// The lints of the names of `pof` of types that `name` cannot have.
pub open spec fn type_lints_of(name: Name, file: Seq<char>, pof: Seq<Name>) -> Seq<LintView>
    decreases pof.len(),
{
    if pof.len() == 0 {
        seq![]
    } else {
        let rest = type_lints_of(name, file, pof.drop_last());
        if invalid_types(name.0.ty, pof.last().0.ty) {
            rest.push(
                art_lint(
                    file,
                    name.raw_v() + " cannot have `partof` "@ + pof.last().raw_v()
                        + ": invalid types."@,
                ),
            )
        } else {
            rest
        }
    }
}

/// The lints of every `partof` of invalid type.
pub open spec fn partof_type_lints(arts: Seq<(Name, Artifact)>, upto: int) -> Seq<LintView>
    decreases upto,
{
    if upto <= 0 || upto > arts.len() {
        seq![]
    } else {
        let a = arts[upto - 1];
        partof_type_lints(arts, upto - 1) + type_lints_of(a.0, a.1.file@, a.1.partof.0@)
    }
}

/// Lint against `partof` names of invalid types.
pub fn lint_partof_types(project: &Project) -> (r: Vec<Lint>)
    ensures
        lint_views(r@) == partof_type_lints(project.artifacts@, project.artifacts@.len() as int),
{
    let arts = &project.artifacts;
    let mut out: Vec<Lint> = Vec::new();
    let mut i: usize = 0;
    assert(lint_views(out@) =~= seq![]);
    while i < arts.len()
        invariant
            arts@ == project.artifacts@,
            i <= arts@.len(),
            lint_views(out@) == partof_type_lints(arts@, i as int),
        decreases arts@.len() - i,
    {
        let (name, art) = &arts[i];
        let pof = &art.partof.0;
        let ghost o0 = lint_views(out@);
        let mut j: usize = 0;
        assert(pof@.take(0) =~= seq![]);
        assert(lint_views(out@) =~= o0 + type_lints_of(*name, art.file@, pof@.take(0)));
        while j < pof.len()
            invariant
                arts@ == project.artifacts@,
                i < arts@.len(),
                arts@[i as int] == (*name, *art),
                pof@ == art.partof.0@,
                j <= pof@.len(),
                lint_views(out@) == o0 + type_lints_of(*name, art.file@, pof@.take(j as int)),
            decreases pof@.len() - j,
        {
            proof {
                assert(pof@.take(j + 1).drop_last() =~= pof@.take(j as int));
                assert(pof@.take(j + 1).last() == pof@[j as int]);
            }
            let a = name.0.ty;
            let b = pof[j].0.ty;
            let invalid = match (a, b) {
                (Type::REQ, Type::SPC) | (Type::REQ, Type::TST) | (Type::SPC, Type::TST) => true,
                _ => false,
            };
            if invalid {
                let mut msg = name.as_str().to_owned();
                msg.append(" cannot have `partof` ");
                msg.append(pof[j].as_str());
                msg.append(": invalid types.");
                let l = make_art_lint(&art.file, msg);
                let ghost v0 = lint_views(out@);
                out.push(l);
                assert(lint_views(out@) =~= v0.push(l@));
            }
            j = j + 1;
        }
        assert(pof@.take(pof@.len() as int) =~= pof@);
        i = i + 1;
    }
    out
}

// ------------------------------------------------------------------
// done with subnames

/// The lints of artifacts that are done and have subnames.
pub open spec fn done_sub_lints(arts: Seq<(Name, Artifact)>, upto: int) -> Seq<LintView>
    decreases upto,
{
    if upto <= 0 || upto > arts.len() {
        seq![]
    } else {
        let a = arts[upto - 1];
        let rest = done_sub_lints(arts, upto - 1);
        if a.1.impl_ is Done && a.1.subnames@.len() > 0 {
            rest.push(
                art_lint(
                    a.1.file@,
                    a.0.raw_v() + ": subnames are defined when the `done` field is set."@,
                ),
            )
        } else {
            rest
        }
    }
}

/// Lint against artifacts that are done but have subnames.
pub fn lint_artifact_done_subnames(project: &Project) -> (r: Vec<Lint>)
    ensures
        lint_views(r@) == done_sub_lints(project.artifacts@, project.artifacts@.len() as int),
{
    let arts = &project.artifacts;
    let mut out: Vec<Lint> = Vec::new();
    let mut i: usize = 0;
    assert(lint_views(out@) =~= seq![]);
    while i < arts.len()
        invariant
            arts@ == project.artifacts@,
            i <= arts@.len(),
            lint_views(out@) == done_sub_lints(arts@, i as int),
        decreases arts@.len() - i,
    {
        let (name, art) = &arts[i];
        if art.impl_.is_done() && art.subnames.len() > 0 {
            let mut msg = name.as_str().to_owned();
            msg.append(": subnames are defined when the `done` field is set.");
            let l = make_art_lint(&art.file, msg);
            let ghost v0 = lint_views(out@);
            out.push(l);
            assert(lint_views(out@) =~= v0.push(l@));
        }
        i = i + 1;
    }
    out
}

// ------------------------------------------------------------------
// code implementations

/// The plain value of a warning about a place in code.
pub open spec fn code_lint(name: Name, sub: Option<SubName>, loc: CodeLoc, msg: Seq<char>) -> LintView {
    LintView {
        level: Level::Warn,
        path: Some(loc.file@),
        line: Some(loc.line),
        category: Category::ImplCode,
        msg: "Invalid code impl #"@ + name.raw_v() + (match sub {
            Some(s) => s.raw_v(),
            None => Seq::<char>::empty(),
        }) + ". "@ + msg,
    }
}

fn make_code_lint(name: &Name, sub: Option<&SubName>, loc: &CodeLoc, msg: &str) -> (r: Lint)
    ensures
        r@ == code_lint(
            *name,
            match sub {
                Some(s) => Some(*s),
                None => None,
            },
            *loc,
            msg@,
        ),
{
    let mut m = "Invalid code impl #".to_owned();
    let full = name.full(sub);
    m.append(full.as_str());
    m.append(". ");
    m.append(msg);
    assert(m@ =~= "Invalid code impl #"@ + name.raw_v() + (match sub {
        Some(s) => s.raw_v(),
        None => Seq::<char>::empty(),
    }) + ". "@ + msg@);
    Lint { level: Level::Warn, path: Some(loc.file.clone()), line: Some(loc.line), category: Category::ImplCode, msg: m }
}

/// The warnings with message `msg` at each secondary place.
pub open spec fn sec_lints(name: Name, secs: Seq<(SubName, CodeLoc)>, msg: Seq<char>) -> Seq<LintView>
    decreases secs.len(),
{
    if secs.len() == 0 {
        seq![]
    } else {
        sec_lints(name, secs.drop_last(), msg).push(
            code_lint(name, Some(secs.last().0), secs.last().1, msg),
        )
    }
}

/// Does `subs` hold a subname of key `key`?
pub open spec fn has_sub_key(subs: Seq<SubName>, key: Seq<char>) -> bool {
    exists|k: int| 0 <= k < subs.len() && (#[trigger] subs[k]).key_v() == key
}

/// The warnings at the secondary places whose subname is not among `subs`.
pub open spec fn missing_sub_lints(
    name: Name,
    secs: Seq<(SubName, CodeLoc)>,
    subs: Seq<SubName>,
) -> Seq<LintView>
    decreases secs.len(),
{
    if secs.len() == 0 {
        seq![]
    } else {
        let rest = missing_sub_lints(name, secs.drop_last(), subs);
        let x = secs.last();
        if has_sub_key(subs, x.0.key_v()) {
            rest
        } else {
            rest.push(
                code_lint(
                    name,
                    Some(x.0),
                    x.1,
                    "Subname [["@ + x.0.raw_v() + "]] does not exist in artifact's text"@,
                ),
            )
        }
    }
}

/// The warnings about the places of one implementation.
pub open spec fn impl_lints(arts: Seq<(Name, Artifact)>, name: Name, code: ImplCode) -> Seq<LintView> {
    let i = first_index(name_keys_of(arts), name.key_v());
    if i >= 0 {
        let art = arts[i].1;
        match art.impl_ {
            Impl::Done(_) => {
                let msg = "Artifact's done field is set"@;
                (match code.primary {
                    Some(loc) => seq![code_lint(name, None, loc, msg)],
                    None => seq![],
                }) + sec_lints(name, code.secondary@, msg)
            },
            Impl::Code(_) => missing_sub_lints(name, code.secondary@, art.subnames@),
            Impl::NotImpl => seq![],
        }
    } else {
        let msg = "Artifact "@ + name.raw_v() + " does not exist"@;
        (match code.primary {
            Some(loc) => seq![code_lint(name, None, loc, msg)],
            None => seq![],
        }) + sec_lints(name, code.secondary@, msg)
    }
}

/// The warnings about all implementations.
pub open spec fn code_impl_lints(
    arts: Seq<(Name, Artifact)>,
    codes: Seq<(Name, ImplCode)>,
    upto: int,
) -> Seq<LintView>
    decreases upto,
{
    if upto <= 0 || upto > codes.len() {
        seq![]
    } else {
        code_impl_lints(arts, codes, upto - 1) + impl_lints(arts, codes[upto - 1].0, codes[upto - 1].1)
    }
}

/// Push a warning with message `msg` for each secondary place.
fn push_sec_lints(out: &mut Vec<Lint>, name: &Name, secs: &Vec<(SubName, CodeLoc)>, msg: &str)
    ensures
        lint_views(final(out)@) == lint_views(old(out)@) + sec_lints(*name, secs@, msg@),
{
    let ghost o0 = lint_views(out@);
    let mut j: usize = 0;
    assert(secs@.take(0) =~= seq![]);
    assert(lint_views(out@) =~= o0 + sec_lints(*name, secs@.take(0), msg@));
    while j < secs.len()
        invariant
            j <= secs@.len(),
            lint_views(out@) == o0 + sec_lints(*name, secs@.take(j as int), msg@),
        decreases secs@.len() - j,
    {
        proof {
            assert(secs@.take(j + 1).drop_last() =~= secs@.take(j as int));
            assert(secs@.take(j + 1).last() == secs@[j as int]);
        }
        let l = make_code_lint(name, Some(&secs[j].0), &secs[j].1, msg);
        let ghost v0 = lint_views(out@);
        out.push(l);
        assert(lint_views(out@) =~= v0.push(l@));
        j = j + 1;
    }
    assert(secs@.take(secs@.len() as int) =~= secs@);
}

/// Whether `subs` holds a subname of the key of `sub`.
fn contains_sub(subs: &Vec<SubName>, sub: &SubName) -> (r: bool)
    ensures
        r == has_sub_key(subs@, sub.key_v()),
{
    let mut k: usize = 0;
    while k < subs.len()
        invariant
            k <= subs@.len(),
            forall|x: int| 0 <= x < k ==> (#[trigger] subs@[x]).key_v() != sub.key_v(),
        decreases subs@.len() - k,
    {
        if subs[k].0.key == sub.0.key {
            return true;
        }
        k = k + 1;
    }
    false
}

/// Lint against implementations in code of artifacts that are done or do
/// not exist, and of subnames that do not exist.
pub fn lint_code_impls(project: &Project) -> (r: Vec<Lint>)
    ensures
        lint_views(r@) == code_impl_lints(
            project.artifacts@,
            project.code_impls@,
            project.code_impls@.len() as int,
        ),
{
    let arts = &project.artifacts;
    let codes = &project.code_impls;
    let mut out: Vec<Lint> = Vec::new();
    let mut i: usize = 0;
    assert(lint_views(out@) =~= seq![]);
    while i < codes.len()
        invariant
            arts@ == project.artifacts@,
            codes@ == project.code_impls@,
            i <= codes@.len(),
            lint_views(out@) == code_impl_lints(arts@, codes@, i as int),
        decreases codes@.len() - i,
    {
        let (name, code) = &codes[i];
        let ghost o0 = lint_views(out@);
        proof {
            lemma_first_index(name_keys_of(arts@), name.key_v());
        }
        match find_name_pair(arts.as_slice(), &name.0.key) {
            Some(ai) => {
                let art = &arts[ai].1;
                match &art.impl_ {
                    Impl::Done(_) => {
                        let msg = "Artifact's done field is set";
                        match &code.primary {
                            Some(loc) => {
                                let l = make_code_lint(name, None, loc, msg);
                                out.push(l);
                            },
                            None => {},
                        }
                        let ghost o1 = lint_views(out@);
                        push_sec_lints(&mut out, name, &code.secondary, msg);
                        assert(lint_views(out@) =~= o0 + impl_lints(arts@, *name, *code));
                    },
                    Impl::Code(_) => {
                        let secs = &code.secondary;
                        let mut j: usize = 0;
                        assert(secs@.take(0) =~= seq![]);
                        assert(lint_views(out@) =~= o0 + missing_sub_lints(
                            *name,
                            secs@.take(0),
                            art.subnames@,
                        ));
                        while j < secs.len()
                            invariant
                                j <= secs@.len(),
                                lint_views(out@) == o0 + missing_sub_lints(
                                    *name,
                                    secs@.take(j as int),
                                    art.subnames@,
                                ),
                            decreases secs@.len() - j,
                        {
                            proof {
                                assert(secs@.take(j + 1).drop_last() =~= secs@.take(j as int));
                                assert(secs@.take(j + 1).last() == secs@[j as int]);
                            }
                            let (sub, loc) = &secs[j];
                            if !contains_sub(&art.subnames, sub) {
                                let mut m = "Subname [[".to_owned();
                                m.append(sub.as_str());
                                m.append("]] does not exist in artifact's text");
                                let l = make_code_lint(name, Some(sub), loc, m.as_str());
                                let ghost v0 = lint_views(out@);
                                out.push(l);
                                assert(lint_views(out@) =~= v0.push(l@));
                            }
                            j = j + 1;
                        }
                        assert(secs@.take(secs@.len() as int) =~= secs@);
                    },
                    Impl::NotImpl => {
                        assert(lint_views(out@) =~= o0 + impl_lints(arts@, *name, *code));
                    },
                }
            },
            None => {
                let mut m = "Artifact ".to_owned();
                m.append(name.as_str());
                m.append(" does not exist");
                match &code.primary {
                    Some(loc) => {
                        let l = make_code_lint(name, None, loc, m.as_str());
                        out.push(l);
                    },
                    None => {},
                }
                push_sec_lints(&mut out, name, &code.secondary, m.as_str());
                assert(lint_views(out@) =~= o0 + impl_lints(arts@, *name, *code));
            },
        }
        i = i + 1;
    }
    out
}

// ------------------------------------------------------------------
// text

/// Why a line cannot stand in the text of an artifact.
pub open spec fn text_line_problem(l: Seq<char>) -> Option<Seq<char>> {
    if name_line(l) is Some {
        Some(
            "Cannot have a line of the form \"# ART-name\" as that specifies a new artifact in the markdown format."@,
        )
    } else if attrs_end(l) {
        Some(
            "Cannot have a line of the form \"###+\" as that specifies the end of the metadata in the markdown format."@,
        )
    } else {
        None
    }
}

/// The lints of the lines of an artifact's text that read as markdown
/// structure.
pub open spec fn line_lints(name: Name, file: Seq<char>, lines: Seq<Seq<char>>) -> Seq<LintView>
    decreases lines.len(),
{
    if lines.len() == 0 {
        seq![]
    } else {
        let rest = line_lints(name, file, lines.drop_last());
        match text_line_problem(lines.last()) {
            Some(m) => rest.push(art_lint(file, name.raw_v() + " text is invalid: "@ + m)),
            None => rest,
        }
    }
}

/// The lints of every artifact text.
pub open spec fn text_lints(arts: Seq<(Name, Artifact)>, upto: int) -> Seq<LintView>
    decreases upto,
{
    if upto <= 0 || upto > arts.len() {
        seq![]
    } else {
        let a = arts[upto - 1];
        text_lints(arts, upto - 1) + line_lints(a.0, a.1.file@, md_lines(a.1.text@))
    }
}

/// Lint against artifact text with lines that read as markdown structure
/// (a name line or the end of attributes).
pub fn lint_artifact_text(project: &Project) -> (r: Vec<Lint>)
    ensures
        lint_views(r@) == text_lints(project.artifacts@, project.artifacts@.len() as int),
{
    let arts = &project.artifacts;
    let mut out: Vec<Lint> = Vec::new();
    let mut i: usize = 0;
    assert(lint_views(out@) =~= seq![]);
    while i < arts.len()
        invariant
            arts@ == project.artifacts@,
            i <= arts@.len(),
            lint_views(out@) == text_lints(arts@, i as int),
        decreases arts@.len() - i,
    {
        let (name, art) = &arts[i];
        let chars = str_chars(art.text.as_str());
        let lines = split_lines(chars.as_slice());
        let ghost ls = vv(lines@);
        let ghost o0 = lint_views(out@);
        let mut j: usize = 0;
        assert(ls.take(0) =~= seq![]);
        assert(lint_views(out@) =~= o0 + line_lints(*name, art.file@, ls.take(0)));
        while j < lines.len()
            invariant
                arts@ == project.artifacts@,
                i < arts@.len(),
                arts@[i as int] == (*name, *art),
                ls == vv(lines@),
                ls == md_lines(art.text@),
                j <= lines@.len(),
                lint_views(out@) == o0 + line_lints(*name, art.file@, ls.take(j as int)),
            decreases lines@.len() - j,
        {
            proof {
                assert(ls.take(j + 1).drop_last() =~= ls.take(j as int));
                assert(ls.take(j + 1).last() == lines@[j as int]@);
            }
            let line = &lines[j];
            let problem: Option<&str> = if check_name_line(line.as_slice()).is_some() {
                Some(
                    "Cannot have a line of the form \"# ART-name\" as that specifies a new artifact in the markdown format.",
                )
            } else if check_attrs_end(line.as_slice()) {
                Some(
                    "Cannot have a line of the form \"###+\" as that specifies the end of the metadata in the markdown format.",
                )
            } else {
                None
            };
            match problem {
                Some(m) => {
                    let mut msg = name.as_str().to_owned();
                    msg.append(" text is invalid: ");
                    msg.append(m);
                    let l = make_art_lint(&art.file, msg);
                    let ghost v0 = lint_views(out@);
                    out.push(l);
                    assert(lint_views(out@) =~= v0.push(l@));
                },
                None => {},
            }
            j = j + 1;
        }
        assert(ls.take(lines@.len() as int) =~= ls);
        i = i + 1;
    }
    out
}

// ------------------------------------------------------------------
// settings

/// The lint of a code URL format that cannot format a place, if any.
pub open spec fn settings_lints(settings: Settings) -> Seq<LintView> {
    match settings.code_url {
        Some(url) => match strfmt_result(url@, code_url_vars("/fake"@, 1)) {
            Err(e) => seq![
                LintView {
                    level: Level::Error,
                    path: Some(settings.settings_path@),
                    line: None,
                    category: Category::Settings,
                    msg: "error formatting url="@ + url@ + " error="@ + e,
                },
            ],
            Ok(_) => seq![],
        },
        None => seq![],
    }
}

/// Lint against a code URL format that cannot format a place.
pub fn lint_settings(project: &Project) -> (r: Vec<Lint>)
    ensures
        lint_views(r@) == settings_lints(project.settings),
{
    let mut out: Vec<Lint> = Vec::new();
    match &project.settings.code_url {
        Some(url) => {
            let res = strfmt_code_url(url.as_str(), "/fake", 0);
            match res {
                Err(e) => {
                    out.push(
                        Lint {
                            level: Level::Error,
                            path: Some(project.settings.settings_path.clone()),
                            line: None,
                            category: Category::Settings,
                            msg: e,
                        },
                    );
                },
                Ok(_) => {},
            }
        },
        None => {},
    }
    proof {
        reveal_strlit("/fake");
    }
    assert(lint_views(out@) =~= settings_lints(project.settings));
    out
}

// ------------------------------------------------------------------
// references in text

/// A reference `[[NAME]]` or `[[NAME.SUB]]` starts at `p`: the end of its
/// name, and the end of its subname (the end of its name when it has
/// none); `]]` follows.
pub open spec fn ref_at(s: Seq<char>, p: int) -> Option<(int, int)> {
    if 0 <= p && p + 6 < s.len() && s[p] == '[' && s[p + 1] == '[' && fold_type_at(s, p + 2)
        && s[p + 5] == '-' && is_name_char(s[p + 6]) {
        let e = name_end(s, p + 6);
        if e + 1 < s.len() && s[e] == ']' && s[e + 1] == ']' {
            Some((e, e))
        } else if e < s.len() && s[e] == '.' {
            if is_tst_dash(s.skip(e + 1)) && closed_run(s, e + 5) is Some {
                Some((e, closed_run(s, e + 5).unwrap()))
            } else if closed_run(s, e + 1) is Some {
                Some((e, closed_run(s, e + 1).unwrap()))
            } else {
                None
            }
        } else {
            None
        }
    } else {
        None
    }
}

/// A reference found in text: the raw name and the raw subname.
pub type TextRef = (Seq<char>, Option<Seq<char>>);

/// The references of `s` from `p` on, left to right; `None` where one of
/// them names an artifact with a type prefix that is not ASCII (which the
/// name type cannot hold). Each `[[` is tried in turn: a reference holds
/// no `[` after its first two characters.
pub open spec fn text_refs(s: Seq<char>, p: int) -> Option<Seq<TextRef>>
    decreases s.len() - p,
{
    if p < 0 || p >= s.len() {
        Some(seq![])
    } else {
        match ref_at(s, p) {
            Some((e, t)) => if type_of(s.skip(p + 2)) is None {
                None
            } else {
                let r: TextRef = (s.subrange(p + 2, e), if t > e {
                    Some(s.subrange(e, t))
                } else {
                    None
                });
                match text_refs(s, p + 1) {
                    Some(rest) => Some(seq![r] + rest),
                    None => None,
                }
            },
            None => text_refs(s, p + 1),
        }
    }
}

proof fn lemma_name_end_ge(s: Seq<char>, j: int)
    requires
        0 <= j <= s.len(),
    ensures
        j <= name_end(s, j) <= s.len(),
        forall|i: int|
            j <= i < name_end(s, j) ==> is_name_char(#[trigger] s[i]) || (s[i] == '-' && i + 1
                < name_end(s, j) && is_name_char(s[i + 1])),
        0 < name_end(s, j) - j ==> is_name_char(s[name_end(s, j) - 1]),
    decreases s.len() - j,
{
    if j < s.len() && (is_name_char(s[j]) || (s[j] == '-' && j + 1 < s.len() && is_name_char(
        s[j + 1],
    ))) {
        lemma_name_end_ge(s, j + 1);
        if s[j] == '-' {
            assert(name_end(s, j + 1) > j + 1) by {
                assert(name_end(s, j + 2) >= j + 2) by {
                    lemma_name_end_ge(s, j + 2);
                }
                assert(name_end(s, j + 1) == name_end(s, j + 2));
            }
        }
    }
}

/// The name of a reference at `p` is a valid name when its type prefix is
/// ASCII, and its subname a valid subname.
proof fn lemma_ref_valid(s: Seq<char>, p: int)
    requires
        ref_at(s, p) is Some,
        type_of(s.skip(p + 2)) is Some,
    ensures
        valid_name(s.subrange(p + 2, ref_at(s, p).unwrap().0)),
        ref_at(s, p).unwrap().1 > ref_at(s, p).unwrap().0 ==> valid_subname(
            s.subrange(ref_at(s, p).unwrap().0, ref_at(s, p).unwrap().1),
        ),
        p + 6 < ref_at(s, p).unwrap().0 <= ref_at(s, p).unwrap().1 <= s.len(),
{
    let e = name_end(s, p + 6);
    lemma_name_end_ge(s, p + 6);
    assert(name_end(s, p + 6) == name_end(s, p + 7));
    lemma_name_end_ge(s, p + 7);
    let n = s.subrange(p + 2, e);
    assert(n[0] == s.skip(p + 2)[0] && n[1] == s.skip(p + 2)[1] && n[2] == s.skip(p + 2)[2]);
    let b = n.skip(4);
    assert(b =~= s.subrange(p + 6, e));
    assert forall|i: int| 0 <= i < b.len() implies (is_name_char(#[trigger] b[i]) || b[i] == '-') by {
        assert(b[i] == s[p + 6 + i]);
    }
    assert forall|i: int| 0 <= i < b.len() - 1 && #[trigger] b[i] == '-' implies b[i + 1] != '-' by {
        assert(b[i] == s[p + 6 + i]);
        assert(b[i + 1] == s[p + 6 + i + 1]);
    }
    assert(b.last() == s[e - 1]);
    let t = ref_at(s, p).unwrap().1;
    if t > e {
        let r = s.subrange(e, t);
        let body = r.skip(1);
        if is_tst_dash(s.skip(e + 1)) && closed_run(s, e + 5) is Some {
            lemma_run_end(s, e + 5);
            assert(body[0] == s.skip(e + 1)[0] && body[1] == s.skip(e + 1)[1]);
            assert(body[2] == s.skip(e + 1)[2] && body[3] == s.skip(e + 1)[3]);
            assert forall|i: int| 0 <= i < body.skip(4).len() implies is_name_char(
                #[trigger] body.skip(4)[i],
            ) by {
                assert(body.skip(4)[i] == s[e + 5 + i]);
            }
        } else {
            lemma_run_end(s, e + 1);
            assert forall|i: int| 0 <= i < body.len() implies is_name_char(#[trigger] body[i]) by {
                assert(body[i] == s[e + 1 + i]);
            }
        }
    }
}

/// Executable form of [`ref_at`].
fn find_ref(v: &[char], p: usize) -> (r: Option<(usize, usize)>)
    requires
        p < v@.len(),
    ensures
        match ref_at(v@, p as int) {
            Some((e, t)) => r == Some((e as usize, t as usize)),
            None => r is None,
        },
{
    let n: usize = v.len();
    if n - p <= 6 || v[p] != '[' || v[p + 1] != '[' || !check_fold_type(v, p + 2) || v[p + 5]
        != '-' || !char_is_name_char(v[p + 6]) {
        return None;
    }
    proof {
        lemma_name_end_ge(v@, p + 6);
    }
    let e = find_name_end(v, p + 6);
    if e < n && n - e > 1 && v[e] == ']' && v[e + 1] == ']' {
        return Some((e, e));
    }
    if e < n && v[e] == '.' {
        let tst = check_tst_dash(v, e + 1);
        if tst {
            match find_closed_run(v, e + 5) {
                Some(t) => {
                    return Some((e, t));
                },
                None => {},
            }
        }
        match find_closed_run(v, e + 1) {
            Some(t) => Some((e, t)),
            None => None,
        }
    } else {
        None
    }
}

/// The references to artifacts in `text`, left to right: the name and
/// the subname of each; `None` where one of them names an artifact with a
/// type prefix that is not ASCII (see [`text_refs`]).
pub fn parse_text_refs(text: &str) -> (r: Option<Vec<(Name, Option<SubName>)>>)
    ensures
        match (r, text_refs(text@, 0)) {
            (Some(v), Some(f)) => v@.len() == f.len() && forall|i: int|
                0 <= i < f.len() ==> {
                    &&& (#[trigger] v@[i]).0.wf()
                    &&& v@[i].0.raw_v() == f[i].0
                    &&& match (v@[i].1, f[i].1) {
                        (Some(sub), Some(raw)) => sub.wf() && sub.raw_v() == raw,
                        (None, None) => true,
                        _ => false,
                    }
                },
            (None, None) => true,
            _ => false,
        },
{
    let v = str_chars(text);
    let ghost s = v@;
    let mut out: Vec<(Name, Option<SubName>)> = Vec::new();
    let ghost mut found: Seq<TextRef> = seq![];
    let mut p: usize = 0;
    while p < v.len()
        invariant
            s == v@,
            s == text@,
            p <= s.len(),
            text_refs(s, 0) == prepend_refs(found, text_refs(s, p as int)),
            out@.len() == found.len(),
            forall|i: int|
                0 <= i < found.len() ==> {
                    &&& (#[trigger] out@[i]).0.wf()
                    &&& out@[i].0.raw_v() == found[i].0
                    &&& match (out@[i].1, found[i].1) {
                        (Some(sub), Some(raw)) => sub.wf() && sub.raw_v() == raw,
                        (None, None) => true,
                        _ => false,
                    }
                },
        decreases s.len() - p,
    {
        match find_ref(v.as_slice(), p) {
            Some((e, t)) => {
                if !ascii_type_ok(v.as_slice(), p + 2) {
                    return None;
                }
                proof {
                    lemma_ref_valid(s, p as int);
                }
                let raw = chars_to_string(v.as_slice(), p + 2, e);
                let name = match Name::from_str(raw.as_str()) {
                    Ok(n) => n,
                    Err(_) => {
                        assert(false);
                        return None;
                    },
                };
                let sub = if t > e {
                    let sraw = chars_to_string(v.as_slice(), e, t);
                    Some(SubName::new_unchecked(sraw.as_str()))
                } else {
                    None
                };
                let ghost item: TextRef = (s.subrange(p + 2, e as int), if t > e {
                    Some(s.subrange(e as int, t as int))
                } else {
                    None
                });
                let ghost out0 = out@;
                out.push((name, sub));
                proof {
                    let f0 = found;
                    found = found.push(item);
                    match text_refs(s, p + 1) {
                        Some(rest) => {
                            assert(f0 + (seq![item] + rest) =~= found + rest);
                        },
                        None => {},
                    }
                    assert forall|i: int| 0 <= i < found.len() implies {
                        &&& (#[trigger] out@[i]).0.wf()
                        &&& out@[i].0.raw_v() == found[i].0
                        &&& match (out@[i].1, found[i].1) {
                            (Some(sub), Some(raw)) => sub.wf() && sub.raw_v() == raw,
                            (None, None) => true,
                            _ => false,
                        }
                    } by {
                        if i < f0.len() {
                            assert(out@[i] == out0[i]);
                        }
                    }
                }
            },
            None => {},
        }
        p = p + 1;
    }
    assert(found + seq![] =~= found);
    Some(out)
}

/// `f` followed by the references of `rest`; nothing if `rest` is
/// nothing.
pub open spec fn prepend_refs(f: Seq<TextRef>, rest: Option<Seq<TextRef>>) -> Option<Seq<TextRef>> {
    match rest {
        Some(r) => Some(f + r),
        None => None,
    }
}

/// The plain value of a warning about a reference in a text.
pub open spec fn ref_lint(name: Name, file: Seq<char>, r: TextRef) -> LintView {
    LintView {
        level: Level::Warn,
        path: Some(file),
        line: None,
        category: Category::Artifact,
        msg: name.raw_v() + " has soft reference [["@ + r.0 + (match r.1 {
            Some(sub) => sub,
            None => Seq::<char>::empty(),
        }) + "]] which does not exist."@,
    }
}

/// Does the reference `r` name something that does not exist: an artifact
/// that is not in `arts`, or a subname its artifact does not declare?
pub open spec fn ref_dangles(arts: Seq<(Name, Artifact)>, r: TextRef) -> bool {
    let i = first_index(name_keys_of(arts), upper(r.0));
    if i < 0 {
        true
    } else {
        match r.1 {
            Some(sub) => !has_sub_key(arts[i].1.subnames@, upper(sub)),
            None => false,
        }
    }
}

/// The warnings about the dangling references `refs` in the text of `name`.
pub open spec fn ref_lints(
    arts: Seq<(Name, Artifact)>,
    name: Name,
    file: Seq<char>,
    refs: Seq<TextRef>,
) -> Seq<LintView>
    decreases refs.len(),
{
    if refs.len() == 0 {
        seq![]
    } else {
        let rest = ref_lints(arts, name, file, refs.drop_last());
        if ref_dangles(arts, refs.last()) {
            rest.push(ref_lint(name, file, refs.last()))
        } else {
            rest
        }
    }
}

/// The warnings about dangling references in every text; `None` where a
/// text has a reference that names an artifact with a type prefix that is
/// not ASCII.
pub open spec fn text_ref_lints(arts: Seq<(Name, Artifact)>, upto: int) -> Option<Seq<LintView>>
    decreases upto,
{
    if upto <= 0 || upto > arts.len() {
        Some(seq![])
    } else {
        let a = arts[upto - 1];
        match (text_ref_lints(arts, upto - 1), text_refs(a.1.text@, 0)) {
            (Some(l), Some(refs)) => Some(l + ref_lints(arts, a.0, a.1.file@, refs)),
            _ => None,
        }
    }
}

proof fn lemma_text_ref_lints_none(arts: Seq<(Name, Artifact)>, i: int, k: int)
    requires
        0 <= i <= k <= arts.len(),
        text_ref_lints(arts, i) is None,
    ensures
        text_ref_lints(arts, k) is None,
    decreases k - i,
{
    if k > i {
        lemma_text_ref_lints_none(arts, i, k - 1);
    }
}

/// Lint (warn) against references in artifact texts to artifacts or
/// subnames that do not exist. `None` where a reference names an artifact
/// with a type prefix that is not ASCII (see [`text_refs`]).
pub fn lint_artifact_text_refs(project: &Project) -> (r: Option<Vec<Lint>>)
    ensures
        match (r, text_ref_lints(project.artifacts@, project.artifacts@.len() as int)) {
            (Some(v), Some(l)) => lint_views(v@) == l,
            (None, None) => true,
            _ => false,
        },
{
    let arts = &project.artifacts;
    let mut out: Vec<Lint> = Vec::new();
    let mut i: usize = 0;
    assert(lint_views(out@) =~= seq![]);
    while i < arts.len()
        invariant
            arts@ == project.artifacts@,
            i <= arts@.len(),
            text_ref_lints(arts@, i as int) == Some(lint_views(out@)),
        decreases arts@.len() - i,
    {
        let (name, art) = &arts[i];
        let refs = match parse_text_refs(art.text.as_str()) {
            Some(x) => x,
            None => {
                proof {
                    assert(text_ref_lints(arts@, i + 1) is None);
                    lemma_text_ref_lints_none(arts@, i + 1, arts@.len() as int);
                }
                return None;
            },
        };
        let ghost f = text_refs(art.text@, 0).unwrap();
        let ghost o0 = lint_views(out@);
        let mut j: usize = 0;
        assert(f.take(0) =~= seq![]);
        assert(lint_views(out@) =~= o0 + ref_lints(arts@, *name, art.file@, f.take(0)));
        while j < refs.len()
            invariant
                arts@ == project.artifacts@,
                i < arts@.len(),
                arts@[i as int] == (*name, *art),
                f == text_refs(art.text@, 0).unwrap(),
                refs@.len() == f.len(),
                forall|x: int|
                    0 <= x < f.len() ==> {
                        &&& (#[trigger] refs@[x]).0.wf()
                        &&& refs@[x].0.raw_v() == f[x].0
                        &&& match (refs@[x].1, f[x].1) {
                            (Some(sub), Some(raw)) => sub.wf() && sub.raw_v() == raw,
                            (None, None) => true,
                            _ => false,
                        }
                    },
                j <= refs@.len(),
                lint_views(out@) == o0 + ref_lints(arts@, *name, art.file@, f.take(j as int)),
            decreases refs@.len() - j,
        {
            proof {
                assert(f.take(j + 1).drop_last() =~= f.take(j as int));
                assert(f.take(j + 1).last() == f[j as int]);
            }
            let (ref_name, ref_sub) = &refs[j];
            proof {
                lemma_first_index(name_keys_of(arts@), ref_name.key_v());
            }
            let dangles = match find_name_pair(arts.as_slice(), &ref_name.0.key) {
                None => true,
                Some(ri) => match ref_sub {
                    Some(sub) => !contains_sub(&arts[ri].1.subnames, sub),
                    None => false,
                },
            };
            if dangles {
                let mut msg = name.as_str().to_owned();
                msg.append(" has soft reference [[");
                let full = ref_name.full(ref_sub.as_ref());
                msg.append(full.as_str());
                msg.append("]] which does not exist.");
                let l = Lint {
                    level: Level::Warn,
                    path: Some(art.file.clone()),
                    line: None,
                    category: Category::Artifact,
                    msg,
                };
                let ghost v0 = lint_views(out@);
                out.push(l);
                proof {
                    assert(l@ == ref_lint(*name, art.file@, f[j as int])) by {
                        assert(l.msg@ =~= name.raw_v() + " has soft reference [["@ + f[j as int].0
                            + (match f[j as int].1 {
                            Some(sub) => sub,
                            None => Seq::<char>::empty(),
                        }) + "]] which does not exist."@);
                    }
                    assert(lint_views(out@) =~= v0.push(l@));
                }
            }
            j = j + 1;
        }
        assert(f.take(refs@.len() as int) =~= f);
        i = i + 1;
    }
    Some(out)
}

// ------------------------------------------------------------------
// all lints

/// The error lints of a project, in order.
pub open spec fn error_lints(p: Project) -> Seq<LintView> {
    let n = p.artifacts@.len() as int;
    partof_dne_lints(p.artifacts@, n) + partof_type_lints(p.artifacts@, n) + text_lints(
        p.artifacts@,
        n,
    ) + done_sub_lints(p.artifacts@, n)
}

/// The other lints of a project, in order.
pub open spec fn other_lints(p: Project) -> Option<Seq<LintView>> {
    match text_ref_lints(p.artifacts@, p.artifacts@.len() as int) {
        Some(r) => Some(
            r + code_impl_lints(p.artifacts@, p.code_impls@, p.code_impls@.len() as int)
                + settings_lints(p.settings),
        ),
        None => None,
    }
}

/// Linting a project.
pub trait ProjectExt {
    /// All lints: [`ProjectExt::lint_errors`] then [`ProjectExt::lint_other`].
    fn lint(&self) -> Option<Vec<Lint>>;

    /// The lints of fatal errors.
    fn lint_errors(&self) -> Vec<Lint>;

    /// The lints of non-fatal problems; `None` where a text reference names
    /// an artifact with a type prefix that is not ASCII.
    fn lint_other(&self) -> Option<Vec<Lint>>;
}

impl ProjectExt for Project {
    fn lint(&self) -> (r: Option<Vec<Lint>>)
        ensures
            match (r, other_lints(*self)) {
                (Some(v), Some(o)) => lint_views(v@) == error_lints(*self) + o,
                (None, None) => true,
                _ => false,
            },
    {
        let mut errs = self.lint_errors();
        match self.lint_other() {
            Some(mut other) => {
                let ghost e0 = errs@;
                let ghost o0 = other@;
                errs.append(&mut other);
                assert(lint_views(errs@) =~= lint_views(e0) + lint_views(o0));
                Some(errs)
            },
            None => None,
        }
    }

    fn lint_errors(&self) -> (r: Vec<Lint>)
        ensures
            lint_views(r@) == error_lints(*self),
    {
        let mut out = lint_partof_dne(self);
        let mut b = lint_partof_types(self);
        let mut c = lint_artifact_text(self);
        let mut d = lint_artifact_done_subnames(self);
        let ghost (a0, b0, c0, d0) = (out@, b@, c@, d@);
        out.append(&mut b);
        out.append(&mut c);
        out.append(&mut d);
        assert(lint_views(out@) =~= lint_views(a0) + lint_views(b0) + lint_views(c0) + lint_views(d0));
        out
    }

    fn lint_other(&self) -> (r: Option<Vec<Lint>>)
        ensures
            match (r, other_lints(*self)) {
                (Some(v), Some(o)) => lint_views(v@) == o,
                (None, None) => true,
                _ => false,
            },
    {
        let mut out = match lint_artifact_text_refs(self) {
            Some(x) => x,
            None => {
                return None;
            },
        };
        let mut b = lint_code_impls(self);
        let mut c = lint_settings(self);
        let ghost (a0, b0, c0) = (out@, b@, c@);
        out.append(&mut b);
        out.append(&mut c);
        assert(lint_views(out@) =~= lint_views(a0) + lint_views(b0) + lint_views(c0));
        Some(out)
    }
}

// ------------------------------------------------------------------
// Sorting

impl<T> crate::sort::Ordered for (Name, T) {
    /// Entries are ordered by the key of their name.
    open spec fn le(&self, other: &Self) -> bool {
        crate::sort::chars_le(self.0.key_v(), other.0.key_v())
    }

    proof fn lemma_total(a: &Self, b: &Self) {
        crate::sort::lemma_chars_le_total(a.0.key_v(), b.0.key_v());
    }

    proof fn lemma_trans(a: &Self, b: &Self, c: &Self) {
        crate::sort::lemma_chars_le_trans(a.0.key_v(), b.0.key_v(), c.0.key_v());
    }

    fn le_exec(&self, other: &Self) -> (r: bool) {
        crate::sort::string_le(&self.0.0.key, &other.0.0.key)
    }
}

impl crate::sort::Ordered for SubName {
    /// Subnames are ordered by their keys.
    open spec fn le(&self, other: &Self) -> bool {
        crate::sort::chars_le(self.key_v(), other.key_v())
    }

    proof fn lemma_total(a: &Self, b: &Self) {
        crate::sort::lemma_chars_le_total(a.key_v(), b.key_v());
    }

    proof fn lemma_trans(a: &Self, b: &Self, c: &Self) {
        crate::sort::lemma_chars_le_trans(a.key_v(), b.key_v(), c.key_v());
    }

    fn le_exec(&self, other: &Self) -> (r: bool) {
        crate::sort::string_le(&self.0.key, &other.0.key)
    }
}

impl<T> crate::sort::Ordered for (SubName, T) {
    /// Entries are ordered by the key of their subname.
    open spec fn le(&self, other: &Self) -> bool {
        crate::sort::chars_le(self.0.key_v(), other.0.key_v())
    }

    proof fn lemma_total(a: &Self, b: &Self) {
        crate::sort::lemma_chars_le_total(a.0.key_v(), b.0.key_v());
    }

    proof fn lemma_trans(a: &Self, b: &Self, c: &Self) {
        crate::sort::lemma_chars_le_trans(a.0.key_v(), b.0.key_v(), c.0.key_v());
    }

    fn le_exec(&self, other: &Self) -> (r: bool) {
        crate::sort::string_le(&self.0.0.key, &other.0.0.key)
    }
}

/// `new` is `old` with its subname places sorted by key.
pub open spec fn code_sorted(new: ImplCode, old: ImplCode) -> bool {
    &&& new.primary == old.primary
    &&& new.secondary@ == crate::sort::isort(old.secondary@)
}

/// `new` is `old` with its sets sorted by key.
pub open spec fn art_sorted(new: Artifact, old: Artifact) -> bool {
    &&& new.id == old.id
    &&& new.name == old.name
    &&& new.file == old.file
    &&& new.text == old.text
    &&& new.partof.wf()
    &&& new.parts.wf()
    &&& new.partof.0@ == crate::sort::isort(old.partof.0@)
    &&& new.parts.0@ == crate::sort::isort(old.parts.0@)
    &&& new.subnames@ == crate::sort::isort(old.subnames@)
    &&& match (new.impl_, old.impl_) {
        (Impl::Code(a), Impl::Code(b)) => code_sorted(a, b),
        (Impl::Done(a), Impl::Done(b)) => a == b,
        (Impl::NotImpl, Impl::NotImpl) => true,
        _ => false,
    }
}

impl ImplCode {
    /// Sort the subname places by key.
    pub fn sort(&mut self)
        ensures
            code_sorted(*final(self), *old(self)),
    {
        let mut v: Vec<(SubName, CodeLoc)> = Vec::new();
        std::mem::swap(&mut v, &mut self.secondary);
        self.secondary = crate::sort::sort_vec(v);
    }
}

impl Artifact {
    /// Sort the artifact's sets by key: `partof`, `parts`, the subname
    /// places of its implementation and its subnames.
    pub fn sort(&mut self)
        requires
            old(self).partof.wf(),
            old(self).parts.wf(),
        ensures
            art_sorted(*final(self), *old(self)),
    {
        self.partof.sort();
        self.parts.sort();
        let mut imp = Impl::NotImpl;
        std::mem::swap(&mut imp, &mut self.impl_);
        let imp = match imp {
            Impl::Code(mut c) => {
                c.sort();
                Impl::Code(c)
            },
            other => other,
        };
        self.impl_ = imp;
        let mut subs: Vec<SubName> = Vec::new();
        std::mem::swap(&mut subs, &mut self.subnames);
        self.subnames = crate::sort::sort_vec(subs);
    }
}

/// Every artifact of `arts` has well-formed sets.
pub open spec fn arts_sets_wf(arts: Seq<(Name, Artifact)>) -> bool {
    forall|i: int| 0 <= i < arts.len() ==> (#[trigger] arts[i]).1.partof.wf() && arts[i].1.parts.wf()
}

/// `new` is `old` sorted: its implementations and artifacts by name key,
/// and the sets of each.
pub open spec fn project_sorted(new: Project, old: Project) -> bool {
    &&& new.settings == old.settings
    &&& new.code_impls@.len() == old.code_impls@.len()
    &&& forall|i: int|
        0 <= i < new.code_impls@.len() ==> {
            &&& (#[trigger] new.code_impls@[i]).0 == crate::sort::isort(old.code_impls@)[i].0
            &&& code_sorted(new.code_impls@[i].1, crate::sort::isort(old.code_impls@)[i].1)
        }
    &&& new.artifacts@.len() == old.artifacts@.len()
    &&& forall|i: int|
        0 <= i < new.artifacts@.len() ==> {
            &&& (#[trigger] new.artifacts@[i]).0 == crate::sort::isort(old.artifacts@)[i].0
            &&& art_sorted(new.artifacts@[i].1, crate::sort::isort(old.artifacts@)[i].1)
        }
}

impl Project {
    /// Sort the project: its implementations and artifacts by name key,
    /// and the sets of each.
    pub fn sort(&mut self)
        requires
            arts_sets_wf(old(self).artifacts@),
        ensures
            project_sorted(*final(self), *old(self)),
    {
        let mut codes: Vec<(Name, ImplCode)> = Vec::new();
        std::mem::swap(&mut codes, &mut self.code_impls);
        let codes = crate::sort::sort_vec(codes);
        let ghost sc = codes@;
        let mut rest = codes;
        let n: usize = rest.len();
        let mut out: Vec<(Name, ImplCode)> = Vec::new();
        let mut i: usize = 0;
        assert(sc.skip(0) =~= sc);
        while rest.len() > 0
            invariant
                i <= sc.len(),
                sc.len() == n,
                rest@ == sc.skip(i as int),
                out@.len() == i,
                forall|k: int| 0 <= k < i ==> {
                    &&& (#[trigger] out@[k]).0 == sc[k].0
                    &&& code_sorted(out@[k].1, sc[k].1)
                },
            decreases rest@.len(),
        {
            let (name, mut code) = rest.remove(0);
            proof {
                assert(sc.skip(i as int)[0] == sc[i as int]);
                assert(sc.skip(i + 1) =~= sc.skip(i as int).drop_first());
            }
            code.sort();
            out.push((name, code));
            i = i + 1;
        }
        self.code_impls = out;

        let mut arts: Vec<(Name, Artifact)> = Vec::new();
        std::mem::swap(&mut arts, &mut self.artifacts);
        let ghost before = arts@;
        let arts = crate::sort::sort_vec(arts);
        let ghost sa = arts@;
        proof {
            broadcast use vstd::seq_lib::group_to_multiset_ensures;
            assert forall|k: int| 0 <= k < sa.len() implies (#[trigger] sa[k]).1.partof.wf() && sa[k].1.parts.wf() by {
                assert(sa.to_multiset().count(sa[k]) > 0);
                assert(before.contains(sa[k]));
            }
        }
        let mut rest = arts;
        let n: usize = rest.len();
        let mut out: Vec<(Name, Artifact)> = Vec::new();
        let mut i: usize = 0;
        assert(sa.skip(0) =~= sa);
        while rest.len() > 0
            invariant
                i <= sa.len(),
                sa.len() == n,
                rest@ == sa.skip(i as int),
                arts_sets_wf(sa),
                out@.len() == i,
                forall|k: int| 0 <= k < i ==> {
                    &&& (#[trigger] out@[k]).0 == sa[k].0
                    &&& art_sorted(out@[k].1, sa[k].1)
                },
            decreases rest@.len(),
        {
            let (name, mut art) = rest.remove(0);
            proof {
                assert(sa.skip(i as int)[0] == sa[i as int]);
                assert(sa.skip(i + 1) =~= sa.skip(i as int).drop_first());
            }
            art.sort();
            out.push((name, art));
            i = i + 1;
        }
        self.artifacts = out;
    }
}

// ------------------------------------------------------------------
// Building a loaded project

/// How building a project ends once its artifacts `art_ims` are joined
/// into `arts` and its places in code into `code_impls`: `others` are the
/// non-error lints so far. `None` where the family graph cannot number
/// the names, or where a text reference names an artifact with a type
/// prefix that is not ASCII.
pub open spec fn build_joined(
    others: Seq<LintView>,
    settings: Settings,
    code_impls: Vec<(Name, ImplCode)>,
    art_ims: Seq<ArtifactIm>,
    arts: Seq<(Name, ArtifactIm)>,
    r: Option<Result<(Categorized, Project, Graphs), Categorized>>,
) -> bool {
    if id_count_of(arts) >= u32::MAX {
        r is None
    } else {
        exists|x: (Vec<(Name, Artifact)>, Graphs)|
            #[trigger] determined(files_of(art_ims), arts, code_impls@, x) && {
                let p = Project { settings, code_impls, artifacts: x.0 };
                match other_lints(p) {
                    None => r is None,
                    Some(o) => {
                        let all = error_lints(p) + o;
                        r matches Some(Ok((l, q, g))) && g == x.1 && project_sorted(q, p)
                            && sorted_as(l, error_views(all), others + other_views(all))
                    },
                }
            }
    }
}

/// How building a project ends from what was read of it: the lints so far
/// `lints` and `found`, the settings, the places of links in code and the
/// artifacts of the artifact files. An error lint (one of these, or a name
/// defined twice, or a place linked twice) stops it with the lints.
pub open spec fn build_ended(
    lints: Categorized,
    settings: Settings,
    locations: Seq<Loc>,
    art_ims: Seq<ArtifactIm>,
    found: Seq<LintView>,
    r: Option<Result<(Categorized, Project, Graphs), Categorized>>,
) -> bool {
    let all = found + dup_lints_of(locations) + dup_name_lints(art_ims);
    let errs = lint_views(lints.error@) + error_views(all);
    let others = lint_views(lints.other@) + other_views(all);
    if errs.len() > 0 {
        r matches Some(Err(l)) && sorted_as(l, errs, others)
    } else {
        exists|ci: Vec<(Name, ImplCode)>|
            #[trigger] joined_views(ci@) == joined_of(locations) && exists|
                arts: Seq<(Name, ArtifactIm)>,
            |
                #[trigger] joined(art_ims, files_of(art_ims), arts) && build_joined(
                    others,
                    settings,
                    ci,
                    art_ims,
                    arts,
                    r,
                )
    }
}

/// Determine, lint and sort a project whose code places and artifacts are
/// joined, as the last steps of building it.
fn finish_build(
    lints: Categorized,
    settings: Settings,
    code_impls: Vec<(Name, ImplCode)>,
    art_ims: Ghost<Seq<ArtifactIm>>,
    defined: Vec<(Name, String)>,
    arts: Vec<(Name, ArtifactIm)>,
) -> (r: Option<Result<(Categorized, Project, Graphs), Categorized>>)
    requires
        lints.error@.len() == 0,
        forall|i: int| 0 <= i < art_ims@.len() ==> (#[trigger] art_ims@[i]).wf(),
        joined(art_ims@, defined@, arts@),
    ensures
        build_joined(lint_views(lints.other@), settings, code_impls, art_ims@, arts@, r),
{
    let ghost others = lint_views(lints.other@);
    proof {
        crate::loaded::lemma_joined_wf(art_ims@, defined@, arts@);
    }
    let x = match try_determine_artifacts(&defined, &arts, &code_impls) {
        Some(x) => x,
        None => {
            return None;
        },
    };
    let ghost xg = x;
    let ghost ci = code_impls;
    let ghost st = settings;
    let (artifacts, graphs) = x;
    let mut project = Project { settings, code_impls, artifacts };
    let ghost p0 = project;
    assert(p0 == Project { settings: st, code_impls: ci, artifacts: xg.0 });
    let found = match project.lint() {
        Some(l) => l,
        None => {
            return None;
        },
    };
    let mut lints = lints;
    proof {
        crate::lint::lemma_split_views(found@);
    }
    lints.categorize(found);
    proof {
        assert(lint_views(lints.error@) =~= lint_views(crate::lint::errors_of(found@)));
        assert(lint_views(lints.other@) =~= others + lint_views(crate::lint::others_of(found@)));
    }
    lints.sort();
    project.sort();
    assert(determined(files_of(art_ims@), arts@, ci@, xg));
    Some(Ok((lints, project, graphs)))
}

/// Build a project from what was read of it: join the places of links in
/// code and the artifacts of all files, stop on any error lint, then
/// determine, lint and sort the project. `lints` are those of loading the
/// settings and `found` those of reading the files. This is everything of
/// loading a project but reading the files; `None` where the family graph
/// cannot number its names with `u32`, or where a text reference names an
/// artifact with a type prefix that is not ASCII.
pub fn build_project(
    lints: Categorized,
    settings: Settings,
    locations: Vec<Loc>,
    art_ims: Vec<ArtifactIm>,
    found: Vec<Lint>,
) -> (r: Option<Result<(Categorized, Project, Graphs), Categorized>>)
    requires
        forall|i: int| 0 <= i < art_ims@.len() ==> (#[trigger] art_ims@[i]).wf(),
    ensures
        build_ended(lints, settings, locations@, art_ims@, lint_views(found@), r),
{
    let ghost l0 = locations@;
    let ghost a0 = art_ims@;
    let ghost f0 = lint_views(found@);
    let ghost e0 = lint_views(lints.error@);
    let ghost o0 = lint_views(lints.other@);
    let (code_impls, mut dups) = join_locations(locations);
    let (defined, arts, mut dup_names) = join_artifacts_raw(art_ims);
    let mut all = found;
    let ghost d1 = lint_views(dups@);
    let ghost d2 = lint_views(dup_names@);
    all.append(&mut dups);
    all.append(&mut dup_names);
    assert(lint_views(all@) =~= f0 + d1 + d2);
    proof {
        crate::lint::lemma_split_views(all@);
    }
    let mut lints = lints;
    lints.categorize(all);
    proof {
        assert(lint_views(lints.error@) =~= e0 + lint_views(crate::lint::errors_of(all@)));
        assert(lint_views(lints.other@) =~= o0 + lint_views(crate::lint::others_of(all@)));
    }
    if lints.error.len() > 0 {
        lints.sort();
        return Some(Err(lints));
    }
    let ghost ci = code_impls;
    let ghost ag = arts@;
    let r = finish_build(lints, settings, code_impls, Ghost(a0), defined, arts);
    assert(joined_views(ci@) == joined_of(l0));
    assert(joined(a0, files_of(a0), ag));
    r
}

/// The lint against the `partof` name `pof` of the artifact `name` of
/// `file`, for an invalid pair of types.
pub open spec fn invalid_type_lint(file: Seq<char>, name: Name, pof: Name) -> LintView {
    art_lint(file, name.raw_v() + " cannot have `partof` "@ + pof.raw_v() + ": invalid types."@)
}

proof fn lemma_type_lints_of(name: Name, file: Seq<char>, pof: Seq<Name>)
    ensures
        forall|k: int|
            0 <= k < pof.len() && ({
                let a = name.0.ty;
                let b = (#[trigger] pof[k]).0.ty;
                (a == Type::REQ && b == Type::SPC) || (a == Type::REQ && b == Type::TST) || (a
                    == Type::SPC && b == Type::TST)
            }) ==> type_lints_of(name, file, pof).contains(invalid_type_lint(file, name, pof[k])),
        forall|x: LintView|
            type_lints_of(name, file, pof).contains(x) ==> exists|k: int|
                0 <= k < pof.len() && x == invalid_type_lint(file, name, #[trigger] pof[k]) && ({
                    let a = name.0.ty;
                    let b = pof[k].0.ty;
                    (a == Type::REQ && b == Type::SPC) || (a == Type::REQ && b == Type::TST) || (a
                        == Type::SPC && b == Type::TST)
                }),
    decreases pof.len(),
{
    if pof.len() > 0 {
        let d = pof.drop_last();
        lemma_type_lints_of(name, file, d);
        let rest = type_lints_of(name, file, d);
        let r = type_lints_of(name, file, pof);
        assert forall|k: int|
            0 <= k < pof.len() && ({
                let a = name.0.ty;
                let b = (#[trigger] pof[k]).0.ty;
                (a == Type::REQ && b == Type::SPC) || (a == Type::REQ && b == Type::TST) || (a
                    == Type::SPC && b == Type::TST)
            }) implies r.contains(invalid_type_lint(file, name, pof[k])) by {
            if k < pof.len() - 1 {
                assert(d[k] == pof[k]);
                let w = choose|w: int| 0 <= w < rest.len() && rest[w] == invalid_type_lint(file, name, d[k]);
                assert(r[w] == rest[w]);
            } else {
                assert(pof[k] == pof.last());
                assert(r[rest.len() as int] == invalid_type_lint(file, name, pof[k]));
            }
        }
        assert forall|x: LintView| r.contains(x) implies exists|k: int|
            0 <= k < pof.len() && x == invalid_type_lint(file, name, #[trigger] pof[k]) && ({
                let a = name.0.ty;
                let b = pof[k].0.ty;
                (a == Type::REQ && b == Type::SPC) || (a == Type::REQ && b == Type::TST) || (a
                    == Type::SPC && b == Type::TST)
            }) by {
            let w = choose|w: int| 0 <= w < r.len() && r[w] == x;
            if w < rest.len() {
                assert(rest[w] == x);
                assert(rest.contains(x));
                let k = choose|k: int|
                    0 <= k < d.len() && x == invalid_type_lint(file, name, #[trigger] d[k]) && ({
                        let a = name.0.ty;
                        let b = d[k].0.ty;
                        (a == Type::REQ && b == Type::SPC) || (a == Type::REQ && b == Type::TST)
                            || (a == Type::SPC && b == Type::TST)
                    });
                assert(pof[k] == d[k]);
            } else {
                let k = pof.len() - 1;
                assert(pof[k] == pof.last());
            }
        }
    }
}

/// The lints of `partof` types are exactly these: for each artifact and
/// each name of its `partof`, an error where a `REQ` has a `partof` of
/// type `SPC` or `TST`, or an `SPC` one of type `TST`; no other pair of
/// types is linted.
pub proof fn lemma_partof_type_lints(arts: Seq<(Name, Artifact)>)
    ensures
        forall|i: int, k: int|
            0 <= i < arts.len() && 0 <= k < arts[i].1.partof.0@.len() && ({
                let a = arts[i].0.0.ty;
                let b = (#[trigger] arts[i].1.partof.0@[k]).0.ty;
                (a == Type::REQ && b == Type::SPC) || (a == Type::REQ && b == Type::TST) || (a
                    == Type::SPC && b == Type::TST)
            }) ==> partof_type_lints(arts, arts.len() as int).contains(
                invalid_type_lint(arts[i].1.file@, arts[i].0, arts[i].1.partof.0@[k]),
            ),
        forall|x: LintView|
            partof_type_lints(arts, arts.len() as int).contains(x) ==> exists|i: int, k: int|
                0 <= i < arts.len() && 0 <= k < arts[i].1.partof.0@.len() && x
                    == invalid_type_lint(arts[i].1.file@, arts[i].0, #[trigger] arts[i].1.partof.0@[k])
                    && ({
                    let a = arts[i].0.0.ty;
                    let b = arts[i].1.partof.0@[k].0.ty;
                    (a == Type::REQ && b == Type::SPC) || (a == Type::REQ && b == Type::TST) || (a
                        == Type::SPC && b == Type::TST)
                }),
{
    lemma_partof_type_lints_upto(arts, arts.len() as int);
}

proof fn lemma_partof_type_lints_upto(arts: Seq<(Name, Artifact)>, upto: int)
    requires
        0 <= upto <= arts.len(),
    ensures
        forall|i: int, k: int|
            0 <= i < upto && 0 <= k < arts[i].1.partof.0@.len() && ({
                let a = arts[i].0.0.ty;
                let b = (#[trigger] arts[i].1.partof.0@[k]).0.ty;
                (a == Type::REQ && b == Type::SPC) || (a == Type::REQ && b == Type::TST) || (a
                    == Type::SPC && b == Type::TST)
            }) ==> partof_type_lints(arts, upto).contains(
                invalid_type_lint(arts[i].1.file@, arts[i].0, arts[i].1.partof.0@[k]),
            ),
        forall|x: LintView|
            partof_type_lints(arts, upto).contains(x) ==> exists|i: int, k: int|
                0 <= i < arts.len() && 0 <= k < arts[i].1.partof.0@.len() && x
                    == invalid_type_lint(arts[i].1.file@, arts[i].0, #[trigger] arts[i].1.partof.0@[k])
                    && ({
                    let a = arts[i].0.0.ty;
                    let b = arts[i].1.partof.0@[k].0.ty;
                    (a == Type::REQ && b == Type::SPC) || (a == Type::REQ && b == Type::TST) || (a
                        == Type::SPC && b == Type::TST)
                }),
    decreases upto,
{
    if upto > 0 {
        lemma_partof_type_lints_upto(arts, upto - 1);
        let a = arts[upto - 1];
        lemma_type_lints_of(a.0, a.1.file@, a.1.partof.0@);
        let prev = partof_type_lints(arts, upto - 1);
        let t = type_lints_of(a.0, a.1.file@, a.1.partof.0@);
        let r = partof_type_lints(arts, upto);
        assert(r == prev + t);
        assert forall|i: int, k: int|
            0 <= i < upto && 0 <= k < arts[i].1.partof.0@.len() && ({
                let a = arts[i].0.0.ty;
                let b = (#[trigger] arts[i].1.partof.0@[k]).0.ty;
                (a == Type::REQ && b == Type::SPC) || (a == Type::REQ && b == Type::TST) || (a
                    == Type::SPC && b == Type::TST)
            }) implies r.contains(invalid_type_lint(arts[i].1.file@, arts[i].0, arts[i].1.partof.0@[k])) by {
            let x = invalid_type_lint(arts[i].1.file@, arts[i].0, arts[i].1.partof.0@[k]);
            if i < upto - 1 {
                let w = choose|w: int| 0 <= w < prev.len() && prev[w] == x;
                assert(r[w] == prev[w]);
            } else {
                assert(t.contains(x));
                let w = choose|w: int| 0 <= w < t.len() && t[w] == x;
                assert(r[prev.len() + w] == t[w]);
            }
        }
        assert forall|x: LintView| r.contains(x) implies exists|i: int, k: int|
            0 <= i < arts.len() && 0 <= k < arts[i].1.partof.0@.len() && x
                == invalid_type_lint(arts[i].1.file@, arts[i].0, #[trigger] arts[i].1.partof.0@[k])
                && ({
                let a = arts[i].0.0.ty;
                let b = arts[i].1.partof.0@[k].0.ty;
                (a == Type::REQ && b == Type::SPC) || (a == Type::REQ && b == Type::TST) || (a
                    == Type::SPC && b == Type::TST)
            }) by {
            let w = choose|w: int| 0 <= w < r.len() && r[w] == x;
            if w < prev.len() {
                assert(prev[w] == x);
                assert(prev.contains(x));
            } else {
                assert(t[w - prev.len()] == x);
                assert(t.contains(x));
                let k = choose|k: int|
                    0 <= k < a.1.partof.0@.len() && x == invalid_type_lint(
                        a.1.file@,
                        a.0,
                        #[trigger] a.1.partof.0@[k],
                    ) && ({
                        let p = a.0.0.ty;
                        let q = a.1.partof.0@[k].0.ty;
                        (p == Type::REQ && q == Type::SPC) || (p == Type::REQ && q == Type::TST)
                            || (p == Type::SPC && q == Type::TST)
                    });
                assert(arts[upto - 1].1.partof.0@[k] == a.1.partof.0@[k]);
            }
        }
    }
}

} // verus!
