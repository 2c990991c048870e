//! Expected values for checking a loaded project: the same data as the
//! project types, but with paths relative to a base directory. Each
//! `expected` method joins the paths onto the base and gives the value the
//! project itself would hold.
use vstd::prelude::*;
use crate::artifact::{clean_of, join_abs, join_spec, ArtifactIm, CodeLoc, Impl, ImplCode, Settings};
use crate::family::Names;
use crate::implemented::first_index;
use crate::lint::{Categorized, Lint, LintView};
use crate::name::{upper, valid_subname, Name, SubName};
use crate::ser::{HashIm, SettingsExport, SettingsFormat, SettingsParse};
use crate::text::str_eq;

verus! {

/// An expected artifact operation.
#[derive(Debug)]
pub enum ArtifactOpAssert {
    Create { artifact: ArtifactImAssert },
    Update { artifact: ArtifactImAssert, name: Name, id: Option<HashIm> },
    Delete { name: Name, id: Option<HashIm> },
}

/// An expected editable artifact, its file relative to the base.
#[derive(Debug)]
pub struct ArtifactImAssert {
    pub name: Name,
    pub file: String,
    pub partof: Names,
    pub done: Option<String>,
    pub text: String,
}

impl ArtifactImAssert {
    /// The artifact with its file joined onto `base`, in canonical form.
    pub fn expected(self, base: &str) -> (r: ArtifactIm)
        requires
            self.name.wf(),
            self.partof.wf(),
        ensures
            r.wf(),
            r.file@ == join_spec(base@, self.file@),
            clean_of(
                r,
                ArtifactIm {
                    name: self.name,
                    file: r.file,
                    partof: self.partof,
                    done: self.done,
                    text: self.text,
                },
            ),
    {
        let file = join_abs(base, self.file.as_str());
        let mut out = ArtifactIm {
            name: self.name,
            file,
            partof: self.partof,
            done: self.done,
            text: self.text,
        };
        out.clean();
        out
    }
}

/// An expected place in code, its file relative to the base.
#[derive(Debug)]
pub struct CodeLocAssert {
    pub file: String,
    pub line: u64,
}

impl CodeLocAssert {
    /// The place with its file joined onto `base`.
    pub fn expected(self, base: &str) -> (r: CodeLoc)
        ensures
            r.file@ == join_spec(base@, self.file@),
            r.line == self.line,
    {
        CodeLoc { file: join_abs(base, self.file.as_str()), line: self.line }
    }
}

/// An expected place: its file joined onto `base`, and its line.
pub open spec fn loc_view(base: Seq<char>, c: CodeLocAssert) -> (Seq<char>, u64) {
    (join_spec(base, c.file@), c.line)
}

/// The plain values of subname places: raw subname, file and line.
pub open spec fn sec_views(s: Seq<(SubName, CodeLoc)>) -> Seq<(Seq<char>, (Seq<char>, u64))> {
    s.map_values(|p: (SubName, CodeLoc)| (p.0.raw_v(), (p.1.file@, p.1.line)))
}

/// The upper-cased keys of raw subnames.
pub open spec fn upper_keys<T>(s: Seq<(Seq<char>, T)>) -> Seq<Seq<char>> {
    s.map_values(|p: (Seq<char>, T)| upper(p.0))
}

/// Insert the place `v` of the subname `raw` into an insertion-ordered
/// map keyed by subname: a new key is appended, a known one keeps its place and
/// its first raw form and takes the new place.
pub open spec fn upsert_raw<T>(m: Seq<(Seq<char>, T)>, raw: Seq<char>, v: T) -> Seq<(Seq<char>, T)> {
    let i = first_index(upper_keys(m), upper(raw));
    if i < 0 {
        m.push((raw, v))
    } else {
        m.update(i, (m[i].0, v))
    }
}

/// The expected subname places, inserted one by one.
pub open spec fn secs_expected(base: Seq<char>, s: Seq<(String, CodeLocAssert)>) -> Seq<(Seq<char>, (Seq<char>, u64))>
    decreases s.len(),
{
    if s.len() == 0 {
        seq![]
    } else {
        upsert_raw(secs_expected(base, s.drop_last()), s.last().0@, loc_view(base, s.last().1))
    }
}

/// Expected implementation in code, files relative to the base and
/// subnames by their raw form.
#[derive(Debug)]
pub struct ImplCodeAssert {
    pub primary: Option<CodeLocAssert>,
    pub secondary: Vec<(String, CodeLocAssert)>,
}

impl ImplCodeAssert {
    /// The implementation with every file joined onto `base`; subnames
    /// that are the same but for case are one, as in a map keyed by
    /// subname.
    pub fn expected(self, base: &str) -> (r: ImplCode)
        requires
            forall|i: int| 0 <= i < self.secondary@.len() ==> valid_subname((#[trigger] self.secondary@[i]).0@),
        ensures
            r.wf(),
            match (r.primary, self.primary) {
                (Some(a), Some(b)) => (a.file@, a.line) == loc_view(base@, b),
                (None, None) => true,
                _ => false,
            },
            sec_views(r.secondary@) == secs_expected(base@, self.secondary@),
            forall|k: int| 0 <= k < r.secondary@.len() ==> (#[trigger] r.secondary@[k]).0.wf(),
    {
        let primary = match self.primary {
            Some(c) => Some(c.expected(base)),
            None => None,
        };
        let mut rest = self.secondary;
        let n: usize = rest.len();
        let ghost orig = rest@;
        let mut out: Vec<(SubName, CodeLoc)> = Vec::new();
        let mut i: usize = 0;
        assert(orig.take(0) =~= seq![]);
        assert(orig.skip(0) =~= orig);
        while rest.len() > 0
            invariant
                i <= orig.len(),
                orig.len() == n,
                rest@ == orig.skip(i as int),
                forall|j: int| 0 <= j < orig.len() ==> valid_subname((#[trigger] orig[j]).0@),
                sec_views(out@) == secs_expected(base@, orig.take(i as int)),
                forall|k: int| 0 <= k < out@.len() ==> (#[trigger] out@[k]).0.wf(),
                crate::artifact::sub_keys(out@).no_duplicates(),
            decreases rest@.len(),
        {
            let (raw, loc) = rest.remove(0);
            proof {
                assert(orig.skip(i as int)[0] == orig[i as int]);
                assert(orig.skip(i + 1) =~= orig.skip(i as int).drop_first());
                assert(orig.take(i + 1).drop_last() =~= orig.take(i as int));
                assert(orig.take(i + 1).last() == orig[i as int]);
            }
            let sub = SubName::new_unchecked(raw.as_str());
            let place = loc.expected(base);
            let ghost before = out@;
            proof {
                assert(crate::artifact::sub_keys(before) =~= upper_keys(sec_views(before)));
                crate::implemented::lemma_first_index(crate::artifact::sub_keys(before), sub.key_v());
            }
            crate::implemented::insert_by_sub(&mut out, sub, place);
            proof {
                let idx = first_index(crate::artifact::sub_keys(before), sub.key_v());
                if idx < 0 {
                    assert(sec_views(out@) =~= sec_views(before).push((raw@, (place.file@, place.line))));
                    assert(crate::artifact::sub_keys(out@) =~= crate::artifact::sub_keys(before).push(sub.key_v()));
                } else {
                    assert(sec_views(out@) =~= sec_views(before).update(idx, (before[idx].0.raw_v(), (place.file@, place.line))));
                    assert(crate::artifact::sub_keys(out@) =~= crate::artifact::sub_keys(before));
                }
                assert forall|k: int| 0 <= k < out@.len() implies (#[trigger] out@[k]).0.wf() by {
                    if k < before.len() {
                        assert(out@[k].0 == before[k].0);
                    }
                }
            }
            i = i + 1;
        }
        assert(orig.take(i as int) =~= orig);
        ImplCode { primary, secondary: out }
    }
}

/// An expected implementation.
#[derive(Debug)]
pub enum ImplAssert {
    Done(String),
    Code(ImplCodeAssert),
    NotImpl,
}

impl ImplAssert {
    /// The implementation with every file joined onto `base`.
    pub fn expected(self, base: &str) -> (r: Impl)
        requires
            self matches ImplAssert::Code(c) ==> forall|i: int|
                0 <= i < c.secondary@.len() ==> valid_subname((#[trigger] c.secondary@[i]).0@),
        ensures
            match (r, self) {
                (Impl::Done(a), ImplAssert::Done(b)) => a == b,
                (Impl::Code(a), ImplAssert::Code(b)) => {
                    &&& a.wf()
                    &&& sec_views(a.secondary@) == secs_expected(base@, b.secondary@)
                    &&& match (a.primary, b.primary) {
                        (Some(x), Some(y)) => (x.file@, x.line) == loc_view(base@, y),
                        (None, None) => true,
                        _ => false,
                    }
                },
                (Impl::NotImpl, ImplAssert::NotImpl) => true,
                _ => false,
            },
    {
        match self {
            ImplAssert::Done(d) => Impl::Done(d),
            ImplAssert::Code(c) => Impl::Code(c.expected(base)),
            ImplAssert::NotImpl => Impl::NotImpl,
        }
    }
}

/// The views of a list of strings.
pub open spec fn strs_view(v: Seq<String>) -> Seq<Seq<char>> {
    v.map_values(|x: String| x@)
}

/// `s` with each repeat of an earlier element left out.
pub open spec fn dedup_strs(s: Seq<Seq<char>>) -> Seq<Seq<char>>
    decreases s.len(),
{
    if s.len() == 0 {
        seq![]
    } else if dedup_strs(s.drop_last()).contains(s.last()) {
        dedup_strs(s.drop_last())
    } else {
        dedup_strs(s.drop_last()).push(s.last())
    }
}

/// Each of `ends` joined onto `base`, each path once.
pub open spec fn prefixed(base: Seq<char>, ends: Seq<String>) -> Seq<Seq<char>> {
    dedup_strs(strs_view(ends).map_values(|e: Seq<char>| join_spec(base, e)))
}

/// Does `v` hold the string `s`?
fn contains_str(v: &Vec<String>, s: &String) -> (r: bool)
    ensures
        r == strs_view(v@).contains(s@),
{
    let mut i: usize = 0;
    while i < v.len()
        invariant
            i <= v@.len(),
            forall|k: int| 0 <= k < i ==> strs_view(v@)[k] != s@,
        decreases v@.len() - i,
    {
        if str_eq(v[i].as_str(), s.as_str()) {
            assert(strs_view(v@)[i as int] == s@);
            return true;
        }
        i = i + 1;
    }
    false
}

/// Each of `ends` joined onto `base`, each path once (see [`prefixed`]).
fn prefix_paths(base: &str, ends: &Vec<String>) -> (r: Vec<String>)
    ensures
        strs_view(r@) == prefixed(base@, ends@),
{
    let ghost joined = strs_view(ends@).map_values(|e: Seq<char>| join_spec(base@, e));
    let mut out: Vec<String> = Vec::new();
    let mut i: usize = 0;
    assert(joined.take(0) =~= seq![]);
    while i < ends.len()
        invariant
            i <= ends@.len(),
            joined == strs_view(ends@).map_values(|e: Seq<char>| join_spec(base@, e)),
            strs_view(out@) == dedup_strs(joined.take(i as int)),
        decreases ends@.len() - i,
    {
        let p = join_abs(base, ends[i].as_str());
        proof {
            assert(joined.take(i + 1).drop_last() =~= joined.take(i as int));
            assert(joined.take(i + 1).last() == p@);
        }
        if !contains_str(&out, &p) {
            let ghost before = strs_view(out@);
            out.push(p);
            assert(strs_view(out@) =~= before.push(joined[i as int]));
        }
        i = i + 1;
    }
    assert(joined.take(ends@.len() as int) =~= joined);
    out
}

/// Expected settings, paths relative to the base.
#[derive(Debug)]
pub struct SettingsAssert {
    pub settings_path: String,
    pub code_paths: Vec<String>,
    pub exclude_code_paths: Vec<String>,
    pub artifact_paths: Vec<String>,
    pub exclude_artifact_paths: Vec<String>,
    pub code_url: Option<String>,
    pub parse: SettingsParse,
    pub format: SettingsFormat,
    pub export: SettingsExport,
}

impl SettingsAssert {
    /// The settings of the project at `base`: every path joined onto it,
    /// each list of paths without repeats.
    pub fn expected(self, base: &str) -> (r: Settings)
        ensures
            r.base@ == base@,
            r.settings_path@ == join_spec(base@, self.settings_path@),
            strs_view(r.code_paths@) == prefixed(base@, self.code_paths@),
            strs_view(r.exclude_code_paths@) == prefixed(base@, self.exclude_code_paths@),
            strs_view(r.artifact_paths@) == prefixed(base@, self.artifact_paths@),
            strs_view(r.exclude_artifact_paths@) == prefixed(base@, self.exclude_artifact_paths@),
            r.code_url == self.code_url,
            r.parse == self.parse,
            r.format == self.format,
            r.export == self.export,
    {
        Settings {
            base: base.to_owned(),
            settings_path: join_abs(base, self.settings_path.as_str()),
            code_paths: prefix_paths(base, &self.code_paths),
            exclude_code_paths: prefix_paths(base, &self.exclude_code_paths),
            artifact_paths: prefix_paths(base, &self.artifact_paths),
            exclude_artifact_paths: prefix_paths(base, &self.exclude_artifact_paths),
            code_url: self.code_url,
            parse: self.parse,
            format: self.format,
            export: self.export,
        }
    }
}

/// A lint as expected: its path, if any, joined onto `base`.
pub open spec fn lint_expected(base: Seq<char>, l: LintView) -> LintView {
    LintView {
        level: l.level,
        path: match l.path {
            Some(p) => Some(join_spec(base, p)),
            None => None,
        },
        line: l.line,
        category: l.category,
        msg: l.msg,
    }
}

/// Turning a lint with a relative path into the expected lint.
pub trait LintExp: Sized {
    /// Join the path of the lint, if any, onto `base`.
    fn make_expected(&mut self, base: &str)
        ensures
            final(self).expected_of(base@, *old(self)),
    ;

    /// `self` is `other` made expected against `base`.
    spec fn expected_of(&self, base: Seq<char>, other: Self) -> bool;
}

impl LintExp for Lint {
    open spec fn expected_of(&self, base: Seq<char>, other: Lint) -> bool {
        self@ == lint_expected(base, other@)
    }

    fn make_expected(&mut self, base: &str) {
        let p = match &self.path {
            Some(p) => Some(join_abs(base, p.as_str())),
            None => None,
        };
        self.path = p;
    }
}

/// The lints made expected against `base`, in order.
fn lints_expected(lints: Vec<Lint>, base: &str) -> (r: Vec<Lint>)
    ensures
        crate::lint::lint_views(r@) == crate::lint::lint_views(lints@).map_values(
            |l: LintView| lint_expected(base@, l),
        ),
{
    let mut rest = lints;
    let n: usize = rest.len();
    let ghost orig = rest@;
    let ghost want = crate::lint::lint_views(orig).map_values(|l: LintView| lint_expected(base@, l));
    let mut out: Vec<Lint> = Vec::new();
    let mut i: usize = 0;
    assert(orig.skip(0) =~= orig);
    while rest.len() > 0
        invariant
            i <= orig.len(),
            orig.len() == n,
            rest@ == orig.skip(i as int),
            want == crate::lint::lint_views(orig).map_values(|l: LintView| lint_expected(base@, l)),
            crate::lint::lint_views(out@) == want.take(i as int),
        decreases rest@.len(),
    {
        let mut l = rest.remove(0);
        proof {
            assert(orig.skip(i as int)[0] == orig[i as int]);
            assert(orig.skip(i + 1) =~= orig.skip(i as int).drop_first());
        }
        let ghost l0 = l;
        l.make_expected(base);
        proof {
            assert(l0 == orig[i as int]);
            assert(l.expected_of(base@, l0));
            assert(l@ == lint_expected(base@, l0@));
            assert(want[i as int] == lint_expected(base@, orig[i as int]@));
        }
        let ghost before = crate::lint::lint_views(out@);
        out.push(l);
        assert(crate::lint::lint_views(out@) =~= before.push(out@[i as int]@));
        assert(want.take(i + 1) =~= want.take(i as int).push(want[i as int]));
        i = i + 1;
    }
    assert(want.take(i as int) =~= want);
    out
}

/// Expected lints, paths relative to the base.
#[derive(Debug)]
pub struct CategorizedAssert {
    pub error: Vec<Lint>,
    pub other: Vec<Lint>,
}

impl CategorizedAssert {
    /// The lints with their paths joined onto `base`.
    pub fn expected(self, base: &str) -> (r: Categorized)
        ensures
            crate::lint::lint_views(r.error@) == crate::lint::lint_views(self.error@).map_values(
                |l: LintView| lint_expected(base@, l),
            ),
            crate::lint::lint_views(r.other@) == crate::lint::lint_views(self.other@).map_values(
                |l: LintView| lint_expected(base@, l),
            ),
    {
        Categorized { error: lints_expected(self.error, base), other: lints_expected(self.other, base) }
    }
}

} // verus!
