//! Lints: the non-fatal errors and warnings found while loading or
//! modifying a project.
use vstd::prelude::*;
use vstd::std_specs::cmp::PartialEqSpecImpl;
use crate::sort::{chars_le, lemma_chars_le_antisym, lemma_chars_le_total, lemma_chars_le_trans, sort_vec, sorted, string_le, Ordered};

verus! {

broadcast use vstd::seq_lib::group_to_multiset_ensures;

/// The lint level: errors eventually stop the program.
#[derive(Debug, Clone, Copy, PartialEq, Eq, Structural, Hash)]
pub enum Level {
    Error,
    Warn,
}

/// Where the lint is from.
#[derive(Debug, Clone, Copy, PartialEq, Eq, Structural, Hash)]
pub enum Category {
    LoadPaths,
    ParseCodeImplementations,
    ParseArtifactFiles,
    AutoPartof,
    Artifact,
    Settings,
    ImplCode,
    ModifyPathInvalid,
    CreateExists,
    UpdateNoop,
    UpdateDne,
    DeleteDne,
    IdOverlap,
    CreateBackups,
    SaveProject,
    RemoveBackups,
}

impl Level {
    /// Position of the level in declaration order.
    pub open spec fn rank(self) -> nat {
        match self {
            Level::Error => 0,
            Level::Warn => 1,
        }
    }

    /// Position of the level in declaration order.
    pub fn rank_exec(&self) -> (r: u8)
        ensures
            r == self.rank(),
    {
        match self {
            Level::Error => 0,
            Level::Warn => 1,
        }
    }
}

impl Category {
    /// Position of the category in declaration order.
    pub open spec fn rank(self) -> nat {
        match self {
            Category::LoadPaths => 0,
            Category::ParseCodeImplementations => 1,
            Category::ParseArtifactFiles => 2,
            Category::AutoPartof => 3,
            Category::Artifact => 4,
            Category::Settings => 5,
            Category::ImplCode => 6,
            Category::ModifyPathInvalid => 7,
            Category::CreateExists => 8,
            Category::UpdateNoop => 9,
            Category::UpdateDne => 10,
            Category::DeleteDne => 11,
            Category::IdOverlap => 12,
            Category::CreateBackups => 13,
            Category::SaveProject => 14,
            Category::RemoveBackups => 15,
        }
    }

    /// Position of the category in declaration order.
    pub fn rank_exec(&self) -> (r: u8)
        ensures
            r == self.rank(),
    {
        match self {
            Category::LoadPaths => 0,
            Category::ParseCodeImplementations => 1,
            Category::ParseArtifactFiles => 2,
            Category::AutoPartof => 3,
            Category::Artifact => 4,
            Category::Settings => 5,
            Category::ImplCode => 6,
            Category::ModifyPathInvalid => 7,
            Category::CreateExists => 8,
            Category::UpdateNoop => 9,
            Category::UpdateDne => 10,
            Category::DeleteDne => 11,
            Category::IdOverlap => 12,
            Category::CreateBackups => 13,
            Category::SaveProject => 14,
            Category::RemoveBackups => 15,
        }
    }
}


impl Level {
    /// The name of the variant.
    pub open spec fn spec_name(self) -> Seq<char> {
        match self {
            Level::Error => "Error"@,
            Level::Warn => "Warn"@,
        }
    }

    /// The name of the variant.
    pub fn as_str(&self) -> (r: &'static str)
        ensures
            r@ == self.spec_name(),
    {
        match self {
            Level::Error => "Error",
            Level::Warn => "Warn",
        }
    }

    /// The variant named `s`, if there is one.
    pub fn from_str(s: &str) -> (r: Option<Level>)
        ensures
            r matches Some(k) ==> k.spec_name() == s@,
            r is None ==> forall|k: Level| k.spec_name() != s@,
    {
        let all = [
            Level::Error,
            Level::Warn,
        ];
        let mut i: usize = 0;
        while i < 2
            invariant
                i <= 2,
                all@ == seq![
                    Level::Error,
                    Level::Warn,
                ],
                forall|k: int| 0 <= k < i ==> all@[k].spec_name() != s@,
            decreases 2 - i,
        {
            let k = all[i];
            if crate::text::str_eq(k.as_str(), s) {
                return Some(k);
            }
            i = i + 1;
        }
        proof {
            assert forall|k: Level| k.spec_name() != s@ by {
                match k {
                    Level::Error => assert(all@[0] == k),
                    Level::Warn => assert(all@[1] == k),
                }
            }
        }
        None
    }
}

/// Reading a level's name gives it back: whatever [`Level::from_str`]
/// returns on the name of `k` (its `as_str`) is `Some(k)`.
pub proof fn lemma_level_name_roundtrip(k: Level, r: Option<Level>)
    requires
        r matches Some(x) ==> x.spec_name() == k.spec_name(),
        r is None ==> forall|x: Level| #[trigger] x.spec_name() != k.spec_name(),
    ensures
        r == Some(k),
{
    reveal_strlit("Error");
    reveal_strlit("Warn");
    match r {
        Some(x) => {
            let a = x.spec_name();
            let b = k.spec_name();
            assert(a.len() == b.len());
            assert(a[0] == b[0]);
            match x {
                Level::Error => assert(k is Error),
                Level::Warn => assert(k is Warn),
            }
        },
        None => {
            let w = k;
            assert(w.spec_name() != k.spec_name());
        },
    }
}

impl Category {
    /// The name of the variant.
    pub open spec fn spec_name(self) -> Seq<char> {
        match self {
            Category::LoadPaths => "LoadPaths"@,
            Category::ParseCodeImplementations => "ParseCodeImplementations"@,
            Category::ParseArtifactFiles => "ParseArtifactFiles"@,
            Category::AutoPartof => "AutoPartof"@,
            Category::Artifact => "Artifact"@,
            Category::Settings => "Settings"@,
            Category::ImplCode => "ImplCode"@,
            Category::ModifyPathInvalid => "ModifyPathInvalid"@,
            Category::CreateExists => "CreateExists"@,
            Category::UpdateNoop => "UpdateNoop"@,
            Category::UpdateDne => "UpdateDne"@,
            Category::DeleteDne => "DeleteDne"@,
            Category::IdOverlap => "IdOverlap"@,
            Category::CreateBackups => "CreateBackups"@,
            Category::SaveProject => "SaveProject"@,
            Category::RemoveBackups => "RemoveBackups"@,
        }
    }

    /// The name of the variant.
    pub fn as_str(&self) -> (r: &'static str)
        ensures
            r@ == self.spec_name(),
    {
        match self {
            Category::LoadPaths => "LoadPaths",
            Category::ParseCodeImplementations => "ParseCodeImplementations",
            Category::ParseArtifactFiles => "ParseArtifactFiles",
            Category::AutoPartof => "AutoPartof",
            Category::Artifact => "Artifact",
            Category::Settings => "Settings",
            Category::ImplCode => "ImplCode",
            Category::ModifyPathInvalid => "ModifyPathInvalid",
            Category::CreateExists => "CreateExists",
            Category::UpdateNoop => "UpdateNoop",
            Category::UpdateDne => "UpdateDne",
            Category::DeleteDne => "DeleteDne",
            Category::IdOverlap => "IdOverlap",
            Category::CreateBackups => "CreateBackups",
            Category::SaveProject => "SaveProject",
            Category::RemoveBackups => "RemoveBackups",
        }
    }

    /// The variant named `s`, if there is one.
    pub fn from_str(s: &str) -> (r: Option<Category>)
        ensures
            r matches Some(k) ==> k.spec_name() == s@,
            r is None ==> forall|k: Category| k.spec_name() != s@,
    {
        let all = [
            Category::LoadPaths,
            Category::ParseCodeImplementations,
            Category::ParseArtifactFiles,
            Category::AutoPartof,
            Category::Artifact,
            Category::Settings,
            Category::ImplCode,
            Category::ModifyPathInvalid,
            Category::CreateExists,
            Category::UpdateNoop,
            Category::UpdateDne,
            Category::DeleteDne,
            Category::IdOverlap,
            Category::CreateBackups,
            Category::SaveProject,
            Category::RemoveBackups,
        ];
        let mut i: usize = 0;
        while i < 16
            invariant
                i <= 16,
                all@ == seq![
                    Category::LoadPaths,
                    Category::ParseCodeImplementations,
                    Category::ParseArtifactFiles,
                    Category::AutoPartof,
                    Category::Artifact,
                    Category::Settings,
                    Category::ImplCode,
                    Category::ModifyPathInvalid,
                    Category::CreateExists,
                    Category::UpdateNoop,
                    Category::UpdateDne,
                    Category::DeleteDne,
                    Category::IdOverlap,
                    Category::CreateBackups,
                    Category::SaveProject,
                    Category::RemoveBackups,
                ],
                forall|k: int| 0 <= k < i ==> all@[k].spec_name() != s@,
            decreases 16 - i,
        {
            let k = all[i];
            if crate::text::str_eq(k.as_str(), s) {
                return Some(k);
            }
            i = i + 1;
        }
        proof {
            assert forall|k: Category| k.spec_name() != s@ by {
                match k {
                    Category::LoadPaths => assert(all@[0] == k),
                    Category::ParseCodeImplementations => assert(all@[1] == k),
                    Category::ParseArtifactFiles => assert(all@[2] == k),
                    Category::AutoPartof => assert(all@[3] == k),
                    Category::Artifact => assert(all@[4] == k),
                    Category::Settings => assert(all@[5] == k),
                    Category::ImplCode => assert(all@[6] == k),
                    Category::ModifyPathInvalid => assert(all@[7] == k),
                    Category::CreateExists => assert(all@[8] == k),
                    Category::UpdateNoop => assert(all@[9] == k),
                    Category::UpdateDne => assert(all@[10] == k),
                    Category::DeleteDne => assert(all@[11] == k),
                    Category::IdOverlap => assert(all@[12] == k),
                    Category::CreateBackups => assert(all@[13] == k),
                    Category::SaveProject => assert(all@[14] == k),
                    Category::RemoveBackups => assert(all@[15] == k),
                }
            }
        }
        None
    }
}

/// Reading a category's name gives it back: whatever [`Category::from_str`]
/// returns on the name of `k` (its `as_str`) is `Some(k)`.
pub proof fn lemma_category_name_roundtrip(k: Category, r: Option<Category>)
    requires
        r matches Some(x) ==> x.spec_name() == k.spec_name(),
        r is None ==> forall|x: Category| #[trigger] x.spec_name() != k.spec_name(),
    ensures
        r == Some(k),
{
    reveal_strlit("LoadPaths");
    reveal_strlit("ParseCodeImplementations");
    reveal_strlit("ParseArtifactFiles");
    reveal_strlit("AutoPartof");
    reveal_strlit("Artifact");
    reveal_strlit("Settings");
    reveal_strlit("ImplCode");
    reveal_strlit("ModifyPathInvalid");
    reveal_strlit("CreateExists");
    reveal_strlit("UpdateNoop");
    reveal_strlit("UpdateDne");
    reveal_strlit("DeleteDne");
    reveal_strlit("IdOverlap");
    reveal_strlit("CreateBackups");
    reveal_strlit("SaveProject");
    reveal_strlit("RemoveBackups");
    match r {
        Some(x) => {
            let a = x.spec_name();
            let b = k.spec_name();
            assert(a.len() == b.len());
            assert(a[0] == b[0]);
            match x {
                Category::LoadPaths => assert(k is LoadPaths),
                Category::ParseCodeImplementations => assert(k is ParseCodeImplementations),
                Category::ParseArtifactFiles => assert(k is ParseArtifactFiles),
                Category::AutoPartof => assert(k is AutoPartof),
                Category::Artifact => assert(k is Artifact),
                Category::Settings => assert(k is Settings),
                Category::ImplCode => assert(k is ImplCode),
                Category::ModifyPathInvalid => assert(k is ModifyPathInvalid),
                Category::CreateExists => assert(k is CreateExists),
                Category::UpdateNoop => assert(k is UpdateNoop),
                Category::UpdateDne => assert(k is UpdateDne),
                Category::DeleteDne => assert(k is DeleteDne),
                Category::IdOverlap => assert(k is IdOverlap),
                Category::CreateBackups => assert(k is CreateBackups),
                Category::SaveProject => assert(k is SaveProject),
                Category::RemoveBackups => assert(k is RemoveBackups),
            }
        },
        None => {
            let w = k;
            assert(w.spec_name() != k.spec_name());
        },
    }
}

proof fn lemma_level_rank(a: Level, b: Level)
    ensures
        a.rank() == b.rank() ==> a == b,
{
}

proof fn lemma_category_rank(a: Category, b: Category)
    ensures
        a.rank() == b.rank() ==> a == b,
{
}

/// An artifact lint error or warning.
#[derive(Debug)]
pub struct Lint {
    pub level: Level,
    pub path: Option<String>,
    pub line: Option<u64>,
    pub category: Category,
    pub msg: String,
}

/// The plain value of a lint.
pub struct LintView {
    pub level: Level,
    pub path: Option<Seq<char>>,
    pub line: Option<u64>,
    pub category: Category,
    pub msg: Seq<char>,
}

impl View for Lint {
    type V = LintView;

    open spec fn view(&self) -> LintView {
        LintView {
            level: self.level,
            path: match self.path {
                Some(p) => Some(p@),
                None => None,
            },
            line: self.line,
            category: self.category,
            msg: self.msg@,
        }
    }
}

/// Order on optional strings: `None` first, then by [`chars_le`].
pub open spec fn opt_chars_le(a: Option<Seq<char>>, b: Option<Seq<char>>) -> bool {
    match (a, b) {
        (None, _) => true,
        (Some(_), None) => false,
        (Some(x), Some(y)) => chars_le(x, y),
    }
}

/// Order on optional numbers: `None` first, then by value.
pub open spec fn opt_u64_le(a: Option<u64>, b: Option<u64>) -> bool {
    match (a, b) {
        (None, _) => true,
        (Some(_), None) => false,
        (Some(x), Some(y)) => x <= y,
    }
}

/// The order of lints: by level, path, line, category and message, in
/// that order of precedence.
pub open spec fn lint_le(a: LintView, b: LintView) -> bool {
    if a.level != b.level {
        a.level.rank() < b.level.rank()
    } else if a.path != b.path {
        opt_chars_le(a.path, b.path)
    } else if a.line != b.line {
        opt_u64_le(a.line, b.line)
    } else if a.category != b.category {
        a.category.rank() < b.category.rank()
    } else {
        chars_le(a.msg, b.msg)
    }
}

proof fn lemma_opt_chars(a: Option<Seq<char>>, b: Option<Seq<char>>, c: Option<Seq<char>>)
    ensures
        opt_chars_le(a, b) || opt_chars_le(b, a),
        opt_chars_le(a, b) && opt_chars_le(b, c) ==> opt_chars_le(a, c),
        opt_chars_le(a, b) && opt_chars_le(b, a) ==> a == b,
{
    if let (Some(x), Some(y)) = (a, b) {
        lemma_chars_le_total(x, y);
        if chars_le(x, y) && chars_le(y, x) {
            lemma_chars_le_antisym(x, y);
        }
        if let Some(z) = c {
            if chars_le(x, y) && chars_le(y, z) {
                lemma_chars_le_trans(x, y, z);
            }
        }
    }
}

proof fn lemma_lint_le(a: LintView, b: LintView, c: LintView)
    ensures
        lint_le(a, b) || lint_le(b, a),
        lint_le(a, b) && lint_le(b, c) ==> lint_le(a, c),
        lint_le(a, b) && lint_le(b, a) ==> a == b,
{
    lemma_opt_chars(a.path, b.path, c.path);
    lemma_opt_chars(b.path, a.path, c.path);
    lemma_opt_chars(a.path, c.path, b.path);
    lemma_opt_chars(b.path, c.path, a.path);
    lemma_opt_chars(c.path, a.path, b.path);
    lemma_opt_chars(c.path, b.path, a.path);
    lemma_level_rank(a.level, b.level);
    lemma_level_rank(b.level, c.level);
    lemma_level_rank(a.level, c.level);
    lemma_category_rank(a.category, b.category);
    lemma_category_rank(b.category, c.category);
    lemma_category_rank(a.category, c.category);
    lemma_chars_le_total(a.msg, b.msg);
    if chars_le(a.msg, b.msg) && chars_le(b.msg, c.msg) {
        lemma_chars_le_trans(a.msg, b.msg, c.msg);
    }
    if chars_le(a.msg, b.msg) && chars_le(b.msg, a.msg) {
        lemma_chars_le_antisym(a.msg, b.msg);
    }
}

fn opt_string_eq(a: &Option<String>, b: &Option<String>) -> (r: bool)
    ensures
        r == ((match a {
            Some(p) => Some(p@),
            None => None::<Seq<char>>,
        }) == (match b {
            Some(p) => Some(p@),
            None => None::<Seq<char>>,
        })),
{
    match (a, b) {
        (None, None) => true,
        (Some(x), Some(y)) => *x == *y,
        _ => false,
    }
}

fn opt_string_le(a: &Option<String>, b: &Option<String>) -> (r: bool)
    ensures
        r == opt_chars_le(
            match a {
                Some(p) => Some(p@),
                None => None,
            },
            match b {
                Some(p) => Some(p@),
                None => None,
            },
        ),
{
    match (a, b) {
        (None, _) => true,
        (Some(_), None) => false,
        (Some(x), Some(y)) => string_le(x, y),
    }
}

impl Ordered for Lint {
    open spec fn le(&self, other: &Self) -> bool {
        lint_le(self@, other@)
    }

    proof fn lemma_total(a: &Self, b: &Self) {
        lemma_lint_le(a@, b@, b@);
    }

    proof fn lemma_trans(a: &Self, b: &Self, c: &Self) {
        lemma_lint_le(a@, b@, c@);
    }

    fn le_exec(&self, other: &Self) -> (r: bool) {
        if self.level != other.level {
            self.level.rank_exec() < other.level.rank_exec()
        } else if !opt_string_eq(&self.path, &other.path) {
            opt_string_le(&self.path, &other.path)
        } else if self.line != other.line {
            match (self.line, other.line) {
                (None, _) => true,
                (Some(_), None) => false,
                (Some(x), Some(y)) => x <= y,
            }
        } else if self.category != other.category {
            self.category.rank_exec() < other.category.rank_exec()
        } else {
            string_le(&self.msg, &other.msg)
        }
    }
}

impl PartialEq for Lint {
    fn eq(&self, other: &Lint) -> (r: bool) {
        self.level == other.level && opt_string_eq(&self.path, &other.path) && self.line
            == other.line && self.category == other.category && self.msg == other.msg
    }
}

impl PartialEqSpecImpl for Lint {
    open spec fn obeys_eq_spec() -> bool {
        true
    }

    open spec fn eq_spec(&self, other: &Lint) -> bool {
        self@ == other@
    }
}

impl Eq for Lint {
}

impl Clone for Lint {
    fn clone(&self) -> (r: Self)
        ensures
            r@ == self@,
    {
        Lint {
            level: self.level,
            path: match &self.path {
                Some(p) => Some(p.clone()),
                None => None,
            },
            line: self.line,
            category: self.category,
            msg: self.msg.clone(),
        }
    }
}

/// The views of a sequence of lints.
pub open spec fn lint_views(s: Seq<Lint>) -> Seq<LintView> {
    s.map_values(|l: Lint| l@)
}

/// `s` is strictly increasing in the lint order: sorted, without repeats.
pub open spec fn strictly_sorted(s: Seq<LintView>) -> bool {
    forall|i: int, j: int| #![trigger s[i], s[j]] 0 <= i < j < s.len() ==> lint_le(s[i], s[j]) && s[i] != s[j]
}

/// `s` and `t` hold the same lints, ignoring order and repeats.
pub open spec fn same_lints(s: Seq<LintView>, t: Seq<LintView>) -> bool {
    &&& forall|i: int| 0 <= i < s.len() ==> t.contains(#[trigger] s[i])
    &&& forall|i: int| 0 <= i < t.len() ==> s.contains(#[trigger] t[i])
}

/// `b` is `a` with each list sorted and each lint once.
pub open spec fn sorted_of(b: Categorized, a: Categorized) -> bool {
    &&& strictly_sorted(lint_views(b.error@))
    &&& same_lints(lint_views(b.error@), lint_views(a.error@))
    &&& strictly_sorted(lint_views(b.other@))
    &&& same_lints(lint_views(b.other@), lint_views(a.other@))
}

/// Two strictly sorted lists of the same lints are the same list.
pub proof fn lemma_strictly_sorted_unique(s: Seq<LintView>, t: Seq<LintView>)
    requires
        strictly_sorted(s),
        strictly_sorted(t),
        same_lints(s, t),
    ensures
        s == t,
    decreases s.len(),
{
    if s.len() == 0 {
        if t.len() > 0 {
            assert(s.contains(t[0]));
        }
        assert(s =~= t);
    } else {
        assert(t.contains(s[0]));
        let k = choose|k: int| 0 <= k < t.len() && t[k] == s[0];
        assert(s.contains(t[0]));
        let m = choose|m: int| 0 <= m < s.len() && s[m] == t[0];
        if k > 0 {
            assert(lint_le(t[0], t[k]) && t[0] != t[k]);
            if m > 0 {
                assert(lint_le(s[0], s[m]));
            }
            lemma_lint_le(t[0], s[0], s[0]);
            assert(false);
        }
        let s1 = s.drop_first();
        let t1 = t.drop_first();
        assert(same_lints(s1, t1)) by {
            assert forall|i: int| 0 <= i < s1.len() implies t1.contains(#[trigger] s1[i]) by {
                assert(s1[i] == s[i + 1]);
                assert(t.contains(s[i + 1]));
                let b = choose|b: int| 0 <= b < t.len() && t[b] == s[i + 1];
                assert(s[0] != s[i + 1]);
                assert(t1[b - 1] == s1[i]);
            }
            assert forall|i: int| 0 <= i < t1.len() implies s1.contains(#[trigger] t1[i]) by {
                assert(t1[i] == t[i + 1]);
                assert(s.contains(t[i + 1]));
                let b = choose|b: int| 0 <= b < s.len() && s[b] == t[i + 1];
                assert(t[0] != t[i + 1]);
                assert(s1[b - 1] == t1[i]);
            }
        }
        assert(strictly_sorted(s1)) by {
            assert forall|i: int, j: int| #![trigger s1[i], s1[j]] 0 <= i < j < s1.len() implies lint_le(s1[i], s1[j]) && s1[i] != s1[j] by {
                assert(s1[i] == s[i + 1] && s1[j] == s[j + 1]);
            }
        }
        assert(strictly_sorted(t1)) by {
            assert forall|i: int, j: int| #![trigger t1[i], t1[j]] 0 <= i < j < t1.len() implies lint_le(t1[i], t1[j]) && t1[i] != t1[j] by {
                assert(t1[i] == t[i + 1] && t1[j] == t[j + 1]);
            }
        }
        lemma_strictly_sorted_unique(s1, t1);
        assert(s =~= t) by {
            assert forall|q: int| 0 <= q < s.len() implies s[q] == t[q] by {
                if q > 0 {
                    assert(s[q] == s1[q - 1] && t[q] == t1[q - 1]);
                }
            }
        }
    }
}

/// Sorting lints that are sorted changes nothing: sorting twice gives
/// the lists that sorting once gave.
pub proof fn lemma_sort_idempotent(a: Categorized, b: Categorized, c: Categorized)
    requires
        sorted_of(b, a),
        sorted_of(c, b),
    ensures
        lint_views(c.error@) == lint_views(b.error@),
        lint_views(c.other@) == lint_views(b.other@),
{
    lemma_strictly_sorted_unique(lint_views(c.error@), lint_views(b.error@));
    lemma_strictly_sorted_unique(lint_views(c.other@), lint_views(b.other@));
}

/// Sort the lints and remove repeats (`sort` then `dedup`).
pub fn sort_dedup(v: Vec<Lint>) -> (r: Vec<Lint>)
    ensures
        strictly_sorted(lint_views(r@)),
        same_lints(lint_views(r@), lint_views(v@)),
{
    let s = sort_vec(v);
    let ghost sv = lint_views(s@);
    let ghost vv = lint_views(v@);
    proof {
        assert forall|i: int| 0 <= i < vv.len() implies sv.contains(#[trigger] vv[i]) by {
            assert(v@.to_multiset().count(v@[i]) > 0);
            assert(s@.to_multiset().count(v@[i]) > 0);
            let k = choose|k: int| 0 <= k < s@.len() && s@[k] == v@[i];
            assert(sv[k] == vv[i]);
        }
        assert forall|i: int| 0 <= i < sv.len() implies vv.contains(#[trigger] sv[i]) by {
            assert(s@.to_multiset().count(s@[i]) > 0);
            assert(v@.to_multiset().count(s@[i]) > 0);
            let k = choose|k: int| 0 <= k < v@.len() && v@[k] == s@[i];
            assert(vv[k] == sv[i]);
        }
    }
    let mut out: Vec<Lint> = Vec::new();
    let mut s = s;
    let mut i: usize = 0;
    assert(lint_views(s@) =~= sv.skip(0));
    let n: usize = s.len();
    assert(sv.len() == n);
    while s.len() > 0
        invariant
            sorted(s@),
            lint_views(s@) == sv.skip(i as int),
            i <= sv.len(),
            sv.len() <= usize::MAX,
            strictly_sorted(lint_views(out@)),
            forall|a: int, b: int|
                #![trigger lint_views(out@)[a], sv[b]]
                0 <= a < out@.len() && i <= b < sv.len() ==> lint_le(lint_views(out@)[a], sv[b]),
            forall|k: int| 0 <= k < i ==> lint_views(out@).contains(#[trigger] sv[k]),
            forall|k: int| 0 <= k < out@.len() ==> sv.contains(#[trigger] lint_views(out@)[k]),
        decreases s@.len(),
    {
        let ghost before = lint_views(out@);
        let ghost ss = s@;
        let x = s.remove(0);
        proof {
            assert(ss[0] == x);
            assert(lint_views(ss).len() == ss.len());
            assert(lint_views(ss)[0] == ss[0]@);
            assert(sv.skip(i as int)[0] == sv[i as int]);
            assert(sv[i as int] == x@);
            assert forall|k: int| 0 <= k < s@.len() implies #[trigger] lint_views(s@)[k] == sv.skip(
                i + 1,
            )[k] by {
                assert(s@[k] == ss[k + 1]);
                assert(lint_views(ss)[k + 1] == ss[k + 1]@);
                assert(sv.skip(i as int)[k + 1] == sv[i + k + 1]);
            }
            assert(lint_views(s@) =~= sv.skip(i + 1));
            assert forall|b: int| i + 1 <= b < sv.len() implies lint_le(x@, #[trigger] sv[b]) by {
                assert(sv[b] == lint_views(ss)[b - i]);
                assert(ss[0].le(&ss[b - i]));
            }
        }
        let dup = out.len() > 0 && out[out.len() - 1] == x;
        if !dup {
            out.push(x);
            proof {
                let o = lint_views(out@);
                assert(o =~= before.push(x@));
                assert forall|a: int| 0 <= a < before.len() implies before[a] != x@ by {
                    let l = before.len() - 1;
                    assert(lint_le(before[a], sv[i as int]));
                    if before[a] == x@ && a < l {
                        assert(lint_le(before[a], before[l]));
                        assert(lint_le(before[l], sv[i as int]));
                        lemma_lint_le(before[a], before[l], before[l]);
                    }
                }
                assert forall|a: int, b: int| #![trigger o[a], o[b]] 0 <= a < b < o.len() implies lint_le(o[a], o[b]) && o[a] != o[b] by {
                    if b == o.len() - 1 {
                        assert(lint_le(before[a], sv[i as int]));
                    } else {
                        assert(o[a] == before[a] && o[b] == before[b]);
                    }
                }
                assert(o.last() == sv[i as int]);
                assert forall|k: int| 0 <= k < i + 1 implies o.contains(#[trigger] sv[k]) by {
                    if k < i {
                        let w = choose|w: int| 0 <= w < before.len() && before[w] == sv[k];
                        assert(o[w] == sv[k]);
                    } else {
                        assert(o[o.len() - 1] == sv[k]);
                    }
                }
                assert forall|k: int| 0 <= k < o.len() implies sv.contains(#[trigger] o[k]) by {
                    if k < before.len() {
                        assert(o[k] == before[k]);
                    } else {
                        assert(o[k] == sv[i as int]);
                    }
                }
            }
        } else {
            proof {
                assert(before[before.len() - 1] == x@);
                assert forall|k: int| 0 <= k < i + 1 implies before.contains(#[trigger] sv[k]) by {
                    if k == i {
                        assert(before[before.len() - 1] == sv[k]);
                    }
                }
            }
        }
        i = i + 1;
    }
    proof {
        assert forall|k: int| 0 <= k < vv.len() implies lint_views(out@).contains(#[trigger] vv[k]) by {
            let w = choose|w: int| 0 <= w < sv.len() && sv[w] == vv[k];
            assert(lint_views(out@).contains(sv[w]));
        }
        assert forall|k: int| 0 <= k < out@.len() implies vv.contains(#[trigger] lint_views(out@)[k]) by {
            assert(sv.contains(lint_views(out@)[k]));
            let w = choose|w: int| 0 <= w < sv.len() && sv[w] == lint_views(out@)[k];
            assert(vv.contains(sv[w]));
        }
    }
    out
}


impl Lint {
    /// An error found while loading the file at `path`.
    pub fn load_error(path: String, err: &str) -> (r: Lint)
        ensures
            r.level == Level::Error,
            r.category == Category::LoadPaths,
            r.path == Some(path),
            r.line.is_none(),
            r.msg@ == "Error during loading: "@ + err@,
    {
        let mut msg = "Error during loading: ".to_owned();
        msg.append(err);
        Lint { level: Level::Error, category: Category::LoadPaths, path: Some(path), line: None, msg }
    }

    /// An error with no place: a created artifact already exists.
    pub fn create_exists(err: String) -> (r: Lint)
        ensures
            r == Lint::located_error(Category::CreateExists, err),
    {
        Lint { level: Level::Error, category: Category::CreateExists, path: None, line: None, msg: err }
    }

    /// An error with no place: an update changes nothing.
    pub fn update_noop(err: String) -> (r: Lint)
        ensures
            r == Lint::located_error(Category::UpdateNoop, err),
    {
        Lint { level: Level::Error, category: Category::UpdateNoop, path: None, line: None, msg: err }
    }

    /// An error with no place: an updated artifact does not exist.
    pub fn update_dne(err: String) -> (r: Lint)
        ensures
            r == Lint::located_error(Category::UpdateDne, err),
    {
        Lint { level: Level::Error, category: Category::UpdateDne, path: None, line: None, msg: err }
    }

    /// An error with no place: a deleted artifact does not exist.
    pub fn delete_dne(err: String) -> (r: Lint)
        ensures
            r == Lint::located_error(Category::DeleteDne, err),
    {
        Lint { level: Level::Error, category: Category::DeleteDne, path: None, line: None, msg: err }
    }

    /// An error with no place: two operations touch the same artifact.
    pub fn id_overlap(err: String) -> (r: Lint)
        ensures
            r == Lint::located_error(Category::IdOverlap, err),
    {
        Lint { level: Level::Error, category: Category::IdOverlap, path: None, line: None, msg: err }
    }

    /// The error lint of `category` with message `msg`, and neither path
    /// nor line.
    pub open spec fn located_error(category: Category, msg: String) -> Lint {
        Lint { level: Level::Error, category, path: None, line: None, msg }
    }
}

/// Record an error found while loading the file at `path`.
pub fn io_error(lints: &mut Vec<Lint>, path: String, err: &str)
    ensures
        final(lints)@.len() == old(lints)@.len() + 1,
        final(lints)@.drop_last() == old(lints)@,
        final(lints)@.last().level == Level::Error,
        final(lints)@.last().category == Category::LoadPaths,
        final(lints)@.last().path == Some(path),
        final(lints)@.last().line.is_none(),
        final(lints)@.last().msg@ == "Error during loading: "@ + err@,
{
    let l = Lint::load_error(path, err);
    lints.push(l);
    assert(lints@.drop_last() =~= old(lints)@);
}

/// The error lints of `s`, in order.
pub open spec fn errors_of(s: Seq<Lint>) -> Seq<Lint>
    decreases s.len(),
{
    if s.len() == 0 {
        Seq::empty()
    } else if s.last().level == Level::Error {
        errors_of(s.drop_last()).push(s.last())
    } else {
        errors_of(s.drop_last())
    }
}

/// The lints of `s` that are not errors, in order.
pub open spec fn others_of(s: Seq<Lint>) -> Seq<Lint>
    decreases s.len(),
{
    if s.len() == 0 {
        Seq::empty()
    } else if s.last().level == Level::Error {
        others_of(s.drop_last())
    } else {
        others_of(s.drop_last()).push(s.last())
    }
}

/// The plain values of the error lints of `s`, in order.
pub open spec fn error_views(s: Seq<LintView>) -> Seq<LintView>
    decreases s.len(),
{
    if s.len() == 0 {
        Seq::empty()
    } else if s.last().level == Level::Error {
        error_views(s.drop_last()).push(s.last())
    } else {
        error_views(s.drop_last())
    }
}

/// The plain values of the lints of `s` that are not errors, in order.
pub open spec fn other_views(s: Seq<LintView>) -> Seq<LintView>
    decreases s.len(),
{
    if s.len() == 0 {
        Seq::empty()
    } else if s.last().level == Level::Error {
        other_views(s.drop_last())
    } else {
        other_views(s.drop_last()).push(s.last())
    }
}

/// Splitting lints and taking their plain values commute.
pub proof fn lemma_split_views(s: Seq<Lint>)
    ensures
        lint_views(errors_of(s)) == error_views(lint_views(s)),
        lint_views(others_of(s)) == other_views(lint_views(s)),
    decreases s.len(),
{
    if s.len() > 0 {
        lemma_split_views(s.drop_last());
        assert(lint_views(s).drop_last() =~= lint_views(s.drop_last()));
        assert(lint_views(errors_of(s.drop_last()).push(s.last())) =~= lint_views(
            errors_of(s.drop_last()),
        ).push(s.last()@));
        assert(lint_views(others_of(s.drop_last()).push(s.last())) =~= lint_views(
            others_of(s.drop_last()),
        ).push(s.last()@));
    }
}

/// Lints split into errors and the rest.
#[derive(Debug)]
pub struct Categorized {
    pub error: Vec<Lint>,
    pub other: Vec<Lint>,
}

impl Default for Categorized {
    fn default() -> (r: Categorized)
        ensures
            r.error@.len() == 0,
            r.other@.len() == 0,
    {
        Categorized { error: Vec::new(), other: Vec::new() }
    }
}

impl Categorized {
    /// Append each lint to `error` or `other` by its level, keeping order.
    pub fn categorize(&mut self, lints: Vec<Lint>)
        ensures
            final(self).error@ == old(self).error@ + errors_of(lints@),
            final(self).other@ == old(self).other@ + others_of(lints@),
    {
        let ghost l0 = lints@;
        let mut rest = lints;
        let mut i: usize = 0;
        assert(l0.take(0) =~= Seq::<Lint>::empty());
        assert(old(self).error@ + Seq::<Lint>::empty() =~= old(self).error@);
        assert(old(self).other@ + Seq::<Lint>::empty() =~= old(self).other@);
        assert(rest@ =~= l0.skip(0));
        let n: usize = rest.len();
        while rest.len() > 0
            invariant
                i <= l0.len(),
                l0.len() == n,
                rest@ == l0.skip(i as int),
                self.error@ == old(self).error@ + errors_of(l0.take(i as int)),
                self.other@ == old(self).other@ + others_of(l0.take(i as int)),
            decreases rest@.len(),
        {
            let ghost pre = rest@;
            let lint = rest.remove(0);
            assert(lint == l0[i as int]);
            assert(rest@ =~= l0.skip(i + 1));
            assert(l0.take(i + 1).drop_last() =~= l0.take(i as int));
            assert(l0.take(i + 1).last() == l0[i as int]);
            match lint.level {
                Level::Error => {
                    self.error.push(lint);
                    assert(self.error@ =~= old(self).error@ + errors_of(l0.take(i + 1)));
                    assert(self.other@ =~= old(self).other@ + others_of(l0.take(i + 1)));
                },
                _ => {
                    self.other.push(lint);
                    assert(self.error@ =~= old(self).error@ + errors_of(l0.take(i + 1)));
                    assert(self.other@ =~= old(self).other@ + others_of(l0.take(i + 1)));
                },
            }
            i = i + 1;
        }
        assert(l0.take(l0.len() as int) =~= l0);
    }

    /// Sort both lists and remove repeats from them.
    pub fn sort(&mut self)
        ensures
            sorted_of(*final(self), *old(self)),
    {
        let mut e: Vec<Lint> = Vec::new();
        std::mem::swap(&mut e, &mut self.error);
        self.error = sort_dedup(e);
        let mut o: Vec<Lint> = Vec::new();
        std::mem::swap(&mut o, &mut self.other);
        self.other = sort_dedup(o);
    }

    /// Whether there are any lints at all (errors or others).
    pub fn is_empty(&self) -> (r: bool)
        ensures
            r == (self.error@.len() > 0 || self.other@.len() > 0),
    {
        self.error.len() > 0 || self.other.len() > 0
    }
}

} // verus!
