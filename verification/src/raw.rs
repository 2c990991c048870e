//! Artifacts as they are written in files: the raw form, the kinds of
//! artifact files, and the markdown format (reading and writing).
use vstd::prelude::*;
use crate::family::{has_key, keys_unique, raws, Names};
use crate::name::{dedup_keys, is_name_char, prefix_type, type_of, valid_name, Name, NameError};
use crate::sort::{isort, sort_vec};
use crate::text::{
    char_is_ws, chars_to_string, clean_text, cleaned, is_ws, lemma_trim_end_len, str_chars,
    string_push, string_trim_right, trim_end, trim_end_len,
};
use crate::implemented::{ascii_type_ok, check_fold_type, fold_type_at};
use crate::name::{check_elements, valid_elements};
use crate::expand::vv;
use crate::implemented::{first_index, insert_by_name, lemma_first_index, name_keys_of, upsert_name};

verus! {

// ------------------------------------------------------------------
// Raw types

/// The text of an artifact, as written in a file.
#[derive(Debug)]
pub struct TextRaw(pub String);

impl TextRaw {
    /// The text as it is written out: without trailing whitespace, and
    /// with a final newline when it has several lines.
    pub fn to_written(&self) -> (r: String)
        ensures
            r@ == cleaned(trim_end(self.0@)),
    {
        let mut s = self.0.clone();
        string_trim_right(&mut s);
        clean_text(&mut s);
        s
    }

    /// The text as it is read in, cleaned.
    pub fn from_read(s: String) -> (r: TextRaw)
        ensures
            r.0@ == cleaned(s@),
    {
        let mut s = s;
        clean_text(&mut s);
        TextRaw(s)
    }
}

/// A text written out and read back in is what was written:
/// `TextRaw::from_read(t.to_written())` holds `t.to_written()`.
pub proof fn lemma_text_written_read(s: Seq<char>)
    ensures
        cleaned(cleaned(trim_end(s))) == cleaned(trim_end(s)),
{
    crate::text::lemma_cleaned_idempotent(trim_end(s));
}

/// A set of names as written in the `partof` attribute.
#[derive(Debug)]
pub struct NamesRaw {
    pub inner: Names,
}

impl NamesRaw {
    /// Parse a collapsed list of names (see [`crate::expand::expand_names`]).
    pub fn from_str(collapsed: &str) -> (r: Result<NamesRaw, NameError>)
        ensures
            crate::expand::expand_spec(
                collapsed@,
                match r {
                    Ok(n) => Ok(n.inner),
                    Err(e) => Err(e),
                },
            ),
    {
        match crate::expand::expand_names(collapsed) {
            Ok(n) => Ok(NamesRaw { inner: n }),
            Err(e) => Err(e),
        }
    }

    /// Parse a `partof` written as a list of collapsed strings: the names
    /// of all of them, each key once, in order of first appearance.
    pub fn from_strs(items: &Vec<String>) -> (r: Result<NamesRaw, NameError>)
        ensures
            ({
                let v = str_views(items@);
                match r {
                    Ok(n) => first_unexpanded(v) < 0 && n.inner.wf() && raws(n.inner.0@)
                        == merged(v),
                    Err(e) => first_unexpanded(v) >= 0 && crate::expand::expand_spec(
                        v[first_unexpanded(v)],
                        Err(e),
                    ),
                }
            }),
    {
        let ghost v = str_views(items@);
        let mut out = Names::new();
        let mut i: usize = 0;
        while i < items.len()
            invariant
                i <= items@.len(),
                v == str_views(items@),
                out.wf(),
                first_unexpanded(v.take(i as int)) < 0,
                raws(out.0@) == merged(v.take(i as int)),
            decreases items@.len() - i,
        {
            let ghost t = v.take(i as int + 1);
            assert(t.drop_last() =~= v.take(i as int));
            assert(t.last() == items@[i as int]@);
            match NamesRaw::from_str(items[i].as_str()) {
                Ok(n) => {
                    out.extend_names(&n.inner);
                },
                Err(e) => {
                    proof {
                        lemma_first_unexpanded_prefix(v, i as int);
                    }
                    return Err(e);
                },
            }
            i = i + 1;
        }
        assert(v.take(items@.len() as int) =~= v);
        Ok(NamesRaw { inner: out })
    }

    /// The raw names to write for this `partof`, sorted; a single name is
    /// written alone, several as a list.
    pub fn to_strings(&self) -> (r: Vec<String>)
        requires
            self.inner.wf(),
        ensures
            str_views(r@) == raws(isort(self.inner.0@)),
    {
        let mut sorted_names = Names(Vec::new());
        let mut k: usize = 0;
        while k < self.inner.0.len()
            invariant
                k <= self.inner.0@.len(),
                sorted_names.0@ == self.inner.0@.take(k as int),
            decreases self.inner.0@.len() - k,
        {
            sorted_names.0.push(self.inner.0[k].clone());
            assert(sorted_names.0@ =~= self.inner.0@.take(k as int + 1));
            k = k + 1;
        }
        assert(sorted_names.0@ =~= self.inner.0@);
        sorted_names.sort();
        let mut out: Vec<String> = Vec::new();
        let mut i: usize = 0;
        while i < sorted_names.0.len()
            invariant
                i <= sorted_names.0@.len(),
                str_views(out@) == raws(sorted_names.0@.take(i as int)),
            decreases sorted_names.0@.len() - i,
        {
            let ghost before = out@;
            let x = sorted_names.0[i].as_str().to_owned();
            assert(x@ == sorted_names.0@[i as int].raw_v());
            out.push(x);
            assert(str_views(out@) =~= str_views(before).push(x@));
            assert(raws(sorted_names.0@.take(i as int + 1)) =~= raws(sorted_names.0@.take(i as int)).push(
                sorted_names.0@[i as int].raw_v(),
            ));
            i = i + 1;
        }
        assert(sorted_names.0@.take(sorted_names.0@.len() as int) =~= sorted_names.0@);
        out
    }
}

/// The plain values of a list of strings.
pub open spec fn str_views(s: Seq<String>) -> Seq<Seq<char>> {
    s.map_values(|x: String| x@)
}

/// The raw names a collapsed list expands to, if it expands.
pub open spec fn expanded(raw: Seq<char>) -> Option<Seq<Seq<char>>> {
    match crate::expand::parse_list(raw, 0, false, seq![], seq![]) {
        Err(_) => None,
        Ok((items, _)) => if crate::expand::first_invalid(items) >= 0 {
            None
        } else {
            Some(dedup_keys(items))
        },
    }
}

/// The index of the first collapsed list in `s` that does not expand, or -1.
pub open spec fn first_unexpanded(s: Seq<Seq<char>>) -> int
    decreases s.len(),
{
    if s.len() == 0 {
        -1
    } else if first_unexpanded(s.drop_last()) >= 0 {
        first_unexpanded(s.drop_last())
    } else if expanded(s.last()) is None {
        s.len() - 1
    } else {
        -1
    }
}

/// The names of a list of collapsed lists: each expanded, added in turn,
/// a key already present left out.
pub open spec fn merged(s: Seq<Seq<char>>) -> Seq<Seq<char>>
    decreases s.len(),
{
    if s.len() == 0 {
        seq![]
    } else {
        match expanded(s.last()) {
            Some(e) => dedup_keys(merged(s.drop_last()) + e),
            None => merged(s.drop_last()),
        }
    }
}

/// Where the first `i` lists expand and list `i` does not, `i` is the
/// first that does not.
proof fn lemma_first_unexpanded_prefix(s: Seq<Seq<char>>, i: int)
    requires
        0 <= i < s.len(),
        first_unexpanded(s.take(i)) < 0,
        expanded(s[i]) is None,
    ensures
        first_unexpanded(s) == i,
    decreases s.len(),
{
    if i < s.len() - 1 {
        assert(s.drop_last().take(i) =~= s.take(i));
        lemma_first_unexpanded_prefix(s.drop_last(), i);
        assert(s.drop_last()[i] == s[i]);
    } else {
        assert(s.drop_last() =~= s.take(i));
    }
}

/// An artifact as written in a file.
#[derive(Debug)]
pub struct ArtifactRaw {
    pub done: Option<String>,
    pub partof: Option<NamesRaw>,
    pub text: Option<TextRaw>,
}

impl ArtifactRaw {
    /// An artifact with nothing but its name.
    pub fn empty() -> (r: ArtifactRaw)
        ensures
            r.done is None,
            r.partof is None,
            r.text is None,
    {
        ArtifactRaw { done: None, partof: None, text: None }
    }
}

/// Errors of loading an artifact file.
#[derive(Debug)]
pub enum LoadError {
    MarkdownError { msg: String },
}

/// One section of a markdown file, its attributes parsed: the name, the
/// `done` and `partof` of its attributes (or the error of parsing them),
/// and its text.
pub type MdParts = (Name, Result<(Option<String>, Option<NamesRaw>), LoadError>, Option<TextRaw>);

/// The message of a load error.
pub open spec fn load_msg(e: LoadError) -> Seq<char> {
    match e {
        LoadError::MarkdownError { msg } => msg@,
    }
}

/// The artifacts of the sections `secs`, taken in order: the first section
/// whose attributes did not parse, or whose name (ignoring case) an earlier
/// section already has, stops it with its error message.
pub open spec fn md_fold(secs: Seq<MdParts>) -> Result<Seq<(Name, ArtifactRaw)>, Seq<char>>
    decreases secs.len(),
{
    if secs.len() == 0 {
        Ok(seq![])
    } else {
        match md_fold(secs.drop_last()) {
            Err(m) => Err(m),
            Ok(out) => {
                let (name, attrs, text) = secs.last();
                match attrs {
                    Err(e) => Err(load_msg(e)),
                    Ok((done, partof)) => if first_index(name_keys_of(out), name.key_v()) >= 0 {
                        Err("name exists twice: "@ + name.raw_v())
                    } else {
                        Ok(out.push((name, ArtifactRaw { done, partof, text })))
                    },
                }
            },
        }
    }
}

/// The message of reading a line that names no artifact type.
pub open spec fn bad_name_msg() -> Seq<char> {
    "a name line names no artifact type"@
}

/// The artifacts of a markdown file: its sections in order (see
/// [`md_fold`]), then an error where reading stopped early.
pub open spec fn md_artifacts(secs: Seq<MdParts>, stop: Option<MdStop>) -> Result<
    Seq<(Name, ArtifactRaw)>,
    Seq<char>,
> {
    match md_fold(secs) {
        Err(m) => Err(m),
        Ok(out) => match stop {
            None => Ok(out),
            Some(MdStop::Error(e)) => Err(load_msg(e)),
            Some(MdStop::BadName) => Err(bad_name_msg()),
        },
    }
}

/// The artifacts of a markdown file from the sections [`from_markdown`]
/// read (their attributes parsed) and where it stopped: each section in
/// order, one entry each; a markdown error where a name is repeated
/// (ignoring case), where attributes did not parse, or where reading
/// stopped early.
pub fn artifacts_from_sections(sections: Vec<MdParts>, stop: Option<MdStop>) -> (r: Result<
    Vec<(Name, ArtifactRaw)>,
    LoadError,
>)
    ensures
        match (r, md_artifacts(sections@, stop)) {
            (Ok(v), Ok(s)) => v@ == s,
            (Err(e), Err(m)) => load_msg(e) == m,
            _ => false,
        },
{
    let ghost s0 = sections@;
    let mut rest = sections;
    let mut out: Vec<(Name, ArtifactRaw)> = Vec::new();
    let n: usize = rest.len();
    let mut i: usize = 0;
    assert(rest@ =~= s0.skip(0));
    assert(s0.take(0) =~= seq![]);
    while rest.len() > 0
        invariant
            i <= n,
            n == s0.len(),
            s0 == sections@,
            rest@ == s0.skip(i as int),
            md_fold(s0.take(i as int)) == Ok::<Seq<(Name, ArtifactRaw)>, Seq<char>>(out@),
        decreases rest@.len(),
    {
        let ghost out0 = out@;
        let (name, attrs, text) = rest.remove(0);
        let ghost cur = (name, attrs, text);
        proof {
            assert(s0.skip(i as int)[0] == s0[i as int]);
            assert(cur == s0[i as int]);
            assert(rest@ =~= s0.skip(i + 1));
            assert(s0.take(i + 1).drop_last() =~= s0.take(i as int));
            assert(s0.take(i + 1).last() == s0[i as int]);
        }
        let (done, partof) = match attrs {
            Ok(x) => x,
            Err(e) => {
                proof {
                    assert(md_fold(s0.take(i + 1)) == Err::<Seq<(Name, ArtifactRaw)>, Seq<char>>(load_msg(e)));
                    lemma_md_fold_err(s0, i as int + 1);
                    assert(md_fold(s0) == Err::<Seq<(Name, ArtifactRaw)>, Seq<char>>(load_msg(e)));
                    assert(md_artifacts(s0, stop) == Err::<Seq<(Name, ArtifactRaw)>, Seq<char>>(load_msg(e)));
                }
                return Err(e);
            },
        };
        match insert_from_parts(&mut out, name, done, partof, text) {
            Ok(()) => {
                proof {
                    lemma_first_index(name_keys_of(out@.drop_last()), out@.last().0.key_v());
                }
            },
            Err(e) => {
                proof {
                    assert(first_index(name_keys_of(out0), cur.0.key_v()) >= 0);
                    assert(md_fold(s0.take(i + 1)) == Err::<Seq<(Name, ArtifactRaw)>, Seq<char>>(load_msg(e)));
                    lemma_md_fold_err(s0, i as int + 1);
                    assert(md_fold(s0) == Err::<Seq<(Name, ArtifactRaw)>, Seq<char>>(load_msg(e)));
                    assert(md_artifacts(s0, stop) == Err::<Seq<(Name, ArtifactRaw)>, Seq<char>>(load_msg(e)));
                }
                return Err(e);
            },
        }
        i = i + 1;
    }
    assert(s0.take(n as int) =~= s0);
    match stop {
        None => Ok(out),
        Some(MdStop::Error(e)) => Err(e),
        Some(MdStop::BadName) => {
            let msg = "a name line names no artifact type".to_owned();
            Err(LoadError::MarkdownError { msg })
        },
    }
}

/// An error in a prefix of the sections is the error of them all.
proof fn lemma_md_fold_err(s: Seq<MdParts>, k: int)
    requires
        0 <= k <= s.len(),
        md_fold(s.take(k)) is Err,
    ensures
        md_fold(s) == md_fold(s.take(k)),
    decreases s.len(),
{
    if k < s.len() {
        assert(s.drop_last().take(k) =~= s.take(k));
        lemma_md_fold_err(s.drop_last(), k);
    } else {
        assert(s.take(k) =~= s);
    }
}

// ------------------------------------------------------------------
// File types

/// The kinds of artifact files.
#[derive(Debug, Clone, Copy, PartialEq, Eq, Structural)]
pub enum ArtFileType {
    Toml,
    Md,
    Json,
}

/// Index of the last `c` in `s`, or -1.
pub open spec fn last_index_of(s: Seq<char>, c: char) -> int
    decreases s.len(),
{
    if s.len() == 0 {
        -1
    } else if s.last() == c {
        s.len() - 1
    } else {
        last_index_of(s.drop_last(), c)
    }
}

/// The last component of a path, as `Path::components` gives it on Unix:
/// trailing `/` and `.` components are not components.
pub open spec fn last_component(p: Seq<char>) -> Seq<char>
    decreases p.len(),
{
    if p.len() == 0 {
        p
    } else if p.last() == '/' {
        last_component(p.drop_last())
    } else if p.last() == '.' && (p.len() == 1 || p[p.len() - 2] == '/') {
        last_component(p.drop_last())
    } else {
        p.skip(last_index_of(p, '/') + 1)
    }
}

/// The extension of a path (`Path::extension`): what follows the last
/// `.` of the file name, unless the name has no `.` but a leading one.
pub open spec fn extension(p: Seq<char>) -> Option<Seq<char>> {
    let name = last_component(p);
    let d = last_index_of(name, '.');
    if name.len() == 0 || name =~= seq!['.', '.'] || d <= 0 {
        None
    } else {
        Some(name.skip(d + 1))
    }
}

/// The file type named by a path's extension.
pub open spec fn file_type_of(p: Seq<char>) -> Option<ArtFileType> {
    match extension(p) {
        Some(e) => if e =~= seq!['t', 'o', 'm', 'l'] {
            Some(ArtFileType::Toml)
        } else if e =~= seq!['m', 'd'] {
            Some(ArtFileType::Md)
        } else if e =~= seq!['j', 's', 'o', 'n'] {
            Some(ArtFileType::Json)
        } else {
            None
        },
        None => None,
    }
}

proof fn lemma_last_index_of(s: Seq<char>, c: char)
    ensures
        -1 <= last_index_of(s, c) < s.len(),
        last_index_of(s, c) >= 0 ==> s[last_index_of(s, c)] == c,
        forall|i: int| last_index_of(s, c) < i < s.len() ==> s[i] != c,
    decreases s.len(),
{
    if s.len() > 0 && s.last() != c {
        lemma_last_index_of(s.drop_last(), c);
        assert forall|i: int| last_index_of(s, c) < i < s.len() implies s[i] != c by {
            if i < s.len() - 1 {
                assert(s.drop_last()[i] == s[i]);
            }
        }
    }
}

/// Executable form of [`last_index_of`] on `v[..n]`.
fn find_last(v: &[char], n: usize, c: char) -> (r: Option<usize>)
    requires
        n <= v@.len(),
    ensures
        match r {
            Some(i) => i as int == last_index_of(v@.take(n as int), c),
            None => last_index_of(v@.take(n as int), c) == -1,
        },
{
    let mut i: usize = n;
    while i > 0
        invariant
            i <= n <= v@.len(),
            last_index_of(v@.take(n as int), c) == last_index_of(v@.take(i as int), c),
        decreases i,
    {
        assert(v@.take(i as int).last() == v@[i - 1]);
        if v[i - 1] == c {
            return Some(i - 1);
        }
        assert(v@.take(i as int).drop_last() =~= v@.take(i - 1));
        i = i - 1;
    }
    None
}

/// The bounds `(start, end)` of the last component of the path `v`.
fn last_component_bounds(v: &[char]) -> (r: (usize, usize))
    ensures
        r.0 <= r.1 <= v@.len(),
        v@.subrange(r.0 as int, r.1 as int) == last_component(v@),
{
    let mut n: usize = v.len();
    assert(v@.take(n as int) =~= v@);
    while n > 0 && (v[n - 1] == '/' || (v[n - 1] == '.' && (n == 1 || v[n - 2] == '/')))
        invariant
            n <= v@.len(),
            last_component(v@) == last_component(v@.take(n as int)),
        decreases n,
    {
        assert(v@.take(n as int).drop_last() =~= v@.take(n - 1));
        assert(v@.take(n as int).last() == v@[n - 1]);
        if n > 1 {
            assert(v@.take(n as int)[n - 2] == v@[n - 2]);
        }
        n = n - 1;
    }
    proof {
        lemma_last_index_of(v@.take(n as int), '/');
        if n > 0 {
            assert(v@.take(n as int).last() == v@[n - 1]);
            if n > 1 {
                assert(v@.take(n as int)[n - 2] == v@[n - 2]);
            }
        }
    }
    let start: usize = match find_last(v, n, '/') {
        Some(i) => i + 1,
        None => 0,
    };
    assert(v@.subrange(start as int, n as int) =~= v@.take(n as int).skip(start as int));
    (start, n)
}

/// The index in `name` of its last `.`, if any.
fn last_dot(v: &[char], start: usize, n: usize) -> (r: Option<usize>)
    requires
        start <= n <= v@.len(),
    ensures
        match r {
            Some(d) => d as int == last_index_of(v@.subrange(start as int, n as int), '.') && d
                < n - start,
            None => last_index_of(v@.subrange(start as int, n as int), '.') == -1,
        },
{
    let ghost name = v@.subrange(start as int, n as int);
    let mut i: usize = n;
    assert(name.take(n - start) =~= name);
    while i > start
        invariant
            start <= i <= n <= v@.len(),
            name == v@.subrange(start as int, n as int),
            last_index_of(name, '.') == last_index_of(name.take(i - start), '.'),
        decreases i,
    {
        assert(name.take(i - start).last() == v@[i - 1]);
        if v[i - 1] == '.' {
            return Some(i - 1 - start);
        }
        assert(name.take(i - start).drop_last() =~= name.take(i - 1 - start));
        i = i - 1;
    }
    None
}

impl ArtFileType {
    /// The file type of a path, by its extension: `toml`, `md` or `json`.
    pub fn from_path(path: &str) -> (r: Option<ArtFileType>)
        ensures
            r == file_type_of(path@),
    {
        let v = str_chars(path);
        let (start, n) = last_component_bounds(v.as_slice());
        let ghost name = v@.subrange(start as int, n as int);
        let len: usize = n - start;
        let is_dotdot = len == 2 && v[start] == '.' && v[start + 1] == '.';
        proof {
            if len == 2 {
                assert(name[0] == v@[start as int] && name[1] == v@[start + 1]);
                if name =~= seq!['.', '.'] {
                    assert(name[0] == '.');
                }
            }
        }
        let d: usize = match last_dot(v.as_slice(), start, n) {
            Some(d) => d,
            None => 0,
        };
        if len == 0 || is_dotdot || d == 0 {
            return None;
        }
        let e = start + d + 1;
        let ghost ext = name.skip(d + 1);
        assert(ext =~= v@.subrange(e as int, n as int));
        let el: usize = n - e;
        if el == 4 && v[e] == 't' && v[e + 1] == 'o' && v[e + 2] == 'm' && v[e + 3] == 'l' {
            assert(ext =~= seq!['t', 'o', 'm', 'l']);
            Some(ArtFileType::Toml)
        } else if el == 2 && v[e] == 'm' && v[e + 1] == 'd' {
            assert(ext =~= seq!['m', 'd']);
            Some(ArtFileType::Md)
        } else if el == 4 && v[e] == 'j' && v[e + 1] == 's' && v[e + 2] == 'o' && v[e + 3] == 'n' {
            assert(ext =~= seq!['j', 's', 'o', 'n']);
            Some(ArtFileType::Json)
        } else {
            proof {
                if ext.len() > 0 {
                    assert(ext[0] == v@[e as int]);
                }
                if ext.len() > 1 {
                    assert(ext[1] == v@[e + 1]);
                }
                if ext.len() > 3 {
                    assert(ext[2] == v@[e + 2]);
                    assert(ext[3] == v@[e + 3]);
                }
            }
            None
        }
    }
}

// ------------------------------------------------------------------
// Reading markdown

/// `s` split at each `\n` (so there is always at least one piece).
pub open spec fn split_nl(s: Seq<char>) -> Seq<Seq<char>>
    decreases s.len(),
{
    if s.len() == 0 {
        seq![seq![]]
    } else {
        let r = split_nl(s.drop_last());
        if s.last() == '\n' {
            r.push(seq![])
        } else {
            r.update(r.len() - 1, r.last().push(s.last()))
        }
    }
}

/// A line ended by `\n` loses a `\r` before it.
pub open spec fn strip_cr(l: Seq<char>) -> Seq<char> {
    if l.len() > 0 && l.last() == '\r' {
        l.drop_last()
    } else {
        l
    }
}

/// The lines of `s`, as `BufRead::lines` gives them: split at `\n`, a
/// `\r` before the `\n` removed, and no empty line after a final `\n`.
pub open spec fn md_lines(s: Seq<char>) -> Seq<Seq<char>> {
    let r = split_nl(s);
    let ended = r.drop_last().map_values(|l: Seq<char>| strip_cr(l));
    if r.last().len() == 0 {
        ended
    } else {
        ended.push(r.last())
    }
}

/// Lines joined with `\n`.
pub open spec fn join_nl(s: Seq<Seq<char>>) -> Seq<char>
    decreases s.len(),
{
    if s.len() == 0 {
        seq![]
    } else if s.len() == 1 {
        s[0]
    } else {
        join_nl(s.drop_last()) + seq!['\n'] + s.last()
    }
}

/// Number of whitespace characters at the start of `s`.
pub open spec fn lead_ws(s: Seq<char>) -> nat
    decreases s.len(),
{
    if s.len() > 0 && is_ws(s[0]) {
        1 + lead_ws(s.drop_first())
    } else {
        0
    }
}

/// `s` without leading and trailing whitespace.
pub open spec fn ws_trim(s: Seq<char>) -> Seq<char> {
    trim_end(s.skip(lead_ws(s) as int))
}

/// `s` is a name by the pattern, whose type prefix is matched
/// case-insensitively (so `ſ` matches `s`).
pub open spec fn fold_name(s: Seq<char>) -> bool {
    &&& s.len() > 4
    &&& fold_type_at(s, 0)
    &&& s[3] == '-'
    &&& valid_elements(s.skip(4))
}

/// The name of a name line `#NAME`, with any whitespace around the name.
pub open spec fn name_line(l: Seq<char>) -> Option<Seq<char>> {
    if l.len() > 0 && l[0] == '#' && fold_name(ws_trim(l.skip(1))) {
        Some(ws_trim(l.skip(1)))
    } else {
        None
    }
}

/// Number of `c` at the start of `s`.
pub open spec fn lead_count(s: Seq<char>, c: char) -> nat
    decreases s.len(),
{
    if s.len() > 0 && s[0] == c {
        1 + lead_count(s.drop_first(), c)
    } else {
        0
    }
}

/// The line that ends the attributes: three or more `#`, then only
/// whitespace.
pub open spec fn attrs_end(l: Seq<char>) -> bool {
    &&& lead_count(l, '#') >= 3
    &&& forall|i: int| lead_count(l, '#') <= i < l.len() ==> is_ws(#[trigger] l[i])
}

/// What reading markdown stops at before the end of the text.
pub enum MdStopSpec {
    /// A second attribute block under the artifact with this raw name.
    Twice(Seq<char>),
    /// A name line whose name has a type prefix that is not ASCII.
    BadName,
}

/// A section being read: its name, its attributes text, and the lines
/// since the last name line or attribute end.
pub type MdState = (Option<Seq<char>>, Option<Seq<char>>, Seq<Seq<char>>);

/// A finished section: the raw name, the attributes text and the lines of
/// text.
pub type MdSec = (Seq<char>, Option<Seq<char>>, Seq<Seq<char>>);

/// Read one more line.
pub open spec fn md_step(secs: Seq<MdSec>, st: MdState, line: Seq<char>) -> (
    Seq<MdSec>,
    Option<MdStopSpec>,
    MdState,
) {
    match name_line(line) {
        Some(m) => {
            let secs2 = match st.0 {
                Some(n) => secs.push((n, st.1, st.2)),
                None => secs,
            };
            if type_of(m) is None {
                (secs2, Some(MdStopSpec::BadName), st)
            } else {
                (secs2, None, (Some(m), None, seq![]))
            }
        },
        None => if attrs_end(line) {
            if st.0 is Some && st.1 is Some {
                (secs, Some(MdStopSpec::Twice(st.0.unwrap())), st)
            } else {
                (secs, None, (st.0, Some(join_nl(st.2)), seq![]))
            }
        } else {
            (secs, None, (st.0, st.1, st.2.push(line)))
        },
    }
}

/// Read the lines, stopping at the first stop.
pub open spec fn md_run(lines: Seq<Seq<char>>) -> (Seq<MdSec>, Option<MdStopSpec>, MdState)
    decreases lines.len(),
{
    if lines.len() == 0 {
        (seq![], None, (None, None, seq![]))
    } else {
        let (secs, stop, st) = md_run(lines.drop_last());
        if stop is Some {
            (secs, stop, st)
        } else {
            md_step(secs, st, lines.last())
        }
    }
}

/// The sections of a markdown text, and what reading stopped at, if
/// anything: the section being read at the end of the text is finished.
pub open spec fn md_result(text: Seq<char>) -> (Seq<MdSec>, Option<MdStopSpec>) {
    let (secs, stop, st) = md_run(md_lines(text));
    if stop is None && st.0 is Some {
        (secs.push((st.0.unwrap(), st.1, st.2)), None)
    } else {
        (secs, stop)
    }
}

/// The text of a section: its lines joined and cleaned; none if empty.
pub open spec fn section_text(lines: Seq<Seq<char>>) -> Option<Seq<char>> {
    let t = cleaned(join_nl(lines));
    if t.len() == 0 {
        None
    } else {
        Some(t)
    }
}

/// One artifact read from markdown: its name, the text of its attributes
/// (YAML, parsed by the caller) and its text.
#[derive(Debug)]
pub struct MdSection {
    pub name: Name,
    pub attrs: Option<String>,
    pub text: Option<TextRaw>,
}

/// What reading markdown stopped at before the end of the text.
#[derive(Debug)]
pub enum MdStop {
    /// The text is malformed.
    Error(LoadError),
    /// A name line names an artifact whose type prefix is not ASCII; such a
    /// name has no type.
    BadName,
}

/// `x` is the section `s`.
pub open spec fn section_is(x: MdSection, s: MdSec) -> bool {
    &&& x.name.wf()
    &&& x.name.raw_v() == s.0
    &&& match (x.attrs, s.1) {
        (Some(a), Some(b)) => a@ == b,
        (None, None) => true,
        _ => false,
    }
    &&& match (x.text, section_text(s.2)) {
        (Some(t), Some(u)) => t.0@ == u,
        (None, None) => true,
        _ => false,
    }
}

/// The message of a second attribute block under `name`.
pub open spec fn twice_msg(name: Seq<char>) -> Seq<char> {
    "`###+\\s+` exists twice under "@ + name
}

pub(crate) proof fn lemma_split_nl_len(s: Seq<char>)
    ensures
        split_nl(s).len() >= 1,
    decreases s.len(),
{
    if s.len() > 0 {
        lemma_split_nl_len(s.drop_last());
    }
}

/// The lines of the text `v` (see [`md_lines`]).
pub fn split_lines(v: &[char]) -> (r: Vec<Vec<char>>)
    ensures
        vv(r@) == md_lines(v@),
{
    let mut out: Vec<Vec<char>> = Vec::new();
    let mut cur: Vec<char> = Vec::new();
    let mut k: usize = 0;
    assert(v@.take(0) =~= seq![]);
    assert(vv(out@) =~= split_nl(v@.take(0)).drop_last().map_values(|l: Seq<char>| strip_cr(l)));
    while k < v.len()
        invariant
            k <= v@.len(),
            split_nl(v@.take(k as int)).len() >= 1,
            vv(out@) == split_nl(v@.take(k as int)).drop_last().map_values(
                |l: Seq<char>| strip_cr(l),
            ),
            cur@ == split_nl(v@.take(k as int)).last(),
        decreases v@.len() - k,
    {
        let ghost r = split_nl(v@.take(k as int));
        let c = v[k];
        proof {
            assert(v@.take(k + 1).drop_last() =~= v@.take(k as int));
            assert(v@.take(k + 1).last() == c);
            lemma_split_nl_len(v@.take(k + 1));
        }
        if c == '\n' {
            let mut line = cur;
            if line.len() > 0 && line[line.len() - 1] == '\r' {
                line.pop();
                assert(line@ =~= strip_cr(r.last()));
            }
            let ghost o0 = vv(out@);
            out.push(line);
            cur = Vec::new();
            proof {
                let r2 = split_nl(v@.take(k + 1));
                assert(r2 == r.push(seq![]));
                assert(r2.drop_last() =~= r);
                assert(r =~= r.drop_last().push(r.last()));
                assert(vv(out@) =~= o0.push(strip_cr(r.last())));
                assert(r.map_values(|l: Seq<char>| strip_cr(l)) =~= r.drop_last().map_values(
                    |l: Seq<char>| strip_cr(l),
                ).push(strip_cr(r.last())));
            }
        } else {
            cur.push(c);
            proof {
                let r2 = split_nl(v@.take(k + 1));
                assert(r2 == r.update(r.len() - 1, r.last().push(c)));
                assert(r2.drop_last() =~= r.drop_last());
            }
        }
        k = k + 1;
    }
    assert(v@.take(v@.len() as int) =~= v@);
    if cur.len() > 0 {
        let ghost o0 = vv(out@);
        out.push(cur);
        assert(vv(out@) =~= o0.push(split_nl(v@).last()));
    }
    out
}

/// The lines `lines` joined with `\n`.
pub fn join_lines(lines: &[Vec<char>]) -> (r: String)
    ensures
        r@ == join_nl(vv(lines@)),
{
    let mut s = String::new();
    let mut i: usize = 0;
    assert(vv(lines@).take(0) =~= seq![]);
    while i < lines.len()
        invariant
            i <= lines@.len(),
            s@ == join_nl(vv(lines@).take(i as int)),
        decreases lines@.len() - i,
    {
        let ghost s0 = s@;
        if i > 0 {
            string_push(&mut s, '\n');
        }
        let line = &lines[i];
        let mut j: usize = 0;
        let ghost s1 = s@;
        while j < line.len()
            invariant
                j <= line@.len(),
                s@ == s1 + line@.take(j as int),
            decreases line@.len() - j,
        {
            string_push(&mut s, line[j]);
            j = j + 1;
            assert(s@ =~= s1 + line@.take(j as int));
        }
        proof {
            assert(line@.take(line@.len() as int) =~= line@);
            let t = vv(lines@).take(i + 1);
            assert(t.drop_last() =~= vv(lines@).take(i as int));
            assert(t.last() == line@);
            if i == 0 {
                assert(t.len() == 1);
                assert(s@ =~= t[0]);
            } else {
                assert(s@ =~= join_nl(t.drop_last()) + seq!['\n'] + t.last());
            }
        }
        i = i + 1;
    }
    assert(vv(lines@).take(lines@.len() as int) =~= vv(lines@));
    s
}

/// The bounds `(a, b)` of `ws_trim(v[lo..])` in `v`.
fn ws_trim_bounds(v: &[char], lo: usize) -> (r: (usize, usize))
    requires
        lo <= v@.len(),
    ensures
        lo <= r.0 <= r.1 <= v@.len(),
        v@.subrange(r.0 as int, r.1 as int) == ws_trim(v@.skip(lo as int)),
{
    let mut a: usize = lo;
    assert(v@.skip(lo as int).skip(0) =~= v@.skip(lo as int));
    while a < v.len() && char_is_ws(v[a])
        invariant
            lo <= a <= v@.len(),
            lead_ws(v@.skip(lo as int)) == (a - lo) + lead_ws(v@.skip(a as int)),
        decreases v@.len() - a,
    {
        assert(v@.skip(a as int)[0] == v@[a as int]);
        assert(v@.skip(a as int).drop_first() =~= v@.skip(a + 1));
        a = a + 1;
    }
    proof {
        if a < v@.len() {
            assert(v@.skip(a as int)[0] == v@[a as int]);
        }
    }
    let ghost t = v@.skip(lo as int).skip(lead_ws(v@.skip(lo as int)) as int);
    assert(t =~= v@.skip(a as int));
    let mut b: usize = v.len();
    assert(t.take(b - a) =~= t);
    while b > a && char_is_ws(v[b - 1])
        invariant
            a <= b <= v@.len(),
            t == v@.skip(a as int),
            trim_end_len(t) == trim_end_len(t.take(b - a)),
        decreases b,
    {
        assert(t.take(b - a).last() == v@[b - 1]);
        assert(t.take(b - a).drop_last() =~= t.take(b - 1 - a));
        b = b - 1;
    }
    proof {
        if b > a {
            assert(t.take(b - a).last() == v@[b - 1]);
        }
        assert(v@.subrange(a as int, b as int) =~= t.take(b - a));
    }
    (a, b)
}

/// The bounds of the name of the name line `l`, if it is one.
pub(crate) fn check_name_line(l: &[char]) -> (r: Option<(usize, usize)>)
    ensures
        match name_line(l@) {
            Some(m) => r matches Some((a, b)) && a <= b <= l@.len() && l@.subrange(
                a as int,
                b as int,
            ) == m,
            None => r is None,
        },
{
    if l.len() == 0 || l[0] != '#' {
        return None;
    }
    let (a, b) = ws_trim_bounds(l, 1);
    let ghost m = l@.subrange(a as int, b as int);
    if b - a <= 4 || l[a + 3] != '-' {
        return None;
    }
    let ft = check_fold_type(l, a);
    assert(fold_type_at(l@, a as int) == fold_type_at(m, 0));
    if !ft {
        return None;
    }
    let ok = check_elements(l, a + 4, b);
    assert(m.skip(4) =~= l@.subrange(a + 4, b as int));
    if ok {
        Some((a, b))
    } else {
        None
    }
}

/// Whether `l` ends an attribute block.
pub(crate) fn check_attrs_end(l: &[char]) -> (r: bool)
    ensures
        r == attrs_end(l@),
{
    let mut h: usize = 0;
    assert(l@.skip(0) =~= l@);
    while h < l.len() && l[h] == '#'
        invariant
            h <= l@.len(),
            lead_count(l@, '#') == h + lead_count(l@.skip(h as int), '#'),
        decreases l@.len() - h,
    {
        assert(l@.skip(h as int)[0] == l@[h as int]);
        assert(l@.skip(h as int).drop_first() =~= l@.skip(h + 1));
        h = h + 1;
    }
    proof {
        if h < l@.len() {
            assert(l@.skip(h as int)[0] == l@[h as int]);
        }
    }
    if h < 3 {
        return false;
    }
    let mut i: usize = h;
    while i < l.len()
        invariant
            h <= i <= l@.len(),
            lead_count(l@, '#') == h,
            forall|j: int| h <= j < i ==> is_ws(#[trigger] l@[j]),
        decreases l@.len() - i,
    {
        if !char_is_ws(l[i]) {
            return false;
        }
        i = i + 1;
    }
    true
}

/// Once reading has stopped, further lines change nothing.
proof fn lemma_md_run_stop(s: Seq<Seq<char>>, j: int, k: int)
    requires
        0 <= j <= k <= s.len(),
        md_run(s.take(j)).1 is Some,
    ensures
        md_run(s.take(k)) == md_run(s.take(j)),
    decreases k - j,
{
    if k > j {
        lemma_md_run_stop(s, j, k - 1);
        assert(s.take(k).drop_last() =~= s.take(k - 1));
    }
}

/// The plain value of the section being read.
pub open spec fn state_view(name: Option<Name>, attrs: Option<String>, other: Seq<Vec<char>>) -> MdState {
    (
        match name {
            Some(n) => Some(n.raw_v()),
            None => None,
        },
        match attrs {
            Some(a) => Some(a@),
            None => None,
        },
        vv(other),
    )
}

/// Finish a section.
fn make_section(name: Name, attrs: Option<String>, other: Vec<Vec<char>>) -> (r: MdSection)
    requires
        name.wf(),
    ensures
        section_is(r, (name.raw_v(), state_view(Some(name), attrs, other@).1, vv(other@))),
{
    let mut t = join_lines(other.as_slice());
    clean_text(&mut t);
    let text = if t.as_str().is_empty() {
        None
    } else {
        Some(TextRaw(t))
    };
    MdSection { name, attrs, text }
}

/// Read the artifacts of a markdown text: each starts at a name line
/// (`# REQ-foo`), may have attributes ended by a `###` line, and has the
/// lines after them as text. Text before the first name line is ignored.
///
/// Returns the sections read and what reading stopped at, if anything:
/// the sections before the stop are complete.
pub fn from_markdown(text: &str) -> (r: (Vec<MdSection>, Option<MdStop>))
    ensures
        r.0@.len() == md_result(text@).0.len(),
        forall|i: int|
            0 <= i < r.0@.len() ==> section_is(#[trigger] r.0@[i], md_result(text@).0[i]),
        match (r.1, md_result(text@).1) {
            (None, None) => true,
            (Some(MdStop::BadName), Some(MdStopSpec::BadName)) => true,
            (
                Some(MdStop::Error(LoadError::MarkdownError { msg })),
                Some(MdStopSpec::Twice(n)),
            ) => msg@ == twice_msg(n),
            _ => false,
        },
{
    let v = str_chars(text);
    let mut lines = split_lines(v.as_slice());
    let ghost ls = vv(lines@);
    let mut out: Vec<MdSection> = Vec::new();
    let ghost mut secs: Seq<MdSec> = seq![];
    let mut name: Option<Name> = None;
    let mut attrs: Option<String> = None;
    let mut other: Vec<Vec<char>> = Vec::new();
    let n: usize = lines.len();
    let mut i: usize = 0;
    assert(ls.take(0) =~= seq![]);
    assert(vv(other@) =~= seq![]);
    assert(vv(lines@) =~= ls.skip(0));
    while lines.len() > 0
        invariant
            ls == md_lines(text@),
            ls.len() == n,
            i <= n,
            vv(lines@) == ls.skip(i as int),
            md_run(ls.take(i as int)) == (secs, None::<MdStopSpec>, state_view(name, attrs, other@)),
            name matches Some(nm) ==> nm.wf(),
            out@.len() == secs.len(),
            forall|k: int| 0 <= k < out@.len() ==> section_is(#[trigger] out@[k], secs[k]),
        decreases lines@.len(),
    {
        let ghost l0 = lines@;
        let line = lines.remove(0);
        proof {
            assert(vv(l0).len() == l0.len());
            assert(i < ls.len());
            assert(vv(l0)[0] == line@);
            assert(ls.skip(i as int)[0] == ls[i as int]);
            assert forall|t: int| 0 <= t < lines@.len() implies #[trigger] vv(lines@)[t] == ls.skip(
                i + 1,
            )[t] by {
                assert(lines@[t] == l0[t + 1]);
                assert(vv(l0)[t + 1] == ls.skip(i as int)[t + 1]);
            }
            assert(vv(lines@) =~= ls.skip(i + 1));
            assert(ls.take(i + 1).drop_last() =~= ls.take(i as int));
            assert(ls.take(i + 1).last() == line@);
        }
        let ghost st = state_view(name, attrs, other@);
        match check_name_line(line.as_slice()) {
            Some((a, b)) => {
                let ghost m = line@.subrange(a as int, b as int);
                let prev = name;
                name = None;
                let prev_attrs = attrs;
                attrs = None;
                let prev_other = other;
                other = Vec::new();
                match prev {
                    Some(pn) => {
                        let ghost out0 = out@;
                        let sec = make_section(pn, prev_attrs, prev_other);
                        out.push(sec);
                        proof {
                            secs = secs.push((st.0.unwrap(), st.1, st.2));
                            assert forall|k: int| 0 <= k < out@.len() implies section_is(
                                #[trigger] out@[k],
                                secs[k],
                            ) by {
                                if k < out0.len() {
                                    assert(out@[k] == out0[k]);
                                }
                            }
                        }
                    },
                    None => {},
                }
                if b - a < 3 || !ascii_type_ok(line.as_slice(), a) {
                    assert(type_of(m) == type_of(line@.skip(a as int)));
                    proof {
                        lemma_md_run_stop(ls, i + 1, n as int);
                        assert(ls.take(n as int) =~= ls);
                    }
                    return (out, Some(MdStop::BadName));
                }
                assert(type_of(m) == type_of(line@.skip(a as int)));
                let raw = chars_to_string(line.as_slice(), a, b);
                let nm = match Name::from_str(raw.as_str()) {
                    Ok(x) => x,
                    Err(_) => {
                        assert(false);
                        return (out, None);
                    },
                };
                name = Some(nm);
                assert(vv(other@) =~= seq![]);
            },
            None => {
                if check_attrs_end(line.as_slice()) {
                    if name.is_some() && attrs.is_some() {
                        let mut msg = "`###+\\s+` exists twice under ".to_owned();
                        match &name {
                            Some(x) => msg.append(x.as_str()),
                            None => {},
                        }
                        proof {
                            lemma_md_run_stop(ls, i + 1, n as int);
                            assert(ls.take(n as int) =~= ls);
                        }
                        return (out, Some(MdStop::Error(LoadError::MarkdownError { msg })));
                    }
                    let joined = join_lines(other.as_slice());
                    attrs = Some(joined);
                    other = Vec::new();
                    assert(vv(other@) =~= seq![]);
                } else {
                    let ghost o0 = other@;
                    other.push(line);
                    assert(vv(other@) =~= vv(o0).push(line@));
                }
            },
        }
        i = i + 1;
    }
    assert(ls.take(n as int) =~= ls);
    let ghost st = state_view(name, attrs, other@);
    match name {
        Some(nm) => {
            let ghost out0 = out@;
            let sec = make_section(nm, attrs, other);
            out.push(sec);
            proof {
                secs = secs.push((st.0.unwrap(), st.1, st.2));
                assert forall|k: int| 0 <= k < out@.len() implies section_is(
                    #[trigger] out@[k],
                    secs[k],
                ) by {
                    if k < out0.len() {
                        assert(out@[k] == out0[k]);
                    }
                }
            }
        },
        None => {},
    }
    (out, None)
}

/// Put the artifact `name` with its parts into `out`; an error if the
/// name was already there.
pub fn insert_from_parts(
    out: &mut Vec<(Name, ArtifactRaw)>,
    name: Name,
    done: Option<String>,
    partof: Option<NamesRaw>,
    text: Option<TextRaw>,
) -> (r: Result<(), LoadError>)
    ensures
        final(out)@ == upsert_name(
            old(out)@,
            name,
            ArtifactRaw { done, partof, text },
        ),
        match r {
            Ok(()) => first_index(name_keys_of(old(out)@), name.key_v()) < 0,
            Err(LoadError::MarkdownError { msg }) => first_index(
                name_keys_of(old(out)@),
                name.key_v(),
            ) >= 0 && msg@ == "name exists twice: "@ + name.raw_v(),
        },
{
    let mut msg = "name exists twice: ".to_owned();
    msg.append(name.as_str());
    let art = ArtifactRaw { done, partof, text };
    match insert_by_name(out, name, art) {
        Some(_) => Err(LoadError::MarkdownError { msg }),
        None => Ok(()),
    }
}

// ------------------------------------------------------------------
// Writing markdown

/// The YAML document that serde_yaml writes for the one-entry map
/// `{key: value}`.
pub uninterp spec fn yaml_entry_doc(key: Seq<char>, value: Seq<char>) -> Seq<char>;

/// `serde_yaml::to_string` of the one-entry map `{key: value}`: YAML text
/// that starts with the document marker `---` and a newline (yaml-rust's
/// emitter writes it first). Claimed: the result is a function of the key
/// and the value (named [`yaml_entry_doc`]) and starts with those four
/// characters; the rest of the YAML text is not stated.
#[verifier::external_body]
fn yaml_entry(key: &str, value: &str) -> (r: String)
    ensures
        r@ == yaml_entry_doc(key@, value@),
        r@.len() >= 4,
        r@.take(4) == seq!['-', '-', '-', '\n'],
{
    let mut map = std::collections::BTreeMap::new();
    map.insert(key, value);
    serde_yaml::to_string(&map).expect("a map of strings serializes")
}

/// The `done` attribute as written: the YAML document of the entry
/// `done: ...` without its marker.
pub open spec fn yaml_done_body(done: Seq<char>) -> Seq<char> {
    yaml_entry_doc("done"@, done).skip(4)
}

/// One `- NAME` line per name.
pub open spec fn partof_lines(p: Seq<Name>) -> Seq<char>
    decreases p.len(),
{
    if p.len() == 0 {
        seq![]
    } else {
        partof_lines(p.drop_last()) + "- "@ + p.last().raw_v() + "\n"@
    }
}

/// The value of the `partof` attribute as written: a single name on the
/// same line, several as a list sorted by key.
pub open spec fn partof_md(p: Seq<Name>) -> Seq<char> {
    if p.len() == 1 {
        " "@ + p[0].raw_v()
    } else {
        "\n"@ + partof_lines(isort(p))
    }
}

/// `out` with the attribute block of `raw` written.
pub open spec fn attrs_md(out: Seq<char>, raw: ArtifactRaw) -> Seq<char> {
    let o1 = match raw.done {
        Some(d) => out + yaml_done_body(d@) + "\n\n"@,
        None => out,
    };
    let o2 = match raw.partof {
        Some(p) => o1 + "partof:"@ + partof_md(p.inner.0@),
        None => o1,
    };
    trim_end(o2) + "\n###\n"@
}

/// `out` with the artifact `name` written: its name line, its attributes
/// if it has any, its text, and then exactly two blank lines.
pub open spec fn artifact_md(out: Seq<char>, name: Name, raw: ArtifactRaw) -> Seq<char> {
    let o1 = out + "# "@ + name.raw_v() + "\n"@;
    let o2 = if raw.done is Some || raw.partof is Some {
        attrs_md(o1, raw)
    } else {
        o1
    };
    let o3 = match raw.text {
        Some(t) => o2 + t.0@,
        None => o2,
    };
    trim_end(o3) + "\n\n\n"@
}

/// The artifacts written one after the other.
pub open spec fn artifacts_md(arts: Seq<(Name, ArtifactRaw)>) -> Seq<char>
    decreases arts.len(),
{
    if arts.len() == 0 {
        seq![]
    } else {
        artifact_md(artifacts_md(arts.drop_last()), arts.last().0, arts.last().1)
    }
}

/// The markdown of the artifacts, without whitespace at the end.
pub open spec fn markdown_of(arts: Seq<(Name, ArtifactRaw)>) -> Seq<char> {
    trim_end(artifacts_md(arts))
}

/// No artifact has an empty `partof`.
pub open spec fn partofs_nonempty(arts: Seq<(Name, ArtifactRaw)>) -> bool {
    forall|i: int|
        0 <= i < arts.len() ==> ((#[trigger] arts[i]).1.partof matches Some(p) ==> p.inner.0@.len()
            > 0)
}

/// Write the attribute block of `raw`.
fn push_attrs(out: &mut String, raw: &ArtifactRaw)
    requires
        raw.partof matches Some(p) ==> p.inner.0@.len() > 0,
    ensures
        final(out)@ == attrs_md(old(out)@, *raw),
{
    let ghost o0 = out@;
    match &raw.done {
        Some(done) => {
            let doc = yaml_entry("done", done.as_str());
            let v = str_chars(doc.as_str());
            let body = chars_to_string(v.as_slice(), 4, v.len());
            out.append(body.as_str());
            out.append("\n\n");
            assert(body@ =~= yaml_done_body(done@));
            assert(out@ =~= o0 + yaml_done_body(done@) + "\n\n"@);
        },
        None => {},
    }
    let ghost o1 = out@;
    match &raw.partof {
        Some(p) => {
            out.append("partof:");
            let names = &p.inner.0;
            if names.len() == 1 {
                out.append(" ");
                out.append(names[0].as_str());
                assert(out@ =~= o1 + "partof:"@ + (" "@ + names@[0].raw_v()));
            } else {
                out.append("\n");
                let mut copy: Vec<Name> = Vec::new();
                let mut i: usize = 0;
                while i < names.len()
                    invariant
                        i <= names@.len(),
                        copy@ == names@.take(i as int),
                    decreases names@.len() - i,
                {
                    copy.push(names[i].clone());
                    i = i + 1;
                    assert(copy@ =~= names@.take(i as int));
                }
                assert(names@.take(names@.len() as int) =~= names@);
                let sorted = sort_vec(copy);
                let ghost o2 = out@;
                let mut j: usize = 0;
                assert(sorted@.take(0) =~= seq![]);
                assert(out@ =~= o2 + partof_lines(sorted@.take(0)));
                while j < sorted.len()
                    invariant
                        j <= sorted@.len(),
                        out@ == o2 + partof_lines(sorted@.take(j as int)),
                    decreases sorted@.len() - j,
                {
                    out.append("- ");
                    out.append(sorted[j].as_str());
                    out.append("\n");
                    proof {
                        assert(sorted@.take(j + 1).drop_last() =~= sorted@.take(j as int));
                        assert(sorted@.take(j + 1).last() == sorted@[j as int]);
                        assert(out@ =~= o2 + partof_lines(sorted@.take(j + 1)));
                    }
                    j = j + 1;
                }
                assert(sorted@.take(sorted@.len() as int) =~= sorted@);
                assert(out@ =~= o1 + "partof:"@ + ("\n"@ + partof_lines(isort(names@))));
            }
        },
        None => {},
    }
    string_trim_right(out);
    out.append("\n###\n");
}

/// Write the artifact `name`.
fn push_artifact_md(out: &mut String, name: &Name, raw: &ArtifactRaw)
    requires
        raw.partof matches Some(p) ==> p.inner.0@.len() > 0,
    ensures
        final(out)@ == artifact_md(old(out)@, *name, *raw),
{
    out.append("# ");
    out.append(name.as_str());
    out.append("\n");
    if raw.done.is_some() || raw.partof.is_some() {
        push_attrs(out, raw);
    }
    match &raw.text {
        Some(t) => out.append(t.0.as_str()),
        None => {},
    }
    string_trim_right(out);
    out.append("\n\n\n");
}

/// Write the artifacts as markdown, in order.
pub fn to_markdown(raw_artifacts: &Vec<(Name, ArtifactRaw)>) -> (r: String)
    requires
        partofs_nonempty(raw_artifacts@),
    ensures
        r@ == markdown_of(raw_artifacts@),
{
    let mut out = String::new();
    let mut i: usize = 0;
    assert(raw_artifacts@.take(0) =~= seq![]);
    while i < raw_artifacts.len()
        invariant
            i <= raw_artifacts@.len(),
            partofs_nonempty(raw_artifacts@),
            out@ == artifacts_md(raw_artifacts@.take(i as int)),
        decreases raw_artifacts@.len() - i,
    {
        let (name, raw) = &raw_artifacts[i];
        assert(raw_artifacts@[i as int] == (*name, *raw));
        push_artifact_md(&mut out, name, raw);
        proof {
            assert(raw_artifacts@.take(i + 1).drop_last() =~= raw_artifacts@.take(i as int));
            assert(raw_artifacts@.take(i + 1).last() == (*name, *raw));
        }
        i = i + 1;
    }
    assert(raw_artifacts@.take(raw_artifacts@.len() as int) =~= raw_artifacts@);
    string_trim_right(&mut out);
    out
}

} // verus!
