//! Where artifacts are implemented: references to artifact names in source
//! code (`#SPC-foo`, `#SPC-foo.sub`), the `#ART-SKIP` / `#ART-DONE`
//! markers that turn reading off and on, and the joining of the found
//! places into one implementation per artifact.
use vstd::prelude::*;
use crate::artifact::{sub_keys, CodeLoc, ImplCode};
use crate::lint::{Category, Level, Lint};
use crate::name::{
    ascii_upper, char_ascii_upper, char_is_name_char, find_run_end, is_name_char, is_tst_dash,
    lemma_run_end, prefix_type, run_end, type_of, upper, valid_elements, valid_name,
    valid_subname, valid_sub_body, all_name_chars, Name, SubName,
};
use crate::text::{chars_to_string, str_chars};

verus! {

// ------------------------------------------------------------------
// The reference grammar

/// `c` matches the ASCII upper-case letter (or other ASCII character) `u`
/// case-insensitively, with the simple case folding of the pattern: `S`
/// also matches `ſ` and `K` the Kelvin sign.
pub open spec fn ci_is(c: char, u: char) -> bool {
    ||| ascii_upper(c) == u
    ||| (u == 'S' && c == '\u{17f}')
    ||| (u == 'K' && c == '\u{212a}')
}

/// The case-insensitive type prefix `REQ`, `SPC` or `TST` at `j`.
pub open spec fn fold_type_at(s: Seq<char>, j: int) -> bool {
    &&& 0 <= j && j + 3 <= s.len()
    &&& {
        ||| (ci_is(s[j], 'R') && ci_is(s[j + 1], 'E') && ci_is(s[j + 2], 'Q'))
        ||| (ci_is(s[j], 'S') && ci_is(s[j + 1], 'P') && ci_is(s[j + 2], 'C'))
        ||| (ci_is(s[j], 'T') && ci_is(s[j + 1], 'S') && ci_is(s[j + 2], 'T'))
    }
}

/// A name reference starts at `k`: `#`, a type prefix, `-` and a name
/// character.
pub open spec fn name_start(s: Seq<char>, k: int) -> bool {
    &&& 0 <= k && k + 5 < s.len()
    &&& s[k] == '#'
    &&& fold_type_at(s, k + 1)
    &&& s[k + 4] == '-'
    &&& is_name_char(s[k + 5])
}

/// The end of the name elements that start at `j`: name characters, and
/// each `-` that a name character follows (the greedy `(C+-)*C+`).
pub open spec fn name_end(s: Seq<char>, j: int) -> int
    decreases s.len() - j,
{
    if j < 0 || j >= s.len() {
        j
    } else if is_name_char(s[j]) || (s[j] == '-' && j + 1 < s.len() && is_name_char(s[j + 1])) {
        name_end(s, j + 1)
    } else {
        j
    }
}

/// The end of the optional subname `.(tst-)?C+` at `e`; `e` where there is
/// none. `tst-` is taken when a name character follows it.
pub open spec fn sub_end(s: Seq<char>, e: int) -> int {
    if 0 <= e < s.len() && s[e] == '.' {
        if is_tst_dash(s.skip(e + 1)) && e + 5 < s.len() && is_name_char(s[e + 5]) {
            run_end(s, e + 5)
        } else if e + 1 < s.len() && is_name_char(s[e + 1]) {
            run_end(s, e + 1)
        } else {
            e
        }
    } else {
        e
    }
}

/// The marker `#ART-SKIP` (case-insensitive) at `k`.
pub open spec fn skip_at(s: Seq<char>, k: int) -> bool {
    &&& 0 <= k && k + 9 <= s.len()
    &&& s[k] == '#' && ci_is(s[k + 1], 'A') && ci_is(s[k + 2], 'R') && ci_is(s[k + 3], 'T')
    &&& s[k + 4] == '-' && ci_is(s[k + 5], 'S') && ci_is(s[k + 6], 'K') && ci_is(s[k + 7], 'I')
    &&& ci_is(s[k + 8], 'P')
}

/// The marker `#ART-DONE` (case-insensitive) at `k`.
pub open spec fn done_at(s: Seq<char>, k: int) -> bool {
    &&& 0 <= k && k + 9 <= s.len()
    &&& s[k] == '#' && ci_is(s[k + 1], 'A') && ci_is(s[k + 2], 'R') && ci_is(s[k + 3], 'T')
    &&& s[k + 4] == '-' && ci_is(s[k + 5], 'D') && ci_is(s[k + 6], 'O') && ci_is(s[k + 7], 'N')
    &&& ci_is(s[k + 8], 'E')
}

/// A reference found in the text: where its `#` is, the raw name, and the
/// raw subname (with its leading `.`) if there is one.
pub type Found = (int, Seq<char>, Option<Seq<char>>);

/// The reference whose name starts at `k`.
pub open spec fn found_at(s: Seq<char>, k: int) -> Found {
    let e = name_end(s, k + 5);
    let t = sub_end(s, e);
    (k, s.subrange(k + 1, e), if t > e { Some(s.subrange(e, t)) } else { None })
}

/// `f` followed by the references of `rest`; nothing if `rest` is nothing.
pub open spec fn prepend(f: Seq<Found>, rest: Option<Seq<Found>>) -> Option<Seq<Found>> {
    match rest {
        Some(r) => Some(f + r),
        None => None,
    }
}

/// The references of `s` from index `k` on, reading while `skipping` is
/// off; `None` where a reference that is read has a type prefix that is
/// not ASCII (`ſPC-foo`), which the name type cannot hold.
///
/// Each `#` is tried in turn: a match never holds a `#` after its first
/// character, so this is the left-to-right, non-overlapping matching of
/// the pattern `#NAME(.SUB)?|#ART-SKIP|#ART-DONE`.
pub open spec fn scan(s: Seq<char>, k: int, skipping: bool) -> Option<Seq<Found>>
    decreases s.len() - k,
{
    if k < 0 || k >= s.len() {
        Some(seq![])
    } else if name_start(s, k) {
        if skipping {
            scan(s, k + 1, skipping)
        } else if type_of(s.skip(k + 1)) is None {
            None
        } else {
            prepend(seq![found_at(s, k)], scan(s, k + 1, false))
        }
    } else if skip_at(s, k) {
        scan(s, k + 1, true)
    } else if done_at(s, k) {
        scan(s, k + 1, false)
    } else {
        scan(s, k + 1, skipping)
    }
}

/// The line (counted from 0) of index `k`: the number of `\n` before it.
pub open spec fn line_of(s: Seq<char>, k: int) -> int
    decreases k,
{
    if k <= 0 || k > s.len() {
        0
    } else {
        line_of(s, k - 1) + if s[k - 1] == '\n' {
            1int
        } else {
            0int
        }
    }
}

/// The place, name and subname of one parsed reference agree with `f`.
pub open spec fn loc_is(
    r: (CodeLoc, Name, Option<SubName>),
    f: Found,
    file: Seq<char>,
    s: Seq<char>,
) -> bool {
    &&& r.0.file@ == file
    &&& r.0.line == line_of(s, f.0)
    &&& r.1.wf()
    &&& r.1.raw_v() == f.1
    &&& match (r.2, f.2) {
        (Some(sub), Some(raw)) => sub.wf() && sub.raw_v() == raw,
        (None, None) => true,
        _ => false,
    }
}

// ------------------------------------------------------------------
// Lemmas

proof fn lemma_name_end(s: Seq<char>, j: int)
    requires
        0 <= j < s.len(),
        is_name_char(s[j]),
    ensures
        j < name_end(s, j) <= s.len(),
        is_name_char(s[name_end(s, j) - 1]),
        forall|i: int|
            j <= i < name_end(s, j) ==> is_name_char(#[trigger] s[i]) || (s[i] == '-' && i + 1
                < name_end(s, j) && is_name_char(s[i + 1])),
    decreases s.len() - j,
{
    if j + 1 < s.len() && (is_name_char(s[j + 1]) || (s[j + 1] == '-' && j + 2 < s.len()
        && is_name_char(s[j + 2]))) {
        if is_name_char(s[j + 1]) {
            lemma_name_end(s, j + 1);
        } else {
            assert(name_end(s, j + 1) == name_end(s, j + 2));
            lemma_name_end(s, j + 2);
        }
    } else {
        assert(name_end(s, j + 1) == j + 1);
    }
}

proof fn lemma_found_name_valid(s: Seq<char>, k: int)
    requires
        name_start(s, k),
        type_of(s.skip(k + 1)) is Some,
    ensures
        valid_name(found_at(s, k).1),
        k + 5 < name_end(s, k + 5) <= s.len(),
{
    let e = name_end(s, k + 5);
    lemma_name_end(s, k + 5);
    let n = s.subrange(k + 1, e);
    assert(n[0] == s.skip(k + 1)[0] && n[1] == s.skip(k + 1)[1] && n[2] == s.skip(k + 1)[2]);
    let b = n.skip(4);
    assert(b =~= s.subrange(k + 5, e));
    assert forall|i: int| 0 <= i < b.len() implies (is_name_char(#[trigger] b[i]) || b[i] == '-') by {
        assert(b[i] == s[k + 5 + i]);
    }
    assert forall|i: int| 0 <= i < b.len() - 1 && #[trigger] b[i] == '-' implies b[i + 1] != '-' by {
        assert(b[i] == s[k + 5 + i]);
        assert(b[i + 1] == s[k + 5 + i + 1]);
    }
    assert(b.last() == s[e - 1]);
}

proof fn lemma_found_sub_valid(s: Seq<char>, e: int)
    requires
        0 <= e <= s.len(),
    ensures
        e <= sub_end(s, e) <= s.len(),
        sub_end(s, e) > e ==> valid_subname(s.subrange(e, sub_end(s, e))),
{
    if 0 <= e < s.len() && s[e] == '.' {
        let t = sub_end(s, e);
        let r = s.subrange(e, t);
        if is_tst_dash(s.skip(e + 1)) && e + 5 < s.len() && is_name_char(s[e + 5]) {
            lemma_run_end(s, e + 5);
            let b = r.skip(1);
            assert(b[0] == s.skip(e + 1)[0] && b[1] == s.skip(e + 1)[1]);
            assert(b[2] == s.skip(e + 1)[2] && b[3] == s.skip(e + 1)[3]);
            assert forall|i: int| 0 <= i < b.skip(4).len() implies is_name_char(#[trigger] b.skip(4)[i]) by {
                assert(b.skip(4)[i] == s[e + 5 + i]);
            }
            assert(valid_sub_body(b));
        } else if e + 1 < s.len() && is_name_char(s[e + 1]) {
            lemma_run_end(s, e + 1);
            let b = r.skip(1);
            assert forall|i: int| 0 <= i < b.len() implies is_name_char(#[trigger] b[i]) by {
                assert(b[i] == s[e + 1 + i]);
            }
            assert(valid_sub_body(b));
        }
    }
}

// ------------------------------------------------------------------
// Scanning

/// Executable form of [`ci_is`].
fn char_ci_is(c: char, u: char) -> (r: bool)
    ensures
        r == ci_is(c, u),
{
    char_ascii_upper(c) == u || (u == 'S' && c == '\u{17f}') || (u == 'K' && c == '\u{212a}')
}

/// Executable form of [`fold_type_at`].
pub(crate) fn check_fold_type(v: &[char], j: usize) -> (r: bool)
    ensures
        r == fold_type_at(v@, j as int),
{
    if j > v.len() || v.len() - j < 3 {
        return false;
    }
    let a = v[j];
    let b = v[j + 1];
    let c = v[j + 2];
    (char_ci_is(a, 'R') && char_ci_is(b, 'E') && char_ci_is(c, 'Q')) || (char_ci_is(a, 'S')
        && char_ci_is(b, 'P') && char_ci_is(c, 'C')) || (char_ci_is(a, 'T') && char_ci_is(b, 'S')
        && char_ci_is(c, 'T'))
}

/// Executable form of [`name_start`].
fn check_name_start(v: &[char], k: usize) -> (r: bool)
    requires
        k < v@.len(),
    ensures
        r == name_start(v@, k as int),
{
    if v.len() - k <= 5 || v[k] != '#' || v[k + 4] != '-' || !char_is_name_char(v[k + 5]) {
        return false;
    }
    check_fold_type(v, k + 1)
}

/// Executable form of [`skip_at`] (`done == false`) and [`done_at`]
/// (`done == true`).
fn check_marker(v: &[char], k: usize, done: bool) -> (r: bool)
    requires
        k < v@.len(),
    ensures
        r == if done {
            done_at(v@, k as int)
        } else {
            skip_at(v@, k as int)
        },
{
    if v.len() - k < 9 || v[k] != '#' || v[k + 4] != '-' {
        return false;
    }
    let head = char_ci_is(v[k + 1], 'A') && char_ci_is(v[k + 2], 'R') && char_ci_is(v[k + 3], 'T');
    if done {
        head && char_ci_is(v[k + 5], 'D') && char_ci_is(v[k + 6], 'O') && char_ci_is(v[k + 7], 'N')
            && char_ci_is(v[k + 8], 'E')
    } else {
        head && char_ci_is(v[k + 5], 'S') && char_ci_is(v[k + 6], 'K') && char_ci_is(v[k + 7], 'I')
            && char_ci_is(v[k + 8], 'P')
    }
}

/// Executable form of [`name_end`].
pub(crate) fn find_name_end(v: &[char], j: usize) -> (e: usize)
    requires
        j <= v@.len(),
    ensures
        e == name_end(v@, j as int),
{
    let mut e: usize = j;
    while e < v.len() && (char_is_name_char(v[e]) || (v[e] == '-' && e + 1 < v.len()
        && char_is_name_char(v[e + 1])))
        invariant
            j <= e <= v@.len(),
            name_end(v@, j as int) == name_end(v@, e as int),
        decreases v@.len() - e,
    {
        e = e + 1;
    }
    e
}

/// Executable form of [`sub_end`].
fn find_sub_end(v: &[char], e: usize) -> (t: usize)
    requires
        e <= v@.len(),
    ensures
        t == sub_end(v@, e as int),
{
    if e < v.len() && v[e] == '.' {
        let n: usize = v.len();
        let tst = n - e > 4 && (v[e + 1] == 't' || v[e + 1] == 'T') && (v[e + 2] == 's' || v[e
            + 2] == 'S' || v[e + 2] == '\u{17f}') && (v[e + 3] == 't' || v[e + 3] == 'T') && v[e
            + 4] == '-';
        proof {
            let r = v@.skip(e + 1);
            if n - e > 4 {
                assert(r[0] == v@[e + 1] && r[1] == v@[e + 2] && r[2] == v@[e + 3] && r[3] == v@[e
                    + 4]);
            }
        }
        if tst && n - e > 5 && char_is_name_char(v[e + 5]) {
            find_run_end(v, e + 5)
        } else if n - e > 1 && char_is_name_char(v[e + 1]) {
            find_run_end(v, e + 1)
        } else {
            e
        }
    } else {
        e
    }
}

/// The type prefix at `j` in ASCII case, if any (executable [`type_of`]).
pub(crate) fn ascii_type_ok(v: &[char], j: usize) -> (r: bool)
    requires
        j + 3 <= v@.len(),
    ensures
        r == (type_of(v@.skip(j as int)) is Some),
{
    let ghost s = v@.skip(j as int);
    assert(s[0] == v@[j as int] && s[1] == v@[j + 1] && s[2] == v@[j + 2]);
    let a = char_ascii_upper(v[j]);
    let b = char_ascii_upper(v[j + 1]);
    let c = char_ascii_upper(v[j + 2]);
    (a == 'R' && b == 'E' && c == 'Q') || (a == 'S' && b == 'P' && c == 'C') || (a == 'T' && b
        == 'S' && c == 'T')
}

/// Read the references to artifacts in the text of `file`, with their
/// lines; `None` where a reference that is read has a non-ASCII type
/// prefix (see [`scan`]).
pub fn try_parse_locations(file: &String, text: &str) -> (r: Option<
    Vec<(CodeLoc, Name, Option<SubName>)>,
>)
    ensures
        match (r, scan(text@, 0, false)) {
            (Some(v), Some(f)) => v@.len() == f.len() && forall|i: int|
                0 <= i < f.len() ==> loc_is(#[trigger] v@[i], f[i], file@, text@),
            (None, None) => true,
            _ => false,
        },
{
    let v = str_chars(text);
    let ghost s = v@;
    let mut out: Vec<(CodeLoc, Name, Option<SubName>)> = Vec::new();
    let ghost mut found: Seq<Found> = seq![];
    let mut skipping = false;
    let mut line: usize = 0;
    let mut k: usize = 0;
    while k < v.len()
        invariant
            s == v@,
            s == text@,
            k <= s.len(),
            line == line_of(s, k as int),
            line <= k,
            scan(s, 0, false) == prepend(found, scan(s, k as int, skipping)),
            out@.len() == found.len(),
            forall|i: int| 0 <= i < found.len() ==> loc_is(#[trigger] out@[i], found[i], file@, s),
        decreases s.len() - k,
    {
        let ghost before = found;
        if check_name_start(v.as_slice(), k) {
            if !skipping {
                if !ascii_type_ok(v.as_slice(), k + 1) {
                    return None;
                }
                proof {
                    lemma_found_name_valid(s, k as int);
                }
                let e = find_name_end(v.as_slice(), k + 5);
                proof {
                    lemma_found_sub_valid(s, e as int);
                }
                let t = find_sub_end(v.as_slice(), e);
                let raw = chars_to_string(v.as_slice(), k + 1, e);
                let name = match Name::from_str(raw.as_str()) {
                    Ok(n) => n,
                    Err(_) => {
                        assert(false);
                        return None;
                    },
                };
                let sub = if t > e {
                    let sraw = chars_to_string(v.as_slice(), e, t);
                    Some(SubName::new_unchecked(sraw.as_str()))
                } else {
                    None
                };
                let loc = CodeLoc::new(file, line as u64);
                let ghost out_before = out@;
                out.push((loc, name, sub));
                proof {
                    found = found.push(found_at(s, k as int));
                    match scan(s, k + 1, false) {
                        Some(rest) => {
                            assert(before + (seq![found_at(s, k as int)] + rest) =~= found + rest);
                        },
                        None => {},
                    }
                    assert forall|i: int| 0 <= i < found.len() implies loc_is(
                        #[trigger] out@[i],
                        found[i],
                        file@,
                        s,
                    ) by {
                        if i < before.len() {
                            assert(out@[i] == out_before[i]);
                        }
                    }
                }
            }
        } else if check_marker(v.as_slice(), k, false) {
            skipping = true;
        } else if check_marker(v.as_slice(), k, true) {
            skipping = false;
        }
        if v[k] == '\n' {
            line = line + 1;
        }
        k = k + 1;
    }
    proof {
        assert(found + seq![] =~= found);
    }
    Some(out)
}

/// Read the references to artifacts in the text of `file`, with their
/// lines (counted from 0), in order. Text between `#ART-SKIP` and
/// `#ART-DONE` is not read.
pub fn parse_locations(file: &String, text: &str) -> (r: Vec<(CodeLoc, Name, Option<SubName>)>)
    requires
        scan(text@, 0, false) is Some,
    ensures
        r@.len() == scan(text@, 0, false).unwrap().len(),
        forall|i: int|
            0 <= i < r@.len() ==> loc_is(
                #[trigger] r@[i],
                scan(text@, 0, false).unwrap()[i],
                file@,
                text@,
            ),
{
    match try_parse_locations(file, text) {
        Some(v) => v,
        None => Vec::new(),
    }
}

// ------------------------------------------------------------------
// Joining the places found

/// A place found in code: where, which artifact, and which subname.
pub type Loc = (CodeLoc, Name, Option<SubName>);

/// The index of the first `k` in `s`, or -1.
pub open spec fn first_index(s: Seq<Seq<char>>, k: Seq<char>) -> int
    decreases s.len(),
{
    if s.len() == 0 {
        -1
    } else if first_index(s.drop_last(), k) >= 0 {
        first_index(s.drop_last(), k)
    } else if s.last() == k {
        s.len() - 1
    } else {
        -1
    }
}

pub proof fn lemma_first_index(s: Seq<Seq<char>>, k: Seq<char>)
    ensures
        -1 <= first_index(s, k) < s.len(),
        first_index(s, k) >= 0 ==> s[first_index(s, k)] == k,
        first_index(s, k) < 0 <==> !s.contains(k),
    decreases s.len(),
{
    if s.len() > 0 {
        lemma_first_index(s.drop_last(), k);
        if first_index(s.drop_last(), k) < 0 && s.last() != k {
            assert forall|i: int| 0 <= i < s.len() implies s[i] != k by {
                if i < s.len() - 1 {
                    assert(s.drop_last()[i] == s[i]);
                }
            }
        }
        if first_index(s.drop_last(), k) >= 0 {
            assert(s.drop_last()[first_index(s, k)] == s[first_index(s, k)]);
        }
    }
}

/// The keys of the names of a list of pairs.
pub open spec fn name_keys_of<T>(s: Seq<(Name, T)>) -> Seq<Seq<char>> {
    s.map_values(|p: (Name, T)| p.0.key_v())
}

/// Insertion into an insertion-ordered list keyed by name: a new key goes
/// to the end,
/// an existing key keeps its place (and its name) and takes the value.
pub open spec fn upsert_name<T>(m: Seq<(Name, T)>, n: Name, v: T) -> Seq<(Name, T)> {
    let i = first_index(name_keys_of(m), n.key_v());
    if i < 0 {
        m.push((n, v))
    } else {
        m.update(i, (m[i].0, v))
    }
}

/// Insertion into an insertion-ordered list keyed by subname (see
/// [`upsert_name`]).
pub open spec fn upsert_sub<T>(m: Seq<(SubName, T)>, n: SubName, v: T) -> Seq<(SubName, T)> {
    let i = first_index(sub_keys(m), n.key_v());
    if i < 0 {
        m.push((n, v))
    } else {
        m.update(i, (m[i].0, v))
    }
}

/// What [`upsert_name`] does to the keys: a new key is appended, and
/// keys stay unique.
pub proof fn lemma_upsert_name_keys<T>(m: Seq<(Name, T)>, n: Name, v: T)
    ensures
        first_index(name_keys_of(m), n.key_v()) < 0 ==> name_keys_of(upsert_name(m, n, v))
            == name_keys_of(m).push(n.key_v()),
        first_index(name_keys_of(m), n.key_v()) >= 0 ==> name_keys_of(upsert_name(m, n, v))
            == name_keys_of(m),
        name_keys_of(m).no_duplicates() ==> name_keys_of(upsert_name(m, n, v)).no_duplicates(),
        name_keys_of(upsert_name(m, n, v)).contains(n.key_v()),
{
    lemma_first_index(name_keys_of(m), n.key_v());
    let i = first_index(name_keys_of(m), n.key_v());
    let r = upsert_name(m, n, v);
    if i < 0 {
        assert(name_keys_of(r) =~= name_keys_of(m).push(n.key_v()));
        assert(name_keys_of(r)[m.len() as int] == n.key_v());
    } else {
        assert(name_keys_of(r) =~= name_keys_of(m));
        assert(name_keys_of(r)[i] == n.key_v());
    }
}

/// The primary places: for each artifact referenced without a subname,
/// in order of first reference, its last place.
pub open spec fn primary_of(l: Seq<Loc>) -> Seq<(Name, CodeLoc)>
    decreases l.len(),
{
    if l.len() == 0 {
        seq![]
    } else {
        let p = primary_of(l.drop_last());
        let x = l.last();
        if x.2 is None {
            upsert_name(p, x.1, x.0)
        } else {
            p
        }
    }
}

/// The secondary places: for each artifact referenced with a subname, in
/// order of first such reference, each of its subnames in order of first
/// reference with its last place.
pub open spec fn secondary_of(l: Seq<Loc>) -> Seq<(Name, Seq<(SubName, CodeLoc)>)>
    decreases l.len(),
{
    if l.len() == 0 {
        seq![]
    } else {
        let p = secondary_of(l.drop_last());
        let x = l.last();
        match x.2 {
            None => p,
            Some(sub) => {
                let i = first_index(name_keys_of(p), x.1.key_v());
                if i < 0 {
                    p.push((x.1, seq![(sub, x.0)]))
                } else {
                    p.update(i, (p[i].0, upsert_sub(p[i].1, sub, x.0)))
                }
            },
        }
    }
}

/// The plain value of a duplicate lint: an error of parsing code at
/// `loc`, with message `duplicate detected: ` and `what`.
pub open spec fn dup_lint(loc: CodeLoc, what: Seq<char>) -> crate::lint::LintView {
    crate::lint::LintView {
        level: Level::Error,
        path: Some(loc.file@),
        line: Some(loc.line),
        category: Category::ParseCodeImplementations,
        msg: "duplicate detected: "@ + what,
    }
}

/// The lints of duplicate places, in the order they are found: for each
/// place that repeats an earlier one of the same artifact and subname,
/// a lint at the earlier (last kept) place and one at the new place.
pub open spec fn dup_lints_of(l: Seq<Loc>) -> Seq<crate::lint::LintView>
    decreases l.len(),
{
    if l.len() == 0 {
        seq![]
    } else {
        let d = dup_lints_of(l.drop_last());
        let x = l.last();
        match x.2 {
            None => {
                let p = primary_of(l.drop_last());
                let i = first_index(name_keys_of(p), x.1.key_v());
                if i < 0 {
                    d
                } else {
                    d + seq![dup_lint(p[i].1, x.1.raw_v()), dup_lint(x.0, x.1.raw_v())]
                }
            },
            Some(sub) => {
                let p = secondary_of(l.drop_last());
                let i = first_index(name_keys_of(p), x.1.key_v());
                if i < 0 {
                    d
                } else {
                    let j = first_index(sub_keys(p[i].1), sub.key_v());
                    if j < 0 {
                        d
                    } else {
                        d + seq![
                            dup_lint(p[i].1[j].1, x.1.raw_v() + sub.raw_v()),
                            dup_lint(x.0, x.1.raw_v() + sub.raw_v()),
                        ]
                    }
                }
            },
        }
    }
}

/// A joined implementation as a plain value: the artifact, its primary
/// place and its secondary places.
pub type Joined = (Name, Option<CodeLoc>, Seq<(SubName, CodeLoc)>);

/// `s` without its element `i`, the last element taking its place
/// (`swap_remove`).
pub open spec fn swap_removed<T>(s: Seq<T>, i: int) -> Seq<T> {
    s.update(i, s.last()).drop_last()
}

/// Join the primary places with the secondary ones of the same artifact,
/// in the order of the primary places; also what is left of the
/// secondary places (removed by `swap_remove` as they are taken).
pub open spec fn join_primary(
    prim: Seq<(Name, CodeLoc)>,
    sec: Seq<(Name, Seq<(SubName, CodeLoc)>)>,
) -> (Seq<Joined>, Seq<(Name, Seq<(SubName, CodeLoc)>)>)
    decreases prim.len(),
{
    if prim.len() == 0 {
        (seq![], sec)
    } else {
        let (o, r) = join_primary(prim.drop_last(), sec);
        let x = prim.last();
        let i = first_index(name_keys_of(r), x.0.key_v());
        if i < 0 {
            (o.push((x.0, Some(x.1), seq![])), r)
        } else {
            (o.push((x.0, Some(x.1), r[i].1)), swap_removed(r, i))
        }
    }
}

/// The keys of the names of joined implementations.
pub open spec fn joined_keys(s: Seq<Joined>) -> Seq<Seq<char>> {
    s.map_values(|j: Joined| j.0.key_v())
}

/// Insertion of a joined implementation, keyed by name (see
/// [`upsert_name`]).
pub open spec fn upsert_joined(m: Seq<Joined>, j: Joined) -> Seq<Joined> {
    let i = first_index(joined_keys(m), j.0.key_v());
    if i < 0 {
        m.push(j)
    } else {
        m.update(i, (m[i].0, j.1, j.2))
    }
}

/// Add the artifacts that have only secondary places, in their order.
pub open spec fn join_rest(
    out: Seq<Joined>,
    rest: Seq<(Name, Seq<(SubName, CodeLoc)>)>,
) -> Seq<Joined>
    decreases rest.len(),
{
    if rest.len() == 0 {
        out
    } else {
        upsert_joined(join_rest(out, rest.drop_last()), (rest.last().0, None, rest.last().1))
    }
}

/// The implementations joined from the places `l`.
pub open spec fn joined_of(l: Seq<Loc>) -> Seq<Joined> {
    let (o, r) = join_primary(primary_of(l), secondary_of(l));
    join_rest(o, r)
}

/// The plain value of a joined implementation.
pub open spec fn joined_view(p: (Name, ImplCode)) -> Joined {
    (p.0, p.1.primary, p.1.secondary@)
}

proof fn lemma_first_index_at(s: Seq<Seq<char>>, k: Seq<char>, i: int)
    requires
        0 <= i < s.len(),
        s[i] == k,
        forall|j: int| 0 <= j < i ==> s[j] != k,
    ensures
        first_index(s, k) == i,
    decreases s.len(),
{
    if i < s.len() - 1 {
        lemma_first_index_at(s.drop_last(), k, i);
    } else {
        lemma_first_index(s.drop_last(), k);
        if first_index(s.drop_last(), k) >= 0 {
            assert(s.drop_last()[first_index(s.drop_last(), k)] == k);
        }
    }
}

/// The index of the first pair whose name has key `key`.
pub(crate) fn find_name_pair<T>(v: &[(Name, T)], key: &String) -> (r: Option<usize>)
    ensures
        r matches Some(i) ==> i as int == first_index(name_keys_of(v@), key@),
        r is None ==> first_index(name_keys_of(v@), key@) == -1,
{
    let ghost keys = name_keys_of(v@);
    let mut i: usize = 0;
    while i < v.len()
        invariant
            i <= v@.len(),
            keys == name_keys_of(v@),
            forall|j: int| 0 <= j < i ==> keys[j] != key@,
        decreases v@.len() - i,
    {
        if v[i].0.0.key == *key {
            proof {
                lemma_first_index_at(keys, key@, i as int);
            }
            return Some(i);
        }
        i = i + 1;
    }
    proof {
        lemma_first_index(keys, key@);
        if keys.contains(key@) {
            let j = choose|j: int| 0 <= j < keys.len() && keys[j] == key@;
            assert(keys[j] != key@);
        }
    }
    None
}

/// The index of the first pair whose subname has key `key`.
pub(crate) fn find_sub_pair<T>(v: &[(SubName, T)], key: &String) -> (r: Option<usize>)
    ensures
        r matches Some(i) ==> i as int == first_index(sub_keys(v@), key@),
        r is None ==> first_index(sub_keys(v@), key@) == -1,
{
    let ghost keys = sub_keys(v@);
    let mut i: usize = 0;
    while i < v.len()
        invariant
            i <= v@.len(),
            keys == sub_keys(v@),
            forall|j: int| 0 <= j < i ==> keys[j] != key@,
        decreases v@.len() - i,
    {
        if v[i].0.0.key == *key {
            proof {
                lemma_first_index_at(keys, key@, i as int);
            }
            return Some(i);
        }
        i = i + 1;
    }
    proof {
        lemma_first_index(keys, key@);
        if keys.contains(key@) {
            let j = choose|j: int| 0 <= j < keys.len() && keys[j] == key@;
            assert(keys[j] != key@);
        }
    }
    None
}

/// Insert `v` under the name `n` (see [`upsert_name`]): returns the value
/// replaced, if any.
pub(crate) fn insert_by_name<T>(m: &mut Vec<(Name, T)>, n: Name, v: T) -> (r: Option<T>)
    ensures
        final(m)@ == upsert_name(old(m)@, n, v),
        match r {
            Some(o) => {
                let i = first_index(name_keys_of(old(m)@), n.key_v());
                i >= 0 && o == old(m)@[i].1
            },
            None => first_index(name_keys_of(old(m)@), n.key_v()) < 0,
        },
{
    proof {
        lemma_first_index(name_keys_of(m@), n.key_v());
    }
    match find_name_pair(m.as_slice(), &n.0.key) {
        None => {
            m.push((n, v));
            None
        },
        Some(i) => {
            let ghost before = m@;
            let (k, o) = m.remove(i);
            m.insert(i, (k, v));
            assert(m@ =~= before.update(i as int, (before[i as int].0, v)));
            Some(o)
        },
    }
}

/// Insert `v` under the subname `n` (see [`upsert_sub`]): returns the
/// value replaced, if any.
pub(crate) fn insert_by_sub<T>(m: &mut Vec<(SubName, T)>, n: SubName, v: T) -> (r: Option<T>)
    ensures
        final(m)@ == upsert_sub(old(m)@, n, v),
        match r {
            Some(o) => {
                let i = first_index(sub_keys(old(m)@), n.key_v());
                i >= 0 && o == old(m)@[i].1
            },
            None => first_index(sub_keys(old(m)@), n.key_v()) < 0,
        },
{
    proof {
        lemma_first_index(sub_keys(m@), n.key_v());
    }
    match find_sub_pair(m.as_slice(), &n.0.key) {
        None => {
            m.push((n, v));
            None
        },
        Some(i) => {
            let ghost before = m@;
            let (k, o) = m.remove(i);
            m.insert(i, (k, v));
            assert(m@ =~= before.update(i as int, (before[i as int].0, v)));
            Some(o)
        },
    }
}

/// The plain value of the secondary places being gathered.
pub open spec fn sec_view(s: Seq<(Name, Vec<(SubName, CodeLoc)>)>) -> Seq<
    (Name, Seq<(SubName, CodeLoc)>),
> {
    s.map_values(|p: (Name, Vec<(SubName, CodeLoc)>)| (p.0, p.1@))
}

/// The plain values of joined implementations.
pub open spec fn joined_views(s: Seq<(Name, ImplCode)>) -> Seq<Joined> {
    s.map_values(|p: (Name, ImplCode)| joined_view(p))
}

/// The duplicate lint at `loc` about `what`.
fn make_dup_lint(loc: &CodeLoc, what: &str) -> (r: Lint)
    ensures
        r@ == dup_lint(*loc, what@),
{
    let mut msg = "duplicate detected: ".to_owned();
    msg.append(what);
    Lint {
        level: Level::Error,
        path: Some(loc.file.clone()),
        line: Some(loc.line),
        category: Category::ParseCodeImplementations,
        msg,
    }
}

/// Gather the places found into primary and secondary places, linting
/// duplicates.
fn gather_locations(locations: Vec<Loc>) -> (r: (
    Vec<(Name, CodeLoc)>,
    Vec<(Name, Vec<(SubName, CodeLoc)>)>,
    Vec<Lint>,
))
    ensures
        r.0@ == primary_of(locations@),
        sec_view(r.1@) == secondary_of(locations@),
        crate::lint::lint_views(r.2@) == dup_lints_of(locations@),
{
    let ghost l = locations@;
    let mut rest = locations;
    let mut prim: Vec<(Name, CodeLoc)> = Vec::new();
    let mut sec: Vec<(Name, Vec<(SubName, CodeLoc)>)> = Vec::new();
    let mut lints: Vec<Lint> = Vec::new();
    let n: usize = rest.len();
    let mut i: usize = 0;
    assert(l.take(0) =~= seq![]);
    assert(sec_view(sec@) =~= seq![]);
    assert(crate::lint::lint_views(lints@) =~= seq![]);
    assert(rest@ =~= l.skip(0));
    while rest.len() > 0
        invariant
            l.len() == n,
            i <= n,
            rest@ == l.skip(i as int),
            prim@ == primary_of(l.take(i as int)),
            sec_view(sec@) == secondary_of(l.take(i as int)),
            crate::lint::lint_views(lints@) == dup_lints_of(l.take(i as int)),
        decreases rest@.len(),
    {
        let (loc, name, sub) = rest.remove(0);
        proof {
            assert(l[i as int] == (loc, name, sub));
            assert(rest@ =~= l.skip(i + 1));
            assert(l.take(i + 1).drop_last() =~= l.take(i as int));
            assert(l.take(i + 1).last() == (loc, name, sub));
        }
        let ghost lints0 = crate::lint::lint_views(lints@);
        match sub {
            None => {
                let new_lint = make_dup_lint(&loc, name.as_str());
                let raw = name.as_str().to_owned();
                let ghost p0 = prim@;
                let orig = insert_by_name(&mut prim, name, loc);
                match orig {
                    Some(o) => {
                        let orig_lint = make_dup_lint(&o, raw.as_str());
                        lints.push(orig_lint);
                        lints.push(new_lint);
                        proof {
                            let i0 = first_index(name_keys_of(p0), name.key_v());
                            assert(crate::lint::lint_views(lints@) =~= lints0 + seq![
                                dup_lint(p0[i0].1, name.raw_v()),
                                dup_lint(loc, name.raw_v()),
                            ]);
                        }
                    },
                    None => {},
                }
            },
            Some(sub) => {
                let mut what = name.as_str().to_owned();
                what.append(sub.as_str());
                let new_lint = make_dup_lint(&loc, what.as_str());
                let ghost s0 = sec_view(sec@);
                proof {
                    lemma_first_index(name_keys_of(sec@), name.key_v());
                    assert(name_keys_of(sec@) =~= name_keys_of(s0));
                }
                match find_name_pair(sec.as_slice(), &name.0.key) {
                    None => {
                        let mut inner: Vec<(SubName, CodeLoc)> = Vec::new();
                        inner.push((sub, loc));
                        sec.push((name, inner));
                        proof {
                            assert(sec_view(sec@) =~= s0.push((name, seq![(sub, loc)])));
                        }
                    },
                    Some(j) => {
                        let ghost sv = sec@;
                        let (k, mut inner) = sec.remove(j);
                        let ghost inner0 = inner@;
                        let orig = insert_by_sub(&mut inner, sub, loc);
                        sec.insert(j, (k, inner));
                        proof {
                            assert(sec_view(sec@) =~= s0.update(
                                j as int,
                                (s0[j as int].0, upsert_sub(s0[j as int].1, sub, loc)),
                            ));
                        }
                        match orig {
                            Some(o) => {
                                let orig_lint = make_dup_lint(&o, what.as_str());
                                lints.push(orig_lint);
                                lints.push(new_lint);
                                proof {
                                    let j0 = first_index(sub_keys(inner0), sub.key_v());
                                    assert(s0[j as int].1 == inner0);
                                    assert(crate::lint::lint_views(lints@) =~= lints0 + seq![
                                        dup_lint(inner0[j0].1, name.raw_v() + sub.raw_v()),
                                        dup_lint(loc, name.raw_v() + sub.raw_v()),
                                    ]);
                                }
                            },
                            None => {},
                        }
                    },
                }
            },
        }
        i = i + 1;
    }
    assert(l.take(n as int) =~= l);
    (prim, sec, lints)
}

/// Join the places found in code into one implementation per artifact:
/// those with a primary place first, in order of first reference, then
/// those with only subname places. Duplicate places are linted.
pub fn join_locations(locations: Vec<Loc>) -> (r: (Vec<(Name, ImplCode)>, Vec<Lint>))
    ensures
        joined_views(r.0@) == joined_of(locations@),
        crate::lint::lint_views(r.1@) == dup_lints_of(locations@),
{
    let ghost l = locations@;
    let (prim, sec, lints) = gather_locations(locations);
    let ghost p = prim@;
    let ghost s0 = sec_view(sec@);
    let mut sec = sec;
    let mut prim = prim;
    let mut out: Vec<(Name, ImplCode)> = Vec::new();
    let n: usize = prim.len();
    let mut i: usize = 0;
    assert(p.take(0) =~= seq![]);
    assert(prim@ =~= p.skip(0));
    assert(joined_views(out@) =~= seq![]);
    while prim.len() > 0
        invariant
            p.len() == n,
            i <= n,
            prim@ == p.skip(i as int),
            (joined_views(out@), sec_view(sec@)) == join_primary(p.take(i as int), s0),
        decreases prim@.len(),
    {
        let (name, loc) = prim.remove(0);
        proof {
            assert(p[i as int] == (name, loc));
            assert(prim@ =~= p.skip(i + 1));
            assert(p.take(i + 1).drop_last() =~= p.take(i as int));
            assert(p.take(i + 1).last() == (name, loc));
            lemma_first_index(name_keys_of(sec@), name.key_v());
            assert(name_keys_of(sec@) =~= name_keys_of(sec_view(sec@)));
        }
        let ghost o0 = joined_views(out@);
        let ghost r0 = sec_view(sec@);
        match find_name_pair(sec.as_slice(), &name.0.key) {
            None => {
                out.push((name, ImplCode { primary: Some(loc), secondary: Vec::new() }));
                proof {
                    assert(joined_views(out@) =~= o0.push((name, Some(loc), seq![])));
                }
            },
            Some(j) => {
                let (_, inner) = sec.swap_remove(j);
                let ghost inner_v = inner@;
                out.push((name, ImplCode { primary: Some(loc), secondary: inner }));
                proof {
                    assert(r0[j as int].1 == inner_v);
                    assert(joined_views(out@) =~= o0.push((name, Some(loc), inner_v)));
                    assert(sec_view(sec@) =~= swap_removed(r0, j as int));
                }
            },
        }
        i = i + 1;
    }
    assert(p.take(n as int) =~= p);
    let ghost o1 = joined_views(out@);
    let ghost rest = sec_view(sec@);
    let m: usize = sec.len();
    let mut k: usize = 0;
    assert(rest.take(0) =~= seq![]);
    assert(sec_view(sec@) =~= rest.skip(0));
    while sec.len() > 0
        invariant
            rest.len() == m,
            k <= m,
            sec_view(sec@) == rest.skip(k as int),
            joined_views(out@) == join_rest(o1, rest.take(k as int)),
        decreases sec@.len(),
    {
        let ghost sv = sec@;
        let (name, inner) = sec.remove(0);
        proof {
            assert(sec_view(sv).len() == sv.len());
            assert(k < rest.len());
            assert(sec_view(sv)[0] == (name, inner@));
            assert(rest.skip(k as int)[0] == rest[k as int]);
            assert(rest[k as int] == (name, inner@));
            assert forall|t: int| 0 <= t < sec@.len() implies #[trigger] sec_view(sec@)[t] == rest.skip(
                k + 1,
            )[t] by {
                assert(sec@[t] == sv[t + 1]);
                assert(sec_view(sv)[t + 1] == rest.skip(k as int)[t + 1]);
                assert(rest.skip(k as int)[t + 1] == rest[k + 1 + t]);
                assert(rest.skip(k + 1)[t] == rest[k + 1 + t]);
            }
            assert(sec_view(sec@) =~= rest.skip(k + 1));
            assert(rest.take(k + 1).drop_last() =~= rest.take(k as int));
            assert(rest.take(k + 1).last() == (name, inner@));
        }
        let ghost out0 = out@;
        let ghost inner_v = inner@;
        let _ = insert_by_name(&mut out, name, ImplCode { primary: None, secondary: inner });
        proof {
            let jv = joined_views(out0);
            assert(name_keys_of(out0) =~= joined_keys(jv));
            lemma_first_index(joined_keys(jv), name.key_v());
            let idx = first_index(joined_keys(jv), name.key_v());
            if idx < 0 {
                assert(joined_views(out@) =~= jv.push((name, None, inner_v)));
            } else {
                assert(joined_views(out@) =~= jv.update(idx, (jv[idx].0, None, inner_v)));
            }
        }
        k = k + 1;
    }
    assert(rest.take(m as int) =~= rest);
    (out, lints)
}

/// `raw` with every `%` turned into `#`: text that writes its links with
/// `%` so that it is not itself scanned for them.
pub fn replace_links(raw: &str) -> (r: String)
    ensures
        r@ == raw@.map_values(|c: char| if c == '%' { '#' } else { c }),
{
    let v = crate::text::str_chars(raw);
    let mut out = String::new();
    let mut i: usize = 0;
    while i < v.len()
        invariant
            i <= v@.len(),
            v@ == raw@,
            out@ == raw@.take(i as int).map_values(|c: char| if c == '%' { '#' } else { c }),
        decreases v@.len() - i,
    {
        let c = v[i];
        crate::text::string_push(&mut out, if c == '%' { '#' } else { c });
        assert(out@ =~= raw@.take(i + 1).map_values(|c: char| if c == '%' { '#' } else { c }));
        i = i + 1;
    }
    assert(raw@.take(v@.len() as int) =~= raw@);
    out
}

/// A subname found after a reference is the longest match of the subname
/// grammar `.(tst-)?C+` at its place: the text from `e` to
/// [`sub_end`] is a valid subname (where it is not empty), and no longer
/// piece of the text from `e` is one.
pub proof fn lemma_sub_end_longest(s: Seq<char>, e: int)
    requires
        0 <= e <= s.len(),
    ensures
        sub_end(s, e) == e || (e < sub_end(s, e) <= s.len() && crate::name::valid_subname(
            s.subrange(e, sub_end(s, e)),
        )),
        forall|t2: int|
            sub_end(s, e) < t2 <= s.len() ==> !crate::name::valid_subname(#[trigger] s.subrange(e, t2)),
{
    let t = sub_end(s, e);
    if 0 <= e < s.len() && s[e] == '.' {
        if is_tst_dash(s.skip(e + 1)) && e + 5 < s.len() && is_name_char(s[e + 5]) {
            lemma_run_end(s, e + 5);
            let r = s.subrange(e, t);
            let b = r.skip(1);
            assert(b[0] == s[e + 1] && b[1] == s[e + 2] && b[2] == s[e + 3] && b[3] == s[e + 4]);
            assert(s.skip(e + 1)[0] == s[e + 1] && s.skip(e + 1)[1] == s[e + 2]);
            assert(s.skip(e + 1)[2] == s[e + 3] && s.skip(e + 1)[3] == s[e + 4]);
            assert forall|i: int| 0 <= i < b.skip(4).len() implies is_name_char(#[trigger] b.skip(4)[i]) by {
                assert(b.skip(4)[i] == s[e + 5 + i]);
            }
            assert forall|t2: int| t < t2 <= s.len() implies !crate::name::valid_subname(
                #[trigger] s.subrange(e, t2),
            ) by {
                let c = s.subrange(e, t2).skip(1);
                assert(c[3] == s[e + 4]);
                assert(!is_name_char(c[3]));
                assert(c.skip(4)[t - e - 5] == s[t]);
                assert(!crate::name::all_name_chars(c)) by {
                    assert(!is_name_char(c[3]));
                }
                assert(!crate::name::all_name_chars(c.skip(4))) by {
                    assert(!is_name_char(c.skip(4)[t - e - 5]));
                }
            }
        } else if e + 1 < s.len() && is_name_char(s[e + 1]) {
            lemma_run_end(s, e + 1);
            let r = s.subrange(e, t);
            assert forall|i: int| 0 <= i < r.skip(1).len() implies is_name_char(#[trigger] r.skip(1)[i]) by {
                assert(r.skip(1)[i] == s[e + 1 + i]);
            }
            assert forall|t2: int| t < t2 <= s.len() implies !crate::name::valid_subname(
                #[trigger] s.subrange(e, t2),
            ) by {
                let c = s.subrange(e, t2).skip(1);
                assert(c[t - e - 1] == s[t]);
                assert(!crate::name::all_name_chars(c)) by {
                    assert(!is_name_char(c[t - e - 1]));
                }
                if c.len() > 4 && is_tst_dash(c) {
                    assert(c[0] == s[e + 1] && c[1] == s[e + 2] && c[2] == s[e + 3] && c[3] == s[e + 4]);
                    assert(s.skip(e + 1)[0] == s[e + 1] && s.skip(e + 1)[1] == s[e + 2]);
                    assert(s.skip(e + 1)[2] == s[e + 3] && s.skip(e + 1)[3] == s[e + 4]);
                    assert(is_tst_dash(s.skip(e + 1)));
                    assert(c.skip(4)[0] == s[e + 5]);
                    assert(!crate::name::all_name_chars(c.skip(4))) by {
                        assert(!is_name_char(c.skip(4)[0]));
                    }
                }
            }
        } else {
            assert forall|t2: int| t < t2 <= s.len() implies !crate::name::valid_subname(
                #[trigger] s.subrange(e, t2),
            ) by {
                let c = s.subrange(e, t2).skip(1);
                if c.len() > 0 {
                    assert(c[0] == s[e + 1]);
                    assert(!crate::name::all_name_chars(c)) by {
                        assert(!is_name_char(c[0]));
                    }
                    if c.len() > 4 && is_tst_dash(c) {
                        assert(is_name_char(c[0]));
                    }
                }
            }
        }
    } else {
        assert forall|t2: int| t < t2 <= s.len() implies !crate::name::valid_subname(
            #[trigger] s.subrange(e, t2),
        ) by {
            assert(s.subrange(e, t2)[0] == s[e]);
        }
    }
}

} // verus!
