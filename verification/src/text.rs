//! Helpers on text: conversion between strings and character sequences,
//! and the whitespace rules used by the file formats.
use vstd::prelude::*;

verus! {

/// Unicode `White_Space` property, as used by `char::is_whitespace`.
pub open spec fn is_ws(c: char) -> bool {
    ||| ('\u{9}' <= c && c <= '\u{d}')
    ||| c == ' '
    ||| c == '\u{85}'
    ||| c == '\u{a0}'
    ||| c == '\u{1680}'
    ||| ('\u{2000}' <= c && c <= '\u{200a}')
    ||| c == '\u{2028}'
    ||| c == '\u{2029}'
    ||| c == '\u{202f}'
    ||| c == '\u{205f}'
    ||| c == '\u{3000}'
}

/// Executable form of [`is_ws`].
pub fn char_is_ws(c: char) -> (r: bool)
    ensures
        r == is_ws(c),
{
    ('\u{9}' <= c && c <= '\u{d}') || c == ' ' || c == '\u{85}' || c == '\u{a0}' || c == '\u{1680}'
        || ('\u{2000}' <= c && c <= '\u{200a}') || c == '\u{2028}' || c == '\u{2029}' || c
        == '\u{202f}' || c == '\u{205f}' || c == '\u{3000}'
}

/// The characters of a string slice.
pub fn str_chars(s: &str) -> (v: Vec<char>)
    ensures
        v@ == s@,
{
    let mut v: Vec<char> = Vec::new();
    for c in it: s.chars()
        invariant
            v@ == it.seq().take(it.index() as int),
    {
        v.push(c);
    }
    v
}


/// Whether two character slices hold the same characters.
pub fn chars_eq(a: &[char], b: &[char]) -> (r: bool)
    ensures
        r == (a@ == b@),
{
    if a.len() != b.len() {
        return false;
    }
    let mut i: usize = 0;
    while i < a.len()
        invariant
            a@.len() == b@.len(),
            i <= a@.len(),
            forall|k: int| 0 <= k < i ==> a@[k] == b@[k],
        decreases a@.len() - i,
    {
        if a[i] != b[i] {
            return false;
        }
        i = i + 1;
    }
    assert(a@ =~= b@);
    true
}

/// Whether two string slices hold the same characters.
pub fn str_eq(a: &str, b: &str) -> (r: bool)
    ensures
        r == (a@ == b@),
{
    let va = str_chars(a);
    let vb = str_chars(b);
    chars_eq(va.as_slice(), vb.as_slice())
}

/// Whether `p` is a prefix of `v`.
pub fn chars_starts_with(v: &[char], p: &[char]) -> (r: bool)
    ensures
        r == p@.is_prefix_of(v@),
{
    if p.len() > v.len() {
        return false;
    }
    let mut i: usize = 0;
    while i < p.len()
        invariant
            p@.len() <= v@.len(),
            i <= p@.len(),
            forall|k: int| 0 <= k < i ==> p@[k] == v@[k],
        decreases p@.len() - i,
    {
        if p[i] != v[i] {
            return false;
        }
        i = i + 1;
    }
    true
}

/// Append the bytes of `b` to `out`.
pub fn push_bytes(out: &mut Vec<u8>, b: &[u8])
    ensures
        final(out)@ == old(out)@ + b@,
{
    let mut i: usize = 0;
    while i < b.len()
        invariant
            i <= b@.len(),
            out@ == old(out)@ + b@.subrange(0, i as int),
        decreases b@.len() - i,
    {
        out.push(b[i]);
        i = i + 1;
        assert(out@ =~= old(out)@ + b@.subrange(0, i as int));
    }
    assert(b@.subrange(0, b@.len() as int) =~= b@);
}

/// `String::push`: appends one character to the end of the string
/// (std documents it as "Appends the given char to the end of this String").
#[verifier::external_body]
pub(crate) fn string_push(s: &mut String, c: char)
    ensures
        final(s)@ == old(s)@.push(c),
{
    s.push(c);
}

/// Build a string from the characters `v[lo..hi]`.
pub fn chars_to_string(v: &[char], lo: usize, hi: usize) -> (s: String)
    requires
        lo <= hi <= v@.len(),
    ensures
        s@ == v@.subrange(lo as int, hi as int),
{
    let mut s = String::new();
    let mut i: usize = lo;
    while i < hi
        invariant
            lo <= i <= hi <= v@.len(),
            s@ == v@.subrange(lo as int, i as int),
        decreases hi - i,
    {
        string_push(&mut s, v[i]);
        i = i + 1;
        assert(s@ =~= v@.subrange(lo as int, i as int));
    }
    s
}

/// Length of the longest prefix of `s` that does not end in whitespace.
pub open spec fn trim_end_len(s: Seq<char>) -> nat
    decreases s.len(),
{
    if s.len() == 0 {
        0
    } else if is_ws(s.last()) {
        trim_end_len(s.drop_last())
    } else {
        s.len()
    }
}

/// `s` with all trailing whitespace removed.
pub open spec fn trim_end(s: Seq<char>) -> Seq<char> {
    s.take(trim_end_len(s) as int)
}

/// The text as it is stored: trailing whitespace removed and, when the text
/// spans several lines, exactly one final newline.
pub open spec fn cleaned(s: Seq<char>) -> Seq<char> {
    let t = trim_end(s);
    if t.contains('\n') {
        t.push('\n')
    } else {
        t
    }
}

pub proof fn lemma_trim_end_len(s: Seq<char>)
    ensures
        trim_end_len(s) <= s.len(),
        forall|i: int| trim_end_len(s) <= i < s.len() ==> is_ws(#[trigger] s[i]),
        trim_end_len(s) > 0 ==> !is_ws(s[trim_end_len(s) - 1]),
    decreases s.len(),
{
    if s.len() > 0 && is_ws(s.last()) {
        lemma_trim_end_len(s.drop_last());
        assert forall|i: int| trim_end_len(s) <= i < s.len() implies is_ws(#[trigger] s[i]) by {
            if i < s.len() - 1 {
                assert(s.drop_last()[i] == s[i]);
            }
        }
    }
}

/// Trimming twice trims no more than once.
pub(crate) proof fn lemma_trim_end_idempotent(s: Seq<char>)
    ensures
        trim_end(trim_end(s)) == trim_end(s),
{
    lemma_trim_end_len(s);
    let t = trim_end(s);
    if t.len() > 0 {
        assert(t.last() == s[trim_end_len(s) - 1]);
    }
    assert(t.take(t.len() as int) =~= t);
}

/// Whitespace added at the end is trimmed away again.
pub(crate) proof fn lemma_trim_end_push_ws(t: Seq<char>, c: char)
    requires
        is_ws(c),
    ensures
        trim_end(t.push(c)) == trim_end(t),
{
    assert(t.push(c).drop_last() =~= t);
    lemma_trim_end_len(t);
    assert(t.push(c).take(trim_end_len(t) as int) =~= t.take(trim_end_len(t) as int));
}

/// Cleaning a cleaned text changes nothing.
pub proof fn lemma_cleaned_idempotent(s: Seq<char>)
    ensures
        cleaned(cleaned(s)) == cleaned(s),
{
    let t = trim_end(s);
    lemma_trim_end_idempotent(s);
    if t.contains('\n') {
        lemma_trim_end_push_ws(t, '\n');
    }
}

/// Index one past the last non-whitespace character of `v`.
pub fn trim_end_index(v: &[char]) -> (n: usize)
    ensures
        n == trim_end_len(v@),
{
    let mut n: usize = v.len();
    assert(v@.take(v@.len() as int) =~= v@);
    while n > 0 && char_is_ws(v[n - 1])
        invariant
            n <= v@.len(),
            trim_end_len(v@) == trim_end_len(v@.take(n as int)),
        decreases n,
    {
        assert(v@.take(n as int).drop_last() =~= v@.take(n - 1));
        n = n - 1;
    }
    assert(v@.take(v@.len() as int) =~= v@);
    n
}

/// Remove trailing whitespace in place.
pub fn string_trim_right(s: &mut String)
    ensures
        final(s)@ == trim_end(old(s)@),
{
    let v = str_chars(s.as_str());
    let n = trim_end_index(v.as_slice());
    proof { lemma_trim_end_len(v@); }
    *s = chars_to_string(v.as_slice(), 0, n);
    assert(v@.subrange(0, n as int) =~= trim_end(v@));
}

/// "Clean" the text so that it can be serialized to and from every
/// supported format: trailing whitespace is removed and multi-line text
/// ends in exactly one newline.
pub fn clean_text(s: &mut String)
    ensures
        final(s)@ == cleaned(old(s)@),
{
    string_trim_right(s);
    let v = str_chars(s.as_str());
    let mut has_newline = false;
    let mut i: usize = 0;
    while i < v.len()
        invariant
            i <= v@.len(),
            has_newline == (exists|j: int| 0 <= j < i && v@[j] == '\n'),
        decreases v@.len() - i,
    {
        if v[i] == '\n' {
            has_newline = true;
        }
        i = i + 1;
    }
    assert(has_newline == v@.contains('\n'));
    if has_newline {
        string_push(s, '\n');
    }
}

} // verus!
