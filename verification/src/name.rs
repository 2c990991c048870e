//! Artifact names (`REQ-foo-bar`) and subnames (`.sub`).
//!
//! A name is a type prefix (`REQ`, `SPC` or `TST`, in any case) followed by
//! `-` and one or more elements separated by single `-`; an element is a
//! non-empty run of name characters. Names compare by their upper-cased key.
use vstd::prelude::*;
use vstd::std_specs::cmp::PartialEqSpecImpl;
use crate::text::{chars_to_string, str_chars, string_push};

verus! {

// ------------------------------------------------------------------
// Characters

/// The characters allowed in the elements of a name and in subnames.
///
/// The grammar is matched case-insensitively with Unicode simple case
/// folding, so besides ASCII letters, digits and `_` it also admits the two
/// non-ASCII characters that fold into ASCII letters: `ſ` (U+017F, folds to
/// `s`) and the Kelvin sign (U+212A, folds to `k`).
pub open spec fn is_name_char(c: char) -> bool {
    ||| ('A' <= c && c <= 'Z')
    ||| ('a' <= c && c <= 'z')
    ||| ('0' <= c && c <= '9')
    ||| c == '_'
    ||| c == '\u{17f}'
    ||| c == '\u{212a}'
}

/// Executable form of [`is_name_char`].
pub fn char_is_name_char(c: char) -> (r: bool)
    ensures
        r == is_name_char(c),
{
    ('A' <= c && c <= 'Z') || ('a' <= c && c <= 'z') || ('0' <= c && c <= '9') || c == '_' || c
        == '\u{17f}' || c == '\u{212a}'
}

/// ASCII upper-casing of a single character (`char::to_ascii_uppercase`).
pub open spec fn ascii_upper(c: char) -> char {
    if 'a' <= c && c <= 'z' {
        ((c as u32) - 32) as char
    } else {
        c
    }
}

/// ASCII upper-casing of a character sequence (`str::to_ascii_uppercase`).
pub open spec fn upper(s: Seq<char>) -> Seq<char> {
    Seq::new(s.len(), |i: int| ascii_upper(s[i]))
}

proof fn lemma_ascii_upper(c: char)
    ensures
        ascii_upper(ascii_upper(c)) == ascii_upper(c),
        is_name_char(c) ==> is_name_char(ascii_upper(c)),
        (ascii_upper(c) == '-') == (c == '-'),
        !('a' <= ascii_upper(c) && ascii_upper(c) <= 'z'),
{
    if 'a' <= c && c <= 'z' {
        assert('A' <= ascii_upper(c) && ascii_upper(c) <= 'Z');
    }
}

/// Executable form of [`ascii_upper`].
pub fn char_ascii_upper(c: char) -> (r: char)
    ensures
        r == ascii_upper(c),
{
    if 'a' <= c && c <= 'z' {
        let b: u32 = (c as u32) - 32;
        assert(b < 0x7f);
        let u: u8 = b as u8;
        u as char
    } else {
        c
    }
}

/// The ASCII upper-cased string of `v`.
pub fn upper_string(v: &[char]) -> (s: String)
    ensures
        s@ == upper(v@),
{
    let mut s = String::new();
    let mut i: usize = 0;
    while i < v.len()
        invariant
            i <= v@.len(),
            s@ == upper(v@).take(i as int),
        decreases v@.len() - i,
    {
        let c = char_ascii_upper(v[i]);
        string_push(&mut s, c);
        i = i + 1;
        assert(s@ =~= upper(v@).take(i as int));
    }
    assert(upper(v@).take(v@.len() as int) =~= upper(v@));
    s
}


// ------------------------------------------------------------------
// Grammar

/// The type of an artifact, determined from the name prefix.
#[derive(Debug, Clone, Copy, PartialEq, Eq, Structural, Hash)]
pub enum Type {
    REQ,
    SPC,
    TST,
}

/// The location in the name where the type is split at: `REQ-foo`, index 3.
pub const TYPE_SPLIT_LOC: usize = 3;

/// The type named by three (upper-cased) prefix characters, if any.
pub open spec fn prefix_type(a: char, b: char, c: char) -> Option<Type> {
    if a == 'R' && b == 'E' && c == 'Q' {
        Some(Type::REQ)
    } else if a == 'S' && b == 'P' && c == 'C' {
        Some(Type::SPC)
    } else if a == 'T' && b == 'S' && c == 'T' {
        Some(Type::TST)
    } else {
        None
    }
}

/// The type named by the first three characters of `s`, in any ASCII case.
pub open spec fn type_of(s: Seq<char>) -> Option<Type>
    recommends
        s.len() >= 3,
{
    prefix_type(ascii_upper(s[0]), ascii_upper(s[1]), ascii_upper(s[2]))
}

/// `s` is one or more non-empty runs of name characters joined by single `-`.
pub open spec fn valid_elements(s: Seq<char>) -> bool {
    &&& s.len() > 0
    &&& is_name_char(s[0])
    &&& is_name_char(s.last())
    &&& forall|i: int| 0 <= i < s.len() ==> (is_name_char(#[trigger] s[i]) || s[i] == '-')
    &&& forall|i: int| 0 <= i < s.len() - 1 && #[trigger] s[i] == '-' ==> s[i + 1] != '-'
}

/// The grammar of a valid artifact name: `(REQ|SPC|TST)-(C+-)*C+`, with the
/// type prefix in any case.
pub open spec fn valid_name(s: Seq<char>) -> bool {
    &&& s.len() > 4
    &&& type_of(s) is Some
    &&& s[3] == '-'
    &&& valid_elements(s.skip(4))
}

/// Is `v[lo..hi]` a valid [`valid_elements`] sequence?
pub fn check_elements(v: &[char], lo: usize, hi: usize) -> (r: bool)
    requires
        lo <= hi <= v@.len(),
    ensures
        r == valid_elements(v@.subrange(lo as int, hi as int)),
{
    let ghost s = v@.subrange(lo as int, hi as int);
    if lo == hi {
        return false;
    }
    if !char_is_name_char(v[lo]) || !char_is_name_char(v[hi - 1]) {
        return false;
    }
    let mut i = lo;
    while i < hi
        invariant
            lo <= i <= hi <= v@.len(),
            s == v@.subrange(lo as int, hi as int),
            forall|j: int| 0 <= j < i - lo ==> (is_name_char(#[trigger] s[j]) || s[j] == '-'),
            forall|j: int| 0 <= j < i - lo && j < s.len() - 1 && #[trigger] s[j] == '-' ==> s[j + 1] != '-',
        decreases hi - i,
    {
        let c = v[i];
        if !(char_is_name_char(c) || c == '-') {
            assert(s[i - lo] == c);
            return false;
        }
        if c == '-' && i + 1 < hi && v[i + 1] == '-' {
            assert(s[i - lo] == '-' && s[i - lo + 1] == '-');
            return false;
        }
        i = i + 1;
    }
    true
}

/// The type named by `v[0..3]`, when `v` has at least three characters.
pub fn check_type(v: &[char]) -> (r: Option<Type>)
    requires
        v@.len() >= 3,
    ensures
        r == type_of(v@),
{
    let a = char_ascii_upper(v[0]);
    let b = char_ascii_upper(v[1]);
    let c = char_ascii_upper(v[2]);
    if a == 'R' && b == 'E' && c == 'Q' {
        Some(Type::REQ)
    } else if a == 'S' && b == 'P' && c == 'C' {
        Some(Type::SPC)
    } else if a == 'T' && b == 'S' && c == 'T' {
        Some(Type::TST)
    } else {
        None
    }
}

/// Is `v[lo..hi]` a valid artifact name?
pub fn check_name(v: &[char], lo: usize, hi: usize) -> (r: bool)
    requires
        lo <= hi <= v@.len(),
    ensures
        r == valid_name(v@.subrange(lo as int, hi as int)),
{
    let ghost s = v@.subrange(lo as int, hi as int);
    if hi - lo <= 4 {
        return false;
    }
    let a = char_ascii_upper(v[lo]);
    let b = char_ascii_upper(v[lo + 1]);
    let c = char_ascii_upper(v[lo + 2]);
    let ok_type = (a == 'R' && b == 'E' && c == 'Q') || (a == 'S' && b == 'P' && c == 'C') || (a
        == 'T' && b == 'S' && c == 'T');
    if !ok_type || v[lo + 3] != '-' {
        return false;
    }
    let r = check_elements(v, lo + 4, hi);
    assert(s.skip(4) =~= v@.subrange(lo + 4, hi as int));
    r
}


// ------------------------------------------------------------------
// Names

/// Errors of name parsing.
#[derive(Debug)]
pub enum NameError {
    /// Name is not valid.
    InvalidName { msg: String },
    /// Collapsed form is not valid.
    InvalidCollapsed { msg: String },
    /// SubName is not valid.
    InvalidSubName { msg: String },
}

impl NameError {
    /// The message of the error (what `Display` shows).
    pub fn message(&self) -> (r: &str)
        ensures
            r@ == match self {
                NameError::InvalidName { msg } => msg@,
                NameError::InvalidCollapsed { msg } => msg@,
                NameError::InvalidSubName { msg } => msg@,
            },
    {
        match self {
            NameError::InvalidName { msg } => msg.as_str(),
            NameError::InvalidCollapsed { msg } => msg.as_str(),
            NameError::InvalidSubName { msg } => msg.as_str(),
        }
    }
}

/// The type named by a valid name.
pub open spec fn name_type(s: Seq<char>) -> Type
    recommends
        valid_name(s),
{
    type_of(s).unwrap()
}

/// A name read back from its key is the same name: the key of a valid
/// name is itself a valid name, of the same type and with the same key.
pub proof fn lemma_key_roundtrip(s: Seq<char>)
    requires
        valid_name(s),
    ensures
        valid_name(upper(s)),
        upper(upper(s)) == upper(s),
        name_type(upper(s)) == name_type(s),
{
    let u = upper(s);
    assert forall|i: int| 0 <= i < s.len() implies #[trigger] upper(u)[i] == u[i] by {
        lemma_ascii_upper(s[i]);
    }
    assert(upper(u) =~= u);
    lemma_ascii_upper(s[0]);
    lemma_ascii_upper(s[1]);
    lemma_ascii_upper(s[2]);
    lemma_ascii_upper(s[3]);
    let e = s.skip(4);
    let f = u.skip(4);
    assert forall|i: int| 0 <= i < f.len() implies f[i] == ascii_upper(#[trigger] e[i]) by {}
    assert forall|i: int| 0 <= i < f.len() implies (is_name_char(#[trigger] f[i]) || f[i] == '-') by {
        lemma_ascii_upper(e[i]);
    }
    assert forall|i: int| 0 <= i < f.len() - 1 && #[trigger] f[i] == '-' implies f[i + 1] != '-' by {
        lemma_ascii_upper(e[i]);
        lemma_ascii_upper(e[i + 1]);
    }
    lemma_ascii_upper(e[0]);
    lemma_ascii_upper(e.last());
    assert(f.last() == ascii_upper(e.last()));
}

/// The pieces of a name.
#[derive(Debug)]
pub struct InternalName {
    /// The artifact type, determined from the name prefix.
    pub ty: Type,
    /// Capitalized form.
    pub key: String,
    /// Raw "user" form.
    pub raw: String,
}

/// An artifact name. Equality ignores the case of the raw form.
#[derive(Debug)]
pub struct Name(pub InternalName);

impl Name {
    /// The raw ("user") form.
    pub open spec fn raw_v(&self) -> Seq<char> {
        self.0.raw@
    }

    /// The upper-cased key, by which names compare.
    pub open spec fn key_v(&self) -> Seq<char> {
        self.0.key@
    }

    /// A well-formed name: a valid raw form, its key and its type.
    pub open spec fn wf(&self) -> bool {
        &&& valid_name(self.0.raw@)
        &&& self.0.key@ == upper(self.0.raw@)
        &&& self.0.ty == name_type(self.0.raw@)
    }

    /// Parse a name, rejecting anything outside the name grammar.
    pub fn from_str(raw: &str) -> (r: Result<Name, NameError>)
        ensures
            r is Ok <==> valid_name(raw@),
            r matches Ok(n) ==> n.wf() && n.raw_v() == raw@,
            r matches Err(e) ==> (e is InvalidName && e->InvalidName_msg@ == "Name is invalid: "@
                + raw@),
    {
        let v = str_chars(raw);
        if !check_name(v.as_slice(), 0, v.len()) {
            assert(v@.subrange(0, v@.len() as int) =~= v@);
            let mut msg = "Name is invalid: ".to_owned();
            msg.append(raw);
            return Err(NameError::InvalidName { msg });
        }
        assert(v@.subrange(0, v@.len() as int) =~= v@);
        let key = upper_string(v.as_slice());
        let ty = match check_type(v.as_slice()) {
            Some(t) => t,
            None => Type::TST,
        };
        Ok(Name(InternalName { ty, key, raw: raw.to_owned() }))
    }

    /// The raw ("user") string representation.
    pub fn as_str(&self) -> (r: &str)
        ensures
            r@ == self.raw_v(),
    {
        self.0.raw.as_str()
    }

    /// The key (upper-cased) string representation.
    pub fn key_str(&self) -> (r: &str)
        ensures
            r@ == self.key_v(),
    {
        self.0.key.as_str()
    }

    /// Concatenate the name with a (possible) subname.
    pub fn full(&self, subname: Option<&SubName>) -> (r: String)
        ensures
            r@ == match subname {
                Some(s) => self.raw_v() + s.raw_v(),
                None => self.raw_v(),
            },
    {
        let mut out = self.0.raw.clone();
        if let Some(s) = subname {
            out.append(s.0.raw.as_str());
        }
        out
    }
}

impl Clone for Name {
    fn clone(&self) -> (r: Self)
        ensures
            r == *self,
    {
        Name(InternalName { ty: self.0.ty, key: self.0.key.clone(), raw: self.0.raw.clone() })
    }
}

impl PartialEq for Name {
    fn eq(&self, other: &Name) -> (r: bool) {
        self.0.ty == other.0.ty && self.0.key == other.0.key
    }
}

impl PartialEqSpecImpl for Name {
    open spec fn obeys_eq_spec() -> bool {
        true
    }

    open spec fn eq_spec(&self, other: &Name) -> bool {
        self.0.ty == other.0.ty && self.0.key@ == other.0.key@
    }
}

impl Eq for Name {
}

impl Type {
    /// The prefix that names the type.
    pub open spec fn spec_str(self) -> Seq<char> {
        match self {
            Type::REQ => "REQ"@,
            Type::SPC => "SPC"@,
            Type::TST => "TST"@,
        }
    }

    /// The prefix that names the type.
    pub fn as_str(&self) -> (r: &'static str)
        ensures
            r@ == self.spec_str(),
    {
        match *self {
            Type::REQ => "REQ",
            Type::SPC => "SPC",
            Type::TST => "TST",
        }
    }
}

// ------------------------------------------------------------------
// Subnames

/// Does `s` begin with `tst-` (matched case-insensitively, where `s` also
/// matches `ſ`)?
pub open spec fn is_tst_dash(s: Seq<char>) -> bool {
    &&& s.len() >= 4
    &&& (s[0] == 't' || s[0] == 'T')
    &&& (s[1] == 's' || s[1] == 'S' || s[1] == '\u{17f}')
    &&& (s[2] == 't' || s[2] == 'T')
    &&& s[3] == '-'
}

/// All characters of `s` are name characters.
pub open spec fn all_name_chars(s: Seq<char>) -> bool {
    forall|i: int| 0 <= i < s.len() ==> is_name_char(#[trigger] s[i])
}

/// The body of a subname (after the `.`): `(tst-)?C+`.
pub open spec fn valid_sub_body(s: Seq<char>) -> bool {
    ||| (s.len() > 0 && all_name_chars(s))
    ||| (s.len() > 4 && is_tst_dash(s) && all_name_chars(s.skip(4)))
}

/// The grammar of a valid subname: `.(tst-)?C+`.
pub open spec fn valid_subname(s: Seq<char>) -> bool {
    s.len() > 0 && s[0] == '.' && valid_sub_body(s.skip(1))
}

/// The pieces of a subname.
#[derive(Debug)]
pub struct InternalSubName {
    /// Raw "user" form.
    pub raw: String,
    /// Capitalized form.
    pub key: String,
}

/// A subname, i.e. `ART-foo.subname`. Equality ignores case.
#[derive(Debug)]
pub struct SubName(pub InternalSubName);

impl SubName {
    /// The raw ("user") form.
    pub open spec fn raw_v(&self) -> Seq<char> {
        self.0.raw@
    }

    /// The upper-cased key, by which subnames compare.
    pub open spec fn key_v(&self) -> Seq<char> {
        self.0.key@
    }

    /// A well-formed subname.
    pub open spec fn wf(&self) -> bool {
        valid_subname(self.0.raw@) && self.0.key@ == upper(self.0.raw@)
    }

    /// Create a subname from a string already known to be valid.
    pub fn new_unchecked(raw: &str) -> (r: SubName)
        requires
            valid_subname(raw@),
        ensures
            r.wf(),
            r.raw_v() == raw@,
    {
        let v = str_chars(raw);
        let key = upper_string(v.as_slice());
        SubName(InternalSubName { raw: raw.to_owned(), key })
    }

    /// The raw ("user") string representation.
    pub fn as_str(&self) -> (r: &str)
        ensures
            r@ == self.raw_v(),
    {
        self.0.raw.as_str()
    }

    /// The key (upper-cased) string representation.
    pub fn key_str(&self) -> (r: &str)
        ensures
            r@ == self.key_v(),
    {
        self.0.key.as_str()
    }

    /// Parse a subname, rejecting anything outside the subname grammar.
    pub fn from_str(raw: &str) -> (r: Result<SubName, NameError>)
        ensures
            r is Ok <==> valid_subname(raw@),
            r matches Ok(n) ==> n.wf() && n.raw_v() == raw@,
            r matches Err(e) ==> (e is InvalidSubName && e->InvalidSubName_msg@ == raw@
                + " is not a valid subname"@),
    {
        let v = str_chars(raw);
        if check_subname(v.as_slice(), 0, v.len()) {
            assert(v@.subrange(0, v@.len() as int) =~= v@);
            Ok(SubName::new_unchecked(raw))
        } else {
            assert(v@.subrange(0, v@.len() as int) =~= v@);
            let mut msg = raw.to_owned();
            msg.append(" is not a valid subname");
            Err(NameError::InvalidSubName { msg })
        }
    }
}

impl Clone for SubName {
    fn clone(&self) -> (r: Self)
        ensures
            r == *self,
    {
        SubName(InternalSubName { raw: self.0.raw.clone(), key: self.0.key.clone() })
    }
}

impl PartialEq for SubName {
    fn eq(&self, other: &SubName) -> (r: bool) {
        self.0.key == other.0.key
    }
}

impl PartialEqSpecImpl for SubName {
    open spec fn obeys_eq_spec() -> bool {
        true
    }

    open spec fn eq_spec(&self, other: &SubName) -> bool {
        self.0.key@ == other.0.key@
    }
}

impl Eq for SubName {
}

/// Are all of `v[lo..hi]` name characters?
pub fn check_all_name_chars(v: &[char], lo: usize, hi: usize) -> (r: bool)
    requires
        lo <= hi <= v@.len(),
    ensures
        r == all_name_chars(v@.subrange(lo as int, hi as int)),
{
    let ghost s = v@.subrange(lo as int, hi as int);
    let mut i = lo;
    while i < hi
        invariant
            lo <= i <= hi <= v@.len(),
            s == v@.subrange(lo as int, hi as int),
            forall|j: int| 0 <= j < i - lo ==> is_name_char(#[trigger] s[j]),
        decreases hi - i,
    {
        if !char_is_name_char(v[i]) {
            assert(s[i - lo] == v@[i as int]);
            return false;
        }
        i = i + 1;
    }
    true
}

/// Does `v[i..]` begin with a case-insensitive `tst-`?
pub fn check_tst_dash(v: &[char], i: usize) -> (r: bool)
    requires
        i <= v@.len(),
    ensures
        r == is_tst_dash(v@.skip(i as int)),
{
    if v.len() - i < 4 {
        return false;
    }
    let a = v[i];
    let b = v[i + 1];
    let c = v[i + 2];
    (a == 't' || a == 'T') && (b == 's' || b == 'S' || b == '\u{17f}') && (c == 't' || c == 'T')
        && v[i + 3] == '-'
}

/// Is `v[lo..hi]` a valid subname?
pub fn check_subname(v: &[char], lo: usize, hi: usize) -> (r: bool)
    requires
        lo <= hi <= v@.len(),
    ensures
        r == valid_subname(v@.subrange(lo as int, hi as int)),
{
    let ghost s = v@.subrange(lo as int, hi as int);
    if lo == hi || v[lo] != '.' {
        return false;
    }
    let ghost b = s.skip(1);
    assert(b =~= v@.subrange(lo + 1, hi as int));
    let plain = lo + 1 < hi && check_all_name_chars(v, lo + 1, hi);
    if plain {
        return true;
    }
    if hi - lo > 5 && check_tst_dash(v, lo + 1) {
        assert(v@.skip(lo + 1) .take(4) =~= b.take(4));
        assert(b.skip(4) =~= v@.subrange(lo + 5, hi as int));
        check_all_name_chars(v, lo + 5, hi)
    } else {
        proof {
            if b.len() > 4 && is_tst_dash(b) {
                assert(v@.skip(lo + 1)[0] == b[0]);
                assert(v@.skip(lo + 1)[1] == b[1]);
                assert(v@.skip(lo + 1)[2] == b[2]);
                assert(v@.skip(lo + 1)[3] == b[3]);
            }
        }
        false
    }
}


// ------------------------------------------------------------------
// Subnames in text

/// End (exclusive) of the run of name characters that starts at `k`.
pub open spec fn run_end(s: Seq<char>, k: int) -> int
    decreases s.len() - k,
{
    if 0 <= k < s.len() && is_name_char(s[k]) {
        run_end(s, k + 1)
    } else {
        k
    }
}

/// Is there `]]` at index `k`?
pub open spec fn closes_at(s: Seq<char>, k: int) -> bool {
    0 <= k && k + 1 < s.len() && s[k] == ']' && s[k + 1] == ']'
}

/// The end (exclusive) of a subname ending at a name-character run that
/// starts at `k` and is closed by `]]`, if there is one.
pub open spec fn closed_run(s: Seq<char>, k: int) -> Option<int> {
    if run_end(s, k) > k && closes_at(s, run_end(s, k)) {
        Some(run_end(s, k))
    } else {
        None
    }
}

/// The subname declaration `[[.(tst-)?C+]]` that starts at `i`, if any:
/// the index at which its subname ends (the `]]` follows).
///
/// The optional `tst-` is tried first, as the greedy `?` of the pattern does.
pub open spec fn sub_decl_at(s: Seq<char>, i: int) -> Option<int> {
    if 0 <= i && i + 2 < s.len() && s[i] == '[' && s[i + 1] == '[' && s[i + 2] == '.' {
        if is_tst_dash(s.skip(i + 3)) && closed_run(s, i + 7) is Some {
            closed_run(s, i + 7)
        } else {
            closed_run(s, i + 3)
        }
    } else {
        None
    }
}

/// The subnames declared in `s` from index `i` on, left to right, matches
/// not overlapping (the `find_iter` semantics of the pattern).
pub open spec fn sub_decls(s: Seq<char>, i: int) -> Seq<Seq<char>>
    decreases s.len() - i,
{
    if i < 0 || i >= s.len() {
        seq![]
    } else {
        match sub_decl_at(s, i) {
            Some(e) => if e > i {
                seq![s.subrange(i + 2, e)] + sub_decls(s, e + 2)
            } else {
                seq![]
            },
            None => sub_decls(s, i + 1),
        }
    }
}

/// `s` without the elements whose key (upper-cased form) already appeared
/// earlier; the first of each key is kept, in order.
pub open spec fn dedup_keys(s: Seq<Seq<char>>) -> Seq<Seq<char>>
    decreases s.len(),
{
    if s.len() == 0 {
        seq![]
    } else {
        let d = dedup_keys(s.drop_last());
        if exists|k: int| 0 <= k < d.len() && upper(#[trigger] d[k]) == upper(s.last()) {
            d
        } else {
            d.push(s.last())
        }
    }
}

/// The raw forms of a sequence of subnames.
pub open spec fn sub_raws(v: Seq<SubName>) -> Seq<Seq<char>> {
    v.map_values(|s: SubName| s.raw_v())
}

pub proof fn lemma_run_end(s: Seq<char>, k: int)
    requires
        0 <= k <= s.len(),
    ensures
        k <= run_end(s, k) <= s.len(),
        forall|j: int| k <= j < run_end(s, k) ==> is_name_char(#[trigger] s[j]),
        run_end(s, k) < s.len() ==> !is_name_char(s[run_end(s, k)]),
    decreases s.len() - k,
{
    if k < s.len() && is_name_char(s[k]) {
        lemma_run_end(s, k + 1);
    }
}

/// End of the run of name characters in `v` that starts at `k`.
pub(crate) fn find_run_end(v: &[char], k: usize) -> (e: usize)
    requires
        k <= v@.len(),
    ensures
        e == run_end(v@, k as int),
{
    let mut e = k;
    while e < v.len() && char_is_name_char(v[e])
        invariant
            k <= e <= v@.len(),
            run_end(v@, k as int) == run_end(v@, e as int),
        decreases v@.len() - e,
    {
        e = e + 1;
    }
    e
}

/// Executable form of [`closed_run`].
pub(crate) fn find_closed_run(v: &[char], k: usize) -> (r: Option<usize>)
    requires
        k <= v@.len(),
    ensures
        r == (match closed_run(v@, k as int) {
            Some(e) => Some(e as usize),
            None => None::<usize>,
        }),
        r matches Some(e) ==> k < e && e + 2 <= v@.len(),
{
    let e = find_run_end(v, k);
    proof { lemma_run_end(v@, k as int); }
    if e > k && e < v.len() && v.len() - e > 1 && v[e] == ']' && v[e + 1] == ']' {
        Some(e)
    } else {
        None
    }
}

/// Executable form of [`sub_decl_at`].
fn find_sub_decl(v: &[char], i: usize) -> (r: Option<usize>)
    requires
        i < v@.len(),
    ensures
        r == (match sub_decl_at(v@, i as int) {
            Some(e) => Some(e as usize),
            None => None::<usize>,
        }),
        r matches Some(e) ==> i + 3 < e && e + 2 <= v@.len() && valid_subname(
            v@.subrange(i + 2, e as int),
        ),
{
    if v.len() - i > 2 && v[i] == '[' && v[i + 1] == '[' && v[i + 2] == '.' {
        if check_tst_dash(v, i + 3) {
            if let Some(e) = find_closed_run(v, i + 7) {
                proof {
                    lemma_run_end(v@, i + 7);
                    let sub = v@.subrange(i + 2, e as int);
                    let b = sub.skip(1);
                    assert(b[0] == v@.skip(i + 3)[0]);
                    assert(b[1] == v@.skip(i + 3)[1]);
                    assert(b[2] == v@.skip(i + 3)[2]);
                    assert(b[3] == v@.skip(i + 3)[3]);
                    assert forall|j: int| 0 <= j < b.skip(4).len() implies is_name_char(
                        #[trigger] b.skip(4)[j],
                    ) by {
                        assert(b.skip(4)[j] == v@[i + 7 + j]);
                    }
                }
                return Some(e);
            }
        }
        let r = find_closed_run(v, i + 3);
        proof {
            lemma_run_end(v@, i + 3);
            if let Some(e) = r {
                let sub = v@.subrange(i + 2, e as int);
                let b = sub.skip(1);
                assert forall|j: int| 0 <= j < b.len() implies is_name_char(#[trigger] b[j]) by {
                    assert(b[j] == v@[i + 3 + j]);
                }
            }
        }
        r
    } else {
        None
    }
}

/// Insert `sub` unless a subname with the same key is already present
/// (the first one is kept in its place).
pub fn insert_subname(out: &mut Vec<SubName>, sub: SubName)
    requires
        sub.wf(),
        forall|k: int| 0 <= k < old(out)@.len() ==> (#[trigger] old(out)@[k]).wf(),
    ensures
        forall|k: int| 0 <= k < final(out)@.len() ==> (#[trigger] final(out)@[k]).wf(),
        (exists|k: int| 0 <= k < old(out)@.len() && upper(#[trigger] sub_raws(old(out)@)[k]) == upper(
            sub.raw_v(),
        )) ==> final(out)@ == old(out)@,
        !(exists|k: int| 0 <= k < old(out)@.len() && upper(#[trigger] sub_raws(old(out)@)[k]) == upper(
            sub.raw_v(),
        )) ==> final(out)@ == old(out)@.push(sub),
{
    let mut i: usize = 0;
    while i < out.len()
        invariant
            i <= out@.len(),
            out@ == old(out)@,
            sub.wf(),
            forall|k: int| 0 <= k < out@.len() ==> (#[trigger] out@[k]).wf(),
            forall|k: int| 0 <= k < i ==> upper(#[trigger] sub_raws(out@)[k]) != upper(sub.raw_v()),
        decreases out@.len() - i,
    {
        if out[i].0.key == sub.0.key {
            assert(upper(sub_raws(out@)[i as int]) == upper(sub.raw_v()));
            return;
        }
        i = i + 1;
    }
    out.push(sub);
}

/// Parse the subnames declared (`[[.subname]]`) in the text, in order of
/// first declaration, each key once.
pub fn parse_subnames(text: &str) -> (r: Vec<SubName>)
    ensures
        sub_raws(r@) == dedup_keys(sub_decls(text@, 0)),
        forall|k: int| 0 <= k < r@.len() ==> (#[trigger] r@[k]).wf(),
{
    let v = str_chars(text);
    let ghost s = v@;
    let ghost mut found: Seq<Seq<char>> = seq![];
    let mut out: Vec<SubName> = Vec::new();
    let mut i: usize = 0;
    while i < v.len()
        invariant
            s == v@,
            s == text@,
            i <= v@.len(),
            found + sub_decls(s, i as int) == sub_decls(s, 0),
            sub_raws(out@) == dedup_keys(found),
            forall|k: int| 0 <= k < out@.len() ==> (#[trigger] out@[k]).wf(),
        decreases v@.len() - i,
    {
        match find_sub_decl(v.as_slice(), i) {
            Some(e) => {
                let raw = chars_to_string(v.as_slice(), i + 2, e);
                let sub = SubName::new_unchecked(raw.as_str());
                let ghost x = raw@;
                proof {
                    assert(sub_decls(s, i as int) == seq![x] + sub_decls(s, e + 2));
                    assert(found.push(x) + sub_decls(s, e + 2) =~= found + sub_decls(s, i as int));
                    assert(found.push(x).drop_last() =~= found);
                }
                insert_subname(&mut out, sub);
                proof {
                    found = found.push(x);
                    assert(sub_raws(out@) =~= dedup_keys(found));
                }
                i = e + 2;
            },
            None => {
                i = i + 1;
            },
        }
    }
    assert(sub_decls(s, i as int) =~= seq![]);
    assert(found =~= sub_decls(s, 0));
    out
}

/// Every declaration `[[S]]` of a valid subname `S` (the `.tst-` form
/// too) is found where the scan of the text stands on it: the scan takes
/// `S` and goes on after the closing `]]`.
pub proof fn lemma_sub_decl_found(s: Seq<char>, i: int, sub: Seq<char>)
    requires
        0 <= i,
        valid_subname(sub),
        i + sub.len() + 4 <= s.len(),
        s.subrange(i, i + sub.len() + 4) == seq!['[', '['] + sub + seq![']', ']'],
    ensures
        sub_decl_at(s, i) == Some(i + 2 + sub.len()),
        sub_decls(s, i) == seq![sub] + sub_decls(s, i + sub.len() + 4),
{
    let n = sub.len() as int;
    let w = s.subrange(i, i + n + 4);
    assert forall|j: int| 0 <= j < n implies s[i + 2 + j] == #[trigger] sub[j] by {
        assert(w[2 + j] == sub[j]);
    }
    assert(s[i] == w[0] && s[i + 1] == w[1]);
    assert(s[i + 2 + n] == w[2 + n] && s[i + 3 + n] == w[3 + n]);
    assert(s[i + 2] == '.');
    let b = sub.skip(1);
    if is_tst_dash(b) && b.len() > 4 && all_name_chars(b.skip(4)) {
        lemma_run_end(s, i + 7);
        assert forall|j: int| i + 7 <= j < i + 2 + n implies is_name_char(#[trigger] s[j]) by {
            assert(b.skip(4)[j - i - 7] == sub[j - i - 2]);
        }
        lemma_run_end_at(s, i + 7, i + 2 + n);
        assert(s.skip(i + 3)[0] == b[0] && s.skip(i + 3)[1] == b[1]);
        assert(s.skip(i + 3)[2] == b[2] && s.skip(i + 3)[3] == b[3]);
        assert(is_tst_dash(s.skip(i + 3)));
        assert(closed_run(s, i + 7) == Some(i + 2 + n));
    } else {
        assert(b.len() > 0 && all_name_chars(b));
        assert forall|j: int| i + 3 <= j < i + 2 + n implies is_name_char(#[trigger] s[j]) by {
            assert(b[j - i - 3] == sub[j - i - 2]);
        }
        lemma_run_end_at(s, i + 3, i + 2 + n);
        if is_tst_dash(s.skip(i + 3)) {
            assert(s.skip(i + 3)[3] == s[i + 6]);
            if i + 6 < i + 2 + n {
                assert(is_name_char(s[i + 6]));
            } else {
                assert(s[i + 6] == ']' || s[i + 6] == '.' || is_name_char(s[i + 6]));
            }
        }
        assert(closed_run(s, i + 3) == Some(i + 2 + n));
    }
    assert(sub_decl_at(s, i) == Some(i + 2 + n));
    assert(s.subrange(i + 2, i + 2 + n) =~= sub);
}

/// A run of name characters from `k` that ends at `t` before a character
/// that is not one ends there.
proof fn lemma_run_end_at(s: Seq<char>, k: int, t: int)
    requires
        0 <= k <= t < s.len(),
        forall|j: int| k <= j < t ==> is_name_char(#[trigger] s[j]),
        !is_name_char(s[t]),
    ensures
        run_end(s, k) == t,
    decreases t - k,
{
    if k < t {
        lemma_run_end_at(s, k + 1, t);
    }
}

} // verus!
