//! The core artifact types: where an artifact is implemented, its
//! editable part and its hash id, the operations that modify a project,
//! and the project settings.
use vstd::prelude::*;
use std::hash::Hasher;
use siphasher::sip128::{Hasher128, SipHasher};
use crate::family::{
    all_wf, has_key, keys_unique, lemma_swap_remove_key, strip_auto_partofs, swap_remove_key,
    auto_partof_raw, parent_raw, Names,
};
use crate::name::{upper, Name, SubName};
use crate::ser::{HashIm, SettingsExport, SettingsFormat, SettingsParse};
use crate::sort::{isort, sorted};
use crate::text::{clean_text, cleaned, push_bytes};
use vstd::string::StringSliceAdditionalSpecFns;

verus! {

// ----- IMPL -----

/// The place of an artifact reference in code: a file and a line,
/// counted from 0.
#[derive(Debug)]
pub struct CodeLoc {
    pub file: String,
    pub line: u64,
}

impl CodeLoc {
    /// The place `line` in `file`.
    pub fn new(file: &String, line: u64) -> (r: CodeLoc)
        ensures
            r.file@ == file@,
            r.line == line,
    {
        CodeLoc { file: file.clone(), line }
    }
}

impl Clone for CodeLoc {
    fn clone(&self) -> (r: CodeLoc)
        ensures
            r == *self,
    {
        CodeLoc { file: self.file.clone(), line: self.line }
    }
}

/// The subname keys of a list of subname places.
pub open spec fn sub_keys<T>(s: Seq<(SubName, T)>) -> Seq<Seq<char>> {
    s.map_values(|p: (SubName, T)| p.0.key_v())
}

/// How an artifact is implemented in code: its own place, and the places
/// of its subnames, each subname at most once.
#[derive(Debug)]
pub struct ImplCode {
    pub primary: Option<CodeLoc>,
    pub secondary: Vec<(SubName, CodeLoc)>,
}

impl ImplCode {
    /// Each subname occurs at most once.
    pub open spec fn wf(&self) -> bool {
        sub_keys(self.secondary@).no_duplicates()
    }

    /// A copy of the implementation.
    pub fn clone_code(&self) -> (r: ImplCode)
        ensures
            r.primary == self.primary,
            r.secondary@ == self.secondary@,
    {
        let primary = match &self.primary {
            Some(p) => Some(p.clone()),
            None => None,
        };
        let mut secondary: Vec<(SubName, CodeLoc)> = Vec::new();
        let mut i: usize = 0;
        while i < self.secondary.len()
            invariant
                i <= self.secondary@.len(),
                secondary@ == self.secondary@.take(i as int),
            decreases self.secondary@.len() - i,
        {
            let (s, l) = &self.secondary[i];
            secondary.push((s.clone(), l.clone()));
            i = i + 1;
            assert(secondary@ =~= self.secondary@.take(i as int));
        }
        assert(self.secondary@.take(self.secondary@.len() as int) =~= self.secondary@);
        ImplCode { primary, secondary }
    }
}

/// How an artifact is implemented.
#[derive(Debug)]
pub enum Impl {
    /// Defined as done, with the given text.
    Done(String),
    /// At least partially implemented in code.
    Code(ImplCode),
    /// Not implemented directly at all.
    NotImpl,
}

impl Impl {
    /// Whether this is the `Done` variant.
    pub fn is_done(&self) -> (r: bool)
        ensures
            r == (self is Done),
    {
        match self {
            Impl::Done(_) => true,
            _ => false,
        }
    }

    /// The text of the `Done` variant, if it is that one.
    pub fn as_done(&self) -> (r: Option<&str>)
        ensures
            match self {
                Impl::Done(d) => r matches Some(s) && s@ == d@,
                _ => r is None,
            },
    {
        match self {
            Impl::Done(d) => Some(d.as_str()),
            _ => None,
        }
    }
}

/// A subname of the tests of a specification: `.tst-...`, matched
/// case-insensitively, on one line.
pub open spec fn sub_is_tst(raw: Seq<char>) -> bool {
    &&& raw.len() >= 1
    &&& raw[0] == '.'
    &&& crate::name::is_tst_dash(raw.skip(1))
    &&& !raw.contains('\n')
}

/// Does the implementation `code` place a subname of key `key`?
pub open spec fn code_has_sub(code: ImplCode, key: Seq<char>) -> bool {
    crate::implemented::first_index(sub_keys(code.secondary@), key) >= 0
}

/// How many of `subs` the implementation `code` places.
pub open spec fn count_placed(subs: Seq<SubName>, code: ImplCode) -> nat
    decreases subs.len(),
{
    if subs.len() == 0 {
        0
    } else {
        count_placed(subs.drop_last(), code) + if code_has_sub(code, subs.last().key_v()) { 1nat } else { 0nat }
    }
}

/// How many of `subs` name tests.
pub open spec fn count_tst(subs: Seq<SubName>) -> nat
    decreases subs.len(),
{
    if subs.len() == 0 {
        0
    } else {
        count_tst(subs.drop_last()) + if sub_is_tst(subs.last().raw_v()) { 1nat } else { 0nat }
    }
}

/// How many of `subs` name tests and are placed by `code`.
pub open spec fn count_tst_placed(subs: Seq<SubName>, code: ImplCode) -> nat
    decreases subs.len(),
{
    if subs.len() == 0 {
        0
    } else {
        count_tst_placed(subs.drop_last(), code) + if sub_is_tst(subs.last().raw_v()) && code_has_sub(
            code,
            subs.last().key_v(),
        ) {
            1nat
        } else {
            0nat
        }
    }
}

/// The statistics of an implementation with the subnames `subs`: how many
/// things count towards its implementation and how many of them are done,
/// and the same for its tests.
pub open spec fn impl_statistics(i: Impl, subs: Seq<SubName>) -> (nat, nat, nat, nat) {
    match i {
        Impl::Done(_) => (1, 1, 1, 1),
        Impl::Code(c) => (
            1 + subs.len(),
            (if c.primary is Some { 1nat } else { 0nat }) + count_placed(subs, c),
            count_tst(subs),
            count_tst_placed(subs, c),
        ),
        Impl::NotImpl => if subs.len() > 0 {
            (1 + subs.len(), 0, 0, 0)
        } else {
            (0, 0, 0, 0)
        },
    }
}

/// Is the subname `raw` one of the tests (see [`sub_is_tst`])?
fn check_sub_is_tst(raw: &str) -> (r: bool)
    ensures
        r == sub_is_tst(raw@),
{
    let v = crate::text::str_chars(raw);
    if v.len() < 1 || v[0] != '.' || !crate::name::check_tst_dash(v.as_slice(), 1) {
        return false;
    }
    let mut i: usize = 0;
    while i < v.len()
        invariant
            i <= v@.len(),
            v@ == raw@,
            forall|k: int| 0 <= k < i ==> v@[k] != '\n',
        decreases v@.len() - i,
    {
        if v[i] == '\n' {
            assert(raw@[i as int] == '\n');
            return false;
        }
        i = i + 1;
    }
    true
}

impl Impl {
    /// The statistics of the implementation with the subnames `subnames`
    /// (see [`impl_statistics`]): the counts and done counts of what makes
    /// up its implementation and its tests, as whole numbers (the
    /// completion ratios are their quotients).
    pub fn to_statistics(&self, subnames: &Vec<SubName>) -> (r: (usize, usize, usize, usize))
        requires
            subnames@.len() < usize::MAX,
        ensures
            (r.0 as nat, r.1 as nat, r.2 as nat, r.3 as nat) == impl_statistics(*self, subnames@),
    {
        match self {
            Impl::Done(_) => (1, 1, 1, 1),
            Impl::Code(c) => {
                let mut value: usize = if c.primary.is_some() { 1 } else { 0 };
                let mut sec_count: usize = 0;
                let mut sec_value: usize = 0;
                let mut i: usize = 0;
                assert(subnames@.take(0) =~= seq![]);
                while i < subnames.len()
                    invariant
                        i <= subnames@.len(),
                        subnames@.len() < usize::MAX,
                        value == (if c.primary is Some { 1nat } else { 0nat }) + count_placed(subnames@.take(i as int), *c),
                        sec_count == count_tst(subnames@.take(i as int)),
                        sec_value == count_tst_placed(subnames@.take(i as int), *c),
                        count_placed(subnames@.take(i as int), *c) <= i,
                        sec_value <= sec_count,
                        sec_count <= i,
                    decreases subnames@.len() - i,
                {
                    proof {
                        assert(subnames@.take(i + 1).drop_last() =~= subnames@.take(i as int));
                        assert(subnames@.take(i + 1).last() == subnames@[i as int]);
                    }
                    let placed = crate::implemented::find_sub_pair(c.secondary.as_slice(), &subnames[i].0.key).is_some();
                    let tst = check_sub_is_tst(subnames[i].as_str());
                    if placed {
                        value = value + 1;
                    }
                    if tst {
                        sec_count = sec_count + 1;
                        if placed {
                            sec_value = sec_value + 1;
                        }
                    }
                    i = i + 1;
                }
                assert(subnames@.take(subnames@.len() as int) =~= subnames@);
                (1 + subnames.len(), value, sec_count, sec_value)
            },
            Impl::NotImpl => {
                if subnames.len() > 0 {
                    (1 + subnames.len(), 0, 0, 0)
                } else {
                    (0, 0, 0, 0)
                }
            },
        }
    }
}

// ----- INTERMEDIATE -----

/// The editable part of an artifact: what its file says of it.
#[derive(Debug)]
pub struct ArtifactIm {
    pub name: Name,
    pub file: String,
    pub partof: Names,
    pub done: Option<String>,
    pub text: String,
}

/// The bytes of a string in the hash input: its UTF-8 bytes and then
/// `0xff`, a byte that UTF-8 never holds.
pub open spec fn str_bytes(s: Seq<char>) -> Seq<u8> {
    vstd::utf8::encode_utf8(s).push(0xffu8)
}

/// The bytes of a list of keys in the hash input: `1` and the key for
/// each, then `0`.
pub open spec fn keys_bytes(keys: Seq<Seq<char>>) -> Seq<u8>
    decreases keys.len(),
{
    if keys.len() == 0 {
        seq![0u8]
    } else {
        seq![1u8] + str_bytes(keys[0]) + keys_bytes(keys.drop_first())
    }
}

/// The bytes of an optional string in the hash input.
pub open spec fn opt_bytes(s: Option<Seq<char>>) -> Seq<u8> {
    match s {
        None => seq![0u8],
        Some(t) => seq![1u8] + str_bytes(t),
    }
}

/// The keys of a sequence of names.
pub open spec fn name_keys(s: Seq<Name>) -> Seq<Seq<char>> {
    s.map_values(|n: Name| n.key_v())
}

/// What the hash id of an artifact is computed from: the raw name (so a
/// change of case changes it), the file, the keys of `partof` in order,
/// `done` and the text.
pub open spec fn im_bytes(
    raw: Seq<char>,
    file: Seq<char>,
    keys: Seq<Seq<char>>,
    done: Option<Seq<char>>,
    text: Seq<char>,
) -> Seq<u8> {
    str_bytes(raw) + str_bytes(file) + keys_bytes(keys) + opt_bytes(done) + str_bytes(text)
}

/// The 128-bit SipHash (2-4, keys zero) of a byte sequence.
pub uninterp spec fn sip128(bytes: Seq<u8>) -> Seq<u8>;

/// `SipHasher::new()` of siphasher's `sip128`, fed `bytes` by one
/// `write`, and `finish128().as_bytes()`: the 16 bytes of the 128-bit
/// SipHash-2-4 with both keys zero. Claimed: the result is a function of
/// the bytes alone (named [`sip128`]); nothing more is stated of it.
#[verifier::external_body]
fn sip_hash128(bytes: &[u8]) -> (r: [u8; 16])
    ensures
        r@ == sip128(bytes@),
{
    let mut hasher = SipHasher::new();
    hasher.write(bytes);
    hasher.finish128().as_bytes()
}

/// Append the hash-input bytes of `s` to `out`.
fn push_str_bytes(out: &mut Vec<u8>, s: &str)
    ensures
        final(out)@ == old(out)@ + str_bytes(s@),
{
    push_bytes(out, s.as_bytes());
    out.push(0xffu8);
    assert(out@ =~= old(out)@ + str_bytes(s@));
}

impl ArtifactIm {
    /// The name and the `partof` set are well formed.
    pub open spec fn wf(&self) -> bool {
        self.name.wf() && self.partof.wf()
    }

    /// The optional `done` text as a plain value.
    pub open spec fn done_v(&self) -> Option<Seq<char>> {
        match self.done {
            Some(d) => Some(d@),
            None => None,
        }
    }

    /// The bytes that the hash id of this artifact is computed from.
    pub open spec fn hash_input(&self) -> Seq<u8> {
        im_bytes(
            self.name.raw_v(),
            self.file@,
            name_keys(self.partof.0@),
            self.done_v(),
            self.text@,
        )
    }

    /// The bytes that the hash id is computed from.
    pub fn hash_bytes(&self) -> (r: Vec<u8>)
        ensures
            r@ == self.hash_input(),
    {
        let mut out: Vec<u8> = Vec::new();
        push_str_bytes(&mut out, self.name.as_str());
        push_str_bytes(&mut out, self.file.as_str());
        let ghost head = out@;
        let ghost keys = name_keys(self.partof.0@);
        let n: usize = self.partof.0.len();
        let mut i: usize = n;
        let mut tail: Vec<u8> = Vec::new();
        tail.push(0u8);
        assert(tail@ =~= keys_bytes(keys.skip(n as int)));
        while i > 0
            invariant
                i <= n,
                n == self.partof.0@.len(),
                keys == name_keys(self.partof.0@),
                tail@ == keys_bytes(keys.skip(i as int)),
            decreases i,
        {
            i = i - 1;
            let mut item: Vec<u8> = Vec::new();
            item.push(1u8);
            push_str_bytes(&mut item, self.partof.0[i].key_str());
            push_bytes(&mut item, tail.as_slice());
            proof {
                assert(keys.skip(i as int).drop_first() =~= keys.skip(i + 1));
                assert(keys.skip(i as int)[0] == self.partof.0@[i as int].key_v());
                assert(item@ =~= keys_bytes(keys.skip(i as int)));
            }
            tail = item;
        }
        assert(keys.skip(0) =~= keys);
        push_bytes(&mut out, tail.as_slice());
        match &self.done {
            None => out.push(0u8),
            Some(d) => {
                out.push(1u8);
                push_str_bytes(&mut out, d.as_str());
            },
        }
        push_str_bytes(&mut out, self.text.as_str());
        assert(out@ =~= self.hash_input());
        out
    }

    /// The hash id of the artifact: SipHash-128 of [`ArtifactIm::hash_input`].
    pub fn hash_im(&self) -> (r: HashIm)
        ensures
            r.0@ == sip128(self.hash_input()),
    {
        let bytes = self.hash_bytes();
        HashIm(sip_hash128(bytes.as_slice()))
    }

    /// Put the artifact in its canonical form: remove the automatic
    /// family from `partof`, sort `partof` and clean the text.
    pub fn clean(&mut self)
        requires
            old(self).wf(),
        ensures
            final(self).wf(),
            final(self).name == old(self).name,
            final(self).file == old(self).file,
            final(self).done == old(self).done,
            final(self).text@ == cleaned(old(self).text@),
            sorted(final(self).partof.0@),
            final(self).partof.0@.to_multiset() == strip_spec(
                old(self).name.raw_v(),
                old(self).partof.0@,
            ).to_multiset(),
            final(self).partof.0@ == isort(strip_spec(old(self).name.raw_v(), old(self).partof.0@)),
    {
        strip_auto_partofs(&self.name, &mut self.partof);
        self.partof.sort();
        clean_text(&mut self.text);
    }
}

/// `b` is `a` in canonical form (see [`ArtifactIm::clean`]).
pub open spec fn clean_of(b: ArtifactIm, a: ArtifactIm) -> bool {
    &&& b.name == a.name
    &&& b.file == a.file
    &&& b.done == a.done
    &&& b.text@ == cleaned(a.text@)
    &&& b.partof.0@ == isort(strip_spec(a.name.raw_v(), a.partof.0@))
}

/// `names` without the automatic family of the name `raw`.
pub open spec fn strip_spec(raw: Seq<char>, names: Seq<Name>) -> Seq<Name> {
    match (parent_raw(raw), auto_partof_raw(raw)) {
        (Some(p), Some(a)) => swap_remove_key(swap_remove_key(names, upper(p)), upper(a)),
        (Some(p), None) => swap_remove_key(names, upper(p)),
        (None, Some(a)) => swap_remove_key(names, upper(a)),
        (None, None) => names,
    }
}

/// Stripping the automatic family keeps unique keys, keeps only names
/// that were there, and leaves no name of the automatic family.
pub(crate) proof fn lemma_strip(raw: Seq<char>, names: Seq<Name>)
    requires
        keys_unique(names),
    ensures
        keys_unique(strip_spec(raw, names)),
        forall|j: int| 0 <= j < strip_spec(raw, names).len() ==> names.contains(#[trigger] strip_spec(raw, names)[j]),
        parent_raw(raw) matches Some(p) ==> !has_key(strip_spec(raw, names), upper(p)),
        auto_partof_raw(raw) matches Some(a) ==> !has_key(strip_spec(raw, names), upper(a)),
{
    match (parent_raw(raw), auto_partof_raw(raw)) {
        (Some(p), Some(a)) => {
            let r1 = swap_remove_key(names, upper(p));
            lemma_swap_remove_key(names, upper(p));
            lemma_swap_remove_key(r1, upper(a));
            let r2 = swap_remove_key(r1, upper(a));
            assert forall|j: int| 0 <= j < r2.len() implies names.contains(#[trigger] r2[j]) by {
                assert(r1.contains(r2[j]));
                let m = choose|m: int| 0 <= m < r1.len() && r1[m] == r2[j];
                assert(names.contains(r1[m]));
            }
            if has_key(r2, upper(p)) {
                let j = choose|j: int| 0 <= j < r2.len() && (#[trigger] r2[j]).key_v() == upper(p);
                assert(r1.contains(r2[j]));
                let m = choose|m: int| 0 <= m < r1.len() && r1[m] == r2[j];
                assert(has_key(r1, upper(p)));
            }
        },
        (Some(p), None) => {
            lemma_swap_remove_key(names, upper(p));
        },
        (None, Some(a)) => {
            lemma_swap_remove_key(names, upper(a));
        },
        (None, None) => {
            assert forall|j: int| 0 <= j < names.len() implies names.contains(#[trigger] names[j]) by {}
        },
    }
}

/// Names without the automatic family are left as they are by stripping.
proof fn lemma_strip_noop(raw: Seq<char>, names: Seq<Name>)
    requires
        parent_raw(raw) matches Some(p) ==> !has_key(names, upper(p)),
        auto_partof_raw(raw) matches Some(a) ==> !has_key(names, upper(a)),
    ensures
        strip_spec(raw, names) == names,
{
    if let Some(p) = parent_raw(raw) {
        crate::family::lemma_key_index(names, upper(p));
    }
    if let Some(a) = auto_partof_raw(raw) {
        crate::family::lemma_key_index(names, upper(a));
    }
}

/// Cleaning twice is cleaning once: `clean` leaves an artifact in
/// canonical form as it is, so its hash id does not change.
pub proof fn lemma_clean_idempotent(a: ArtifactIm, b: ArtifactIm, c: ArtifactIm)
    requires
        a.wf(),
        clean_of(b, a),
        clean_of(c, b),
    ensures
        c.name == b.name,
        c.file == b.file,
        c.done == b.done,
        c.text@ == b.text@,
        c.partof.0@ == b.partof.0@,
        c.hash_input() == b.hash_input(),
{
    crate::text::lemma_cleaned_idempotent(a.text@);
    lemma_clean_partof_fixed(a);
}

/// The canonical form of a well-formed artifact is well formed.
pub(crate) proof fn lemma_clean_wf(a: ArtifactIm, b: ArtifactIm)
    requires
        a.wf(),
        clean_of(b, a),
    ensures
        b.wf(),
{
    let raw = a.name.raw_v();
    let y = strip_spec(raw, a.partof.0@);
    lemma_strip(raw, a.partof.0@);
    assert forall|j: int| 0 <= j < y.len() implies (#[trigger] y[j]).wf() by {
        assert(a.partof.0@.contains(y[j]));
    }
    crate::sort::lemma_isort(y);
    crate::family::lemma_permutation_wf(y, isort(y));
}

/// The canonical `partof` of an artifact is left as it is by stripping the
/// automatic family and sorting again.
pub(crate) proof fn lemma_clean_partof_fixed(a: ArtifactIm)
    requires
        a.wf(),
    ensures
        ({
            let raw = a.name.raw_v();
            let bp = isort(strip_spec(raw, a.partof.0@));
            &&& strip_spec(raw, bp) == bp
            &&& isort(bp) == bp
        }),
{
    broadcast use vstd::seq_lib::group_to_multiset_ensures;
    let raw = a.name.raw_v();
    let y = strip_spec(raw, a.partof.0@);
    lemma_strip(raw, a.partof.0@);
    crate::sort::lemma_isort(y);
    let bp = isort(y);
    assert forall|k: Seq<char>| has_key(bp, k) implies has_key(y, k) by {
        let j = choose|j: int| 0 <= j < bp.len() && (#[trigger] bp[j]).key_v() == k;
        assert(bp.to_multiset().count(bp[j]) > 0);
        assert(y.contains(bp[j]));
        let m = choose|m: int| 0 <= m < y.len() && y[m] == bp[j];
        assert(y[m].key_v() == k);
    }
    lemma_strip_noop(raw, bp);
    crate::sort::lemma_isort_sorted_id(bp);
}

// ------ OPERATIONS -----

/// An operation on a project.
#[derive(Debug)]
pub enum ArtifactOp {
    Create { artifact: ArtifactIm },
    Update { artifact: ArtifactIm, orig_id: HashIm },
    Delete { name: Name, orig_id: HashIm },
}

/// `b` is the operation `a` with its artifact cleaned.
pub open spec fn op_clean_of(b: ArtifactOp, a: ArtifactOp) -> bool {
    match (a, b) {
        (ArtifactOp::Create { artifact: x }, ArtifactOp::Create { artifact: y }) => clean_of(y, x),
        (
            ArtifactOp::Update { artifact: x, orig_id: i },
            ArtifactOp::Update { artifact: y, orig_id: j },
        ) => i == j && clean_of(y, x),
        (ArtifactOp::Delete { .. }, _) => b == a,
        _ => false,
    }
}

/// The name and hash ids an operation concerns.
#[derive(Debug)]
pub struct IdPieces {
    pub name: Name,
    pub orig_id: Option<HashIm>,
    pub new_id: Option<HashIm>,
}

impl ArtifactOp {
    /// The artifacts of the operation are well formed.
    pub open spec fn wf(&self) -> bool {
        match self {
            ArtifactOp::Create { artifact } => artifact.wf(),
            ArtifactOp::Update { artifact, .. } => artifact.wf(),
            ArtifactOp::Delete { name, .. } => name.wf(),
        }
    }

    /// Clean the artifact of a create or update.
    pub fn clean(&mut self)
        requires
            old(self).wf(),
        ensures
            final(self).wf(),
            op_clean_of(*final(self), *old(self)),
    {
        match self {
            ArtifactOp::Create { artifact } => artifact.clean(),
            ArtifactOp::Update { artifact, .. } => artifact.clean(),
            ArtifactOp::Delete { .. } => {},
        }
    }

    /// The name, original hash id and new hash id of the operation.
    pub fn id_pieces(&self) -> (r: IdPieces)
        ensures
            match self {
                ArtifactOp::Create { artifact } => {
                    &&& r.name == artifact.name
                    &&& r.orig_id is None
                    &&& r.new_id matches Some(h) && h.0@ == sip128(artifact.hash_input())
                },
                ArtifactOp::Update { artifact, orig_id } => {
                    &&& r.name == artifact.name
                    &&& r.orig_id == Some(*orig_id)
                    &&& r.new_id matches Some(h) && h.0@ == sip128(artifact.hash_input())
                },
                ArtifactOp::Delete { name, orig_id } => {
                    &&& r.name == *name
                    &&& r.orig_id == Some(*orig_id)
                    &&& r.new_id is None
                },
            },
    {
        match self {
            ArtifactOp::Create { artifact } => IdPieces {
                name: artifact.name.clone(),
                orig_id: None,
                new_id: Some(artifact.hash_im()),
            },
            ArtifactOp::Update { artifact, orig_id } => IdPieces {
                name: artifact.name.clone(),
                orig_id: Some(*orig_id),
                new_id: Some(artifact.hash_im()),
            },
            ArtifactOp::Delete { name, orig_id } => IdPieces {
                name: name.clone(),
                orig_id: Some(*orig_id),
                new_id: None,
            },
        }
    }
}

// ----- SETTINGS -----

/// The settings of a loaded project: absolute paths as strings.
#[derive(Debug)]
pub struct Settings {
    pub base: String,
    pub settings_path: String,
    pub code_paths: Vec<String>,
    pub exclude_code_paths: Vec<String>,
    pub artifact_paths: Vec<String>,
    pub exclude_artifact_paths: Vec<String>,
    pub code_url: Option<String>,
    pub parse: SettingsParse,
    pub format: SettingsFormat,
    pub export: SettingsExport,
}

// ------ HELPERS ------

/// `end` joined onto `base` as `Path::join` does on Unix: an absolute
/// `end` replaces `base`; otherwise a `/` separates them unless `base` is
/// empty or already ends in one.
pub open spec fn join_spec(base: Seq<char>, end: Seq<char>) -> Seq<char> {
    if end.len() > 0 && end[0] == '/' {
        end
    } else if base.len() > 0 && base.last() != '/' {
        base + seq!['/'] + end
    } else {
        base + end
    }
}

/// Join a path onto an absolute path.
pub fn join_abs(path: &str, end: &str) -> (r: String)
    ensures
        r@ == join_spec(path@, end@),
{
    let e = crate::text::str_chars(end);
    if e.len() > 0 && e[0] == '/' {
        return end.to_owned();
    }
    let p = crate::text::str_chars(path);
    let mut out = path.to_owned();
    if p.len() > 0 && p[p.len() - 1] != '/' {
        out.append("/");
        proof {
            reveal_strlit("/");
        }
    }
    out.append(end);
    proof {
        reveal_strlit("/");
    }
    out
}

/// The text `{repo}` that may open a path of the settings file.
pub open spec fn repo_marker() -> Seq<char> {
    seq!['{', 'r', 'e', 'p', 'o', '}']
}

/// `s` without every leading `{repo}`.
pub open spec fn strip_repo(s: Seq<char>) -> Seq<char>
    decreases s.len(),
{
    if s.len() >= 6 && s.take(6) == repo_marker() {
        strip_repo(s.skip(6))
    } else {
        s
    }
}

/// `s` without every leading `/`.
pub open spec fn strip_slashes(s: Seq<char>) -> Seq<char>
    decreases s.len(),
{
    if s.len() > 0 && s[0] == '/' {
        strip_slashes(s.drop_first())
    } else {
        s
    }
}

/// Does `{repo}` stand in `v` at `i`?
fn repo_at(v: &[char], i: usize) -> (r: bool)
    requires
        i <= v@.len(),
    ensures
        r == (v@.skip(i as int).len() >= 6 && v@.skip(i as int).take(6) == repo_marker()),
{
    if v.len() - i < 6 {
        return false;
    }
    let r = v[i] == '{' && v[i + 1] == 'r' && v[i + 2] == 'e' && v[i + 3] == 'p' && v[i + 4] == 'o'
        && v[i + 5] == '}';
    proof {
        let t = v@.skip(i as int).take(6);
        if r {
            assert(t =~= repo_marker());
        } else {
            if t == repo_marker() {
                assert(t[0] == v@[i as int]);
                assert(t[1] == v@[i + 1]);
                assert(t[2] == v@[i + 2]);
                assert(t[3] == v@[i + 3]);
                assert(t[4] == v@[i + 4]);
                assert(t[5] == v@[i + 5]);
            }
        }
    }
    r
}

/// A path of the settings file resolved against the project directory
/// `base`: leading `{repo}`s and then leading `/`s are dropped, and the rest
/// is joined onto `base`.
pub fn resolve_raw_path(base: &str, raw: &str) -> (r: String)
    ensures
        r@ == join_spec(base@, strip_slashes(strip_repo(raw@))),
{
    let v = crate::text::str_chars(raw);
    let mut i: usize = 0;
    assert(v@.skip(0) =~= v@);
    while repo_at(v.as_slice(), i)
        invariant
            i <= v@.len(),
            v@ == raw@,
            strip_repo(v@.skip(i as int)) == strip_repo(raw@),
        decreases v@.len() - i,
    {
        assert(v@.skip(i as int).len() == v@.len() - i);
        assert(i + 6 <= v.len());
        proof {
            assert(v@.skip(i as int).take(6) =~= repo_marker());
            assert(v@.skip(i as int).skip(6) =~= v@.skip(i + 6));
        }
        i = i + 6;
    }
    let ghost after_repo = v@.skip(i as int);
    assert(strip_repo(after_repo) == after_repo);
    while i < v.len() && v[i] == '/'
        invariant
            i <= v@.len(),
            v@ == raw@,
            strip_slashes(v@.skip(i as int)) == strip_slashes(after_repo),
        decreases v@.len() - i,
    {
        assert(v@.skip(i as int).drop_first() =~= v@.skip(i + 1));
        i = i + 1;
    }
    let end = crate::text::chars_to_string(v.as_slice(), i, v.len());
    assert(end@ =~= v@.skip(i as int));
    join_abs(base, end.as_str())
}

/// The subnames of `subs` that `code` places in its secondary places
/// (some place has the subname's key).
pub open spec fn placed_subs(subs: Seq<SubName>, code: ImplCode) -> Seq<SubName> {
    subs.filter(
        |x: SubName| exists|j: int| 0 <= j < code.secondary@.len() && (#[trigger] code.secondary@[j]).0.key_v() == x.key_v(),
    )
}

/// The test subnames of `subs` that `code` places.
pub open spec fn placed_tst_subs(subs: Seq<SubName>, code: ImplCode) -> Seq<SubName> {
    subs.filter(
        |x: SubName| sub_is_tst(x.raw_v()) && exists|j: int| 0 <= j < code.secondary@.len() && (#[trigger] code.secondary@[j]).0.key_v() == x.key_v(),
    )
}

proof fn lemma_code_has_sub(code: ImplCode, key: Seq<char>)
    ensures
        code_has_sub(code, key) <==> exists|j: int|
            0 <= j < code.secondary@.len() && (#[trigger] code.secondary@[j]).0.key_v() == key,
{
    crate::implemented::lemma_first_index(sub_keys(code.secondary@), key);
    if exists|j: int| 0 <= j < code.secondary@.len() && (#[trigger] code.secondary@[j]).0.key_v() == key {
        let j = choose|j: int| 0 <= j < code.secondary@.len() && (#[trigger] code.secondary@[j]).0.key_v() == key;
        assert(sub_keys(code.secondary@)[j] == key);
    }
    if code_has_sub(code, key) {
        let f = crate::implemented::first_index(sub_keys(code.secondary@), key);
        assert(sub_keys(code.secondary@)[f] == code.secondary@[f].0.key_v());
    }
}

proof fn lemma_counts_filter(subs: Seq<SubName>, code: ImplCode)
    ensures
        count_placed(subs, code) == placed_subs(subs, code).len(),
        count_tst(subs) == subs.filter(|x: SubName| sub_is_tst(x.raw_v())).len(),
        count_tst_placed(subs, code) == placed_tst_subs(subs, code).len(),
    decreases subs.len(),
{
    reveal(Seq::filter);
    if subs.len() > 0 {
        lemma_counts_filter(subs.drop_last(), code);
        lemma_code_has_sub(code, subs.last().key_v());
    }
}

/// What the statistics of a code implementation count, stated over the
/// subnames: everything is the primary place and each subname, of which
/// the primary place (if there is one) and each subname that some
/// secondary place has are done; the tests are the test subnames, of which
/// those that some secondary place has are done. A test subname that no
/// place has adds nothing to the tests done, so the tests done are at most
/// the subnames done.
pub proof fn lemma_code_statistics(c: ImplCode, subs: Seq<SubName>)
    ensures
        impl_statistics(Impl::Code(c), subs).0 == 1 + subs.len(),
        impl_statistics(Impl::Code(c), subs).1 == (if c.primary is Some { 1nat } else { 0nat })
            + placed_subs(subs, c).len(),
        impl_statistics(Impl::Code(c), subs).2 == subs.filter(|x: SubName| sub_is_tst(x.raw_v())).len(),
        impl_statistics(Impl::Code(c), subs).3 == placed_tst_subs(subs, c).len(),
        impl_statistics(Impl::Code(c), subs).3 <= placed_subs(subs, c).len(),
        impl_statistics(Impl::Code(c), subs).3 <= impl_statistics(Impl::Code(c), subs).2,
    decreases subs.len(),
{
    lemma_counts_filter(subs, c);
    reveal(Seq::filter);
    if subs.len() > 0 {
        lemma_code_statistics(c, subs.drop_last());
    }
}

} // verus!
