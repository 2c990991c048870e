//! Settings and the plain, serializable forms of the project's values.
//!
//! These types hold strings where the full types hold paths, and are what
//! the web frontend and the JSON API exchange.
use vstd::prelude::*;
use crate::family::Names;
use crate::lint::Categorized;
use crate::artifact::sub_keys;
use crate::implemented::{find_name_pair, find_sub_pair, first_index, lemma_first_index, name_keys_of};
use crate::name::{upper, valid_name, valid_subname, Name, SubName};
use crate::text::{chars_starts_with, str_chars, str_eq};

verus! {

// ------ SETTINGS ------

/// How the family of an artifact is rendered in exported markdown.
#[derive(Debug, Clone, Copy, PartialEq, Eq, Structural)]
pub enum SettingsMdFamily {
    List,
    Dot,
}

impl Default for SettingsMdFamily {
    fn default() -> (r: SettingsMdFamily)
        ensures
            r == SettingsMdFamily::List,
    {
        SettingsMdFamily::List
    }
}

/// How `dot` code blocks are handled when exporting markdown.
#[derive(Debug)]
pub enum SettingsMdDot {
    /// Leave them as they are.
    Ignore,
    /// Remove the braces; another processor handles them.
    RemoveBraces,
    /// Replace the outer braces.
    ReplaceBraces { pre: String, post: String },
}

impl Default for SettingsMdDot {
    fn default() -> (r: SettingsMdDot)
        ensures
            r is Ignore,
    {
        SettingsMdDot::Ignore
    }
}

/// How the name line of an artifact is written in markdown.
#[derive(Debug)]
pub enum SettingsMdName {
    /// No special behavior.
    Default,
    /// Prefix a value onto the name line: `value="#"` writes `## REQ-foo`
    /// instead of `# REQ-foo`.
    Prefix { value: String },
}

impl SettingsMdName {
    /// The text put before the `#` of the name line.
    pub open spec fn prefix_spec(&self) -> Seq<char> {
        match self {
            SettingsMdName::Default => Seq::empty(),
            SettingsMdName::Prefix { value } => value@,
        }
    }

    /// The text put before the `#` of the name line: empty by default.
    pub fn to_prefix_string(&self) -> (r: String)
        ensures
            r@ == self.prefix_spec(),
    {
        match self {
            SettingsMdName::Default => String::new(),
            SettingsMdName::Prefix { value } => value.clone(),
        }
    }
}

impl Default for SettingsMdName {
    fn default() -> (r: SettingsMdName)
        ensures
            r is Default,
    {
        SettingsMdName::Default
    }
}

/// How the attributes of an artifact are written in markdown.
#[derive(Debug)]
pub enum SettingsMdAttrs {
    /// Between the name line and a line of `###` (the default).
    Hashes,
    /// In a code block whose info string ends in `art`, after `prefix`.
    Code { prefix: Option<String> },
}

impl Default for SettingsMdAttrs {
    fn default() -> (r: SettingsMdAttrs)
        ensures
            r is Hashes,
    {
        SettingsMdAttrs::Hashes
    }
}

/// Settings related to parsing artifacts.
#[derive(Debug)]
pub struct SettingsParse {
    /// How to parse the name in markdown.
    pub md_name: SettingsMdName,
}

impl Default for SettingsParse {
    fn default() -> (r: SettingsParse)
        ensures
            r.md_name is Default,
    {
        SettingsParse { md_name: SettingsMdName::Default }
    }
}

/// Settings related to formatting artifacts.
#[derive(Debug)]
pub struct SettingsFormat {
    /// How to write attributes.
    pub md_attrs: SettingsMdAttrs,
}

impl Default for SettingsFormat {
    fn default() -> (r: SettingsFormat)
        ensures
            r.md_attrs is Hashes,
    {
        SettingsFormat { md_attrs: SettingsMdAttrs::Hashes }
    }
}

/// Settings related to exporting a project.
#[derive(Debug)]
pub struct SettingsExport {
    /// A header to put at the top of exported markdown.
    pub md_header: Option<String>,
    /// Whether to include a table of contents.
    pub md_toc: bool,
    /// How to render the family of each artifact.
    pub md_family: SettingsMdFamily,
    /// How to handle `dot` code blocks.
    pub md_dot: SettingsMdDot,
    /// How to write names.
    pub md_name: SettingsMdName,
}

impl Default for SettingsExport {
    fn default() -> (r: SettingsExport)
        ensures
            r.md_header.is_none(),
            !r.md_toc,
            r.md_family == SettingsMdFamily::List,
            r.md_dot is Ignore,
            r.md_name is Default,
    {
        SettingsExport {
            md_header: None,
            md_toc: false,
            md_family: SettingsMdFamily::List,
            md_dot: SettingsMdDot::Ignore,
            md_name: SettingsMdName::Default,
        }
    }
}

// ------ HASH ------

/// The unique hash id of an artifact's editable contents.
#[derive(Debug, Clone, Copy)]
pub struct HashIm(pub [u8; 16]);

impl Default for HashIm {
    fn default() -> (r: HashIm)
        ensures
            forall|i: int| 0 <= i < 16 ==> r.0@[i] == 0,
    {
        HashIm([0u8; 16])
    }
}

/// The URL-safe base64 symbol of the six bits `v`: `A`-`Z`, `a`-`z`,
/// `0`-`9`, `-`, `_`.
pub open spec fn b64_sym(v: int) -> char {
    if v < 26 {
        (65 + v) as char
    } else if v < 52 {
        (97 + v - 26) as char
    } else if v < 62 {
        (48 + v - 52) as char
    } else if v == 62 {
        '-'
    } else {
        '_'
    }
}

/// The URL-safe base64 text of `b` without padding: each group of three
/// bytes gives four symbols of six bits, most significant first; a last
/// group of two bytes gives three, of one byte two.
pub open spec fn b64_url(b: Seq<u8>) -> Seq<char>
    decreases b.len(),
{
    if b.len() >= 3 {
        let n = b[0] * 65536 + b[1] * 256 + b[2];
        seq![b64_sym(n / 262144), b64_sym(n / 4096 % 64), b64_sym(n / 64 % 64), b64_sym(n % 64)]
            + b64_url(b.skip(3))
    } else if b.len() == 2 {
        let n = b[0] * 65536 + b[1] * 256;
        seq![b64_sym(n / 262144), b64_sym(n / 4096 % 64), b64_sym(n / 64 % 64)]
    } else if b.len() == 1 {
        let n = b[0] * 65536;
        seq![b64_sym(n / 262144), b64_sym(n / 4096 % 64)]
    } else {
        seq![]
    }
}

/// What decoding `s` as URL-safe base64 without padding gives: the bytes,
/// or the message of the decoding error.
pub uninterp spec fn b64_url_decoded(s: Seq<char>) -> Result<Seq<u8>, Seq<char>>;

/// `base64::encode_config(bytes, base64::URL_SAFE_NO_PAD)`. Claimed: the
/// text is the URL-safe base64 of the bytes without padding, [`b64_url`].
#[verifier::external_body]
fn encode_b64_url(bytes: &[u8; 16]) -> (r: String)
    ensures
        r@ == b64_url(bytes@),
{
    base64::encode_config(bytes, base64::URL_SAFE_NO_PAD)
}

/// `base64::decode_config(s, base64::URL_SAFE_NO_PAD)`, with an error
/// turned into its message. Claimed: the outcome is a function of the text
/// (named [`b64_url_decoded`]). `requires` keeps the crate's size
/// computation (UTF-8 length plus 3) from overflowing.
#[verifier::external_body]
fn decode_b64_url(s: &str) -> (r: Result<Vec<u8>, String>)
    requires
        s@.len() * 4 + 3 <= usize::MAX,
    ensures
        match (r, b64_url_decoded(s@)) {
            (Ok(v), Ok(w)) => v@ == w,
            (Err(m), Err(w)) => m@ == w,
            _ => false,
        },
{
    base64::decode_config(s, base64::URL_SAFE_NO_PAD).map_err(|e| e.to_string())
}

/// The bytes of a decoded id: the decoded bytes, then zeros up to 16.
pub open spec fn id_bytes(v: Seq<u8>) -> Seq<u8> {
    v + Seq::new((16 - v.len()) as nat, |i: int| 0u8)
}

/// The message for a decoded id longer than 16 bytes.
pub open spec fn id_too_long_msg() -> Seq<char> {
    "hash id is longer than 16 bytes"@
}

impl HashIm {
    /// The id as text: URL-safe base64 without padding.
    pub fn to_base64(&self) -> (r: String)
        ensures
            r@ == b64_url(self.0@),
    {
        encode_b64_url(&self.0)
    }

    /// The id of its text form (see [`HashIm::to_base64`]): the decoded
    /// bytes, zeros after them up to 16; an error where the text does not
    /// decode or decodes to more than 16 bytes.
    pub fn from_base64(s: &str) -> (r: Result<HashIm, String>)
        requires
            s@.len() * 4 + 3 <= usize::MAX,
        ensures
            match b64_url_decoded(s@) {
                Err(m) => r matches Err(e) && e@ == m,
                Ok(v) => if v.len() > 16 {
                    r matches Err(e) && e@ == id_too_long_msg()
                } else {
                    r matches Ok(h) && h.0@ == id_bytes(v)
                },
            },
    {
        let v = match decode_b64_url(s) {
            Ok(v) => v,
            Err(m) => return Err(m),
        };
        if v.len() > 16 {
            return Err("hash id is longer than 16 bytes".to_owned());
        }
        let mut a = [0u8; 16];
        let mut i: usize = 0;
        while i < v.len()
            invariant
                i <= v@.len() <= 16,
                forall|k: int| 0 <= k < i ==> a@[k] == v@[k],
                forall|k: int| i <= k < 16 ==> a@[k] == 0,
                a@.len() == 16,
            decreases v@.len() - i,
        {
            a[i] = v[i];
            i = i + 1;
        }
        assert(a@ =~= id_bytes(v@));
        Ok(HashIm(a))
    }
}

// ------ MODIFY ERROR ------

/// Why a modification of the project failed.
#[derive(Debug, Clone, Copy, PartialEq, Eq, Structural)]
pub enum ModifyErrorKind {
    /// The project was corrupted by the user.
    InvalidFromLoad,
    /// Some of the operations have invalid paths.
    InvalidPaths,
    /// Some of the hash ids did not match.
    HashMismatch,
    /// The project would have been corrupted by the modifications.
    InvalidFromModify,
    /// Failure while creating backups; recovery required.
    CreateBackups,
    /// Failure while saving the project; recovery required.
    SaveProject,
}

impl ModifyErrorKind {
    /// The name of the variant.
    pub open spec fn spec_name(self) -> Seq<char> {
        match self {
            ModifyErrorKind::InvalidFromLoad => "InvalidFromLoad"@,
            ModifyErrorKind::InvalidPaths => "InvalidPaths"@,
            ModifyErrorKind::HashMismatch => "HashMismatch"@,
            ModifyErrorKind::InvalidFromModify => "InvalidFromModify"@,
            ModifyErrorKind::CreateBackups => "CreateBackups"@,
            ModifyErrorKind::SaveProject => "SaveProject"@,
        }
    }

    /// The variant named `s`, if there is one.
    pub fn from_str(s: &str) -> (r: Option<ModifyErrorKind>)
        ensures
            r matches Some(k) ==> k.spec_name() == s@,
            r is None ==> forall|k: ModifyErrorKind| k.spec_name() != s@,
    {
        let kinds = [
            ModifyErrorKind::InvalidFromLoad,
            ModifyErrorKind::InvalidPaths,
            ModifyErrorKind::HashMismatch,
            ModifyErrorKind::InvalidFromModify,
            ModifyErrorKind::CreateBackups,
            ModifyErrorKind::SaveProject,
        ];
        let mut i: usize = 0;
        while i < 6
            invariant
                i <= 6,
                kinds@ == seq![
                    ModifyErrorKind::InvalidFromLoad,
                    ModifyErrorKind::InvalidPaths,
                    ModifyErrorKind::HashMismatch,
                    ModifyErrorKind::InvalidFromModify,
                    ModifyErrorKind::CreateBackups,
                    ModifyErrorKind::SaveProject,
                ],
                forall|k: int| 0 <= k < i ==> kinds@[k].spec_name() != s@,
            decreases 6 - i,
        {
            let k = kinds[i];
            if str_eq(k.as_str(), s) {
                return Some(k);
            }
            i = i + 1;
        }
        proof {
            assert forall|k: ModifyErrorKind| k.spec_name() != s@ by {
                match k {
                    ModifyErrorKind::InvalidFromLoad => assert(kinds@[0] == k),
                    ModifyErrorKind::InvalidPaths => assert(kinds@[1] == k),
                    ModifyErrorKind::HashMismatch => assert(kinds@[2] == k),
                    ModifyErrorKind::InvalidFromModify => assert(kinds@[3] == k),
                    ModifyErrorKind::CreateBackups => assert(kinds@[4] == k),
                    ModifyErrorKind::SaveProject => assert(kinds@[5] == k),
                }
            }
        }
        None
    }

    /// The name of the variant.
    pub fn as_str(&self) -> (r: &'static str)
        ensures
            r@ == self.spec_name(),
    {
        match self {
            ModifyErrorKind::InvalidFromLoad => "InvalidFromLoad",
            ModifyErrorKind::InvalidPaths => "InvalidPaths",
            ModifyErrorKind::HashMismatch => "HashMismatch",
            ModifyErrorKind::InvalidFromModify => "InvalidFromModify",
            ModifyErrorKind::CreateBackups => "CreateBackups",
            ModifyErrorKind::SaveProject => "SaveProject",
        }
    }
}

/// Reading a kind's name gives the kind back: whatever
/// [`ModifyErrorKind::from_str`] returns on the name of `k` (its
/// `as_str`) is `Some(k)`.
pub proof fn lemma_modify_error_kind_roundtrip(k: ModifyErrorKind, r: Option<ModifyErrorKind>)
    requires
        r matches Some(x) ==> x.spec_name() == k.spec_name(),
        r is None ==> forall|x: ModifyErrorKind| #[trigger] x.spec_name() != k.spec_name(),
    ensures
        r == Some(k),
{
    reveal_strlit("InvalidFromLoad");
    reveal_strlit("InvalidPaths");
    reveal_strlit("HashMismatch");
    reveal_strlit("InvalidFromModify");
    reveal_strlit("CreateBackups");
    reveal_strlit("SaveProject");
    match r {
        Some(x) => {
            let a = x.spec_name();
            let b = k.spec_name();
            assert(a.len() == b.len());
            assert(a[0] == b[0]);
            assert(a[7] == b[7]);
            match x {
                ModifyErrorKind::InvalidFromLoad => assert(k is InvalidFromLoad),
                ModifyErrorKind::InvalidPaths => assert(k is InvalidPaths),
                ModifyErrorKind::HashMismatch => assert(k is HashMismatch),
                ModifyErrorKind::InvalidFromModify => assert(k is InvalidFromModify),
                ModifyErrorKind::CreateBackups => assert(k is CreateBackups),
                ModifyErrorKind::SaveProject => assert(k is SaveProject),
            }
        },
        None => {
            let w = k;
            assert(w.spec_name() != k.spec_name());
        },
    }
}

/// A failed modification: why, and the lints that show it.
#[derive(Debug)]
pub struct ModifyError {
    pub lints: Categorized,
    pub kind: ModifyErrorKind,
}

// ------ API OBJECTS ------

/// A method of the JSON API.
#[derive(Debug, Clone, Copy, PartialEq, Eq, Structural)]
pub enum Method {
    ReadProject,
    ModifyProject,
}

impl Method {
    /// The name of the method.
    pub open spec fn spec_name(self) -> Seq<char> {
        match self {
            Method::ReadProject => "ReadProject"@,
            Method::ModifyProject => "ModifyProject"@,
        }
    }

    /// The method named `s`, if there is one.
    pub fn from_str(s: &str) -> (r: Option<Method>)
        ensures
            r matches Some(m) ==> m.spec_name() == s@,
            r is None ==> forall|m: Method| m.spec_name() != s@,
    {
        if str_eq(Method::ReadProject.as_str(), s) {
            Some(Method::ReadProject)
        } else if str_eq(Method::ModifyProject.as_str(), s) {
            Some(Method::ModifyProject)
        } else {
            proof {
                assert forall|m: Method| m.spec_name() != s@ by {
                    match m {
                        Method::ReadProject => {},
                        Method::ModifyProject => {},
                    }
                }
            }
            None
        }
    }

    /// The name of the method.
    pub fn as_str(&self) -> (r: &'static str)
        ensures
            r@ == self.spec_name(),
    {
        match self {
            Method::ReadProject => "ReadProject",
            Method::ModifyProject => "ModifyProject",
        }
    }
}

/// Reading a method's name gives the method back: whatever
/// [`Method::from_str`] returns on the name of `m` is `Some(m)`.
pub proof fn lemma_method_roundtrip(m: Method, r: Option<Method>)
    requires
        r matches Some(x) ==> x.spec_name() == m.spec_name(),
        r is None ==> forall|x: Method| #[trigger] x.spec_name() != m.spec_name(),
    ensures
        r == Some(m),
{
    reveal_strlit("ReadProject");
    reveal_strlit("ModifyProject");
    match r {
        Some(x) => {
            assert(x.spec_name().len() == m.spec_name().len());
            match x {
                Method::ReadProject => assert(m is ReadProject),
                Method::ModifyProject => assert(m is ModifyProject),
            }
        },
        None => {
            let w = m;
            assert(w.spec_name() != m.spec_name());
        },
    }
}

/// Optional parameters of the `ReadProject` method.
#[derive(Debug, Clone, Copy, PartialEq, Eq, Structural)]
pub struct ParamsReadProject {
    /// Force the backend to reload the artifacts.
    pub reload: bool,
}

/// The kind of web editing that a served project allows.
#[derive(Debug, Clone, Copy, PartialEq, Eq, Structural)]
pub enum WebType {
    /// Editable, and can be reloaded.
    Editable,
    /// Read only, but can be reloaded.
    Readonly,
    /// Completely static: exported.
    Static,
}

// ------ SERIALIZED VALUES ------

/// A place in the source code: a file and a line (counted from 0).
#[derive(Debug)]
pub struct CodeLocSer {
    pub file: String,
    pub line: u64,
}

impl CodeLocSer {
    /// The first line of `file`.
    pub fn with_file(file: String) -> (r: CodeLocSer)
        ensures
            r.file == file,
            r.line == 0,
    {
        CodeLocSer { file, line: 0 }
    }

    /// A place that stands in for a real one in examples and tests.
    pub fn fake() -> (r: CodeLocSer)
        ensures
            r.file@ == "/fake"@,
            r.line == 0,
    {
        CodeLocSer { file: "/fake".to_owned(), line: 0 }
    }
}

/// Where the code implements an artifact: its own place and those of
/// its subnames, each subname at most once.
#[derive(Debug)]
pub struct ImplCodeSer {
    pub primary: Option<CodeLocSer>,
    pub secondary: Vec<(SubName, CodeLocSer)>,
}

/// How an artifact is implemented.
#[derive(Debug)]
pub enum ImplSer {
    /// Marked done in its `done` field, with the given text.
    Done(String),
    /// Linked from source code.
    Code(ImplCodeSer),
    /// Not directly implemented.
    NotImpl,
}

impl ImplSer {
    /// Whether this is the `Done` variant.
    pub fn is_done(&self) -> (r: bool)
        ensures
            r == (self is Done),
    {
        match self {
            ImplSer::Done(_) => true,
            _ => false,
        }
    }

    /// The text of the `Done` variant, if it is that one.
    pub fn as_done(&self) -> (r: Option<&str>)
        ensures
            match self {
                ImplSer::Done(d) => r matches Some(s) && s@ == d@,
                _ => r is None,
            },
    {
        match self {
            ImplSer::Done(d) => Some(d.as_str()),
            _ => None,
        }
    }
}

/// The settings of a project, with paths as strings.
#[derive(Debug)]
pub struct SettingsSer {
    pub base: String,
    pub settings_path: String,
    pub code_paths: Vec<String>,
    pub exclude_code_paths: Vec<String>,
    pub artifact_paths: Vec<String>,
    pub exclude_artifact_paths: Vec<String>,
    pub code_url: Option<String>,
    pub export: SettingsExport,
}

/// `path` without the leading `base`, and then without one leading `/`;
/// `path` itself where it does not start with `base`.
pub open spec fn trim_base_spec(base: Seq<char>, path: Seq<char>) -> Seq<char> {
    if base.is_prefix_of(path) {
        let rest = path.skip(base.len() as int);
        if rest.len() > 0 && rest[0] == '/' {
            rest.skip(1)
        } else {
            rest
        }
    } else {
        path
    }
}

impl SettingsSer {
    /// Trim the project's base directory off the front of a path.
    pub fn trim_base<'a>(&self, path: &'a str) -> (r: &'a str)
        ensures
            r@ == trim_base_spec(self.base@, path@),
    {
        let p = str_chars(path);
        let b = str_chars(self.base.as_str());
        if chars_starts_with(p.as_slice(), b.as_slice()) {
            let n: usize = p.len();
            if b.len() < n && p[b.len()] == '/' {
                path.substring_char(b.len() + 1, n)
            } else {
                path.substring_char(b.len(), n)
            }
        } else {
            path
        }
    }
}

/// The editable part of an artifact, with its path as a string.
#[derive(Debug)]
pub struct ArtifactImSer {
    pub name: Name,
    pub file: String,
    pub partof: Names,
    pub done: Option<String>,
    pub text: String,
}

/// One operation of a modification, with paths as strings.
#[derive(Debug)]
pub enum ArtifactOpSer {
    Create { artifact: ArtifactImSer },
    Update { artifact: ArtifactImSer, orig_id: HashIm },
    Delete { name: Name, orig_id: HashIm },
}

/// What looking up the code place of `name` (with `sub`, if given) among
/// `code_impls` gives: the place, or the message saying why there is none.
pub open spec fn get_impl_spec(
    code_impls: Seq<(Name, ImplCodeSer)>,
    name: Seq<char>,
    sub: Option<Seq<char>>,
) -> Result<CodeLocSer, Seq<char>> {
    if !valid_name(name) {
        Err("Name is invalid: "@ + name)
    } else {
        let i = first_index(name_keys_of(code_impls), upper(name));
        if i < 0 {
            Err(name + " not implemented"@)
        } else {
            let code = code_impls[i].1;
            match sub {
                None => match code.primary {
                    Some(c) => Ok(c),
                    None => Err("not implemented"@),
                },
                Some(s) => if !valid_subname(s) {
                    Err(s + " is not a valid subname"@)
                } else {
                    let j = first_index(sub_keys(code.secondary@), upper(s));
                    if j < 0 {
                        Err(name + "."@ + s + " not implemented"@)
                    } else {
                        Ok(code.secondary@[j].1)
                    }
                },
            }
        }
    }
}

/// Get the code place of `name` (and of its subname `sub`, if given) among
/// the implementations of a project: names and subnames are compared by
/// key, so case does not matter.
pub fn get_impl<'a>(code_impls: &'a Vec<(Name, ImplCodeSer)>, name: &str, sub: Option<&str>) -> (r:
    Result<&'a CodeLocSer, String>)
    ensures
        match (r, get_impl_spec(
            code_impls@,
            name@,
            match sub {
                Some(s) => Some(s@),
                None => None,
            },
        )) {
            (Ok(c), Ok(d)) => *c == d,
            (Err(m), Err(e)) => m@ == e,
            _ => false,
        },
{
    let n = match Name::from_str(name) {
        Ok(n) => n,
        Err(e) => return Err(e.message().to_owned()),
    };
    proof {
        lemma_first_index(name_keys_of(code_impls@), n.key_v());
    }
    let code = match find_name_pair(code_impls.as_slice(), &n.0.key) {
        Some(i) => &code_impls[i].1,
        None => {
            let mut m = n.as_str().to_owned();
            m.append(" not implemented");
            return Err(m);
        },
    };
    match sub {
        None => match &code.primary {
            Some(c) => Ok(c),
            None => Err("not implemented".to_owned()),
        },
        Some(sub) => {
            let s = match SubName::from_str(sub) {
                Ok(s) => s,
                Err(e) => return Err(e.message().to_owned()),
            };
            proof {
                lemma_first_index(sub_keys(code.secondary@), s.key_v());
            }
            match find_sub_pair(code.secondary.as_slice(), &s.0.key) {
                Some(j) => Ok(&code.secondary[j].1),
                None => {
                    let mut m = n.as_str().to_owned();
                    m.append(".");
                    m.append(s.as_str());
                    m.append(" not implemented");
                    Err(m)
                },
            }
        },
    }
}

} // verus!
