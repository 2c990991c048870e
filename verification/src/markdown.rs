//! Pieces of the exported markdown: code URLs, CSS fonts and the `dot`
//! graphs of artifact families.
use vstd::prelude::*;
use crate::name::{Name, SubName};
use crate::ser::{trim_base_spec, CodeLocSer, SettingsMdDot, SettingsMdFamily, SettingsSer};
use crate::text::str_chars;

verus! {

/// Settings of the markdown export.
#[derive(Debug)]
pub struct SerMarkdownSettings {
    pub code_url: Option<String>,
    pub family: SettingsMdFamily,
    pub dot: SettingsMdDot,
    pub name_prefix: String,
}

impl Default for SerMarkdownSettings {
    fn default() -> (r: SerMarkdownSettings)
        ensures
            r.code_url is None,
            r.family == SettingsMdFamily::List,
            r.dot is Ignore,
            r.name_prefix@.len() == 0,
    {
        SerMarkdownSettings {
            code_url: None,
            family: SettingsMdFamily::List,
            dot: SettingsMdDot::Ignore,
            name_prefix: String::new(),
        }
    }
}

/// A font style of a name in the exported HTML.
#[derive(Debug, Clone, Copy, PartialEq, Eq, Structural)]
pub enum CssFont {
    Plain,
    Bold,
    Italic,
}

impl CssFont {
    /// The CSS of the font.
    pub open spec fn spec_css(self) -> Seq<char> {
        match self {
            CssFont::Plain => ""@,
            CssFont::Bold => "font-weight: bold; "@,
            CssFont::Italic => "font-style: italic; "@,
        }
    }

    /// The CSS of the font.
    pub fn as_css(&self) -> (r: &'static str)
        ensures
            r@ == self.spec_css(),
    {
        match self {
            CssFont::Plain => "",
            CssFont::Bold => "font-weight: bold; ",
            CssFont::Italic => "font-style: italic; ",
        }
    }
}

// ------------------------------------------------------------------
// Code URLs

/// What `strfmt` makes of the format `fmt` with the variables `vars`
/// (name and value of each): the formatted text, or the message of its
/// error.
pub uninterp spec fn strfmt_result(
    fmt: Seq<char>,
    vars: Seq<(Seq<char>, Seq<char>)>,
) -> Result<Seq<char>, Seq<char>>;

/// The plain values of a list of variables.
pub open spec fn vars_view(vars: Seq<(String, String)>) -> Seq<(Seq<char>, Seq<char>)> {
    vars.map_values(|v: (String, String)| (v.0@, v.1@))
}

/// `strfmt::strfmt(fmt, &map)` where `map` is a `HashMap` holding the
/// pairs of `vars` (a later pair of the same name replacing an earlier
/// one), with an error turned into its message (`to_string` of the
/// `FmtError`). Claimed: the outcome is a function of the format and the
/// variables, named [`strfmt_result`]; nothing more is stated of it.
#[verifier::external_body]
fn strfmt_vars(fmt: &str, vars: &Vec<(String, String)>) -> (r: Result<String, String>)
    ensures
        match (r, strfmt_result(fmt@, vars_view(vars@))) {
            (Ok(s), Ok(t)) => s@ == t,
            (Err(s), Err(t)) => s@ == t,
            _ => false,
        },
{
    let map: std::collections::HashMap<String, String> = vars.iter().cloned().collect();
    match strfmt::strfmt(fmt, &map) {
        Ok(s) => Ok(s),
        Err(e) => Err(e.to_string()),
    }
}

/// The variables a code URL is formatted with: `file`, and `line`
/// (counted from 1, in decimal).
pub open spec fn code_url_vars(file: Seq<char>, line: nat) -> Seq<(Seq<char>, Seq<char>)> {
    seq![("file"@, file), ("line"@, decimal(line))]
}

/// The decimal digits of `n`.
pub open spec fn decimal(n: nat) -> Seq<char>
    decreases n,
{
    if n < 10 {
        seq![digit(n)]
    } else {
        decimal(n / 10).push(digit(n % 10))
    }
}

/// The digit character of `d < 10`.
pub open spec fn digit(d: nat) -> char {
    if d == 0 {
        '0'
    } else if d == 1 {
        '1'
    } else if d == 2 {
        '2'
    } else if d == 3 {
        '3'
    } else if d == 4 {
        '4'
    } else if d == 5 {
        '5'
    } else if d == 6 {
        '6'
    } else if d == 7 {
        '7'
    } else if d == 8 {
        '8'
    } else {
        '9'
    }
}

fn digit_char(d: u64) -> (c: char)
    requires
        d < 10,
    ensures
        c == digit(d as nat),
{
    if d == 0 {
        '0'
    } else if d == 1 {
        '1'
    } else if d == 2 {
        '2'
    } else if d == 3 {
        '3'
    } else if d == 4 {
        '4'
    } else if d == 5 {
        '5'
    } else if d == 6 {
        '6'
    } else if d == 7 {
        '7'
    } else if d == 8 {
        '8'
    } else {
        '9'
    }
}

/// The decimal form of `n` (`u64::to_string`).
pub fn u64_to_string(n: u64) -> (r: String)
    ensures
        r@ == decimal(n as nat),
    decreases n,
{
    if n < 10 {
        let mut s = String::new();
        crate::text::string_push(&mut s, digit_char(n));
        assert(s@ =~= seq![digit(n as nat)]);
        s
    } else {
        let mut s = u64_to_string(n / 10);
        crate::text::string_push(&mut s, digit_char(n % 10));
        s
    }
}

/// The URL of line `line` (counted from 0) of `file`, by the format
/// `url_fmt` with the variables `{file}` and `{line}` (counted from 1).
pub fn strfmt_code_url(url_fmt: &str, file: &str, line: u64) -> (r: Result<String, String>)
    requires
        line < u64::MAX,
    ensures
        match (r, strfmt_result(url_fmt@, code_url_vars(file@, (line + 1) as nat))) {
            (Ok(s), Ok(t)) => s@ == t,
            (Err(s), Err(t)) => s@ == "error formatting url="@ + url_fmt@ + " error="@ + t,
            _ => false,
        },
{
    let l = u64_to_string(line + 1);
    let vars = vec![("file".to_owned(), file.to_owned()), ("line".to_owned(), l)];
    proof {
        reveal_strlit("file");
        reveal_strlit("line");
    }
    assert(vars_view(vars@) =~= code_url_vars(file@, (line + 1) as nat));
    match strfmt_vars(url_fmt, &vars) {
        Ok(s) => Ok(s),
        Err(e) => {
            let mut msg = "error formatting url=".to_owned();
            msg.append(url_fmt);
            msg.append(" error=");
            msg.append(e.as_str());
            Err(msg)
        },
    }
}

/// The URL of a place in code by the format `url_fmt`, with the file
/// relative to the project's base directory.
pub fn format_code_url(settings: &SettingsSer, url_fmt: &str, code: &CodeLocSer) -> (r: Result<
    String,
    String,
>)
    requires
        code.line < u64::MAX,
    ensures
        match (
            r,
            strfmt_result(url_fmt@, code_url_vars(trim_base_spec(settings.base@, code.file@), (code.line + 1) as nat)),
        ) {
            (Ok(s), Ok(t)) => s@ == t,
            (Err(s), Err(t)) => s@ == "error formatting url="@ + url_fmt@ + " error="@ + t,
            _ => false,
        },
{
    let file = settings.trim_base(code.file.as_str());
    strfmt_code_url(url_fmt, file, code.line)
}

/// The link text `<a href="URL">TEXT</a>`.
pub open spec fn html_link(url: Seq<char>, text: Seq<char>) -> Seq<char> {
    "<a href=\""@ + url + "\">"@ + text + "</a>"@
}

/// `text`, as a link to the URL of line `line` of `file` where there is
/// a URL format.
pub open spec fn linked(
    settings: SettingsSer,
    code_url: Option<String>,
    file: Seq<char>,
    line: u64,
    text: Seq<char>,
) -> Result<Seq<char>, Seq<char>> {
    match code_url {
        None => Ok(text),
        Some(u) => match strfmt_result(
            u@,
            code_url_vars(trim_base_spec(settings.base@, file), (line + 1) as nat),
        ) {
            Ok(url) => Ok(html_link(url, text)),
            Err(t) => Err("error formatting url="@ + u@ + " error="@ + t),
        },
    }
}

fn link_to(settings: &SettingsSer, code_url: &Option<String>, code: &CodeLocSer, text: String) -> (r:
    Result<String, String>)
    requires
        code.line < u64::MAX,
    ensures
        match (r, linked(*settings, *code_url, code.file@, code.line, text@)) {
            (Ok(s), Ok(t)) => s@ == t,
            (Err(s), Err(t)) => s@ == t,
            _ => false,
        },
{
    match code_url {
        None => Ok(text),
        Some(u) => match format_code_url(settings, u.as_str(), code) {
            Ok(url) => {
                let mut s = "<a href=\"".to_owned();
                s.append(url.as_str());
                s.append("\">");
                s.append(text.as_str());
                s.append("</a>");
                Ok(s)
            },
            Err(e) => Err(e),
        },
    }
}

/// The markdown for a file of the project: its path relative to the base
/// directory, linked to its URL where there is a URL format; an error
/// where the format cannot format it.
pub fn html_file_url(settings: &SettingsSer, code_url: &Option<String>, file: &str) -> (r: Result<
    String,
    String,
>)
    ensures
        match (
            r,
            linked(*settings, *code_url, file@, 0, trim_base_spec(settings.base@, file@)),
        ) {
            (Ok(s), Ok(t)) => s@ == t,
            (Err(s), Err(t)) => s@ == t,
            _ => false,
        },
{
    let code = CodeLocSer::with_file(file.to_owned());
    let trimmed = settings.trim_base(file).to_owned();
    link_to(settings, code_url, &code, trimmed)
}

/// The text of a place in code: `FILE[LINE]`, the file relative to the
/// base directory.
pub open spec fn code_text(settings: SettingsSer, code: CodeLocSer) -> Seq<char> {
    trim_base_spec(settings.base@, code.file@) + "["@ + decimal(code.line as nat) + "]"@
}

/// The markdown for a place in code: `FILE[LINE]`, linked to its URL
/// where there is a URL format; an error where the format cannot format
/// it.
pub fn html_code_url(settings: &SettingsSer, code_url: &Option<String>, code: &CodeLocSer) -> (r:
    Result<String, String>)
    requires
        code.line < u64::MAX,
    ensures
        match (r, linked(*settings, *code_url, code.file@, code.line, code_text(*settings, *code))) {
            (Ok(s), Ok(t)) => s@ == t,
            (Err(s), Err(t)) => s@ == t,
            _ => false,
        },
{
    let mut text = settings.trim_base(code.file.as_str()).to_owned();
    text.append("[");
    let l = u64_to_string(code.line);
    text.append(l.as_str());
    text.append("]");
    link_to(settings, code_url, code, text)
}

// ------------------------------------------------------------------
// Graphs

/// The `dot` edge from `from` to `to`, by their keys.
pub open spec fn edge_dot(from: Seq<char>, to: Seq<char>) -> Seq<char> {
    "        \""@ + from + "\" -> \""@ + to + "\"\n"@
}

/// The `dot` edge from the artifact `from` to the artifact `to`.
pub fn connect_names_dot(from: &Name, to: &Name) -> (r: String)
    ensures
        r@ == edge_dot(from.key_v(), to.key_v()),
{
    let mut s = "        \"".to_owned();
    s.append(from.key_str());
    s.append("\" -> \"");
    s.append(to.key_str());
    s.append("\"\n");
    s
}

/// `dot` statements put into a graph (left to right if `lr`).
pub open spec fn wrapped_dot(dot: Seq<char>, lr: bool) -> Seq<char> {
    "\n        digraph G {\n        graph [\n            margin=0.001; label=\"\";\n            "@ + (
    if lr {
        "randir=LR;"@
    } else {
        ""@
    }) + "\n        ];\n\n        ////////////////////\n        // DOT INSERTED HERE\n\n        "@ + dot
        + "\n\n        ///////////////////\n        // END INSERTED DOT\n\n        }\n        "@
}

/// Put `dot` statements into the standard graph.
pub fn wrap_dot(dot: &str, lr: bool) -> (r: String)
    ensures
        r@ == wrapped_dot(dot@, lr),
{
    let mut s = "\n        digraph G {\n        graph [\n            margin=0.001; label=\"\";\n            ".to_owned();
    if lr {
        s.append("randir=LR;");
    } else {
        s.append("");
    }
    s.append("\n        ];\n\n        ////////////////////\n        // DOT INSERTED HERE\n\n        ");
    s.append(dot);
    s.append("\n\n        ///////////////////\n        // END INSERTED DOT\n\n        }\n        ");
    s
}

/// The `dot` node of a subname, with the node attributes `attrs`.
pub open spec fn subname_node(sub_key: Seq<char>, sub: Seq<char>, attrs: Seq<char>) -> Seq<char> {
    "\n        {\n            \""@ + sub_key + "\" [\n                label=\""@ + sub
        + "\";\n                fontsize=12; margin=0.15;\n                shape=cds;\n                "@
        + attrs + ";\n            ]\n        }\n        "@
}

/// The attributes of a subname node when none are given.
pub open spec fn default_sub_attrs() -> Seq<char> {
    "style=filled; fillcolor=\"#DCDEE2\""@
}

/// The `dot` node of the subname `sub`, with the node attributes `attrs`
/// or, when none are given, a gray fill.
pub fn subname_raw(sub: &SubName, attrs: Option<&str>) -> (r: String)
    ensures
        r@ == subname_node(
            sub.key_v(),
            sub.raw_v(),
            match attrs {
                Some(a) => a@,
                None => default_sub_attrs(),
            },
        ),
{
    let a = match attrs {
        Some(a) => a,
        None => "style=filled; fillcolor=\"#DCDEE2\"",
    };
    let mut s = "\n        {\n            \"".to_owned();
    s.append(sub.key_str());
    s.append("\" [\n                label=\"");
    s.append(sub.as_str());
    s.append("\";\n                fontsize=12; margin=0.15;\n                shape=cds;\n                ");
    s.append(a);
    s.append(";\n            ]\n        }\n        ");
    s
}

/// The `dot` node of a name (with a subname) that names no artifact.
pub open spec fn dne_node(key: Seq<char>, sub_key: Seq<char>, name: Seq<char>, sub: Seq<char>) -> Seq<char> {
    "\n        {\n            \""@ + key + sub_key + "\" [\n                label=<<b>"@ + name + sub
        + "</b>>;\n                fontcolor=black; style=filled; fillcolor=pink;\n                fontsize=12; margin=0.01; shape=invhouse;\n                tooltip=\"Name not found\";\n            ]\n        }\n        "@
}

/// The `dot` node of the name `name` (and subname `sub`) when it names no
/// artifact: pink, with the tooltip "Name not found".
pub fn dne_name_dot(name: &Name, sub: Option<&SubName>) -> (r: String)
    ensures
        r@ == match sub {
            Some(s) => dne_node(name.key_v(), s.key_v(), name.raw_v(), s.raw_v()),
            None => dne_node(name.key_v(), seq![], name.raw_v(), seq![]),
        },
{
    let (sub_raw, sub_key) = match sub {
        Some(s) => (s.as_str(), s.key_str()),
        None => ("", ""),
    };
    proof {
        reveal_strlit("");
    }
    let mut s = "\n        {\n            \"".to_owned();
    s.append(name.key_str());
    s.append(sub_key);
    s.append("\" [\n                label=<<b>");
    s.append(name.as_str());
    s.append(sub_raw);
    s.append("</b>>;\n                fontcolor=black; style=filled; fillcolor=pink;\n                fontsize=12; margin=0.01; shape=invhouse;\n                tooltip=\"Name not found\";\n            ]\n        }\n        ");
    s
}

} // verus!
