//! Collapsed lists of names: `REQ-[foo, bar-[baz, bom]], SPC-foo` stands
//! for `REQ-foo, REQ-bar-baz, REQ-bar-bom, SPC-foo`.
use vstd::prelude::*;
use crate::family::{has_key, raws, Names};
use crate::name::{dedup_keys, upper, valid_name, Name, NameError};
use crate::text::{str_chars, chars_to_string};

verus! {

/// Why a collapsed list of names is malformed.
#[derive(Debug, Clone, Copy, PartialEq, Eq, Structural)]
pub enum CollapseError {
    /// The input ended inside brackets.
    NotClosed,
    /// A `[` stands at the start, or after `,`, `[` or `]`.
    BadOpen,
    /// A `]` closes no `[`.
    NotOpened,
}

/// The non-empty elements of `s`, in order.
pub open spec fn nonempty(s: Seq<Seq<char>>) -> Seq<Seq<char>>
    decreases s.len(),
{
    if s.len() == 0 {
        seq![]
    } else if s.last().len() > 0 {
        nonempty(s.drop_last()).push(s.last())
    } else {
        nonempty(s.drop_last())
    }
}

/// `p + x` for every `x` of `s`.
pub open spec fn prefix_all(p: Seq<char>, s: Seq<Seq<char>>) -> Seq<Seq<char>> {
    s.map_values(|x: Seq<char>| p + x)
}

/// Parse a collapsed list from index `i`, with the current element `cur`
/// and the finished elements `acc` so far. `in_br` says whether the list
/// is inside brackets, where it ends at the matching `]`.
///
/// Spaces, `\n` and `\r` are ignored. A `,` ends the current element. An
/// element followed by `[...]` stands for the element prefixed to each name
/// of the bracketed list. The result is the list of non-empty elements and
/// the index just past the list.
pub open spec fn parse_list(
    s: Seq<char>,
    i: int,
    in_br: bool,
    cur: Seq<char>,
    acc: Seq<Seq<char>>,
) -> Result<(Seq<Seq<char>>, int), CollapseError>
    decreases s.len() - i,
{
    if i < 0 || i >= s.len() {
        if in_br {
            Err(CollapseError::NotClosed)
        } else {
            Ok((nonempty(acc.push(cur)), s.len() as int))
        }
    } else {
        let c = s[i];
        if c == ' ' || c == '\n' || c == '\r' {
            parse_list(s, i + 1, in_br, cur, acc)
        } else if c == '[' {
            if cur.len() == 0 {
                Err(CollapseError::BadOpen)
            } else {
                match parse_list(s, i + 1, true, seq![], seq![]) {
                    Err(e) => Err(e),
                    Ok((inner, j)) => if i < j <= s.len() {
                        parse_list(s, j, in_br, seq![], acc + prefix_all(cur, inner))
                    } else {
                        Err(CollapseError::NotClosed)
                    },
                }
            }
        } else if c == ']' {
            if in_br {
                Ok((nonempty(acc.push(cur)), i + 1))
            } else {
                Err(CollapseError::NotOpened)
            }
        } else if c == ',' {
            parse_list(s, i + 1, in_br, seq![], acc.push(cur))
        } else {
            parse_list(s, i + 1, in_br, cur.push(c), acc)
        }
    }
}

/// The views of a sequence of character vectors.
pub open spec fn vv(s: Seq<Vec<char>>) -> Seq<Seq<char>> {
    s.map_values(|x: Vec<char>| x@)
}

/// The non-empty vectors of `v`, in order.
fn keep_nonempty(v: Vec<Vec<char>>) -> (r: Vec<Vec<char>>)
    ensures
        vv(r@) == nonempty(vv(v@)),
{
    let mut out: Vec<Vec<char>> = Vec::new();
    let mut i: usize = 0;
    let ghost s = vv(v@);
    let mut v = v;
    let ghost orig = v@;
    while i < v.len()
        invariant
            v@.len() == orig.len(),
            s == vv(orig),
            forall|k: int| i <= k < v@.len() ==> v@[k] == orig[k],
            i <= v@.len(),
            vv(out@) == nonempty(s.take(i as int)),
        decreases v@.len() - i,
    {
        let mut x: Vec<char> = Vec::new();
        std::mem::swap(&mut x, &mut v[i]);
        proof {
            assert(s.take(i + 1).drop_last() =~= s.take(i as int));
            assert(x@ == s[i as int]);
        }
        if x.len() > 0 {
            out.push(x);
            assert(vv(out@) =~= nonempty(s.take(i as int)).push(s[i as int]));
        }
        i = i + 1;
    }
    assert(s.take(v@.len() as int) =~= s);
    out
}

proof fn lemma_vv_push(s: Seq<Vec<char>>, x: Vec<char>)
    ensures
        vv(s.push(x)) == vv(s).push(x@),
{
    assert(vv(s.push(x)) =~= vv(s).push(x@));
}

/// Parse a collapsed list of names from `v[start..]` (see [`parse_list`]).
pub fn parse_collapsed(v: &Vec<char>, start: usize, in_br: bool) -> (r: Result<
    (Vec<Vec<char>>, usize),
    CollapseError,
>)
    requires
        start <= v@.len(),
    ensures
        match r {
            Ok((items, j)) => {
                &&& parse_list(v@, start as int, in_br, seq![], seq![]) == Ok::<
                    (Seq<Seq<char>>, int),
                    CollapseError,
                >((vv(items@), j as int))
                &&& start <= j <= v@.len()
                &&& in_br ==> j > start
            },
            Err(e) => parse_list(v@, start as int, in_br, seq![], seq![]) == Err::<
                (Seq<Seq<char>>, int),
                CollapseError,
            >(e),
        },
    decreases v@.len() - start,
{
    let ghost s = v@;
    let mut i = start;
    let mut cur: Vec<char> = Vec::new();
    let mut acc: Vec<Vec<char>> = Vec::new();
    assert(vv(acc@) =~= seq![]);
    assert(cur@ =~= seq![]);
    while i < v.len()
        invariant
            s == v@,
            start <= i <= v@.len(),
            parse_list(s, start as int, in_br, seq![], seq![]) == parse_list(
                s,
                i as int,
                in_br,
                cur@,
                vv(acc@),
            ),
        decreases v@.len() - i,
    {
        let c = v[i];
        if c == ' ' || c == '\n' || c == '\r' {
            i = i + 1;
        } else if c == '[' {
            if cur.len() == 0 {
                return Err(CollapseError::BadOpen);
            }
            match parse_collapsed(v, i + 1, true) {
                Err(e) => {
                    return Err(e);
                },
                Ok((inner, j)) => {
                    let ghost before = vv(acc@);
                    let mut k: usize = 0;
                    while k < inner.len()
                        invariant
                            k <= inner@.len(),
                            vv(acc@) == before + prefix_all(cur@, vv(inner@)).take(k as int),
                        decreases inner@.len() - k,
                    {
                        let mut item = cur.clone();
                        let mut m: usize = 0;
                        while m < inner[k].len()
                            invariant
                                k < inner@.len(),
                                m <= inner@[k as int]@.len(),
                                item@ == cur@ + inner@[k as int]@.take(m as int),
                            decreases inner@[k as int]@.len() - m,
                        {
                            item.push(inner[k][m]);
                            m = m + 1;
                            assert(item@ =~= cur@ + inner@[k as int]@.take(m as int));
                        }
                        assert(inner@[k as int]@.take(m as int) =~= inner@[k as int]@);
                        proof { lemma_vv_push(acc@, item); }
                        acc.push(item);
                        k = k + 1;
                        assert(vv(acc@) =~= before + prefix_all(cur@, vv(inner@)).take(k as int));
                    }
                    assert(prefix_all(cur@, vv(inner@)).take(k as int) =~= prefix_all(
                        cur@,
                        vv(inner@),
                    ));
                    cur = Vec::new();
                    i = j;
                },
            }
        } else if c == ']' {
            if in_br {
                proof { lemma_vv_push(acc@, cur); }
                acc.push(cur);
                let items = keep_nonempty(acc);
                return Ok((items, i + 1));
            } else {
                return Err(CollapseError::NotOpened);
            }
        } else if c == ',' {
            proof { lemma_vv_push(acc@, cur); }
            acc.push(cur);
            cur = Vec::new();
            assert(cur@ =~= seq![]);
            i = i + 1;
        } else {
            cur.push(c);
            i = i + 1;
        }
    }
    if in_br {
        return Err(CollapseError::NotClosed);
    }
    proof { lemma_vv_push(acc@, cur); }
    acc.push(cur);
    let items = keep_nonempty(acc);
    Ok((items, i))
}


impl CollapseError {
    /// The message of the error.
    pub open spec fn spec_msg(self) -> Seq<char> {
        match self {
            CollapseError::NotClosed => "brackets are not closed"@,
            CollapseError::BadOpen => "cannot have '[' after characters ',' or ']'or at start of string"@,
            CollapseError::NotOpened => "`]` character wasn't opened"@,
        }
    }

    /// The message of the error.
    pub fn msg(&self) -> (r: &'static str)
        ensures
            r@ == self.spec_msg(),
    {
        match self {
            CollapseError::NotClosed => "brackets are not closed",
            CollapseError::BadOpen => "cannot have '[' after characters ',' or ']'or at start of string",
            CollapseError::NotOpened => "`]` character wasn't opened",
        }
    }
}

/// Index of the first element of `s` that is not a valid name, or -1.
pub open spec fn first_invalid(s: Seq<Seq<char>>) -> int
    decreases s.len(),
{
    if s.len() == 0 {
        -1
    } else if first_invalid(s.drop_last()) >= 0 {
        first_invalid(s.drop_last())
    } else if !valid_name(s.last()) {
        s.len() - 1
    } else {
        -1
    }
}

pub(crate) proof fn lemma_first_invalid(s: Seq<Seq<char>>)
    ensures
        -1 <= first_invalid(s) < s.len(),
        first_invalid(s) >= 0 ==> !valid_name(s[first_invalid(s)]),
        forall|j: int|
            0 <= j < s.len() && (first_invalid(s) < 0 || j < first_invalid(s)) ==> valid_name(
                #[trigger] s[j],
            ),
    decreases s.len(),
{
    if s.len() > 0 {
        lemma_first_invalid(s.drop_last());
        assert forall|j: int|
            0 <= j < s.len() - 1 implies #[trigger] s[j] == s.drop_last()[j] by {}
    }
}

/// What expanding a collapsed list of names gives: an error for a
/// malformed list or for its first element that is not a name, and
/// otherwise the names, each key once, in order of first appearance.
pub open spec fn expand_spec(raw: Seq<char>, r: Result<Names, NameError>) -> bool {
    match parse_list(raw, 0, false, seq![], seq![]) {
        Err(e) => r matches Err(err) && err is InvalidCollapsed && err->InvalidCollapsed_msg@
            == e.spec_msg(),
        Ok((items, _)) => if first_invalid(items) >= 0 {
            r matches Err(err) && err is InvalidName && err->InvalidName_msg@ == "Name is invalid: "@
                + items[first_invalid(items)]
        } else {
            r matches Ok(names) && names.wf() && raws(names.0@) == dedup_keys(items)
        },
    }
}

/// Expand a collapsed list of names into the names it stands for:
/// `"REQ-[foo, bar]"` gives `REQ-foo` and `REQ-bar`.
pub fn expand_names(raw: &str) -> (r: Result<Names, NameError>)
    ensures
        expand_spec(raw@, r),
{
    let v = str_chars(raw);
    let (items, pj) = match parse_collapsed(&v, 0, false) {
        Ok((items, j)) => (items, j),
        Err(e) => {
            let msg = e.msg().to_owned();
            return Err(NameError::InvalidCollapsed { msg });
        },
    };
    let ghost its = vv(items@);
    proof { lemma_first_invalid(its); }
    let mut names = Names::new();
    let mut k: usize = 0;
    assert(dedup_keys(its.take(0)) =~= seq![]);
    assert(raws(names.0@) =~= seq![]);
    while k < items.len()
        invariant
            its == vv(items@),
            parse_list(raw@, 0, false, seq![], seq![]) == Ok::<(Seq<Seq<char>>, int), CollapseError>(
                (its, pj as int),
            ),
            k <= items@.len(),
            names.wf(),
            raws(names.0@) == dedup_keys(its.take(k as int)),
            first_invalid(its) < 0 || k <= first_invalid(its),
            -1 <= first_invalid(its) < its.len(),
            first_invalid(its) >= 0 ==> !valid_name(its[first_invalid(its)]),
            forall|j: int|
                0 <= j < its.len() && (first_invalid(its) < 0 || j < first_invalid(its))
                    ==> valid_name(#[trigger] its[j]),
        decreases items@.len() - k,
    {
        let s = chars_to_string(items[k].as_slice(), 0, items[k].len());
        assert(items@[k as int]@.subrange(0, items@[k as int]@.len() as int) =~= its[k as int]);
        let n = match Name::from_str(s.as_str()) {
            Ok(n) => n,
            Err(e) => {
                assert(!valid_name(its[k as int]));
                assert(first_invalid(its) == k);
                return Err(e);
            },
        };
        let ghost before = names.0@;
        let ghost x = its[k as int];
        proof {
            assert(its.take(k + 1).drop_last() =~= its.take(k as int));
            assert(its.take(k + 1).last() == x);
            if has_key(before, n.key_v()) {
                let w = choose|w: int| 0 <= w < before.len() && (#[trigger] before[w]).key_v()
                    == n.key_v();
                assert(raws(before)[w] == before[w].raw_v());
                assert(upper(raws(before)[w]) == upper(x));
            }
            if exists|w: int|
                0 <= w < raws(before).len() && upper(#[trigger] raws(before)[w]) == upper(x) {
                let w = choose|w: int|
                    0 <= w < raws(before).len() && upper(#[trigger] raws(before)[w]) == upper(x);
                assert(before[w].key_v() == n.key_v());
            }
        }
        names.insert(n);
        k = k + 1;
        assert(raws(names.0@) =~= dedup_keys(its.take(k as int)));
    }
    assert(its.take(items@.len() as int) =~= its);
    Ok(names)
}

impl Names {
    /// Parse a collapsed list of names (see [`expand_names`]).
    pub fn from_str(collapsed: &str) -> (r: Result<Names, NameError>)
        ensures
            expand_spec(collapsed@, r),
    {
        expand_names(collapsed)
    }
}

/// Where a list read from index `i` of `s` ends, it ends at or after `i`
/// and within `s`.
proof fn lemma_parse_list_bounds(
    s: Seq<char>,
    i: int,
    in_br: bool,
    cur: Seq<char>,
    acc: Seq<Seq<char>>,
)
    requires
        0 <= i <= s.len(),
    ensures
        parse_list(s, i, in_br, cur, acc) matches Ok((_, j)) ==> i <= j <= s.len(),
    decreases s.len() - i,
{
    if i < s.len() {
        let c = s[i];
        if c == ' ' || c == '\n' || c == '\r' {
            lemma_parse_list_bounds(s, i + 1, in_br, cur, acc);
        } else if c == '[' {
            if cur.len() > 0 {
                lemma_parse_list_bounds(s, i + 1, true, seq![], seq![]);
                match parse_list(s, i + 1, true, seq![], seq![]) {
                    Err(_) => {},
                    Ok((inner, j)) => {
                        lemma_parse_list_bounds(s, j, in_br, seq![], acc + prefix_all(cur, inner));
                    },
                }
            }
        } else if c == ']' {
        } else if c == ',' {
            lemma_parse_list_bounds(s, i + 1, in_br, seq![], acc.push(cur));
        } else {
            lemma_parse_list_bounds(s, i + 1, in_br, cur.push(c), acc);
        }
    }
}

/// Index `i` of `s` and index `p` of `s` with one character inserted at
/// `k` stand at the same place (the inserted character is before `k`'s
/// character of `s`, so `k` has two places).
pub open spec fn ws_corr(k: int, i: int, p: int) -> bool {
    ||| (i < k && p == i)
    ||| (i == k && (p == k || p == k + 1))
    ||| (i > k && p == i + 1)
}

/// Two reads of a list agree: the same error, or the same names ending at
/// corresponding places.
pub open spec fn ws_same(
    r2: Result<(Seq<Seq<char>>, int), CollapseError>,
    r: Result<(Seq<Seq<char>>, int), CollapseError>,
    k: int,
) -> bool {
    match (r2, r) {
        (Err(a), Err(b)) => a == b,
        (Ok((x2, j2)), Ok((x, j))) => x2 == x && ws_corr(k, j, j2),
        _ => false,
    }
}

proof fn lemma_parse_list_ws(
    s: Seq<char>,
    k: int,
    w: char,
    i: int,
    p: int,
    in_br: bool,
    cur: Seq<char>,
    acc: Seq<Seq<char>>,
)
    requires
        0 <= k <= s.len(),
        w == ' ' || w == '\n' || w == '\r',
        0 <= i <= s.len(),
        ws_corr(k, i, p),
    ensures
        ws_same(parse_list(s.insert(k, w), p, in_br, cur, acc), parse_list(s, i, in_br, cur, acc), k),
    decreases s.len() - i, if i == k && p == k { 1int } else { 0int },
{
    let s2 = s.insert(k, w);
    assert(s2.len() == s.len() + 1);
    if i == k && p == k {
        assert(s2[k] == w);
        lemma_parse_list_ws(s, k, w, i, k + 1, in_br, cur, acc);
    } else if i == s.len() {
        assert(p == s.len() + 1);
    } else {
        assert(s2[p] == s[i]);
        let c = s[i];
        assert(ws_corr(k, i + 1, p + 1));
        if c == ' ' || c == '\n' || c == '\r' {
            lemma_parse_list_ws(s, k, w, i + 1, p + 1, in_br, cur, acc);
        } else if c == '[' {
            if cur.len() > 0 {
                lemma_parse_list_ws(s, k, w, i + 1, p + 1, true, seq![], seq![]);
                lemma_parse_list_bounds(s, i + 1, true, seq![], seq![]);
                lemma_parse_list_bounds(s2, p + 1, true, seq![], seq![]);
                match (parse_list(s2, p + 1, true, seq![], seq![]), parse_list(s, i + 1, true, seq![], seq![])) {
                    (Ok((inner2, j2)), Ok((inner, j))) => {
                        lemma_parse_list_ws(s, k, w, j, j2, in_br, seq![], acc + prefix_all(cur, inner));
                    },
                    _ => {},
                }
            }
        } else if c == ']' {
        } else if c == ',' {
            lemma_parse_list_ws(s, k, w, i + 1, p + 1, in_br, seq![], acc.push(cur));
        } else {
            lemma_parse_list_ws(s, k, w, i + 1, p + 1, in_br, cur.push(c), acc);
        }
    }
}

/// Spaces, newlines and carriage returns do not matter in a collapsed list
/// of names: with one of them inserted anywhere, the list expands to the
/// same names, or fails with the same error.
pub proof fn lemma_expand_ignores_whitespace(raw: Seq<char>, k: int, w: char, r: Result<Names, NameError>)
    requires
        0 <= k <= raw.len(),
        w == ' ' || w == '\n' || w == '\r',
    ensures
        expand_spec(raw.insert(k, w), r) == expand_spec(raw, r),
{
    lemma_parse_list_ws(raw, k, w, 0, 0, false, seq![], seq![]);
}

} // verus!
