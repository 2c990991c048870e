//! Collapsing a set of names into one string, the inverse direction of
//! [`crate::expand::expand_names`]: `REQ-foo, REQ-bar-baz, REQ-bar-bom`
//! becomes `REQ-[bar-[baz, bom], foo]`.
//!
//! The names are split at `-` into their pieces and sorted; names that
//! share a first piece are grouped under it, and each group is collapsed
//! the same way one level down.
use vstd::prelude::*;
use crate::expand::{nonempty, parse_list, prefix_all, vv};
use crate::family::{all_wf, keys_unique, raws, upper_unique, Names};
use crate::name::{dedup_keys, is_name_char, upper, valid_name, Name, NameError};
use crate::sort::{chars_le, lemma_chars_le_antisym, lemma_chars_le_total, lemma_chars_le_trans, Ordered};
use crate::text::{chars_eq, str_chars};

verus! {

// ------------------------------------------------------------------
// Pieces of a name

/// `s` split at each `-`: `REQ-foo-bar` gives `REQ`, `foo`, `bar`.
pub open spec fn split_dash(s: Seq<char>) -> Seq<Seq<char>>
    decreases s.len(),
{
    if s.len() == 0 {
        seq![seq![]]
    } else {
        let r = split_dash(s.drop_last());
        if s.last() == '-' {
            r.push(seq![])
        } else {
            r.update(r.len() - 1, r.last().push(s.last()))
        }
    }
}

proof fn lemma_split_dash_len(s: Seq<char>)
    ensures
        split_dash(s).len() >= 1,
    decreases s.len(),
{
    if s.len() > 0 {
        lemma_split_dash_len(s.drop_last());
    }
}

/// No `-` starts or ends `s` and no two stand together.
pub open spec fn dashes_separate(s: Seq<char>) -> bool {
    &&& s.len() > 0
    &&& s[0] != '-'
    &&& s.last() != '-'
    &&& forall|i: int| 0 <= i < s.len() - 1 && #[trigger] s[i] == '-' ==> s[i + 1] != '-'
}

/// Every piece of `split_dash(s.take(k))` but the last is non-empty, and
/// the last is empty exactly when the prefix ends in `-`.
proof fn lemma_split_dash_prefix(s: Seq<char>, k: int)
    requires
        dashes_separate(s),
        1 <= k <= s.len(),
    ensures
        split_dash(s.take(k)).len() >= 1,
        forall|j: int|
            0 <= j < split_dash(s.take(k)).len() - 1 ==> (#[trigger] split_dash(s.take(k))[j]).len()
                > 0,
        (split_dash(s.take(k)).last().len() == 0) == (s[k - 1] == '-'),
    decreases k,
{
    let t = s.take(k);
    assert(t.drop_last() =~= s.take(k - 1));
    lemma_split_dash_len(t);
    lemma_split_dash_len(t.drop_last());
    if k == 1 {
        assert(s.take(0) =~= seq![]);
        assert(split_dash(s.take(0)) =~= seq![seq![]]);
    } else {
        lemma_split_dash_prefix(s, k - 1);
        let r = split_dash(s.take(k - 1));
        if s[k - 1] == '-' {
            assert(s[k - 2] == '-' ==> s[k - 1] != '-');
            assert(r.last().len() > 0);
        }
    }
}

/// A string whose dashes only separate has no empty piece.
pub proof fn lemma_split_dash_nonempty(s: Seq<char>)
    requires
        dashes_separate(s),
    ensures
        split_dash(s).len() >= 1,
        forall|j: int| 0 <= j < split_dash(s).len() ==> (#[trigger] split_dash(s)[j]).len() > 0,
{
    lemma_split_dash_prefix(s, s.len() as int);
    assert(s.take(s.len() as int) =~= s);
}

/// A valid name has its dashes only between pieces.
proof fn lemma_valid_name_dashes(s: Seq<char>)
    requires
        valid_name(s),
    ensures
        dashes_separate(s),
{
    let e = s.skip(4);
    assert(is_name_char(e[0]));
    assert(e.last() == s.last());
    assert(is_name_char(e.last()));
    assert(crate::name::ascii_upper(s[0]) == 'R' || crate::name::ascii_upper(s[0]) == 'S'
        || crate::name::ascii_upper(s[0]) == 'T');
    assert forall|i: int| 0 <= i < s.len() - 1 && #[trigger] s[i] == '-' implies s[i + 1] != '-' by {
        if i < 3 {
            assert(crate::name::ascii_upper(s[i]) != '-');
        } else if i == 3 {
            assert(s[4] == e[0]);
        } else {
            assert(s[i] == e[i - 4]);
            assert(s[i + 1] == e[i - 3]);
        }
    }
}

/// The pieces of `v` split at `-` (see [`split_dash`]).
pub fn split_dash_exec(v: &[char]) -> (r: Vec<Vec<char>>)
    ensures
        vv(r@) == split_dash(v@),
{
    let mut out: Vec<Vec<char>> = Vec::new();
    let mut cur: Vec<char> = Vec::new();
    let mut k: usize = 0;
    assert(v@.take(0) =~= seq![]);
    assert(vv(out@) =~= split_dash(v@.take(0)).drop_last());
    while k < v.len()
        invariant
            k <= v@.len(),
            split_dash(v@.take(k as int)).len() >= 1,
            vv(out@) == split_dash(v@.take(k as int)).drop_last(),
            cur@ == split_dash(v@.take(k as int)).last(),
        decreases v@.len() - k,
    {
        let ghost r = split_dash(v@.take(k as int));
        let c = v[k];
        proof {
            assert(v@.take(k + 1).drop_last() =~= v@.take(k as int));
            assert(v@.take(k + 1).last() == c);
            lemma_split_dash_len(v@.take(k + 1));
        }
        if c == '-' {
            let ghost o0 = vv(out@);
            out.push(cur);
            cur = Vec::new();
            proof {
                let r2 = split_dash(v@.take(k + 1));
                assert(r2 == r.push(seq![]));
                assert(r2.drop_last() =~= r);
                assert(r =~= r.drop_last().push(r.last()));
                assert(vv(out@) =~= o0.push(r.last()));
            }
        } else {
            cur.push(c);
            proof {
                let r2 = split_dash(v@.take(k + 1));
                assert(r2 == r.update(r.len() - 1, r.last().push(c)));
                assert(r2.drop_last() =~= r.drop_last());
            }
        }
        k = k + 1;
    }
    assert(v@.take(v@.len() as int) =~= v@);
    let ghost o0 = vv(out@);
    out.push(cur);
    proof {
        let r = split_dash(v@);
        assert(r =~= r.drop_last().push(r.last()));
        assert(vv(out@) =~= o0.push(r.last()));
    }
    out
}

// ------------------------------------------------------------------
// Ordering the pieces

/// The order of lists of pieces: lexicographic, each piece ordered by
/// [`chars_le`] (the order of `Vec<String>`).
pub open spec fn pieces_le(a: Seq<Seq<char>>, b: Seq<Seq<char>>) -> bool
    decreases a.len(),
{
    if a.len() == 0 {
        true
    } else if b.len() == 0 {
        false
    } else if a[0] == b[0] {
        pieces_le(a.drop_first(), b.drop_first())
    } else {
        chars_le(a[0], b[0])
    }
}

proof fn lemma_pieces_le_total(a: Seq<Seq<char>>, b: Seq<Seq<char>>)
    ensures
        pieces_le(a, b) || pieces_le(b, a),
    decreases a.len(),
{
    if a.len() > 0 && b.len() > 0 {
        if a[0] == b[0] {
            lemma_pieces_le_total(a.drop_first(), b.drop_first());
        } else {
            lemma_chars_le_total(a[0], b[0]);
        }
    }
}

proof fn lemma_pieces_le_trans(a: Seq<Seq<char>>, b: Seq<Seq<char>>, c: Seq<Seq<char>>)
    requires
        pieces_le(a, b),
        pieces_le(b, c),
    ensures
        pieces_le(a, c),
    decreases a.len(),
{
    if a.len() > 0 && b.len() > 0 && c.len() > 0 {
        if a[0] == b[0] && b[0] == c[0] {
            lemma_pieces_le_trans(a.drop_first(), b.drop_first(), c.drop_first());
        } else if a[0] != b[0] && b[0] != c[0] {
            lemma_chars_le_trans(a[0], b[0], c[0]);
            if a[0] == c[0] {
                lemma_chars_le_antisym(a[0], b[0]);
            }
        }
    }
}

impl Ordered for Vec<Vec<char>> {
    open spec fn le(&self, other: &Self) -> bool {
        pieces_le(vv(self@), vv(other@))
    }

    proof fn lemma_total(a: &Self, b: &Self) {
        lemma_pieces_le_total(vv(a@), vv(b@));
    }

    proof fn lemma_trans(a: &Self, b: &Self, c: &Self) {
        lemma_pieces_le_trans(vv(a@), vv(b@), vv(c@));
    }

    fn le_exec(&self, other: &Self) -> (r: bool) {
        let mut i: usize = 0;
        let ghost a = vv(self@);
        let ghost b = vv(other@);
        assert(a.skip(0) =~= a);
        assert(b.skip(0) =~= b);
        while i < self.len() && i < other.len() && chars_eq(self[i].as_slice(), other[i].as_slice())
            invariant
                i <= a.len(),
                i <= b.len(),
                a == vv(self@),
                b == vv(other@),
                pieces_le(a, b) == pieces_le(a.skip(i as int), b.skip(i as int)),
            decreases a.len() - i,
        {
            proof {
                assert(a.skip(i as int).drop_first() =~= a.skip(i + 1));
                assert(b.skip(i as int).drop_first() =~= b.skip(i + 1));
                assert(a.skip(i as int)[0] == a[i as int]);
                assert(b.skip(i as int)[0] == b[i as int]);
            }
            i = i + 1;
        }
        if i == self.len() {
            true
        } else if i == other.len() {
            false
        } else {
            proof {
                assert(a.skip(i as int)[0] == a[i as int]);
                assert(b.skip(i as int)[0] == b[i as int]);
            }
            crate::sort::chars_vec_le(self[i].as_slice(), other[i].as_slice())
        }
    }
}

// ------------------------------------------------------------------
// Grouping

/// The views of a list of piece lists.
pub open spec fn pv(s: Seq<Vec<Vec<char>>>) -> Seq<Seq<Seq<char>>> {
    s.map_values(|p: Vec<Vec<char>>| vv(p@))
}

/// A group: a first piece and the rest of each list that starts with it.
pub type Group = (Seq<char>, Seq<Seq<Seq<char>>>);

/// The views of a list of groups.
pub open spec fn gv(s: Seq<(Vec<char>, Vec<Vec<Vec<char>>>)>) -> Seq<Group> {
    s.map_values(|g: (Vec<char>, Vec<Vec<Vec<char>>>)| (g.0@, pv(g.1@)))
}

/// One step of grouping: the groups so far and the current first piece,
/// and the next piece list.
///
/// A list of one piece is a group of its own and ends the current first
/// piece. A longer list whose first piece is the current one joins the
/// last group; otherwise it starts a new group.
pub open spec fn group_step(acc: (Seq<Group>, Seq<char>), part: Seq<Seq<char>>) -> (Seq<Group>, Seq<char>) {
    let gs = acc.0;
    let prefix = acc.1;
    if part.len() == 1 {
        (gs.push((part[0], seq![])), seq![])
    } else if part[0] == prefix {
        (gs.update(gs.len() - 1, (gs.last().0, gs.last().1.push(part.drop_first()))), prefix)
    } else {
        (gs.push((part[0], seq![part.drop_first()])), part[0])
    }
}

/// The groups of `raw` and the first piece in force after it, grouped
/// from first to last.
pub open spec fn groups_acc(raw: Seq<Seq<Seq<char>>>) -> (Seq<Group>, Seq<char>)
    decreases raw.len(),
{
    if raw.len() == 0 {
        (seq![], seq![])
    } else {
        group_step(groups_acc(raw.drop_last()), raw.last())
    }
}

/// The groups of `raw` (sorted piece lists, each with at least one piece).
pub open spec fn groups(raw: Seq<Seq<Seq<char>>>) -> Seq<Group> {
    groups_acc(raw).0
}

/// Every list has a piece, and no piece is empty.
pub open spec fn parts_ok(raw: Seq<Seq<Seq<char>>>) -> bool {
    forall|i: int|
        0 <= i < raw.len() ==> {
            &&& (#[trigger] raw[i]).len() >= 1
            &&& forall|j: int| 0 <= j < raw[i].len() ==> (#[trigger] raw[i][j]).len() > 0
        }
}

/// The rest lists of every group are well formed.
pub open spec fn groups_ok(gs: Seq<Group>) -> bool {
    forall|k: int| 0 <= k < gs.len() ==> parts_ok(#[trigger] gs[k].1)
}

/// Group sorted piece lists by their first piece (see [`groups`]).
pub fn group_parts(raw: Vec<Vec<Vec<char>>>) -> (r: Vec<(Vec<char>, Vec<Vec<Vec<char>>>)>)
    requires
        parts_ok(pv(raw@)),
    ensures
        gv(r@) == groups(pv(raw@)),
        groups_ok(gv(r@)),
{
    let ghost s = pv(raw@);
    let mut raw = raw;
    let ghost orig = raw@;
    let mut out: Vec<(Vec<char>, Vec<Vec<Vec<char>>>)> = Vec::new();
    let mut prefix: Vec<char> = Vec::new();
    let mut i: usize = 0;
    assert(s.take(0) =~= seq![]);
    while i < raw.len()
        invariant
            raw@.len() == orig.len(),
            s == pv(orig),
            parts_ok(s),
            forall|k: int| i <= k < raw@.len() ==> raw@[k] == orig[k],
            i <= raw@.len(),
            gv(out@) == groups_acc(s.take(i as int)).0,
            prefix@ == groups_acc(s.take(i as int)).1,
            prefix@.len() > 0 ==> out@.len() > 0,
            groups_ok(gv(out@)),
        decreases raw@.len() - i,
    {
        let mut part: Vec<Vec<char>> = Vec::new();
        std::mem::swap(&mut part, &mut raw[i]);
        let ghost p = s[i as int];
        proof {
            assert(s.take(i + 1).drop_last() =~= s.take(i as int));
            assert(s.take(i + 1).last() == p);
            assert(vv(part@) == p);
            assert(p.len() >= 1);
            assert(p[0].len() > 0);
        }
        let ghost g0 = gv(out@);
        if part.len() == 1 {
            let first = part.pop().unwrap();
            assert(first@ == p[0]);
            out.push((first, Vec::new()));
            prefix = Vec::new();
            proof {
                assert(pv(Seq::<Vec<Vec<char>>>::empty()) =~= seq![]);
                assert(gv(out@) =~= g0.push((p[0], seq![])));
                assert(prefix@ =~= seq![]);
            }
        } else {
            let first = part.remove(0);
            proof {
                assert(first@ == p[0]);
                assert(vv(part@) =~= p.drop_first());
            }
            if chars_eq(first.as_slice(), prefix.as_slice()) {
                let (last_first, mut last_rest) = out.pop().unwrap();
                let ghost lr = pv(last_rest@);
                last_rest.push(part);
                out.push((last_first, last_rest));
                proof {
                    assert(pv(last_rest@) =~= lr.push(p.drop_first()));
                    assert(gv(out@) =~= g0.update(g0.len() - 1, (g0.last().0, g0.last().1.push(p.drop_first()))));
                    assert forall|k: int| 0 <= k < gv(out@).len() implies parts_ok(#[trigger] gv(out@)[k].1) by {
                        if k < g0.len() - 1 {
                            assert(gv(out@)[k] == g0[k]);
                        } else {
                            let nr = gv(out@)[k].1;
                            assert forall|m: int| 0 <= m < nr.len() implies {
                                &&& (#[trigger] nr[m]).len() >= 1
                                &&& forall|j: int| 0 <= j < nr[m].len() ==> (#[trigger] nr[m][j]).len() > 0
                            } by {
                                if m < nr.len() - 1 {
                                    assert(nr[m] == g0.last().1[m]);
                                } else {
                                    assert(nr[m] == p.drop_first());
                                    assert forall|j: int| 0 <= j < nr[m].len() implies (#[trigger] nr[m][j]).len() > 0 by {
                                        assert(nr[m][j] == p[j + 1]);
                                    }
                                }
                            }
                        }
                    }
                }
            } else {
                let mut rest: Vec<Vec<Vec<char>>> = Vec::new();
                rest.push(part);
                prefix = first.clone();
                assert(prefix@ =~= first@);
                out.push((first, rest));
                proof {
                    assert(pv(rest@) =~= seq![p.drop_first()]);
                    assert(gv(out@) =~= g0.push((p[0], seq![p.drop_first()])));
                    let nr = gv(out@).last().1;
                    assert forall|j: int| 0 <= j < nr[0].len() implies (#[trigger] nr[0][j]).len() > 0 by {
                        assert(nr[0][j] == p[j + 1]);
                    }
                    assert(parts_ok(nr));
                    assert forall|k: int| 0 <= k < gv(out@).len() implies parts_ok(#[trigger] gv(out@)[k].1) by {
                        if k < g0.len() {
                            assert(gv(out@)[k] == g0[k]);
                        }
                    }
                }
            }
        }
        i = i + 1;
    }
    assert(s.take(raw@.len() as int) =~= s);
    out
}

// ------------------------------------------------------------------
// Writing

/// A group written out: its first piece, then, when pieces follow it,
/// `-` and the one group below it, or `-[` and the groups below it and
/// `]`. `d` bounds the depth written; the lists of a group of depth `d`
/// hold fewer than `d` pieces.
pub open spec fn piece_str(g: Group, d: nat) -> Seq<char>
    decreases d, 0nat, 0nat,
{
    if d == 0 || g.1.len() == 0 {
        g.0
    } else {
        let gs = groups(g.1);
        let inner = list_str(gs, (d - 1) as nat);
        if gs.len() == 1 {
            g.0 + seq!['-'] + inner
        } else {
            g.0 + seq!['-', '['] + inner + seq![']']
        }
    }
}

/// Groups written out one after the other, separated by `, `.
pub open spec fn list_str(gs: Seq<Group>, d: nat) -> Seq<char>
    decreases d, 1nat, gs.len(),
{
    if gs.len() == 0 {
        seq![]
    } else if gs.len() == 1 {
        piece_str(gs[0], d)
    } else {
        list_str(gs.drop_last(), d) + seq![',', ' '] + piece_str(gs.last(), d)
    }
}

/// Append the characters of `v` to `out`.
fn push_chars(out: &mut String, v: &[char])
    ensures
        final(out)@ == old(out)@ + v@,
{
    let mut i: usize = 0;
    while i < v.len()
        invariant
            i <= v@.len(),
            out@ == old(out)@ + v@.take(i as int),
        decreases v@.len() - i,
    {
        crate::text::string_push(out, v[i]);
        i = i + 1;
        assert(out@ =~= old(out)@ + v@.take(i as int));
    }
    assert(v@.take(v@.len() as int) =~= v@);
}

/// Write the groups `gs` (see [`list_str`]).
fn write_groups(gs: Vec<(Vec<char>, Vec<Vec<Vec<char>>>)>, d: usize, out: &mut String)
    requires
        groups_ok(gv(gs@)),
    ensures
        final(out)@ == old(out)@ + list_str(gv(gs@), d as nat),
    decreases d, 1nat, gs@.len(),
{
    let ghost s = gv(gs@);
    let ghost n = gs@.len();
    let mut gs = gs;
    let ghost orig = gs@;
    let mut i: usize = 0;
    assert(s.take(0) =~= seq![]);
    while i < gs.len()
        invariant
            gs@.len() == orig.len(),
            n == orig.len(),
            s == gv(orig),
            groups_ok(s),
            forall|k: int| i <= k < gs@.len() ==> gs@[k] == orig[k],
            i <= gs@.len(),
            out@ == old(out)@ + list_str(s.take(i as int), d as nat),
        decreases gs@.len() - i,
    {
        let mut g: (Vec<char>, Vec<Vec<Vec<char>>>) = (Vec::new(), Vec::new());
        std::mem::swap(&mut g, &mut gs[i]);
        proof {
            assert(s.take(i + 1).drop_last() =~= s.take(i as int));
            assert(s.take(i + 1).last() == s[i as int]);
            assert((g.0@, pv(g.1@)) == s[i as int]);
            assert(parts_ok(s[i as int].1));
        }
        if i > 0 {
            crate::text::string_push(out, ',');
            crate::text::string_push(out, ' ');
        }
        write_piece(g, d, out);
        proof {
            if i == 0 {
                assert(s.take(1) =~= seq![s[0]]);
            }
        }
        assert(out@ =~= old(out)@ + list_str(s.take(i + 1), d as nat));
        i = i + 1;
    }
    assert(s.take(gs@.len() as int) =~= s);
}

/// Write the group `g` (see [`piece_str`]).
fn write_piece(g: (Vec<char>, Vec<Vec<Vec<char>>>), d: usize, out: &mut String)
    requires
        parts_ok(pv(g.1@)),
    ensures
        final(out)@ == old(out)@ + piece_str((g.0@, pv(g.1@)), d as nat),
    decreases d, 0nat, 0nat,
{
    let (first, rest) = g;
    push_chars(out, first.as_slice());
    if d == 0 || rest.len() == 0 {
        return;
    }
    let gs = group_parts(rest);
    let one = gs.len() == 1;
    crate::text::string_push(out, '-');
    if !one {
        crate::text::string_push(out, '[');
    }
    write_groups(gs, d - 1, out);
    if !one {
        crate::text::string_push(out, ']');
    }
}

// ------------------------------------------------------------------
// Collapsing names

/// The piece lists of the raw names `rs`.
pub open spec fn name_parts(rs: Seq<Seq<char>>) -> Seq<Seq<Seq<char>>> {
    rs.map_values(|r: Seq<char>| split_dash(r))
}

/// Where [`insert_parts`] puts `x` into `s`: after every list that orders
/// before or with it.
pub open spec fn parts_pos(s: Seq<Seq<Seq<char>>>, x: Seq<Seq<char>>) -> int
    decreases s.len(),
{
    if s.len() == 0 {
        0
    } else if pieces_le(s[0], x) {
        1 + parts_pos(s.drop_first(), x)
    } else {
        0
    }
}

/// `x` inserted into the sorted `s`.
pub open spec fn insert_parts(s: Seq<Seq<Seq<char>>>, x: Seq<Seq<char>>) -> Seq<Seq<Seq<char>>> {
    s.insert(parts_pos(s, x), x)
}

/// The piece lists sorted by [`pieces_le`] (an insertion sort).
pub open spec fn sort_parts(s: Seq<Seq<Seq<char>>>) -> Seq<Seq<Seq<char>>>
    decreases s.len(),
{
    if s.len() == 0 {
        s
    } else {
        insert_parts(sort_parts(s.drop_last()), s.last())
    }
}

/// The length of the longest list of `raw`.
pub open spec fn height(raw: Seq<Seq<Seq<char>>>) -> nat
    decreases raw.len(),
{
    if raw.len() == 0 {
        0
    } else if raw.last().len() > height(raw.drop_last()) {
        raw.last().len()
    } else {
        height(raw.drop_last())
    }
}

/// The names with raw forms `rs`, collapsed: their piece lists sorted,
/// grouped and written out.
pub open spec fn collapse_str(rs: Seq<Seq<char>>) -> Seq<char> {
    let s = sort_parts(name_parts(rs));
    list_str(groups(s), height(s))
}

proof fn lemma_parts_pos(s: Seq<Vec<Vec<char>>>, x: Vec<Vec<char>>)
    ensures
        crate::sort::ins_pos(s, x) == parts_pos(pv(s), vv(x@)),
    decreases s.len(),
{
    if s.len() > 0 {
        assert(pv(s.drop_first()) =~= pv(s).drop_first());
        lemma_parts_pos(s.drop_first(), x);
    }
}

proof fn lemma_sort_pv(s: Seq<Vec<Vec<char>>>)
    ensures
        pv(crate::sort::isort(s)) == sort_parts(pv(s)),
    decreases s.len(),
{
    if s.len() > 0 {
        let t = crate::sort::isort(s.drop_last());
        lemma_sort_pv(s.drop_last());
        assert(pv(s.drop_last()) =~= pv(s).drop_last());
        lemma_parts_pos(t, s.last());
        let p = crate::sort::ins_pos(t, s.last());
        crate::sort::lemma_ins_pos_bound(t, s.last());
        assert(pv(t.insert(p, s.last())) =~= pv(t).insert(p, vv(s.last()@)));
    }
}

proof fn lemma_sort_parts_ok(s: Seq<Seq<Seq<char>>>)
    requires
        parts_ok(s),
    ensures
        parts_ok(sort_parts(s)),
        sort_parts(s).len() == s.len(),
    decreases s.len(),
{
    if s.len() > 0 {
        let t = sort_parts(s.drop_last());
        lemma_sort_parts_ok(s.drop_last());
        lemma_parts_pos_bound(t, s.last());
        let p = parts_pos(t, s.last());
        let u = t.insert(p, s.last());
        assert forall|i: int| 0 <= i < u.len() implies {
            &&& (#[trigger] u[i]).len() >= 1
            &&& forall|j: int| 0 <= j < u[i].len() ==> (#[trigger] u[i][j]).len() > 0
        } by {
            if i < p {
                assert(u[i] == t[i]);
            } else if i == p {
                assert(u[i] == s[s.len() - 1]);
            } else {
                assert(u[i] == t[i - 1]);
            }
        }
    }
}

proof fn lemma_parts_pos_bound(s: Seq<Seq<Seq<char>>>, x: Seq<Seq<char>>)
    ensures
        0 <= parts_pos(s, x) <= s.len(),
    decreases s.len(),
{
    if s.len() > 0 {
        lemma_parts_pos_bound(s.drop_first(), x);
    }
}

proof fn lemma_name_parts_ok(ns: Seq<Name>)
    requires
        all_wf(ns),
    ensures
        parts_ok(name_parts(raws(ns))),
{
    assert forall|i: int| 0 <= i < name_parts(raws(ns)).len() implies {
        &&& (#[trigger] name_parts(raws(ns))[i]).len() >= 1
        &&& forall|j: int|
            0 <= j < name_parts(raws(ns))[i].len() ==> (#[trigger] name_parts(raws(ns))[i][j]).len() > 0
    } by {
        assert(ns[i].wf());
        lemma_valid_name_dashes(ns[i].raw_v());
        lemma_split_dash_nonempty(ns[i].raw_v());
    }
}

/// The length of the longest list of `raw` (see [`height`]).
fn height_exec(raw: &Vec<Vec<Vec<char>>>) -> (r: usize)
    ensures
        r == height(pv(raw@)),
{
    let mut h: usize = 0;
    let mut i: usize = 0;
    assert(pv(raw@).take(0) =~= seq![]);
    while i < raw.len()
        invariant
            i <= raw@.len(),
            h == height(pv(raw@).take(i as int)),
        decreases raw@.len() - i,
    {
        proof {
            assert(pv(raw@).take(i + 1).drop_last() =~= pv(raw@).take(i as int));
            assert(pv(raw@).take(i + 1).last() == vv(raw@[i as int]@));
        }
        if raw[i].len() > h {
            h = raw[i].len();
        }
        i = i + 1;
    }
    assert(pv(raw@).take(raw@.len() as int) =~= pv(raw@));
    h
}

/// Collapse a set of names into one string, `REQ-[bar-[baz, bom], foo]`
/// for `REQ-foo, REQ-bar-baz, REQ-bar-bom`.
///
/// The names are split at `-` into pieces and sorted (as lists of
/// strings); lists that share a first piece are grouped under it, and the
/// groups are written out as [`list_str`] says.
pub fn collapse_names(names: &Names) -> (r: String)
    requires
        names.wf(),
    ensures
        r@ == collapse_str(raws(names.0@)),
{
    let ghost rs = raws(names.0@);
    let mut parts: Vec<Vec<Vec<char>>> = Vec::new();
    let mut i: usize = 0;
    while i < names.0.len()
        invariant
            i <= names.0@.len(),
            rs == raws(names.0@),
            pv(parts@) == name_parts(rs).take(i as int),
        decreases names.0@.len() - i,
    {
        let v = str_chars(names.0[i].as_str());
        let p = split_dash_exec(v.as_slice());
        let ghost before = pv(parts@);
        parts.push(p);
        assert(pv(parts@) =~= before.push(vv(p@)));
        assert(name_parts(rs).take(i + 1) =~= name_parts(rs).take(i as int).push(split_dash(rs[i as int])));
        i = i + 1;
    }
    assert(name_parts(rs).take(names.0@.len() as int) =~= name_parts(rs));
    proof {
        lemma_name_parts_ok(names.0@);
    }
    let ghost unsorted = parts@;
    let sorted = crate::sort::sort_vec(parts);
    proof {
        lemma_sort_pv(unsorted);
        lemma_sort_parts_ok(name_parts(rs));
    }
    let d = height_exec(&sorted);
    let gs = group_parts(sorted);
    let mut out = String::new();
    write_groups(gs, d, &mut out);
    assert(out@ =~= collapse_str(rs));
    out
}

// ------------------------------------------------------------------
// Collapsing then expanding gives the names back

/// Pieces joined with `-`: the inverse of [`split_dash`].
pub open spec fn join_dash(p: Seq<Seq<char>>) -> Seq<char>
    decreases p.len(),
{
    if p.len() == 0 {
        seq![]
    } else if p.len() == 1 {
        p[0]
    } else {
        join_dash(p.drop_last()) + seq!['-'] + p.last()
    }
}

proof fn lemma_join_split(r: Seq<char>)
    ensures
        join_dash(split_dash(r)) == r,
    decreases r.len(),
{
    if r.len() > 0 {
        let x = split_dash(r.drop_last());
        lemma_join_split(r.drop_last());
        lemma_split_dash_len(r.drop_last());
        if r.last() == '-' {
            assert(x.push(seq![]).drop_last() =~= x);
            assert(r =~= r.drop_last() + seq!['-'] + seq![]);
        } else {
            let y = x.update(x.len() - 1, x.last().push(r.last()));
            if x.len() == 1 {
                assert(y[0] == x[0].push(r.last()));
                assert(r =~= r.drop_last().push(r.last()));
            } else {
                assert(y.drop_last() =~= x.drop_last());
                assert(join_dash(x) == join_dash(x.drop_last()) + seq!['-'] + x.last());
                assert(r =~= (join_dash(x.drop_last()) + seq!['-'] + x.last()).push(r.last()));
            }
        }
    }
}

/// Joining from the front: the first piece, `-`, and the rest joined.
proof fn lemma_join_front(p: Seq<Seq<char>>)
    requires
        p.len() >= 2,
    ensures
        join_dash(p) == p[0] + seq!['-'] + join_dash(p.drop_first()),
    decreases p.len(),
{
    if p.len() == 2 {
        assert(p.drop_last() =~= seq![p[0]]);
        assert(p.drop_first() =~= seq![p[1]]);
    } else {
        let q = p.drop_first();
        lemma_join_front(p.drop_last());
        assert(p.drop_last().drop_first() =~= q.drop_last());
        assert(q.last() == p.last());
        assert(p.drop_last()[0] == p[0]);
        assert(join_dash(q) == join_dash(q.drop_last()) + seq!['-'] + q.last());
        assert(join_dash(p) == join_dash(p.drop_last()) + seq!['-'] + p.last());
        assert(join_dash(p) =~= p[0] + seq!['-'] + join_dash(q));
    }
}

/// The names a group stands for, one level down: its first piece alone,
/// or its first piece, `-` and each rest list joined.
pub open spec fn gflat(g: Group) -> Seq<Seq<char>> {
    if g.1.len() == 0 {
        seq![g.0]
    } else {
        g.1.map_values(|t: Seq<Seq<char>>| g.0 + seq!['-'] + join_dash(t))
    }
}

/// The names of the groups, in order.
pub open spec fn gsflat(gs: Seq<Group>) -> Seq<Seq<char>>
    decreases gs.len(),
{
    if gs.len() == 0 {
        seq![]
    } else {
        gsflat(gs.drop_last()) + gflat(gs.last())
    }
}

/// The lists of `raw` joined, in order.
pub open spec fn joined(raw: Seq<Seq<Seq<char>>>) -> Seq<Seq<char>> {
    raw.map_values(|p: Seq<Seq<char>>| join_dash(p))
}

/// Grouping keeps every list, in order: the groups stand for the lists
/// joined. And while a first piece is in force, it is the last group's and
/// that group has rest lists.
proof fn lemma_groups_flat(raw: Seq<Seq<Seq<char>>>)
    requires
        parts_ok(raw),
    ensures
        gsflat(groups(raw)) == joined(raw),
        groups_ok(groups(raw)),
        groups_acc(raw).1.len() > 0 ==> {
            &&& groups(raw).len() > 0
            &&& groups(raw).last().0 == groups_acc(raw).1
            &&& groups(raw).last().1.len() > 0
        },
        forall|k: int| 0 <= k < groups(raw).len() ==> height((#[trigger] groups(raw)[k]).1) + 1 <= height(raw),
    decreases raw.len(),
{
    if raw.len() > 0 {
        let rest = raw.drop_last();
        assert forall|i: int| 0 <= i < rest.len() implies {
            &&& (#[trigger] rest[i]).len() >= 1
            &&& forall|j: int| 0 <= j < rest[i].len() ==> (#[trigger] rest[i][j]).len() > 0
        } by {
            assert(rest[i] == raw[i]);
        }
        lemma_groups_flat(rest);
        let (gs, prefix) = groups_acc(rest);
        let part = raw.last();
        assert(part == raw[raw.len() - 1]);
        assert(part.len() >= 1);
        assert(part[0].len() > 0);
        assert(joined(raw) =~= joined(rest).push(join_dash(part)));
        lemma_height_le(raw);
        if part.len() == 1 {
            let g2 = gs.push((part[0], seq![]));
            assert(g2.drop_last() =~= gs);
            assert(gflat((part[0], Seq::<Seq<Seq<char>>>::empty())) =~= seq![join_dash(part)]);
            assert forall|k: int| 0 <= k < g2.len() implies parts_ok(#[trigger] g2[k].1) by {
                if k < gs.len() {
                    assert(g2[k] == gs[k]);
                }
            }
            assert forall|k: int| 0 <= k < g2.len() implies height((#[trigger] g2[k]).1) + 1 <= height(raw) by {
                if k < gs.len() {
                    assert(g2[k] == gs[k]);
                } else {
                    assert(g2[k].1 =~= seq![]);
                }
            }
        } else if part[0] == prefix {
            let last = gs.last();
            let nl = (last.0, last.1.push(part.drop_first()));
            let g2 = gs.update(gs.len() - 1, nl);
            assert(g2.drop_last() =~= gs.drop_last());
            assert(gs =~= gs.drop_last().push(last));
            lemma_join_front(part);
            assert(gflat(nl) =~= gflat(last).push(join_dash(part)));
            assert(gsflat(g2) == gsflat(gs.drop_last()) + gflat(nl));
            assert(gsflat(gs) == gsflat(gs.drop_last()) + gflat(last));
            assert(gsflat(g2) =~= gsflat(gs).push(join_dash(part)));
            assert(parts_ok(nl.1)) by {
                assert forall|m: int| 0 <= m < nl.1.len() implies {
                    &&& (#[trigger] nl.1[m]).len() >= 1
                    &&& forall|j: int| 0 <= j < nl.1[m].len() ==> (#[trigger] nl.1[m][j]).len() > 0
                } by {
                    if m < last.1.len() {
                        assert(nl.1[m] == last.1[m]);
                        assert(parts_ok(gs[gs.len() - 1].1));
                    } else {
                        assert(nl.1[m] == part.drop_first());
                        assert forall|j: int| 0 <= j < nl.1[m].len() implies (#[trigger] nl.1[m][j]).len() > 0 by {
                            assert(nl.1[m][j] == part[j + 1]);
                        }
                    }
                }
            }
            assert forall|k: int| 0 <= k < g2.len() implies parts_ok(#[trigger] g2[k].1) by {
                if k < gs.len() - 1 {
                    assert(g2[k] == gs[k]);
                }
            }
            lemma_height_push(last.1, part.drop_first());
            assert(height(gs[gs.len() - 1].1) + 1 <= height(rest));
            assert forall|k: int| 0 <= k < g2.len() implies height((#[trigger] g2[k]).1) + 1 <= height(raw) by {
                if k < gs.len() - 1 {
                    assert(g2[k] == gs[k]);
                }
            }
        } else {
            let nl = (part[0], seq![part.drop_first()]);
            let g2 = gs.push(nl);
            assert(g2.drop_last() =~= gs);
            lemma_join_front(part);
            assert(gflat(nl) =~= seq![join_dash(part)]);
            assert(parts_ok(nl.1)) by {
                assert(nl.1[0] == part.drop_first());
                assert forall|j: int| 0 <= j < nl.1[0].len() implies (#[trigger] nl.1[0][j]).len() > 0 by {
                    assert(nl.1[0][j] == part[j + 1]);
                }
            }
            assert forall|k: int| 0 <= k < g2.len() implies parts_ok(#[trigger] g2[k].1) by {
                if k < gs.len() {
                    assert(g2[k] == gs[k]);
                }
            }
            lemma_height_push(seq![], part.drop_first());
            assert(seq![part.drop_first()] =~= Seq::<Seq<Seq<char>>>::empty().push(part.drop_first()));
            assert forall|k: int| 0 <= k < g2.len() implies height((#[trigger] g2[k]).1) + 1 <= height(raw) by {
                if k < gs.len() {
                    assert(g2[k] == gs[k]);
                }
            }
        }
    }
}

/// The height of `raw` is at least that of the rest and of the last list.
proof fn lemma_height_le(raw: Seq<Seq<Seq<char>>>)
    requires
        raw.len() > 0,
    ensures
        height(raw.drop_last()) <= height(raw),
        raw.last().len() <= height(raw),
{
}

/// Adding a list raises the height to at most its length.
proof fn lemma_height_push(raw: Seq<Seq<Seq<char>>>, x: Seq<Seq<char>>)
    ensures
        height(raw.push(x)) == if x.len() > height(raw) { x.len() } else { height(raw) },
{
    assert(raw.push(x).drop_last() =~= raw);
}

/// Every character of every piece of `raw` is a name character.
pub open spec fn pieces_chars(raw: Seq<Seq<Seq<char>>>) -> bool {
    forall|i: int, j: int, k: int|
        0 <= i < raw.len() && 0 <= j < raw[i].len() && 0 <= k < raw[i][j].len() ==> is_name_char(
            #[trigger] raw[i][j][k],
        )
}

/// Every character of `s` is a name character.
pub open spec fn name_chars(s: Seq<char>) -> bool {
    forall|k: int| 0 <= k < s.len() ==> is_name_char(#[trigger] s[k])
}

/// Grouping keeps the characters: every first piece and rest list of the
/// groups is made of name characters.
proof fn lemma_groups_chars(raw: Seq<Seq<Seq<char>>>)
    requires
        parts_ok(raw),
        pieces_chars(raw),
    ensures
        forall|k: int| 0 <= k < groups(raw).len() ==> name_chars((#[trigger] groups(raw)[k]).0),
        forall|k: int| 0 <= k < groups(raw).len() ==> pieces_chars((#[trigger] groups(raw)[k]).1),
    decreases raw.len(),
{
    if raw.len() > 0 {
        let rest = raw.drop_last();
        assert forall|i: int| 0 <= i < rest.len() implies {
            &&& (#[trigger] rest[i]).len() >= 1
            &&& forall|j: int| 0 <= j < rest[i].len() ==> (#[trigger] rest[i][j]).len() > 0
        } by {
            assert(rest[i] == raw[i]);
        }
        assert forall|i: int, j: int, k: int|
            0 <= i < rest.len() && 0 <= j < rest[i].len() && 0 <= k < rest[i][j].len() implies is_name_char(
                #[trigger] rest[i][j][k],
            ) by {
            assert(rest[i] == raw[i]);
        }
        lemma_groups_chars(rest);
        lemma_groups_flat(rest);
        let (gs, prefix) = groups_acc(rest);
        let part = raw.last();
        let n = raw.len() - 1;
        assert(part == raw[n]);
        assert(part.len() >= 1);
        assert forall|k: int| 0 <= k < part[0].len() implies is_name_char(#[trigger] part[0][k]) by {
            assert(raw[n][0][k] == part[0][k]);
        }
        let tail = part.drop_first();
        assert forall|j: int, k: int| 0 <= j < tail.len() && 0 <= k < tail[j].len() implies is_name_char(
            #[trigger] tail[j][k],
        ) by {
            assert(tail[j] == raw[n][j + 1]);
        }
        let g2 = groups(raw);
        if part.len() == 1 {
            assert(g2 == gs.push((part[0], Seq::<Seq<Seq<char>>>::empty())));
            assert forall|k: int| 0 <= k < g2.len() implies name_chars((#[trigger] g2[k]).0) && pieces_chars(g2[k].1) by {
                if k < gs.len() {
                    assert(g2[k] == gs[k]);
                }
            }
        } else if part[0] == prefix {
            let last = gs.last();
            assert(g2 == gs.update(gs.len() - 1, (last.0, last.1.push(tail))));
            assert(pieces_chars(gs[gs.len() - 1].1));
            assert forall|k: int| 0 <= k < g2.len() implies name_chars((#[trigger] g2[k]).0) && pieces_chars(g2[k].1) by {
                if k < gs.len() - 1 {
                    assert(g2[k] == gs[k]);
                } else {
                    let nl = g2[k].1;
                    assert forall|i: int, j: int, m: int|
                        0 <= i < nl.len() && 0 <= j < nl[i].len() && 0 <= m < nl[i][j].len() implies is_name_char(
                            #[trigger] nl[i][j][m],
                        ) by {
                        if i < last.1.len() {
                            assert(nl[i] == last.1[i]);
                        } else {
                            assert(nl[i] == tail);
                        }
                    }
                }
            }
        } else {
            assert(g2 == gs.push((part[0], seq![tail])));
            assert forall|k: int| 0 <= k < g2.len() implies name_chars((#[trigger] g2[k]).0) && pieces_chars(g2[k].1) by {
                if k < gs.len() {
                    assert(g2[k] == gs[k]);
                } else {
                    let nl = g2[k].1;
                    assert forall|i: int, j: int, m: int|
                        0 <= i < nl.len() && 0 <= j < nl[i].len() && 0 <= m < nl[i][j].len() implies is_name_char(
                            #[trigger] nl[i][j][m],
                        ) by {
                        assert(nl[i] == tail);
                    }
                }
            }
        }
    }
}

/// What parsing the written group `g` does, starting with the current
/// element `c`: the current element after it, and the elements it
/// finished.
pub open spec fn piece_effect(g: Group, d: nat, c: Seq<char>) -> (Seq<char>, Seq<Seq<char>>)
    decreases d, 0nat, 0nat,
{
    if d == 0 || g.1.len() == 0 {
        (c + g.0, seq![])
    } else {
        let gs = groups(g.1);
        let p = c + g.0 + seq!['-'];
        if gs.len() == 1 {
            piece_effect(gs[0], (d - 1) as nat, p)
        } else {
            (seq![], prefix_all(p, list_items(gs, (d - 1) as nat)))
        }
    }
}

/// What parsing the written groups `gs` does, starting with no current
/// element: the current element after them, and the elements they
/// finished.
pub open spec fn list_state(gs: Seq<Group>, d: nat) -> (Seq<char>, Seq<Seq<char>>)
    decreases d, 1nat, gs.len(),
{
    if gs.len() == 0 {
        (seq![], seq![])
    } else if gs.len() == 1 {
        piece_effect(gs[0], d, seq![])
    } else {
        let (c, a) = list_state(gs.drop_last(), d);
        let (c2, a2) = piece_effect(gs.last(), d, seq![]);
        (c2, a.push(c) + a2)
    }
}

/// The elements that parsing the written groups `gs` gives.
pub open spec fn list_items(gs: Seq<Group>, d: nat) -> Seq<Seq<char>>
    decreases d, 2nat, 0nat,
{
    nonempty(list_state(gs, d).1.push(list_state(gs, d).0))
}

/// A character that the collapsed-list grammar reads as part of a name.
pub open spec fn plain(c: char) -> bool {
    !(c == ' ' || c == '\n' || c == '\r' || c == '[' || c == ']' || c == ',')
}

/// Plain characters are added to the current element one by one.
proof fn lemma_parse_word(
    s: Seq<char>,
    i: int,
    w: Seq<char>,
    in_br: bool,
    cur: Seq<char>,
    acc: Seq<Seq<char>>,
)
    requires
        0 <= i,
        i + w.len() <= s.len(),
        s.subrange(i, i + w.len()) == w,
        forall|k: int| 0 <= k < w.len() ==> plain(#[trigger] w[k]),
    ensures
        parse_list(s, i, in_br, cur, acc) == parse_list(s, i + w.len(), in_br, cur + w, acc),
    decreases w.len(),
{
    if w.len() == 0 {
        assert(cur + w =~= cur);
    } else {
        assert(s[i] == w[0]);
        assert(plain(w[0]));
        let w2 = w.drop_first();
        assert(s.subrange(i + 1, i + 1 + w2.len()) =~= w2);
        assert forall|k: int| 0 <= k < w2.len() implies plain(#[trigger] w2[k]) by {
            assert(w2[k] == w[k + 1]);
        }
        lemma_parse_word(s, i + 1, w2, in_br, cur.push(w[0]), acc);
        assert(cur.push(w[0]) + w2 =~= cur + w);
    }
}

/// A group fit to be written to depth `d`: a non-empty first piece and
/// rest lists of name characters, no deeper than `d`.
pub open spec fn group_ok(g: Group, d: nat) -> bool {
    &&& g.0.len() > 0
    &&& name_chars(g.0)
    &&& parts_ok(g.1)
    &&& pieces_chars(g.1)
    &&& height(g.1) <= d
}

proof fn lemma_name_chars_plain(w: Seq<char>)
    requires
        name_chars(w),
    ensures
        forall|k: int| 0 <= k < w.len() ==> plain(#[trigger] w[k]),
{
    assert forall|k: int| 0 <= k < w.len() implies plain(#[trigger] w[k]) by {
        assert(is_name_char(w[k]));
    }
}

/// The groups of a fit group are fit one level down, and there is at
/// least one.
proof fn lemma_subgroups_ok(g: Group, d: nat)
    requires
        group_ok(g, d),
        g.1.len() > 0,
    ensures
        d >= 1,
        groups(g.1).len() >= 1,
        forall|k: int| 0 <= k < groups(g.1).len() ==> group_ok(#[trigger] groups(g.1)[k], (d - 1) as nat),
{
    lemma_groups_flat(g.1);
    lemma_groups_chars(g.1);
    assert(g.1[0].len() >= 1);
    assert(height(g.1) >= 1) by {
        lemma_height_ge(g.1, 0);
    }
    assert(joined(g.1).len() == g.1.len());
    if groups(g.1).len() == 0 {
        assert(gsflat(groups(g.1)) =~= seq![]);
    }
    assert forall|k: int| 0 <= k < groups(g.1).len() implies group_ok(#[trigger] groups(g.1)[k], (d - 1) as nat) by {
        let h = groups(g.1)[k];
        assert(parts_ok(h.1));
        lemma_group_first_nonempty(g.1, k);
    }
}

/// Each list is no longer than the height.
proof fn lemma_height_ge(raw: Seq<Seq<Seq<char>>>, i: int)
    requires
        0 <= i < raw.len(),
    ensures
        raw[i].len() <= height(raw),
    decreases raw.len(),
{
    if i < raw.len() - 1 {
        lemma_height_ge(raw.drop_last(), i);
        assert(raw.drop_last()[i] == raw[i]);
    }
}

/// The first piece of every group is a first piece of some list, so it is
/// not empty.
proof fn lemma_group_first_nonempty(raw: Seq<Seq<Seq<char>>>, k: int)
    requires
        parts_ok(raw),
        0 <= k < groups(raw).len(),
    ensures
        groups(raw)[k].0.len() > 0,
    decreases raw.len(),
{
    if raw.len() > 0 {
        let rest = raw.drop_last();
        assert forall|i: int| 0 <= i < rest.len() implies {
            &&& (#[trigger] rest[i]).len() >= 1
            &&& forall|j: int| 0 <= j < rest[i].len() ==> (#[trigger] rest[i][j]).len() > 0
        } by {
            assert(rest[i] == raw[i]);
        }
        let (gs, prefix) = groups_acc(rest);
        let part = raw.last();
        assert(part == raw[raw.len() - 1]);
        assert(part[0].len() > 0);
        if part.len() == 1 {
            assert(groups(raw) == gs.push((part[0], Seq::<Seq<Seq<char>>>::empty())));
            if k < gs.len() {
                lemma_group_first_nonempty(rest, k);
            }
        } else if part[0] == prefix {
            lemma_groups_flat(rest);
            let last = gs.last();
            assert(groups(raw) == gs.update(gs.len() - 1, (last.0, last.1.push(part.drop_first()))));
            lemma_group_first_nonempty(rest, k);
        } else {
            assert(groups(raw) == gs.push((part[0], seq![part.drop_first()])));
            if k < gs.len() {
                lemma_group_first_nonempty(rest, k);
            }
        }
    }
}

/// Parsing a written group reads it whole: it leaves the state that
/// [`piece_effect`] says.
proof fn lemma_parse_piece(
    g: Group,
    d: nat,
    s: Seq<char>,
    i: int,
    in_br: bool,
    c: Seq<char>,
    acc: Seq<Seq<char>>,
)
    requires
        group_ok(g, d),
        0 <= i,
        i + piece_str(g, d).len() <= s.len(),
        s.subrange(i, i + piece_str(g, d).len()) == piece_str(g, d),
    ensures
        parse_list(s, i, in_br, c, acc) == parse_list(
            s,
            i + piece_str(g, d).len(),
            in_br,
            piece_effect(g, d, c).0,
            acc + piece_effect(g, d, c).1,
        ),
    decreases d, 0nat, 0nat,
{
    let ps = piece_str(g, d);
    lemma_name_chars_plain(g.0);
    if d == 0 || g.1.len() == 0 {
        lemma_parse_word(s, i, g.0, in_br, c, acc);
        assert(acc + Seq::<Seq<char>>::empty() =~= acc);
    } else {
        lemma_subgroups_ok(g, d);
        let gs = groups(g.1);
        let e = (d - 1) as nat;
        let inner = list_str(gs, e);
        let w = g.0 + seq!['-'];
        let p = c + w;
        assert forall|k: int| 0 <= k < w.len() implies plain(#[trigger] w[k]) by {
            if k < g.0.len() {
                assert(w[k] == g.0[k]);
            }
        }
        assert(ps.subrange(0, w.len() as int) =~= w);
        assert(s.subrange(i, i + w.len()) =~= w) by {
            assert forall|k: int| 0 <= k < w.len() implies s.subrange(i, i + w.len())[k] == w[k] by {
                assert(s.subrange(i, i + ps.len())[k] == ps[k]);
            }
        }
        lemma_parse_word(s, i, w, in_br, c, acc);
        let i1 = i + w.len();
        assert(p =~= c + g.0 + seq!['-']);
        if gs.len() == 1 {
            let sub = piece_str(gs[0], e);
            assert(inner == sub);
            assert(ps =~= w + sub);
            assert(s.subrange(i1, i1 + sub.len()) =~= sub) by {
                assert forall|k: int| 0 <= k < sub.len() implies s.subrange(i1, i1 + sub.len())[k] == sub[k] by {
                    assert(s.subrange(i, i + ps.len())[w.len() + k] == ps[w.len() + k]);
                }
            }
            lemma_parse_piece(gs[0], e, s, i1, in_br, p, acc);
        } else {
            assert(ps =~= w + seq!['['] + inner + seq![']']);
            assert(s[i1] == '[') by {
                assert(s.subrange(i, i + ps.len())[w.len() as int] == ps[w.len() as int]);
            }
            let i2 = i1 + 1 + inner.len();
            assert(s.subrange(i1 + 1, i2) =~= inner) by {
                assert forall|k: int| 0 <= k < inner.len() implies s.subrange(i1 + 1, i2)[k] == inner[k] by {
                    assert(s.subrange(i, i + ps.len())[w.len() + 1 + k] == ps[w.len() + 1 + k]);
                }
            }
            assert(s[i2] == ']') by {
                assert(s.subrange(i, i + ps.len())[ps.len() - 1] == ps[ps.len() - 1]);
            }
            lemma_parse_list(gs, e, s, i1 + 1, true, seq![]);
            let ls = list_state(gs, e);
            assert(Seq::<Seq<char>>::empty() + ls.1 =~= ls.1);
            assert(parse_list(s, i2, true, ls.0, ls.1) == Ok::<(Seq<Seq<char>>, int), crate::expand::CollapseError>(
                (nonempty(ls.1.push(ls.0)), i2 + 1),
            ));
            assert(p.len() > 0);
            assert(parse_list(s, i1, in_br, p, acc) == parse_list(
                s,
                i2 + 1,
                in_br,
                seq![],
                acc + prefix_all(p, list_items(gs, e)),
            ));
            assert(i2 + 1 == i + ps.len());
        }
    }
}

/// Parsing written groups reads them whole: it leaves the state that
/// [`list_state`] says.
proof fn lemma_parse_list(
    gs: Seq<Group>,
    d: nat,
    s: Seq<char>,
    i: int,
    in_br: bool,
    acc: Seq<Seq<char>>,
)
    requires
        forall|k: int| 0 <= k < gs.len() ==> group_ok(#[trigger] gs[k], d),
        0 <= i,
        i + list_str(gs, d).len() <= s.len(),
        s.subrange(i, i + list_str(gs, d).len()) == list_str(gs, d),
    ensures
        parse_list(s, i, in_br, seq![], acc) == parse_list(
            s,
            i + list_str(gs, d).len(),
            in_br,
            list_state(gs, d).0,
            acc + list_state(gs, d).1,
        ),
    decreases d, 1nat, gs.len(),
{
    let ls = list_str(gs, d);
    if gs.len() == 0 {
        assert(acc + Seq::<Seq<char>>::empty() =~= acc);
    } else if gs.len() == 1 {
        assert(group_ok(gs[0], d));
        lemma_parse_piece(gs[0], d, s, i, in_br, seq![], acc);
    } else {
        let front = gs.drop_last();
        let l0 = list_str(front, d);
        let last = gs.last();
        assert(last == gs[gs.len() - 1]);
        let pl = piece_str(last, d);
        assert(ls == l0 + seq![',', ' '] + pl);
        assert forall|k: int| 0 <= k < front.len() implies group_ok(#[trigger] front[k], d) by {
            assert(front[k] == gs[k]);
        }
        assert(s.subrange(i, i + l0.len()) =~= l0) by {
            assert forall|k: int| 0 <= k < l0.len() implies s.subrange(i, i + l0.len())[k] == l0[k] by {
                assert(s.subrange(i, i + ls.len())[k] == ls[k]);
            }
        }
        lemma_parse_list(front, d, s, i, in_br, acc);
        let (c, a) = list_state(front, d);
        let ia = i + l0.len();
        assert(s[ia] == ',') by {
            assert(s.subrange(i, i + ls.len())[l0.len() as int] == ls[l0.len() as int]);
        }
        assert(s[ia + 1] == ' ') by {
            assert(s.subrange(i, i + ls.len())[l0.len() + 1int] == ls[l0.len() + 1int]);
        }
        let i3 = ia + 2;
        assert(s.subrange(i3, i3 + pl.len()) =~= pl) by {
            assert forall|k: int| 0 <= k < pl.len() implies s.subrange(i3, i3 + pl.len())[k] == pl[k] by {
                assert(s.subrange(i, i + ls.len())[l0.len() + 2 + k] == ls[l0.len() + 2 + k]);
            }
        }
        assert(parse_list(s, ia, in_br, c, acc + a) == parse_list(s, ia + 1, in_br, seq![], (acc + a).push(c)));
        assert(parse_list(s, ia + 1, in_br, seq![], (acc + a).push(c)) == parse_list(s, i3, in_br, seq![], (acc + a).push(c)));
        lemma_parse_piece(last, d, s, i3, in_br, seq![], (acc + a).push(c));
        let (c2, a2) = piece_effect(last, d, seq![]);
        assert((acc + a).push(c) + a2 =~= acc + (a.push(c) + a2));
    }
}

proof fn lemma_nonempty_append(x: Seq<Seq<char>>, y: Seq<Seq<char>>)
    ensures
        nonempty(x + y) == nonempty(x) + nonempty(y),
    decreases y.len(),
{
    if y.len() == 0 {
        assert(x + y =~= x);
        assert(nonempty(x) + nonempty(y) =~= nonempty(x));
    } else {
        lemma_nonempty_append(x, y.drop_last());
        assert((x + y).drop_last() =~= x + y.drop_last());
        assert((x + y).last() == y.last());
        if y.last().len() > 0 {
            assert(nonempty(x) + nonempty(y) =~= (nonempty(x) + nonempty(y.drop_last())).push(y.last()));
        }
    }
}

proof fn lemma_nonempty_all(x: Seq<Seq<char>>)
    requires
        forall|k: int| 0 <= k < x.len() ==> (#[trigger] x[k]).len() > 0,
    ensures
        nonempty(x) == x,
    decreases x.len(),
{
    if x.len() > 0 {
        assert forall|k: int| 0 <= k < x.drop_last().len() implies (#[trigger] x.drop_last()[k]).len() > 0 by {
            assert(x.drop_last()[k] == x[k]);
        }
        lemma_nonempty_all(x.drop_last());
        assert(x[x.len() - 1].len() > 0);
        assert(x.drop_last().push(x.last()) =~= x);
    }
}

/// The names the written group `g` stands for, read after the current
/// element `c`: `c` followed by each name of the group.
proof fn lemma_effect_items(g: Group, d: nat, c: Seq<char>)
    requires
        group_ok(g, d),
    ensures
        nonempty(piece_effect(g, d, c).1.push(piece_effect(g, d, c).0)) == prefix_all(c, gflat(g)),
    decreases d, 0nat, 0nat,
{
    if d == 0 || g.1.len() == 0 {
        if d == 0 && g.1.len() > 0 {
            lemma_height_ge(g.1, 0);
            assert(g.1[0].len() >= 1);
        }
        assert(Seq::<Seq<char>>::empty().push(c + g.0) =~= seq![c + g.0]);
        assert(seq![c + g.0].drop_last() =~= Seq::<Seq<char>>::empty());
        assert(nonempty(Seq::<Seq<char>>::empty()) =~= Seq::<Seq<char>>::empty());
        assert(seq![c + g.0].last() == c + g.0);
        assert((c + g.0).len() > 0);
        assert(nonempty(seq![c + g.0]) =~= seq![c + g.0]);
        assert(prefix_all(c, gflat(g)) =~= seq![c + g.0]);
    } else {
        lemma_subgroups_ok(g, d);
        lemma_groups_flat(g.1);
        let gs = groups(g.1);
        let e = (d - 1) as nat;
        let p = c + g.0 + seq!['-'];
        let target = prefix_all(c, gflat(g));
        assert(prefix_all(p, joined(g.1)) =~= target) by {
            assert forall|k: int| 0 <= k < target.len() implies #[trigger] prefix_all(p, joined(g.1))[k] == target[k] by {
                assert(target[k] == c + (g.0 + seq!['-'] + join_dash(g.1[k])));
                assert(prefix_all(p, joined(g.1))[k] == p + join_dash(g.1[k]));
            }
        }
        if gs.len() == 1 {
            lemma_effect_items(gs[0], e, p);
            assert(gs.drop_last() =~= Seq::<Group>::empty());
            assert(gsflat(Seq::<Group>::empty()) =~= Seq::<Seq<char>>::empty());
            assert(gs.last() == gs[0]);
            assert(gsflat(gs) =~= gflat(gs[0]));
        } else {
            lemma_list_items(gs, e);
            let items = prefix_all(p, list_items(gs, e));
            assert(items.push(seq![]).drop_last() =~= items);
            assert(forall|k: int| 0 <= k < items.len() ==> (#[trigger] items[k]).len() > 0) by {
                assert forall|k: int| 0 <= k < items.len() implies (#[trigger] items[k]).len() > 0 by {
                    assert(items[k] == p + list_items(gs, e)[k]);
                }
            }
            lemma_nonempty_all(items);
        }
    }
}

/// The names the written groups `gs` stand for: the names of each group,
/// in order.
proof fn lemma_list_items(gs: Seq<Group>, d: nat)
    requires
        forall|k: int| 0 <= k < gs.len() ==> group_ok(#[trigger] gs[k], d),
    ensures
        list_items(gs, d) == gsflat(gs),
    decreases d, 1nat, gs.len(),
{
    if gs.len() == 0 {
        let one = Seq::<Seq<char>>::empty().push(seq![]);
        assert(one.drop_last() =~= Seq::<Seq<char>>::empty());
        assert(one.last().len() == 0);
        assert(nonempty(Seq::<Seq<char>>::empty()) =~= Seq::<Seq<char>>::empty());
        assert(nonempty(one) =~= Seq::<Seq<char>>::empty());
    } else if gs.len() == 1 {
        assert(group_ok(gs[0], d));
        lemma_effect_items(gs[0], d, seq![]);
        assert(prefix_all(seq![], gflat(gs[0])) =~= gflat(gs[0]));
        assert(gs.drop_last() =~= Seq::<Group>::empty());
        assert(gsflat(Seq::<Group>::empty()) =~= Seq::<Seq<char>>::empty());
        assert(gs.last() == gs[0]);
        assert(gsflat(gs) =~= gflat(gs[0]));
    } else {
        let front = gs.drop_last();
        assert forall|k: int| 0 <= k < front.len() implies group_ok(#[trigger] front[k], d) by {
            assert(front[k] == gs[k]);
        }
        lemma_list_items(front, d);
        let (c, a) = list_state(front, d);
        let last = gs.last();
        assert(last == gs[gs.len() - 1]);
        lemma_effect_items(last, d, seq![]);
        let (c2, a2) = piece_effect(last, d, seq![]);
        assert((a.push(c) + a2).push(c2) =~= a.push(c) + a2.push(c2));
        lemma_nonempty_append(a.push(c), a2.push(c2));
        assert(prefix_all(seq![], gflat(last)) =~= gflat(last));
    }
}

/// Inserting into a sequence inserts into its multiset.
proof fn lemma_insert_multiset<A>(s: Seq<A>, p: int, a: A)
    requires
        0 <= p <= s.len(),
    ensures
        s.insert(p, a).to_multiset() =~= s.to_multiset().insert(a),
{
    broadcast use vstd::seq_lib::group_to_multiset_ensures;
    let u = s.insert(p, a);
    assert(u.remove(p) =~= s);
    assert(u[p] == a);
    assert(u.to_multiset().count(a) > 0);
    assert(s.to_multiset() =~= u.to_multiset().remove(a));
}

/// Sorting the lists keeps the joined names, up to order.
proof fn lemma_joined_sort(x: Seq<Seq<Seq<char>>>)
    ensures
        joined(sort_parts(x)).to_multiset() == joined(x).to_multiset(),
        sort_parts(x).len() == x.len(),
    decreases x.len(),
{
    broadcast use vstd::seq_lib::group_to_multiset_ensures;
    if x.len() > 0 {
        let y = x.last();
        let t = sort_parts(x.drop_last());
        lemma_joined_sort(x.drop_last());
        lemma_parts_pos_bound(t, y);
        let p = parts_pos(t, y);
        assert(joined(t.insert(p, y)) =~= joined(t).insert(p, join_dash(y)));
        lemma_insert_multiset(joined(t), p, join_dash(y));
        assert(joined(x) =~= joined(x.drop_last()).push(join_dash(y)));
    }
}

/// The names read back from their pieces are the names.
proof fn lemma_joined_name_parts(rs: Seq<Seq<char>>)
    ensures
        joined(name_parts(rs)) == rs,
{
    assert forall|i: int| 0 <= i < rs.len() implies #[trigger] joined(name_parts(rs))[i] == rs[i] by {
        lemma_join_split(rs[i]);
    }
    assert(joined(name_parts(rs)) =~= rs);
}

/// Each piece of a valid name is made of name characters.
proof fn lemma_split_chars(r: Seq<char>)
    requires
        forall|k: int| 0 <= k < r.len() ==> (is_name_char(#[trigger] r[k]) || r[k] == '-'),
    ensures
        forall|j: int, k: int|
            0 <= j < split_dash(r).len() && 0 <= k < split_dash(r)[j].len() ==> is_name_char(
                #[trigger] split_dash(r)[j][k],
            ),
    decreases r.len(),
{
    if r.len() > 0 {
        let rest = r.drop_last();
        assert forall|k: int| 0 <= k < rest.len() implies (is_name_char(#[trigger] rest[k]) || rest[k] == '-') by {
            assert(rest[k] == r[k]);
        }
        lemma_split_chars(rest);
        lemma_split_dash_len(rest);
        let x = split_dash(rest);
        if r.last() != '-' {
            assert(is_name_char(r[r.len() - 1]));
            let y = split_dash(r);
            assert forall|j: int, k: int| 0 <= j < y.len() && 0 <= k < y[j].len() implies is_name_char(
                #[trigger] y[j][k],
            ) by {
                if j < x.len() - 1 {
                    assert(y[j] == x[j]);
                } else if k < x.last().len() {
                    assert(y[j][k] == x[x.len() - 1][k]);
                }
            }
        } else {
            let y = split_dash(r);
            assert forall|j: int, k: int| 0 <= j < y.len() && 0 <= k < y[j].len() implies is_name_char(
                #[trigger] y[j][k],
            ) by {
                assert(y[j] == x[j]);
            }
        }
    }
}

/// The pieces of valid names are made of name characters.
proof fn lemma_name_parts_chars(ns: Seq<Name>)
    requires
        all_wf(ns),
    ensures
        pieces_chars(name_parts(raws(ns))),
{
    let np = name_parts(raws(ns));
    assert forall|i: int, j: int, k: int|
        0 <= i < np.len() && 0 <= j < np[i].len() && 0 <= k < np[i][j].len() implies is_name_char(
            #[trigger] np[i][j][k],
        ) by {
        let r = ns[i].raw_v();
        assert(ns[i].wf());
        assert forall|m: int| 0 <= m < r.len() implies (is_name_char(#[trigger] r[m]) || r[m] == '-') by {
            if m < 3 {
                assert(crate::name::ascii_upper(r[m]) == 'R' || crate::name::ascii_upper(r[m]) == 'E'
                    || crate::name::ascii_upper(r[m]) == 'Q' || crate::name::ascii_upper(r[m]) == 'S'
                    || crate::name::ascii_upper(r[m]) == 'P' || crate::name::ascii_upper(r[m]) == 'C'
                    || crate::name::ascii_upper(r[m]) == 'T');
            } else if m > 3 {
                assert(r[m] == r.skip(4)[m - 4]);
            }
        }
        lemma_split_chars(r);
    }
}

/// Sorting keeps what holds of every list.
proof fn lemma_sort_parts_chars(s: Seq<Seq<Seq<char>>>)
    requires
        pieces_chars(s),
    ensures
        pieces_chars(sort_parts(s)),
    decreases s.len(),
{
    if s.len() > 0 {
        let t = sort_parts(s.drop_last());
        let rest = s.drop_last();
        assert forall|i: int, j: int, k: int|
            0 <= i < rest.len() && 0 <= j < rest[i].len() && 0 <= k < rest[i][j].len() implies is_name_char(
                #[trigger] rest[i][j][k],
            ) by {
            assert(rest[i] == s[i]);
        }
        lemma_sort_parts_chars(rest);
        lemma_parts_pos_bound(t, s.last());
        let p = parts_pos(t, s.last());
        let u = t.insert(p, s.last());
        assert forall|i: int, j: int, k: int|
            0 <= i < u.len() && 0 <= j < u[i].len() && 0 <= k < u[i][j].len() implies is_name_char(
                #[trigger] u[i][j][k],
            ) by {
            if i < p {
                assert(u[i] == t[i]);
            } else if i == p {
                assert(u[i] == s[s.len() - 1]);
            } else {
                assert(u[i] == t[i - 1]);
            }
        }
    }
}

/// Collapsing names and parsing the result gives the names back: the
/// collapsed string parses as a list whose elements are the names' raw
/// forms, in the order the names were sorted in, each once.
pub proof fn lemma_collapse_parse(names: Names)
    requires
        names.wf(),
    ensures
        parse_list(collapse_str(raws(names.0@)), 0, false, seq![], seq![]) == Ok::<
            (Seq<Seq<char>>, int),
            crate::expand::CollapseError,
        >((joined(sort_parts(name_parts(raws(names.0@)))), collapse_str(raws(names.0@)).len() as int)),
        joined(sort_parts(name_parts(raws(names.0@)))).to_multiset() == raws(names.0@).to_multiset(),
{
    let rs = raws(names.0@);
    let np = name_parts(rs);
    let s = sort_parts(np);
    let h = height(s);
    let gs = groups(s);
    let c = collapse_str(rs);
    lemma_name_parts_ok(names.0@);
    lemma_sort_parts_ok(np);
    lemma_name_parts_chars(names.0@);
    lemma_sort_parts_chars(np);
    lemma_groups_flat(s);
    lemma_groups_chars(s);
    assert forall|k: int| 0 <= k < gs.len() implies group_ok(#[trigger] gs[k], h) by {
        lemma_group_first_nonempty(s, k);
    }
    assert(c == list_str(gs, h));
    assert(c.subrange(0, c.len() as int) =~= c);
    lemma_parse_list(gs, h, c, 0, false, seq![]);
    let ls = list_state(gs, h);
    assert(Seq::<Seq<char>>::empty() + ls.1 =~= ls.1);
    lemma_list_items(gs, h);
    lemma_joined_sort(np);
    lemma_joined_name_parts(rs);
}

/// Collapsing names and expanding the result gives the names back:
/// whatever [`crate::expand::expand_names`] returns on the string
/// [`collapse_names`] returns is `Ok`, with the same names.
pub proof fn lemma_collapse_expand(names: Names, r: Result<Names, NameError>)
    requires
        names.wf(),
        crate::expand::expand_spec(collapse_str(raws(names.0@)), r),
    ensures
        r matches Ok(n) && n.wf() && raws(n.0@).to_multiset() == raws(names.0@).to_multiset(),
{
    broadcast use vstd::seq_lib::group_to_multiset_ensures;
    let rs = raws(names.0@);
    let items = joined(sort_parts(name_parts(rs)));
    lemma_collapse_parse(names);
    crate::expand::lemma_first_invalid(items);
    assert forall|i: int| 0 <= i < items.len() implies exists|a: int| 0 <= a < rs.len() && rs[a] == #[trigger] items[i] by {
        assert(items.to_multiset().count(items[i]) > 0);
        assert(rs.contains(items[i]));
    }
    if crate::expand::first_invalid(items) >= 0 {
        let f = crate::expand::first_invalid(items);
        let a = choose|a: int| 0 <= a < rs.len() && rs[a] == items[f];
        assert(names.0@[a].wf());
    }
    assert(rs.no_duplicates()) by {
        assert forall|a: int, b: int| 0 <= a < rs.len() && 0 <= b < rs.len() && a != b implies rs[a] != rs[b] by {
            assert(names.0@[a].wf() && names.0@[b].wf());
            assert(names.0@[a].key_v() != names.0@[b].key_v());
        }
    }
    rs.lemma_multiset_has_no_duplicates();
    items.lemma_multiset_has_no_duplicates_conv();
    assert(upper_unique(items)) by {
        assert forall|i: int, j: int| 0 <= i < items.len() && 0 <= j < items.len() && i != j implies upper(
            #[trigger] items[i],
        ) != upper(#[trigger] items[j]) by {
            let a = choose|a: int| 0 <= a < rs.len() && rs[a] == items[i];
            let b = choose|b: int| 0 <= b < rs.len() && rs[b] == items[j];
            assert(names.0@[a].wf() && names.0@[b].wf());
            if a != b {
                assert(names.0@[a].key_v() != names.0@[b].key_v());
            }
        }
    }
    crate::family::lemma_dedup_unique(items);
}

} // verus!
