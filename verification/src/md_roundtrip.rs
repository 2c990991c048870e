//! Reading back written markdown: the sections that
//! [`crate::raw::from_markdown`] reads from the text that
//! [`crate::raw::to_markdown`] writes are the artifacts that were written.
use vstd::prelude::*;
use crate::name::{valid_name, Name};
use crate::raw::{
    attrs_end, artifact_md, artifacts_md, join_nl, markdown_of, md_lines, md_result, md_run, md_step,
    name_line, partof_md, section_text, split_nl, strip_cr, yaml_done_body, ArtifactRaw, MdSec,
    MdState, MdStopSpec,
};
use crate::text::{cleaned, is_ws, lemma_trim_end_len, trim_end, trim_end_len};

verus! {

// ------------------------------------------------------------------
// Strings

/// `s` holds a character that is not whitespace.
pub open spec fn has_nonws(s: Seq<char>) -> bool {
    exists|k: int| 0 <= k < s.len() && !is_ws(#[trigger] s[k])
}

/// Trimming the end of `x + y` leaves `x` alone when `y` holds something
/// that is not whitespace.
proof fn lemma_trim_concat(x: Seq<char>, y: Seq<char>)
    requires
        has_nonws(y),
    ensures
        trim_end(x + y) == x + trim_end(y),
        trim_end_len(x + y) == x.len() + trim_end_len(y),
    decreases y.len(),
{
    let k = choose|k: int| 0 <= k < y.len() && !is_ws(#[trigger] y[k]);
    assert((x + y).last() == y.last());
    if is_ws(y.last()) {
        assert(k < y.len() - 1);
        assert(y.drop_last()[k] == y[k]);
        lemma_trim_concat(x, y.drop_last());
        assert((x + y).drop_last() =~= x + y.drop_last());
        lemma_trim_end_len(y.drop_last());
        assert((x + y).take(trim_end_len(x + y) as int) =~= x + y.drop_last().take(trim_end_len(y.drop_last()) as int));
        assert(y.take(trim_end_len(y) as int) =~= y.drop_last().take(trim_end_len(y.drop_last()) as int));
    } else {
        assert((x + y).take((x + y).len() as int) =~= x + y);
        assert(y.take(y.len() as int) =~= y);
    }
}

/// Trimming removes whitespace added at the end.
proof fn lemma_trim_ws_suffix(x: Seq<char>, w: Seq<char>)
    requires
        forall|k: int| 0 <= k < w.len() ==> is_ws(#[trigger] w[k]),
    ensures
        trim_end(x + w) == trim_end(x),
    decreases w.len(),
{
    if w.len() == 0 {
        assert(x + w =~= x);
    } else {
        assert((x + w) =~= (x + w.drop_last()).push(w.last()));
        assert(is_ws(w[w.len() - 1]));
        crate::text::lemma_trim_end_push_ws(x + w.drop_last(), w.last());
        lemma_trim_ws_suffix(x, w.drop_last());
    }
}

/// A string that ends in something that is not whitespace is trimmed.
proof fn lemma_trim_nonws_last(x: Seq<char>)
    requires
        x.len() > 0,
        !is_ws(x.last()),
    ensures
        trim_end(x) == x,
{
    assert(x.take(x.len() as int) =~= x);
}

/// Trimmed text ends in something that is not whitespace.
proof fn lemma_trim_end_last(x: Seq<char>)
    requires
        has_nonws(x),
    ensures
        trim_end(x).len() > 0,
        !is_ws(trim_end(x).last()),
        has_nonws(trim_end(x)),
{
    lemma_trim_end_len(x);
    let k = choose|k: int| 0 <= k < x.len() && !is_ws(#[trigger] x[k]);
    assert(trim_end_len(x) > k);
    let t = trim_end(x);
    assert(t.last() == x[trim_end_len(x) - 1]);
    assert(!is_ws(t[t.len() - 1]));
}

// ------------------------------------------------------------------
// Lines

proof fn lemma_split_concat(x: Seq<char>, y: Seq<char>)
    ensures
        split_nl(x + y) == split_nl(x).drop_last() + seq![split_nl(x).last() + split_nl(y)[0]] + split_nl(
            y,
        ).drop_first(),
    decreases y.len(),
{
    crate::raw::lemma_split_nl_len(x);
    if y.len() == 0 {
        assert(x + y =~= x);
        assert(split_nl(y) =~= seq![seq![]]);
        assert(split_nl(x).last() + seq![] =~= split_nl(x).last());
        assert(split_nl(x).drop_last() + seq![split_nl(x).last()] =~= split_nl(x));
    } else {
        let y0 = y.drop_last();
        let c = y.last();
        lemma_split_concat(x, y0);
        crate::raw::lemma_split_nl_len(y0);
        assert((x + y).drop_last() =~= x + y0);
        assert((x + y).last() == c);
        let a = split_nl(x);
        let b0 = split_nl(y0);
        let r0 = split_nl(x + y0);
        if c == '\n' {
            assert(split_nl(y) == b0.push(seq![]));
            assert(split_nl(x + y) == r0.push(seq![]));
            assert(b0.push(seq![])[0] == b0[0]);
            assert(b0.push(seq![]).drop_first() =~= b0.drop_first().push(seq![]));
            assert(split_nl(x + y) =~= a.drop_last() + seq![a.last() + split_nl(y)[0]] + split_nl(y).drop_first());
        } else {
            assert(split_nl(y) == b0.update(b0.len() - 1, b0.last().push(c)));
            assert(split_nl(x + y) == r0.update(r0.len() - 1, r0.last().push(c)));
            if b0.len() == 1 {
                assert(split_nl(y)[0] == b0[0].push(c));
                assert(split_nl(y).drop_first() =~= seq![]);
                assert(b0.drop_first() =~= seq![]);
                assert(split_nl(x + y) =~= a.drop_last() + seq![a.last() + split_nl(y)[0]] + split_nl(y).drop_first());
            } else {
                assert(split_nl(y)[0] == b0[0]);
                assert(split_nl(y).drop_first() =~= b0.drop_first().update(b0.len() - 2, b0.last().push(c)));
                assert(split_nl(x + y) =~= a.drop_last() + seq![a.last() + split_nl(y)[0]] + split_nl(y).drop_first());
            }
        }
    }
}

/// A text that ends in a newline has an empty last line.
proof fn lemma_split_ends_nl(x: Seq<char>)
    requires
        x.len() > 0,
        x.last() == '\n',
    ensures
        split_nl(x).last() == Seq::<char>::empty(),
{
}

/// Text after a newline starts new lines.
proof fn lemma_split_after_nl(x: Seq<char>, y: Seq<char>)
    requires
        x.len() > 0,
        x.last() == '\n',
    ensures
        split_nl(x + y) == split_nl(x).drop_last() + split_nl(y),
{
    lemma_split_concat(x, y);
    lemma_split_ends_nl(x);
    crate::raw::lemma_split_nl_len(y);
    assert(Seq::<char>::empty() + split_nl(y)[0] =~= split_nl(y)[0]);
    assert(seq![split_nl(y)[0]] + split_nl(y).drop_first() =~= split_nl(y));
    assert(split_nl(x).drop_last() + seq![split_nl(y)[0]] + split_nl(y).drop_first() =~= split_nl(x).drop_last() + split_nl(y));
}

/// A line without a newline is one line.
proof fn lemma_split_line(l: Seq<char>)
    requires
        !l.contains('\n'),
    ensures
        split_nl(l) == seq![l],
    decreases l.len(),
{
    if l.len() > 0 {
        assert(!l.drop_last().contains('\n')) by {
            if l.drop_last().contains('\n') {
                let k = choose|k: int| 0 <= k < l.drop_last().len() && l.drop_last()[k] == '\n';
                assert(l[k] == '\n');
            }
        }
        lemma_split_line(l.drop_last());
        assert(l[l.len() - 1] != '\n');
        assert(l.drop_last().push(l.last()) =~= l);
    } else {
        assert(l =~= Seq::<char>::empty());
    }
}

/// Lines without newlines, joined and split again, are the lines.
proof fn lemma_split_join(ls: Seq<Seq<char>>)
    requires
        ls.len() >= 1,
        forall|i: int| 0 <= i < ls.len() ==> !(#[trigger] ls[i]).contains('\n'),
    ensures
        split_nl(join_nl(ls)) == ls,
    decreases ls.len(),
{
    if ls.len() == 1 {
        lemma_split_line(ls[0]);
        assert(ls =~= seq![ls[0]]);
    } else {
        let front = ls.drop_last();
        assert forall|i: int| 0 <= i < front.len() implies !(#[trigger] front[i]).contains('\n') by {
            assert(front[i] == ls[i]);
        }
        lemma_split_join(front);
        let x = join_nl(front) + seq!['\n'];
        assert(x.last() == '\n');
        assert(ls[ls.len() - 1] == ls.last());
        lemma_split_line(ls.last());
        assert(x =~= join_nl(front).push('\n'));
        assert(x.drop_last() =~= join_nl(front));
        assert(split_nl(x) == split_nl(join_nl(front)).push(seq![]));
        assert(split_nl(x).drop_last() =~= front);
        lemma_split_after_nl(x, ls.last());
        assert(join_nl(ls) =~= x + ls.last());
        assert(front + seq![ls.last()] =~= ls);
    }
}

/// The lines of a text hold no newline.
proof fn lemma_split_no_nl(x: Seq<char>)
    ensures
        forall|i: int| 0 <= i < split_nl(x).len() ==> !(#[trigger] split_nl(x)[i]).contains('\n'),
    decreases x.len(),
{
    if x.len() > 0 {
        lemma_split_no_nl(x.drop_last());
        crate::raw::lemma_split_nl_len(x.drop_last());
        let r = split_nl(x.drop_last());
        if x.last() != '\n' {
            let r2 = split_nl(x);
            assert forall|i: int| 0 <= i < r2.len() implies !(#[trigger] r2[i]).contains('\n') by {
                if i == r.len() - 1 {
                    if r2[i].contains('\n') {
                        let k = choose|k: int| 0 <= k < r2[i].len() && r2[i][k] == '\n';
                        if k < r.last().len() {
                            assert(r[i][k] == '\n');
                        }
                    }
                } else {
                    assert(r2[i] == r[i]);
                }
            }
        } else {
            let r2 = split_nl(x);
            assert forall|i: int| 0 <= i < r2.len() implies !(#[trigger] r2[i]).contains('\n') by {
                if i < r.len() {
                    assert(r2[i] == r[i]);
                }
            }
        }
    }
}

/// Splitting a text and joining the lines again gives the text.
proof fn lemma_join_split_nl(x: Seq<char>)
    ensures
        join_nl(split_nl(x)) == x,
    decreases x.len(),
{
    if x.len() > 0 {
        let x0 = x.drop_last();
        lemma_join_split_nl(x0);
        crate::raw::lemma_split_nl_len(x0);
        let r = split_nl(x0);
        if x.last() == '\n' {
            assert(split_nl(x) == r.push(seq![]));
            assert(r.push(seq![]).drop_last() =~= r);
            assert(x =~= x0 + seq!['\n'] + Seq::<char>::empty());
        } else {
            let r2 = split_nl(x);
            assert(r2 == r.update(r.len() - 1, r.last().push(x.last())));
            if r.len() == 1 {
                assert(x =~= r[0].push(x.last()));
            } else {
                assert(r2.drop_last() =~= r.drop_last());
                assert(r2.last() == r.last().push(x.last()));
                assert(join_nl(r) == join_nl(r.drop_last()) + seq!['\n'] + r.last());
                assert(x =~= x0.push(x.last()));
                assert(join_nl(r2) == join_nl(r2.drop_last()) + seq!['\n'] + r2.last());
                assert(x =~= join_nl(r.drop_last()) + seq!['\n'] + r.last().push(x.last()));
            }
        }
    } else {
        assert(split_nl(x) =~= seq![seq![]]);
    }
}

/// Joining two non-empty lists of lines: the first joined, a newline, the
/// second joined.
proof fn lemma_join_concat(a: Seq<Seq<char>>, b: Seq<Seq<char>>)
    requires
        a.len() >= 1,
        b.len() >= 1,
    ensures
        join_nl(a + b) == join_nl(a) + seq!['\n'] + join_nl(b),
    decreases b.len(),
{
    if b.len() == 1 {
        assert((a + b).drop_last() =~= a);
        assert((a + b).last() == b[0]);
    } else {
        lemma_join_concat(a, b.drop_last());
        assert((a + b).drop_last() =~= a + b.drop_last());
        assert((a + b).last() == b.last());
        assert(join_nl(a + b) =~= join_nl(a) + seq!['\n'] + join_nl(b));
    }
}

// ------------------------------------------------------------------
// What is written

/// The artifact has attributes to write.
pub open spec fn has_attrs(r: ArtifactRaw) -> bool {
    r.done is Some || r.partof is Some
}

/// The attributes of the artifact as written, before trimming.
pub open spec fn attr_content(r: ArtifactRaw) -> Seq<char> {
    let o1 = match r.done {
        Some(d) => yaml_done_body(d@) + seq!['\n', '\n'],
        None => seq![],
    };
    match r.partof {
        Some(p) => o1 + seq!['p', 'a', 'r', 't', 'o', 'f', ':'] + partof_md(p.inner.0@),
        None => o1,
    }
}

/// The text of the artifact, empty when it has none.
pub open spec fn text_of(r: ArtifactRaw) -> Seq<char> {
    match r.text {
        Some(t) => t.0@,
        None => seq![],
    }
}

/// The line that names an artifact.
pub open spec fn head_line(n: Name) -> Seq<char> {
    seq!['#', ' '] + n.raw_v()
}

/// The line that ends the attributes.
pub open spec fn end_line() -> Seq<char> {
    seq!['#', '#', '#']
}

/// The lines of the attributes as written.
pub open spec fn attr_lines(r: ArtifactRaw) -> Seq<Seq<char>> {
    split_nl(trim_end(attr_content(r)))
}

/// The name line, and the attribute lines and their end if there are
/// attributes.
pub open spec fn hdr_lines(n: Name, r: ArtifactRaw) -> Seq<Seq<char>> {
    seq![head_line(n)] + if has_attrs(r) {
        attr_lines(r) + seq![end_line()]
    } else {
        seq![]
    }
}

/// The lines of the text as written; none for a text that is only
/// whitespace.
pub open spec fn text_lines(r: ArtifactRaw) -> Seq<Seq<char>> {
    if has_nonws(text_of(r)) {
        split_nl(trim_end(text_of(r)))
    } else {
        seq![]
    }
}

/// The lines of an artifact as written, before the blank lines that end it.
pub open spec fn body_lines(n: Name, r: ArtifactRaw) -> Seq<Seq<char>> {
    hdr_lines(n, r) + text_lines(r)
}

/// What writing needs of an artifact to write it as its lines: a valid
/// name, and attributes with something besides whitespace.
pub open spec fn writable(n: Name, r: ArtifactRaw) -> bool {
    &&& valid_name(n.raw_v())
    &&& (has_attrs(r) ==> has_nonws(attr_content(r)))
}

proof fn lemma_valid_name_last(s: Seq<char>)
    requires
        valid_name(s),
    ensures
        s.len() > 0,
        !is_ws(s.last()),
        !s.contains('\n'),
{
    let e = s.skip(4);
    assert(s.last() == e.last());
    assert(crate::name::is_name_char(e.last()));
    if s.contains('\n') {
        let k = choose|k: int| 0 <= k < s.len() && s[k] == '\n';
        if k >= 4 {
            assert(e[k - 4] == s[k]);
        } else if k < 3 {
            assert(crate::name::ascii_upper(s[k]) == 'R' || crate::name::ascii_upper(s[k]) == 'E'
                || crate::name::ascii_upper(s[k]) == 'Q' || crate::name::ascii_upper(s[k]) == 'S'
                || crate::name::ascii_upper(s[k]) == 'P' || crate::name::ascii_upper(s[k]) == 'C'
                || crate::name::ascii_upper(s[k]) == 'T');
        }
    }
}

/// The header lines joined end in something that is not whitespace.
proof fn lemma_hdr_joined(n: Name, r: ArtifactRaw)
    requires
        writable(n, r),
    ensures
        hdr_lines(n, r).len() >= 1,
        join_nl(hdr_lines(n, r)).len() > 0,
        !is_ws(join_nl(hdr_lines(n, r)).last()),
        join_nl(hdr_lines(n, r)) + seq!['\n'] == if has_attrs(r) {
            head_line(n) + seq!['\n'] + trim_end(attr_content(r)) + seq!['\n', '#', '#', '#', '\n']
        } else {
            head_line(n) + seq!['\n']
        },
{
    lemma_valid_name_last(n.raw_v());
    let h = hdr_lines(n, r);
    if has_attrs(r) {
        let al = attr_lines(r);
        crate::raw::lemma_split_nl_len(trim_end(attr_content(r)));
        lemma_join_split_nl(trim_end(attr_content(r)));
        lemma_join_concat(seq![head_line(n)], al + seq![end_line()]);
        lemma_join_concat(al, seq![end_line()]);
        assert(join_nl(seq![head_line(n)]) == head_line(n));
        assert(join_nl(seq![end_line()]) == end_line());
        assert(join_nl(h).last() == '#');
        assert(join_nl(h) + seq!['\n'] =~= head_line(n) + seq!['\n'] + trim_end(attr_content(r)) + seq![
            '\n',
            '#',
            '#',
            '#',
            '\n',
        ]);
    } else {
        assert(h =~= seq![head_line(n)]);
        assert(join_nl(h) == head_line(n));
        assert(head_line(n).last() == n.raw_v().last());
    }
}

/// The name line and attributes as `artifact_md` writes them.
proof fn lemma_written_hdr(out: Seq<char>, n: Name, r: ArtifactRaw)
    requires
        writable(n, r),
    ensures
        (if has_attrs(r) {
            crate::raw::attrs_md(out + "# "@ + n.raw_v() + "\n"@, r)
        } else {
            out + "# "@ + n.raw_v() + "\n"@
        }) == out + (join_nl(hdr_lines(n, r)) + seq!['\n']),
{
    reveal_strlit("# ");
    reveal_strlit("\n");
    reveal_strlit("\n\n");
    reveal_strlit("\n###\n");
    reveal_strlit("partof:");
    lemma_hdr_joined(n, r);
    let o1 = out + "# "@ + n.raw_v() + "\n"@;
    assert(o1 =~= out + head_line(n) + seq!['\n']);
    if has_attrs(r) {
        let a = attr_content(r);
        let p1 = match r.done {
            Some(d) => o1 + yaml_done_body(d@) + "\n\n"@,
            None => o1,
        };
        let p2 = match r.partof {
            Some(p) => p1 + "partof:"@ + partof_md(p.inner.0@),
            None => p1,
        };
        assert(p2 =~= o1 + a);
        lemma_trim_concat(o1, a);
        assert(crate::raw::attrs_md(o1, r) =~= out + (join_nl(hdr_lines(n, r)) + seq!['\n']));
    }
}

/// The lines and the text as written, trimmed, are the body lines joined.
proof fn lemma_written_body(n: Name, r: ArtifactRaw)
    requires
        writable(n, r),
    ensures
        trim_end(join_nl(hdr_lines(n, r)) + seq!['\n'] + text_of(r)) == join_nl(body_lines(n, r)),
        body_lines(n, r).len() >= 1,
        join_nl(body_lines(n, r)).len() > 0,
        !is_ws(join_nl(body_lines(n, r)).last()),
{
    lemma_hdr_joined(n, r);
    let h = hdr_lines(n, r);
    let j = join_nl(h);
    let t = text_of(r);
    let rest = j + seq!['\n'] + t;
    if has_nonws(t) {
        lemma_trim_concat(j + seq!['\n'], t);
        let tl = split_nl(trim_end(t));
        crate::raw::lemma_split_nl_len(trim_end(t));
        lemma_join_split_nl(trim_end(t));
        lemma_join_concat(h, tl);
        lemma_trim_end_last(t);
        assert(join_nl(body_lines(n, r)).last() == trim_end(t).last());
    } else {
        let w = seq!['\n'] + t;
        assert forall|k: int| 0 <= k < w.len() implies is_ws(#[trigger] w[k]) by {
            if k > 0 {
                assert(w[k] == t[k - 1]);
                if !is_ws(t[k - 1]) {
                    assert(has_nonws(t));
                }
            }
        }
        assert(rest =~= j + w);
        lemma_trim_ws_suffix(j, w);
        lemma_trim_nonws_last(j);
        assert(body_lines(n, r) =~= h);
    }
}

/// Writing one artifact appends its lines and two blank lines.
proof fn lemma_artifact_md(out: Seq<char>, n: Name, r: ArtifactRaw)
    requires
        writable(n, r),
    ensures
        artifact_md(out, n, r) == out + join_nl(body_lines(n, r)) + seq!['\n', '\n', '\n'],
        body_lines(n, r).len() >= 1,
        join_nl(body_lines(n, r)).len() > 0,
        !is_ws(join_nl(body_lines(n, r)).last()),
{
    reveal_strlit("\n\n\n");
    lemma_written_hdr(out, n, r);
    lemma_written_body(n, r);
    lemma_hdr_joined(n, r);
    let j = join_nl(hdr_lines(n, r));
    let t = text_of(r);
    let rest = j + seq!['\n'] + t;
    assert(!is_ws(rest[j.len() - 1]));
    lemma_trim_concat(out, rest);
    assert((out + (j + seq!['\n'])) + t =~= out + rest);
}

/// The lines of the artifacts as written, each followed by two blank
/// lines.
pub open spec fn all_lines(arts: Seq<(Name, ArtifactRaw)>) -> Seq<Seq<char>>
    decreases arts.len(),
{
    if arts.len() == 0 {
        seq![]
    } else {
        all_lines(arts.drop_last()) + body_lines(arts.last().0, arts.last().1) + seq![seq![], seq![]]
    }
}

/// A line that reading takes for text: not a name line, not the end of
/// the attributes, and not ended by a carriage return.
pub open spec fn text_line(l: Seq<char>) -> bool {
    &&& name_line(l) is None
    &&& !attrs_end(l)
    &&& !(l.len() > 0 && l.last() == '\r')
}

/// What reading back needs of an artifact: it can be written as its
/// lines, and its attribute and text lines read as such.
pub open spec fn rereadable(n: Name, r: ArtifactRaw) -> bool {
    &&& writable(n, r)
    &&& forall|i: int| 0 <= i < attr_lines(r).len() ==> text_line(#[trigger] attr_lines(r)[i])
    &&& forall|i: int| 0 <= i < text_lines(r).len() ==> text_line(#[trigger] text_lines(r)[i])
}

/// Every artifact can be read back.
pub open spec fn all_rereadable(arts: Seq<(Name, ArtifactRaw)>) -> bool {
    forall|i: int| 0 <= i < arts.len() ==> rereadable((#[trigger] arts[i]).0, arts[i].1)
}

/// The body lines hold no newline.
proof fn lemma_body_no_nl(n: Name, r: ArtifactRaw)
    requires
        writable(n, r),
    ensures
        forall|i: int| 0 <= i < body_lines(n, r).len() ==> !(#[trigger] body_lines(n, r)[i]).contains('\n'),
{
    lemma_valid_name_last(n.raw_v());
    lemma_split_no_nl(trim_end(attr_content(r)));
    lemma_split_no_nl(trim_end(text_of(r)));
    let b = body_lines(n, r);
    let h = hdr_lines(n, r);
    assert forall|i: int| 0 <= i < b.len() implies !(#[trigger] b[i]).contains('\n') by {
        if i == 0 {
            assert(b[0] == head_line(n));
            if head_line(n).contains('\n') {
                let k = choose|k: int| 0 <= k < head_line(n).len() && head_line(n)[k] == '\n';
                assert(k >= 2);
                assert(n.raw_v()[k - 2] == '\n');
            }
        } else if i < h.len() {
            if i - 1 < attr_lines(r).len() {
                assert(b[i] == attr_lines(r)[i - 1]);
            } else {
                assert(b[i] == end_line());
            }
        } else {
            assert(b[i] == text_lines(r)[i - h.len()]);
        }
    }
}

/// A newline at the end adds an empty line.
proof fn lemma_split_push_nl(x: Seq<char>)
    ensures
        split_nl(x.push('\n')) == split_nl(x).push(seq![]),
{
    assert(x.push('\n').drop_last() =~= x);
}

/// An artifact written with its blank lines is its lines, two blank lines
/// and an empty last line.
proof fn lemma_split_chunk(n: Name, r: ArtifactRaw)
    requires
        writable(n, r),
    ensures
        split_nl(join_nl(body_lines(n, r)) + seq!['\n', '\n', '\n']) == body_lines(n, r).push(seq![]).push(
            seq![],
        ).push(seq![]),
{
    let b = body_lines(n, r);
    lemma_written_body(n, r);
    lemma_body_no_nl(n, r);
    lemma_split_join(b);
    let j = join_nl(b);
    lemma_split_push_nl(j);
    lemma_split_push_nl(j.push('\n'));
    lemma_split_push_nl(j.push('\n').push('\n'));
    assert(j + seq!['\n', '\n', '\n'] =~= j.push('\n').push('\n').push('\n'));
}

/// Written artifacts are their lines, and an empty last line.
proof fn lemma_artifacts_lines(arts: Seq<(Name, ArtifactRaw)>)
    requires
        forall|i: int| 0 <= i < arts.len() ==> writable((#[trigger] arts[i]).0, arts[i].1),
    ensures
        split_nl(artifacts_md(arts)) == all_lines(arts).push(seq![]),
    decreases arts.len(),
{
    if arts.len() == 0 {
        assert(split_nl(Seq::<char>::empty()) =~= seq![seq![]]);
        assert(all_lines(arts).push(seq![]) =~= seq![seq![]]);
    } else {
        let front = arts.drop_last();
        assert forall|i: int| 0 <= i < front.len() implies writable((#[trigger] front[i]).0, front[i].1) by {
            assert(front[i] == arts[i]);
        }
        lemma_artifacts_lines(front);
        let (n, r) = arts.last();
        assert(arts[arts.len() - 1] == arts.last());
        let prev = artifacts_md(front);
        lemma_artifact_md(prev, n, r);
        let b = body_lines(n, r);
        let j = join_nl(b);
        let y = j + seq!['\n', '\n', '\n'];
        lemma_split_chunk(n, r);
        lemma_split_concat(prev, y);
        crate::raw::lemma_split_nl_len(y);
        assert(split_nl(prev).last() == Seq::<char>::empty());
        assert(Seq::<char>::empty() + split_nl(y)[0] =~= split_nl(y)[0]);
        assert(prev + j + seq!['\n', '\n', '\n'] =~= prev + y);
        assert(split_nl(prev + y) =~= all_lines(front) + split_nl(y));
        assert(all_lines(arts).push(seq![]) =~= all_lines(front) + b.push(seq![]).push(seq![]).push(seq![]));
    }
}

/// The written markdown is the lines of every artifact but the last,
/// each with its blank lines, and then the lines of the last.
proof fn lemma_markdown_lines(arts: Seq<(Name, ArtifactRaw)>)
    requires
        arts.len() > 0,
        forall|i: int| 0 <= i < arts.len() ==> writable((#[trigger] arts[i]).0, arts[i].1),
    ensures
        split_nl(markdown_of(arts)) == all_lines(arts.drop_last()) + body_lines(arts.last().0, arts.last().1),
{
    let front = arts.drop_last();
    assert forall|i: int| 0 <= i < front.len() implies writable((#[trigger] front[i]).0, front[i].1) by {
        assert(front[i] == arts[i]);
    }
    lemma_artifacts_lines(front);
    let (n, r) = arts.last();
    assert(arts[arts.len() - 1] == arts.last());
    let prev = artifacts_md(front);
    lemma_artifact_md(prev, n, r);
    let b = body_lines(n, r);
    let j = join_nl(b);
    let w = seq!['\n', '\n', '\n'];
    assert forall|k: int| 0 <= k < w.len() implies is_ws(#[trigger] w[k]) by {}
    assert(artifacts_md(arts) =~= (prev + j) + w);
    lemma_trim_ws_suffix(prev + j, w);
    assert(!is_ws((prev + j).last()));
    lemma_trim_nonws_last(prev + j);
    lemma_body_no_nl(n, r);
    lemma_split_join(b);
    lemma_split_concat(prev, j);
    crate::raw::lemma_split_nl_len(j);
    assert(split_nl(prev).last() == Seq::<char>::empty());
    assert(Seq::<char>::empty() + split_nl(j)[0] =~= split_nl(j)[0]);
    assert(split_nl(prev + j) =~= all_lines(front) + b);
}

// ------------------------------------------------------------------
// What is read

/// The name line of a valid name reads as that name, which has a type.
proof fn lemma_name_line_head(n: Name)
    requires
        valid_name(n.raw_v()),
    ensures
        name_line(head_line(n)) == Some(n.raw_v()),
        crate::name::type_of(n.raw_v()) is Some,
{
    let raw = n.raw_v();
    let l = head_line(n);
    lemma_valid_name_last(raw);
    assert(l.skip(1) =~= seq![' '] + raw);
    let x = l.skip(1);
    assert(is_ws(x[0]));
    assert(x.drop_first() =~= raw);
    assert(!is_ws(raw[0])) by {
        assert(crate::name::ascii_upper(raw[0]) == 'R' || crate::name::ascii_upper(raw[0]) == 'S'
            || crate::name::ascii_upper(raw[0]) == 'T');
    }
    assert(crate::raw::lead_ws(raw) == 0);
    assert(crate::raw::lead_ws(x) == 1);
    assert(x.skip(1) =~= raw);
    lemma_trim_nonws_last(raw);
    assert(crate::raw::ws_trim(x) == raw);
    assert(crate::implemented::fold_type_at(raw, 0));
}

/// The end line reads as the end of the attributes.
proof fn lemma_end_line()
    ensures
        name_line(end_line()) is None,
        attrs_end(end_line()),
{
    let l = end_line();
    let x = l.skip(1);
    assert(x =~= seq!['#', '#']);
    assert(crate::raw::ws_trim(x).len() <= 2) by {
        lemma_trim_end_len(x.skip(crate::raw::lead_ws(x) as int));
    }
    assert(l.drop_first() =~= seq!['#', '#']);
    assert(l.drop_first().drop_first() =~= seq!['#']);
    assert(l.drop_first().drop_first().drop_first() =~= Seq::<char>::empty());
    assert(crate::raw::lead_count(Seq::<char>::empty(), '#') == 0);
    assert(crate::raw::lead_count(l.drop_first().drop_first(), '#') == 1);
    assert(crate::raw::lead_count(l.drop_first(), '#') == 2);
    assert(crate::raw::lead_count(l, '#') == 3);
}

/// An empty line is text.
proof fn lemma_blank_line()
    ensures
        text_line(Seq::<char>::empty()),
{
    assert(crate::raw::lead_count(Seq::<char>::empty(), '#') == 0);
}

/// Reading more lines after the state `r`.
pub open spec fn md_cont(
    r: (Seq<MdSec>, Option<MdStopSpec>, MdState),
    lines: Seq<Seq<char>>,
) -> (Seq<MdSec>, Option<MdStopSpec>, MdState)
    decreases lines.len(),
{
    if lines.len() == 0 {
        r
    } else {
        let p = md_cont(r, lines.drop_last());
        if p.1 is Some {
            p
        } else {
            md_step(p.0, p.2, lines.last())
        }
    }
}

proof fn lemma_md_run_cont(x: Seq<Seq<char>>, y: Seq<Seq<char>>)
    ensures
        md_run(x + y) == md_cont(md_run(x), y),
    decreases y.len(),
{
    if y.len() == 0 {
        assert(x + y =~= x);
    } else {
        lemma_md_run_cont(x, y.drop_last());
        assert((x + y).drop_last() =~= x + y.drop_last());
        assert((x + y).last() == y.last());
    }
}

proof fn lemma_md_cont_concat(
    r: (Seq<MdSec>, Option<MdStopSpec>, MdState),
    x: Seq<Seq<char>>,
    y: Seq<Seq<char>>,
)
    ensures
        md_cont(r, x + y) == md_cont(md_cont(r, x), y),
    decreases y.len(),
{
    if y.len() == 0 {
        assert(x + y =~= x);
    } else {
        lemma_md_cont_concat(r, x, y.drop_last());
        assert((x + y).drop_last() =~= x + y.drop_last());
        assert((x + y).last() == y.last());
    }
}

/// Text lines are gathered into the current section.
proof fn lemma_cont_text(secs: Seq<MdSec>, st: MdState, x: Seq<Seq<char>>)
    requires
        forall|i: int| 0 <= i < x.len() ==> text_line(#[trigger] x[i]),
    ensures
        md_cont((secs, None, st), x) == (secs, None::<MdStopSpec>, (st.0, st.1, st.2 + x)),
    decreases x.len(),
{
    if x.len() == 0 {
        assert(st.2 + x =~= st.2);
    } else {
        let front = x.drop_last();
        assert forall|i: int| 0 <= i < front.len() implies text_line(#[trigger] front[i]) by {
            assert(front[i] == x[i]);
        }
        lemma_cont_text(secs, st, front);
        assert(x[x.len() - 1] == x.last());
        assert(text_line(x.last()));
        assert(st.2 + front.push(x.last()) =~= (st.2 + front).push(x.last()));
        assert(front.push(x.last()) =~= x);
    }
}

/// The attributes read back: the attribute text as written, trimmed.
pub open spec fn attr_value(r: ArtifactRaw) -> Option<Seq<char>> {
    if has_attrs(r) {
        Some(trim_end(attr_content(r)))
    } else {
        None
    }
}

/// The sections before the state `st`, with the section `st` holds when
/// it has a name.
pub open spec fn prev_secs(secs: Seq<MdSec>, st: MdState) -> Seq<MdSec> {
    match st.0 {
        Some(m) => secs.push((m, st.1, st.2)),
        None => secs,
    }
}

/// Reading the lines of an artifact finishes the section before it and
/// starts its own, with its attributes and its text lines.
proof fn lemma_cont_body(secs: Seq<MdSec>, st: MdState, n: Name, r: ArtifactRaw)
    requires
        rereadable(n, r),
    ensures
        md_cont((secs, None, st), body_lines(n, r)) == (
            prev_secs(secs, st),
            None::<MdStopSpec>,
            (Some(n.raw_v()), attr_value(r), text_lines(r)),
        ),
{
    lemma_name_line_head(n);
    let raw = n.raw_v();
    let head = seq![head_line(n)];
    let r0 = (secs, None::<MdStopSpec>, st);
    assert(head.drop_last() =~= Seq::<Seq<char>>::empty());
    assert(md_cont(r0, Seq::<Seq<char>>::empty()) == r0);
    assert(head.last() == head_line(n));
    assert(md_cont(r0, head) == md_step(secs, st, head_line(n)));
    let s1 = (prev_secs(secs, st), None::<MdStopSpec>, (Some(raw), None::<Seq<char>>, Seq::<Seq<char>>::empty()));
    assert(md_cont(r0, head) == s1);
    let tl = text_lines(r);
    if has_attrs(r) {
        let al = attr_lines(r);
        let rest = al + seq![end_line()];
        assert(body_lines(n, r) =~= head + rest + tl);
        lemma_md_cont_concat(r0, head, rest + tl);
        assert(head + (rest + tl) =~= head + rest + tl);
        lemma_md_cont_concat(s1, rest, tl);
        lemma_md_cont_concat(s1, al, seq![end_line()]);
        lemma_cont_text(prev_secs(secs, st), (Some(raw), None, seq![]), al);
        assert(Seq::<Seq<char>>::empty() + al =~= al);
        let s2 = (prev_secs(secs, st), None::<MdStopSpec>, (Some(raw), None::<Seq<char>>, al));
        lemma_end_line();
        assert(seq![end_line()].drop_last() =~= Seq::<Seq<char>>::empty());
        assert(md_cont(s2, Seq::<Seq<char>>::empty()) == s2);
        assert(seq![end_line()].last() == end_line());
        assert(md_cont(s2, seq![end_line()]) == md_step(prev_secs(secs, st), (Some(raw), None, al), end_line()));
        lemma_join_split_nl(trim_end(attr_content(r)));
        let s3 = (prev_secs(secs, st), None::<MdStopSpec>, (Some(raw), Some(trim_end(attr_content(r))), Seq::<Seq<char>>::empty()));
        assert(md_cont(s2, seq![end_line()]) == s3);
        lemma_cont_text(prev_secs(secs, st), (Some(raw), Some(trim_end(attr_content(r))), seq![]), tl);
        assert(Seq::<Seq<char>>::empty() + tl =~= tl);
    } else {
        assert(body_lines(n, r) =~= head + tl);
        lemma_md_cont_concat(r0, head, tl);
        lemma_cont_text(prev_secs(secs, st), (Some(raw), None, seq![]), tl);
        assert(Seq::<Seq<char>>::empty() + tl =~= tl);
    }
}

/// The sections of all artifacts but the last, each with its blank lines.
pub open spec fn secs_of(arts: Seq<(Name, ArtifactRaw)>) -> Seq<MdSec> {
    arts.map_values(
        |a: (Name, ArtifactRaw)| (a.0.raw_v(), attr_value(a.1), text_lines(a.1) + seq![seq![], seq![]]),
    )
}

/// Reading the lines of written artifacts gives the sections of all but
/// the last and leaves the last one open.
proof fn lemma_run_all(arts: Seq<(Name, ArtifactRaw)>)
    requires
        arts.len() > 0,
        all_rereadable(arts),
    ensures
        md_run(all_lines(arts)) == (
            secs_of(arts.drop_last()),
            None::<MdStopSpec>,
            (Some(arts.last().0.raw_v()), attr_value(arts.last().1), text_lines(arts.last().1) + seq![seq![], seq![]]),
        ),
    decreases arts.len(),
{
    let front = arts.drop_last();
    let (n, r) = arts.last();
    assert(arts[arts.len() - 1] == arts.last());
    assert(rereadable(n, r));
    let blanks = seq![Seq::<char>::empty(), Seq::<char>::empty()];
    lemma_md_run_cont(all_lines(front), body_lines(n, r) + blanks);
    assert(all_lines(arts) =~= all_lines(front) + (body_lines(n, r) + blanks));
    let m0 = md_run(all_lines(front));
    if front.len() == 0 {
        assert(all_lines(front) =~= Seq::<Seq<char>>::empty());
        assert(m0 == (Seq::<MdSec>::empty(), None::<MdStopSpec>, (None::<Seq<char>>, None::<Seq<char>>, Seq::<Seq<char>>::empty())));
        assert(secs_of(front) =~= Seq::<MdSec>::empty());
    } else {
        assert forall|i: int| 0 <= i < front.len() implies rereadable((#[trigger] front[i]).0, front[i].1) by {
            assert(front[i] == arts[i]);
        }
        lemma_run_all(front);
        assert(front[front.len() - 1] == front.last());
        assert(secs_of(front) =~= secs_of(front.drop_last()).push(
            (front.last().0.raw_v(), attr_value(front.last().1), text_lines(front.last().1) + blanks),
        ));
    }
    assert(prev_secs(m0.0, m0.2) == secs_of(front));
    lemma_md_cont_concat(m0, body_lines(n, r), blanks);
    lemma_cont_body(m0.0, m0.2, n, r);
    lemma_blank_line();
    lemma_cont_text(secs_of(front), (Some(n.raw_v()), attr_value(r), text_lines(r)), blanks);
}

/// The text read back, with or without the blank lines after it, is the
/// text written, cleaned.
proof fn lemma_section_text(r: ArtifactRaw)
    ensures
        section_text(text_lines(r)) == section_text(seq![text_of(r)]),
        section_text(text_lines(r) + seq![seq![], seq![]]) == section_text(seq![text_of(r)]),
{
    let t = text_of(r);
    let tl = text_lines(r);
    let blanks = seq![Seq::<char>::empty(), Seq::<char>::empty()];
    assert(join_nl(seq![t]) == t);
    assert(blanks.drop_last() =~= seq![Seq::<char>::empty()]);
    assert(join_nl(seq![Seq::<char>::empty()]) == Seq::<char>::empty());
    assert(blanks.last() == Seq::<char>::empty());
    assert(join_nl(blanks) == join_nl(blanks.drop_last()) + seq!['\n'] + blanks.last());
    assert(join_nl(blanks) =~= seq!['\n']);
    let nl = seq!['\n', '\n'];
    assert forall|k: int| 0 <= k < nl.len() implies is_ws(#[trigger] nl[k]) by {}
    crate::text::lemma_trim_end_idempotent(t);
    if has_nonws(t) {
        crate::raw::lemma_split_nl_len(trim_end(t));
        lemma_join_split_nl(trim_end(t));
        lemma_join_concat(tl, blanks);
        assert(join_nl(tl + blanks) =~= trim_end(t) + nl);
        lemma_trim_ws_suffix(trim_end(t), nl);
    } else {
        assert(tl =~= Seq::<Seq<char>>::empty());
        assert(join_nl(tl) =~= Seq::<char>::empty());
        assert(tl + blanks =~= blanks);
        assert forall|k: int| 0 <= k < t.len() implies is_ws(#[trigger] t[k]) by {
            if !is_ws(t[k]) {
                assert(has_nonws(t));
            }
        }
        lemma_trim_ws_suffix(Seq::<char>::empty(), t);
        assert(Seq::<char>::empty() + t =~= t);
        let one = seq!['\n'];
        assert forall|k: int| 0 <= k < one.len() implies is_ws(#[trigger] one[k]) by {}
        lemma_trim_ws_suffix(Seq::<char>::empty(), one);
        assert(Seq::<char>::empty() + one =~= one);
        assert(trim_end(Seq::<char>::empty()) =~= Seq::<char>::empty());
    }
}

/// A line not ended by a carriage return.
pub open spec fn no_cr(l: Seq<char>) -> bool {
    !(l.len() > 0 && l.last() == '\r')
}

proof fn lemma_body_no_cr(n: Name, r: ArtifactRaw)
    requires
        rereadable(n, r),
    ensures
        forall|i: int| 0 <= i < body_lines(n, r).len() ==> no_cr(#[trigger] body_lines(n, r)[i]),
        body_lines(n, r).last().len() > 0,
{
    lemma_valid_name_last(n.raw_v());
    let b = body_lines(n, r);
    let h = hdr_lines(n, r);
    assert forall|i: int| 0 <= i < b.len() implies no_cr(#[trigger] b[i]) by {
        if i == 0 {
            assert(b[0] == head_line(n));
            assert(head_line(n).last() == n.raw_v().last());
        } else if i < h.len() {
            if i - 1 < attr_lines(r).len() {
                assert(b[i] == attr_lines(r)[i - 1]);
                assert(text_line(attr_lines(r)[i - 1]));
            } else {
                assert(b[i] == end_line());
            }
        } else {
            assert(b[i] == text_lines(r)[i - h.len()]);
            assert(text_line(text_lines(r)[i - h.len()]));
        }
    }
    lemma_written_body(n, r);
    if b.len() >= 2 {
        assert(join_nl(b) == join_nl(b.drop_last()) + seq!['\n'] + b.last());
        if b.last().len() == 0 {
            assert(join_nl(b).last() == '\n');
        }
    } else {
        assert(join_nl(b) == b[0]);
        assert(b.last() == b[0]);
    }
}

proof fn lemma_all_lines_no_cr(arts: Seq<(Name, ArtifactRaw)>)
    requires
        all_rereadable(arts),
    ensures
        forall|i: int| 0 <= i < all_lines(arts).len() ==> no_cr(#[trigger] all_lines(arts)[i]),
    decreases arts.len(),
{
    if arts.len() > 0 {
        let front = arts.drop_last();
        assert forall|i: int| 0 <= i < front.len() implies rereadable((#[trigger] front[i]).0, front[i].1) by {
            assert(front[i] == arts[i]);
        }
        lemma_all_lines_no_cr(front);
        let (n, r) = arts.last();
        assert(arts[arts.len() - 1] == arts.last());
        lemma_body_no_cr(n, r);
        let x = all_lines(front);
        let b = body_lines(n, r);
        let y = all_lines(arts);
        assert forall|i: int| 0 <= i < y.len() implies no_cr(#[trigger] y[i]) by {
            if i < x.len() {
                assert(y[i] == x[i]);
            } else if i < x.len() + b.len() {
                assert(y[i] == b[i - x.len()]);
            } else {
                assert(y[i] == Seq::<char>::empty());
            }
        }
    }
}

/// Reading written markdown gives the written artifacts back: one section
/// per artifact, in order, with its raw name, its attribute text as
/// written (trimmed), and its text cleaned, as long as each artifact can
/// be read back (see [`rereadable`]: a valid name, attributes with more
/// than whitespace, and no attribute or text line that reading would take
/// for a name line, the end of the attributes, or a line ended by a
/// carriage return).
pub proof fn lemma_markdown_reread(arts: Seq<(Name, ArtifactRaw)>)
    requires
        all_rereadable(arts),
    ensures
        md_result(markdown_of(arts)).1 is None,
        md_result(markdown_of(arts)).0.len() == arts.len(),
        forall|i: int|
            0 <= i < arts.len() ==> {
                &&& (#[trigger] md_result(markdown_of(arts)).0[i]).0 == arts[i].0.raw_v()
                &&& md_result(markdown_of(arts)).0[i].1 == attr_value(arts[i].1)
                &&& section_text(md_result(markdown_of(arts)).0[i].2) == section_text(
                    seq![text_of(arts[i].1)],
                )
            },
{
    if arts.len() == 0 {
        assert(artifacts_md(arts) =~= Seq::<char>::empty());
        assert(trim_end(Seq::<char>::empty()) =~= Seq::<char>::empty());
        assert(split_nl(Seq::<char>::empty()) =~= seq![Seq::<char>::empty()]);
        assert(md_lines(markdown_of(arts)) =~= Seq::<Seq<char>>::empty());
    } else {
        let front = arts.drop_last();
        let (n, r) = arts.last();
        assert(arts[arts.len() - 1] == arts.last());
        assert(rereadable(n, r));
        assert forall|i: int| 0 <= i < arts.len() implies writable((#[trigger] arts[i]).0, arts[i].1) by {
            assert(rereadable(arts[i].0, arts[i].1));
        }
        assert forall|i: int| 0 <= i < front.len() implies rereadable((#[trigger] front[i]).0, front[i].1) by {
            assert(front[i] == arts[i]);
        }
        lemma_markdown_lines(arts);
        let doc = markdown_of(arts);
        let x = all_lines(front);
        let b = body_lines(n, r);
        let l = x + b;
        lemma_all_lines_no_cr(front);
        lemma_body_no_cr(n, r);
        assert(split_nl(doc) == l);
        assert(l.last() == b.last());
        assert(l.drop_last().map_values(|q: Seq<char>| strip_cr(q)) =~= l.drop_last()) by {
            assert forall|i: int| 0 <= i < l.drop_last().len() implies strip_cr(#[trigger] l.drop_last()[i]) == l.drop_last()[i] by {
                if i < x.len() {
                    assert(l[i] == x[i]);
                    assert(no_cr(x[i]));
                } else {
                    assert(l[i] == b[i - x.len()]);
                    assert(no_cr(b[i - x.len()]));
                }
            }
        }
        assert(md_lines(doc) =~= l);
        lemma_md_run_cont(x, b);
        let m0 = md_run(x);
        let blanks = seq![Seq::<char>::empty(), Seq::<char>::empty()];
        if front.len() == 0 {
            assert(x =~= Seq::<Seq<char>>::empty());
            assert(m0 == (Seq::<MdSec>::empty(), None::<MdStopSpec>, (None::<Seq<char>>, None::<Seq<char>>, Seq::<Seq<char>>::empty())));
            assert(secs_of(front) =~= Seq::<MdSec>::empty());
        } else {
            lemma_run_all(front);
            assert(front[front.len() - 1] == front.last());
            assert(secs_of(front) =~= secs_of(front.drop_last()).push(
                (front.last().0.raw_v(), attr_value(front.last().1), text_lines(front.last().1) + blanks),
            ));
        }
        assert(prev_secs(m0.0, m0.2) == secs_of(front));
        lemma_cont_body(m0.0, m0.2, n, r);
        let secs = md_result(doc).0;
        assert(secs == secs_of(front).push((n.raw_v(), attr_value(r), text_lines(r))));
        assert forall|i: int| 0 <= i < arts.len() implies {
            &&& (#[trigger] md_result(markdown_of(arts)).0[i]).0 == arts[i].0.raw_v()
            &&& md_result(markdown_of(arts)).0[i].1 == attr_value(arts[i].1)
            &&& section_text(md_result(markdown_of(arts)).0[i].2) == section_text(seq![text_of(arts[i].1)])
        } by {
            lemma_section_text(arts[i].1);
            if i < front.len() {
                assert(secs[i] == secs_of(front)[i]);
                assert(front[i] == arts[i]);
            } else {
                assert(secs[i] == (n.raw_v(), attr_value(r), text_lines(r)));
            }
        }
    }
}

} // verus!
