//! Paths as strings, compared component by component as `Path` does on
//! Unix.
use vstd::prelude::*;
use crate::text::str_chars;
use crate::expand::vv;

verus! {

/// A component of a path.
pub enum Component {
    /// The leading `/`.
    RootDir,
    /// A leading `.`.
    CurDir,
    /// `..`.
    ParentDir,
    /// Any other name.
    Normal(Seq<char>),
}

/// The pieces of `s` between `/`, in order (`split('/')`).
pub open spec fn split_slash(s: Seq<char>) -> Seq<Seq<char>>
    decreases s.len(),
{
    if s.len() == 0 {
        seq![seq![]]
    } else {
        let r = split_slash(s.drop_last());
        if s.last() == '/' {
            r.push(seq![])
        } else {
            r.update(r.len() - 1, r.last().push(s.last()))
        }
    }
}

/// The component of the piece `seg` (not the first piece): empty pieces
/// and `.` are no components.
pub open spec fn seg_component(seg: Seq<char>) -> Option<Component> {
    if seg.len() == 0 || seg =~= seq!['.'] {
        None
    } else if seg =~= seq!['.', '.'] {
        Some(Component::ParentDir)
    } else {
        Some(Component::Normal(seg))
    }
}

/// The components of the pieces `segs`.
pub open spec fn seg_components(segs: Seq<Seq<char>>) -> Seq<Component>
    decreases segs.len(),
{
    if segs.len() == 0 {
        seq![]
    } else {
        let r = seg_components(segs.drop_last());
        match seg_component(segs.last()) {
            Some(c) => r.push(c),
            None => r,
        }
    }
}

/// The components of a path (`Path::components` on Unix): a leading `/`
/// is the root, a leading `.` is kept, and otherwise empty pieces and `.`
/// are dropped.
pub open spec fn components(p: Seq<char>) -> Seq<Component> {
    let segs = split_slash(p);
    let first = segs[0];
    let head = if p.len() > 0 && p[0] == '/' {
        seq![Component::RootDir]
    } else if first =~= seq!['.'] {
        seq![Component::CurDir]
    } else {
        match seg_component(first) {
            Some(c) => seq![c],
            None => seq![],
        }
    };
    head + seg_components(segs.skip(1))
}

/// `Path::starts_with`: the components of `base` begin those of `p`.
pub open spec fn path_starts_with(p: Seq<char>, base: Seq<char>) -> bool {
    components(base).is_prefix_of(components(p))
}

/// A component of a path, as a value.
#[derive(Debug)]
pub enum PathComp {
    RootDir,
    CurDir,
    ParentDir,
    Normal(Vec<char>),
}

impl PathComp {
    /// The component this stands for.
    pub open spec fn comp(&self) -> Component {
        match self {
            PathComp::RootDir => Component::RootDir,
            PathComp::CurDir => Component::CurDir,
            PathComp::ParentDir => Component::ParentDir,
            PathComp::Normal(v) => Component::Normal(v@),
        }
    }
}

/// The components that a sequence of values stands for.
pub open spec fn comps(s: Seq<PathComp>) -> Seq<Component> {
    s.map_values(|c: PathComp| c.comp())
}

proof fn lemma_split_slash_len(s: Seq<char>)
    ensures
        split_slash(s).len() >= 1,
    decreases s.len(),
{
    if s.len() > 0 {
        lemma_split_slash_len(s.drop_last());
    }
}

/// The pieces of `v` between `/`.
fn split_at_slash(v: &[char]) -> (r: Vec<Vec<char>>)
    ensures
        vv(r@) == split_slash(v@),
{
    let mut out: Vec<Vec<char>> = Vec::new();
    let mut cur: Vec<char> = Vec::new();
    let mut k: usize = 0;
    assert(v@.take(0) =~= seq![]);
    assert(vv(out@) =~= split_slash(v@.take(0)).drop_last());
    while k < v.len()
        invariant
            k <= v@.len(),
            split_slash(v@.take(k as int)).len() >= 1,
            vv(out@) == split_slash(v@.take(k as int)).drop_last(),
            cur@ == split_slash(v@.take(k as int)).last(),
        decreases v@.len() - k,
    {
        let ghost r = split_slash(v@.take(k as int));
        let c = v[k];
        proof {
            assert(v@.take(k + 1).drop_last() =~= v@.take(k as int));
            assert(v@.take(k + 1).last() == c);
            lemma_split_slash_len(v@.take(k + 1));
        }
        if c == '/' {
            let ghost o0 = vv(out@);
            out.push(cur);
            cur = Vec::new();
            proof {
                let r2 = split_slash(v@.take(k + 1));
                assert(r2.drop_last() =~= r);
                assert(r =~= r.drop_last().push(r.last()));
                assert(vv(out@) =~= o0.push(r.last()));
            }
        } else {
            cur.push(c);
            proof {
                let r2 = split_slash(v@.take(k + 1));
                assert(r2.drop_last() =~= r.drop_last());
            }
        }
        k = k + 1;
    }
    assert(v@.take(v@.len() as int) =~= v@);
    let ghost o0 = vv(out@);
    out.push(cur);
    assert(vv(out@) =~= o0.push(split_slash(v@).last()));
    assert(split_slash(v@) =~= split_slash(v@).drop_last().push(split_slash(v@).last()));
    out
}

/// The component of a piece, if it is one (see [`seg_component`]).
fn piece_component(seg: Vec<char>) -> (r: Option<PathComp>)
    ensures
        match (r, seg_component(seg@)) {
            (Some(c), Some(d)) => c.comp() == d,
            (None, None) => true,
            _ => false,
        },
{
    if seg.len() == 0 || (seg.len() == 1 && seg[0] == '.') {
        proof {
            if seg@.len() == 1 {
                assert(seg@ =~= seq!['.']);
            }
        }
        None
    } else if seg.len() == 2 && seg[0] == '.' && seg[1] == '.' {
        assert(seg@ =~= seq!['.', '.']);
        Some(PathComp::ParentDir)
    } else {
        proof {
            if seg@ =~= seq!['.'] {
                assert(seg@[0] == '.');
            }
            if seg@ =~= seq!['.', '.'] {
                assert(seg@[0] == '.' && seg@[1] == '.');
            }
        }
        Some(PathComp::Normal(seg))
    }
}

/// The components of a path (see [`components`]).
pub fn path_components(p: &str) -> (r: Vec<PathComp>)
    ensures
        comps(r@) == components(p@),
{
    let v = str_chars(p);
    let mut segs = split_at_slash(v.as_slice());
    let ghost sg = vv(segs@);
    proof {
        lemma_split_slash_len(v@);
    }
    let first = segs.remove(0);
    let mut out: Vec<PathComp> = Vec::new();
    if v.len() > 0 && v[0] == '/' {
        out.push(PathComp::RootDir);
    } else if first.len() == 1 && first[0] == '.' {
        out.push(PathComp::CurDir);
        assert(first@ =~= seq!['.']);
    } else {
        proof {
            if first@ =~= seq!['.'] {
                assert(first@[0] == '.');
            }
        }
        match piece_component(first) {
            Some(c) => out.push(c),
            None => {},
        }
    }
    let ghost head = comps(out@);
    let ghost rest = sg.skip(1);
    assert(vv(segs@) =~= rest);
    let mut i: usize = 0;
    let n: usize = segs.len();
    assert(rest.take(0) =~= seq![]);
    assert(comps(out@) =~= head + seg_components(rest.take(0)));
    while segs.len() > 0
        invariant
            n == rest.len(),
            i <= n,
            vv(segs@) == rest.skip(i as int),
            comps(out@) == head + seg_components(rest.take(i as int)),
        decreases segs@.len(),
    {
        let ghost s0 = segs@;
        let seg = segs.remove(0);
        proof {
            assert(vv(s0).len() == s0.len());
            assert(i < rest.len());
            assert(vv(s0)[0] == seg@);
            assert(rest.skip(i as int)[0] == rest[i as int]);
            assert forall|t: int| 0 <= t < segs@.len() implies #[trigger] vv(segs@)[t] == rest.skip(
                i + 1,
            )[t] by {
                assert(segs@[t] == s0[t + 1]);
                assert(vv(s0)[t + 1] == rest.skip(i as int)[t + 1]);
            }
            assert(vv(segs@) =~= rest.skip(i + 1));
            assert(rest.take(i + 1).drop_last() =~= rest.take(i as int));
            assert(rest.take(i + 1).last() == seg@);
        }
        let ghost c0 = comps(out@);
        match piece_component(seg) {
            Some(c) => {
                out.push(c);
                assert(comps(out@) =~= c0.push(c.comp()));
            },
            None => {},
        }
        i = i + 1;
    }
    assert(rest.take(n as int) =~= rest);
    out
}

/// Whether two components are the same.
fn comp_eq(a: &PathComp, b: &PathComp) -> (r: bool)
    ensures
        r == (a.comp() == b.comp()),
{
    match (a, b) {
        (PathComp::RootDir, PathComp::RootDir) => true,
        (PathComp::CurDir, PathComp::CurDir) => true,
        (PathComp::ParentDir, PathComp::ParentDir) => true,
        (PathComp::Normal(x), PathComp::Normal(y)) => crate::text::chars_eq(x.as_slice(), y.as_slice()),
        _ => false,
    }
}

/// `Path::starts_with`: whether the components of `base` begin those of
/// `p`.
pub fn starts_with_path(p: &str, base: &str) -> (r: bool)
    ensures
        r == path_starts_with(p@, base@),
{
    let a = path_components(p);
    let b = path_components(base);
    if b.len() > a.len() {
        assert(comps(b@).len() == b@.len());
        assert(comps(a@).len() == a@.len());
        return false;
    }
    let mut i: usize = 0;
    while i < b.len()
        invariant
            b@.len() <= a@.len(),
            comps(a@) == components(p@),
            comps(b@) == components(base@),
            i <= b@.len(),
            forall|k: int| 0 <= k < i ==> comps(b@)[k] == comps(a@)[k],
        decreases b@.len() - i,
    {
        if !comp_eq(&b[i], &a[i]) {
            proof {
                assert(comps(b@)[i as int] == b@[i as int].comp());
                assert(comps(a@)[i as int] == a@[i as int].comp());
                assert(b@[i as int].comp() != a@[i as int].comp());
                assert(comps(b@)[i as int] != comps(a@)[i as int]);
                if comps(b@).is_prefix_of(comps(a@)) {
                    assert(comps(b@)[i as int] == comps(a@).subrange(0, comps(b@).len() as int)[i as int]);
                    assert(false);
                }
                assert(!path_starts_with(p@, base@));
            }
            return false;
        }
        i = i + 1;
    }
    assert(comps(b@) =~= comps(a@).subrange(0, comps(b@).len() as int));
    true
}

} // verus!
