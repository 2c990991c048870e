//! Modifying a project: checking the requested operations, performing
//! them on the artifacts by hash id, and splitting the artifacts into the
//! files they are saved to.
use vstd::prelude::*;
use crate::artifact::{
    clean_of, op_clean_of, sip128, ArtifactIm, ArtifactOp, IdPieces, Impl, ImplCode, Settings,
};
use crate::lint::{
    error_views, lint_views, other_views, same_lints, strictly_sorted, Categorized, Category,
    Level, Lint, LintView,
};
use crate::name::Name;
use crate::project::{error_lints, Artifact, Project, ProjectExt};
use crate::ser::{HashIm, ModifyError, ModifyErrorKind};
use crate::graph::Graphs;
use crate::loaded::{
    determined, dup_name_lints, files_of, id_count_of, join_artifacts_raw, joined,
    try_determine_artifacts,
};
use crate::path::{components, path_components, path_starts_with, starts_with_path, comps, Component, PathComp};
use crate::raw::{file_type_of, ArtFileType, ArtifactRaw};
use crate::loaded::ArtifactImExt;
use crate::artifact::strip_spec;
use crate::sort::isort;
use crate::text::cleaned;
use crate::implemented::name_keys_of;
use crate::family::Names;

verus! {

// ------------------------------------------------------------------
// Hash ids

/// Whether two hash ids are the same.
pub fn hash_eq(a: &HashIm, b: &HashIm) -> (r: bool)
    ensures
        r == (a.0@ == b.0@),
{
    let mut i: usize = 0;
    while i < 16
        invariant
            i <= 16,
            a.0@.len() == 16,
            b.0@.len() == 16,
            forall|k: int| 0 <= k < i ==> a.0@[k] == b.0@[k],
        decreases 16 - i,
    {
        if a.0[i] != b.0[i] {
            return false;
        }
        i = i + 1;
    }
    assert(a.0@ =~= b.0@);
    true
}

/// Whether two optional hash ids are the same.
fn opt_hash_eq(a: &Option<HashIm>, b: &Option<HashIm>) -> (r: bool)
    ensures
        r == (opt_hash(*a) == opt_hash(*b)),
{
    match (a, b) {
        (Some(x), Some(y)) => hash_eq(x, y),
        (None, None) => true,
        _ => false,
    }
}

/// The bytes of an optional hash id.
pub open spec fn opt_hash(h: Option<HashIm>) -> Option<Seq<u8>> {
    match h {
        Some(x) => Some(x.0@),
        None => None,
    }
}

/// Whether `ids` holds the hash id `h`.
fn contains_hash(ids: &Vec<HashIm>, h: &HashIm) -> (r: bool)
    ensures
        r == hashes(ids@).contains(h.0@),
{
    let mut i: usize = 0;
    while i < ids.len()
        invariant
            i <= ids@.len(),
            forall|k: int| 0 <= k < i ==> hashes(ids@)[k] != h.0@,
        decreases ids@.len() - i,
    {
        if hash_eq(&ids[i], h) {
            assert(hashes(ids@)[i as int] == h.0@);
            return true;
        }
        i = i + 1;
    }
    false
}

/// The bytes of a sequence of hash ids.
pub open spec fn hashes(s: Seq<HashIm>) -> Seq<Seq<u8>> {
    s.map_values(|h: HashIm| h.0@)
}

// ------------------------------------------------------------------
// Overlapping operations

/// The name, original id and new id of an operation, as plain values.
pub open spec fn pieces_of(op: ArtifactOp) -> (Seq<char>, Option<Seq<u8>>, Option<Seq<u8>>) {
    match op {
        ArtifactOp::Create { artifact } => (
            artifact.name.raw_v(),
            None,
            Some(sip128(artifact.hash_input())),
        ),
        ArtifactOp::Update { artifact, orig_id } => (
            artifact.name.raw_v(),
            Some(orig_id.0@),
            Some(sip128(artifact.hash_input())),
        ),
        ArtifactOp::Delete { name, orig_id } => (name.raw_v(), Some(orig_id.0@), None),
    }
}

/// The plain value of an error lint with no place.
pub open spec fn placeless(category: Category, msg: Seq<char>) -> LintView {
    LintView { level: Level::Error, path: None, line: None, category, msg }
}

/// Record the id `h` as used; a lint if it already was.
pub open spec fn use_id(
    ids: Seq<Seq<u8>>,
    lints: Seq<LintView>,
    h: Option<Seq<u8>>,
    name: Seq<char>,
) -> (Seq<Seq<u8>>, Seq<LintView>) {
    match h {
        Some(x) => if ids.contains(x) {
            (
                ids,
                lints.push(placeless(Category::IdOverlap, "Attempting to operate twice on "@ + name)),
            )
        } else {
            (ids.push(x), lints)
        },
        None => (ids, lints),
    }
}

/// The ids used and the lints of the operations `ops`: an update that
/// changes nothing, and an id used twice (the new id first, then the
/// original one).
pub open spec fn overlap_of(ops: Seq<ArtifactOp>) -> (Seq<Seq<u8>>, Seq<LintView>)
    decreases ops.len(),
{
    if ops.len() == 0 {
        (seq![], seq![])
    } else {
        let (ids, lints) = overlap_of(ops.drop_last());
        let (name, orig, new) = pieces_of(ops.last());
        if new == orig {
            (
                ids,
                lints.push(
                    placeless(
                        Category::UpdateNoop,
                        "Attempt to update '"@ + name + "' with identical data"@,
                    ),
                ),
            )
        } else {
            let (ids1, lints1) = use_id(ids, lints, new, name);
            use_id(ids1, lints1, orig, name)
        }
    }
}

/// Check the ids of the operations: clean each operation, lint an update
/// that changes nothing and an id that two operations use.
pub fn check_overlap(lints: &mut Categorized, operations: &mut Vec<ArtifactOp>)
    requires
        forall|i: int| 0 <= i < old(operations)@.len() ==> (#[trigger] old(operations)@[i]).wf(),
    ensures
        final(operations)@.len() == old(operations)@.len(),
        forall|i: int|
            0 <= i < final(operations)@.len() ==> {
                &&& (#[trigger] final(operations)@[i]).wf()
                &&& op_clean_of(final(operations)@[i], old(operations)@[i])
            },
        lint_views(final(lints).error@) == lint_views(old(lints).error@) + overlap_of(
            final(operations)@,
        ).1,
        final(lints).other@ == old(lints).other@,
{
    let ghost ops0 = operations@;
    let ghost e0 = lint_views(lints.error@);
    let mut ops: Vec<ArtifactOp> = Vec::new();
    std::mem::swap(&mut ops, operations);
    let mut done_ops: Vec<ArtifactOp> = Vec::new();
    let mut ids: Vec<HashIm> = Vec::new();
    let n: usize = ops.len();
    let mut i: usize = 0;
    assert(ops@ =~= ops0.skip(0));
    assert(hashes(ids@) =~= seq![]);
    assert(lint_views(lints.error@) =~= e0 + overlap_of(done_ops@).1);
    while ops.len() > 0
        invariant
            ops0.len() == n,
            i <= n,
            ops@ == ops0.skip(i as int),
            forall|k: int| 0 <= k < ops0.len() ==> (#[trigger] ops0[k]).wf(),
            done_ops@.len() == i,
            forall|k: int|
                0 <= k < i ==> {
                    &&& (#[trigger] done_ops@[k]).wf()
                    &&& op_clean_of(done_ops@[k], ops0[k])
                },
            hashes(ids@) == overlap_of(done_ops@).0,
            lint_views(lints.error@) == e0 + overlap_of(done_ops@).1,
            lints.other@ == old(lints).other@,
        decreases ops@.len(),
    {
        let mut op = ops.remove(0);
        proof {
            assert(ops0.skip(i as int)[0] == ops0[i as int]);
            assert(ops@ =~= ops0.skip(i + 1));
        }
        op.clean();
        let pieces = op.id_pieces();
        let ghost d0 = done_ops@;
        let ghost l0 = lint_views(lints.error@);
        let ghost ids0 = hashes(ids@);
        let ghost name = pieces.name.raw_v();
        proof {
            assert(pieces_of(op).0 == name);
            assert(pieces_of(op).1 == opt_hash(pieces.orig_id));
            assert(pieces_of(op).2 == opt_hash(pieces.new_id));
        }
        if opt_hash_eq(&pieces.new_id, &pieces.orig_id) {
            let mut msg = "Attempt to update '".to_owned();
            msg.append(pieces.name.as_str());
            msg.append("' with identical data");
            let l = Lint::update_noop(msg);
            lints.error.push(l);
            assert(lint_views(lints.error@) =~= l0.push(l@));
        } else {
            match &pieces.new_id {
                Some(h) => {
                    if contains_hash(&ids, h) {
                        let mut msg = "Attempting to operate twice on ".to_owned();
                        msg.append(pieces.name.as_str());
                        let l = Lint::id_overlap(msg);
                        lints.error.push(l);
                        assert(lint_views(lints.error@) =~= l0.push(l@));
                    } else {
                        ids.push(*h);
                        assert(hashes(ids@) =~= ids0.push(h.0@));
                    }
                },
                None => {},
            }
            let ghost ids1 = hashes(ids@);
            let ghost l1 = lint_views(lints.error@);
            match &pieces.orig_id {
                Some(h) => {
                    if contains_hash(&ids, h) {
                        let mut msg = "Attempting to operate twice on ".to_owned();
                        msg.append(pieces.name.as_str());
                        let l = Lint::id_overlap(msg);
                        lints.error.push(l);
                        assert(lint_views(lints.error@) =~= l1.push(l@));
                    } else {
                        ids.push(*h);
                        assert(hashes(ids@) =~= ids1.push(h.0@));
                    }
                },
                None => {},
            }
        }
        done_ops.push(op);
        proof {
            assert(done_ops@.drop_last() =~= d0);
            assert(done_ops@.last() == op);
        }
        i = i + 1;
    }
    *operations = done_ops;
}

// ------------------------------------------------------------------
// Performing operations

/// The plain value of the artifacts by hash id.
pub open spec fn ims_view(ims: Seq<(HashIm, ArtifactIm)>) -> Seq<(Seq<u8>, ArtifactIm)> {
    ims.map_values(|p: (HashIm, ArtifactIm)| (p.0.0@, p.1))
}

/// The index of the first pair with id `h`, or -1.
pub open spec fn id_pos(s: Seq<(Seq<u8>, ArtifactIm)>, h: Seq<u8>) -> int
    decreases s.len(),
{
    if s.len() == 0 {
        -1
    } else if id_pos(s.drop_last(), h) >= 0 {
        id_pos(s.drop_last(), h)
    } else if s.last().0 == h {
        s.len() - 1
    } else {
        -1
    }
}

proof fn lemma_id_pos(s: Seq<(Seq<u8>, ArtifactIm)>, h: Seq<u8>)
    ensures
        -1 <= id_pos(s, h) < s.len(),
        id_pos(s, h) >= 0 ==> s[id_pos(s, h)].0 == h,
        id_pos(s, h) < 0 ==> forall|k: int| 0 <= k < s.len() ==> (#[trigger] s[k]).0 != h,
        forall|k: int| 0 <= k < id_pos(s, h) ==> (#[trigger] s[k]).0 != h,
    decreases s.len(),
{
    if s.len() > 0 {
        lemma_id_pos(s.drop_last(), h);
        assert forall|k: int| 0 <= k < s.len() - 1 implies #[trigger] s[k] == s.drop_last()[k] by {}
    }
}

/// Insertion keyed by id: a new id goes to the end, a known one keeps
/// its place and takes the artifact.
pub open spec fn put_id(s: Seq<(Seq<u8>, ArtifactIm)>, h: Seq<u8>, a: ArtifactIm) -> Seq<
    (Seq<u8>, ArtifactIm),
> {
    let i = id_pos(s, h);
    if i < 0 {
        s.push((h, a))
    } else {
        s.update(i, (s[i].0, a))
    }
}

/// Removal by id: the last pair takes the place of the removed one.
pub open spec fn take_id(s: Seq<(Seq<u8>, ArtifactIm)>, h: Seq<u8>) -> Seq<(Seq<u8>, ArtifactIm)> {
    let i = id_pos(s, h);
    if i < 0 {
        s
    } else {
        s.update(i, s.last()).drop_last()
    }
}

/// The artifacts after the operations, and the category and message of
/// each lint; a `CreateExists` lint names the artifact that already has
/// the id.
pub open spec fn perform_of(ims: Seq<(Seq<u8>, ArtifactIm)>, ops: Seq<ArtifactOp>) -> (
    Seq<(Seq<u8>, ArtifactIm)>,
    Seq<(Category, Seq<char>)>,
)
    decreases ops.len(),
{
    if ops.len() == 0 {
        (ims, seq![])
    } else {
        let (s, l) = perform_of(ims, ops.drop_last());
        match ops.last() {
            ArtifactOp::Create { artifact } => {
                let h = sip128(artifact.hash_input());
                if id_pos(s, h) < 0 {
                    (put_id(s, h, artifact), l)
                } else {
                    (
                        put_id(s, h, artifact),
                        l.push(
                            (
                                Category::CreateExists,
                                "Attempting to create an artifact which already exists: "@
                                    + s[id_pos(s, h)].1.name.raw_v(),
                            ),
                        ),
                    )
                }
            },
            ArtifactOp::Update { artifact, orig_id } => {
                if id_pos(s, orig_id.0@) < 0 {
                    (
                        s,
                        l.push(
                            (
                                Category::UpdateDne,
                                "Attempt to update '"@ + artifact.name.raw_v()
                                    + "' failed, hash-id does not exist"@,
                            ),
                        ),
                    )
                } else {
                    (put_id(take_id(s, orig_id.0@), sip128(artifact.hash_input()), artifact), l)
                }
            },
            ArtifactOp::Delete { name, orig_id } => {
                if id_pos(s, orig_id.0@) < 0 {
                    (
                        s,
                        l.push(
                            (
                                Category::DeleteDne,
                                "Attempt to delete '"@ + name.raw_v()
                                    + "' failed, hash-id does not exist"@,
                            ),
                        ),
                    )
                } else {
                    (take_id(s, orig_id.0@), l)
                }
            },
        }
    }
}

/// `l` is an error lint with no place of the category and message `e`.
pub open spec fn lint_is(l: LintView, e: (Category, Seq<char>)) -> bool {
    &&& l.level == Level::Error
    &&& l.path is None
    &&& l.line is None
    &&& l.category == e.0
    &&& l.msg == e.1
}

/// The position of the artifact of id `h`.
fn find_id(ims: &Vec<(HashIm, ArtifactIm)>, h: &HashIm) -> (r: Option<usize>)
    ensures
        match r {
            Some(i) => i as int == id_pos(ims_view(ims@), h.0@),
            None => id_pos(ims_view(ims@), h.0@) < 0,
        },
{
    let ghost v = ims_view(ims@);
    proof {
        lemma_id_pos(v, h.0@);
    }
    let mut i: usize = 0;
    while i < ims.len()
        invariant
            v == ims_view(ims@),
            i <= ims@.len(),
            forall|k: int| 0 <= k < i ==> (#[trigger] v[k]).0 != h.0@,
            -1 <= id_pos(v, h.0@) < v.len(),
            id_pos(v, h.0@) >= 0 ==> v[id_pos(v, h.0@)].0 == h.0@,
            forall|k: int| 0 <= k < id_pos(v, h.0@) ==> (#[trigger] v[k]).0 != h.0@,
        decreases ims@.len() - i,
    {
        if hash_eq(&ims[i].0, h) {
            proof {
                assert(v[i as int].0 == h.0@);
                let x = id_pos(v, h.0@);
                if x < 0 {
                    lemma_id_pos(v, h.0@);
                    assert(v[i as int].0 != h.0@);
                }
                if x > i {
                    assert(v[i as int].0 != h.0@);
                }
            }
            return Some(i);
        }
        assert(v[i as int].0 != h.0@);
        i = i + 1;
    }
    proof {
        let x = id_pos(v, h.0@);
        if x >= 0 {
            assert(v[x].0 != h.0@);
        }
    }
    None
}

/// Insert `a` under the id `h` (see [`put_id`]).
fn put_by_id(ims: &mut Vec<(HashIm, ArtifactIm)>, h: HashIm, a: ArtifactIm) -> (r: bool)
    ensures
        ims_view(final(ims)@) == put_id(ims_view(old(ims)@), h.0@, a),
        r == (id_pos(ims_view(old(ims)@), h.0@) >= 0),
{
    let ghost v = ims_view(ims@);
    proof {
        lemma_id_pos(v, h.0@);
    }
    match find_id(ims, &h) {
        None => {
            ims.push((h, a));
            assert(ims_view(ims@) =~= v.push((h.0@, a)));
            false
        },
        Some(i) => {
            let (k, _) = ims.remove(i);
            ims.insert(i, (k, a));
            assert(ims_view(ims@) =~= v.update(i as int, (v[i as int].0, a)));
            true
        },
    }
}

/// Remove the artifact of id `h` (see [`take_id`]).
fn take_by_id(ims: &mut Vec<(HashIm, ArtifactIm)>, h: &HashIm) -> (r: bool)
    ensures
        ims_view(final(ims)@) == take_id(ims_view(old(ims)@), h.0@),
        r == (id_pos(ims_view(old(ims)@), h.0@) >= 0),
{
    let ghost v = ims_view(ims@);
    proof {
        lemma_id_pos(v, h.0@);
    }
    match find_id(ims, h) {
        None => false,
        Some(i) => {
            let ghost before = ims@;
            let _ = ims.swap_remove(i);
            assert(ims_view(ims@) =~= v.update(i as int, v.last()).drop_last());
            true
        },
    }
}

/// Perform the operations in order on the artifacts by hash id: create,
/// update (replace the artifact of the original id) and delete. An
/// operation that cannot be performed is linted as an error.
pub fn perform_operations(
    operations: Vec<ArtifactOp>,
    lints: &mut Categorized,
    artifact_ims: &mut Vec<(HashIm, ArtifactIm)>,
)
    ensures
        ims_view(final(artifact_ims)@) == perform_of(
            ims_view(old(artifact_ims)@),
            operations@,
        ).0,
        final(lints).error@.len() == old(lints).error@.len() + perform_of(
            ims_view(old(artifact_ims)@),
            operations@,
        ).1.len(),
        forall|i: int|
            0 <= i < old(lints).error@.len() ==> (#[trigger] final(lints).error@[i]) == old(
                lints,
            ).error@[i],
        forall|i: int|
            0 <= i < perform_of(ims_view(old(artifact_ims)@), operations@).1.len() ==> lint_is(
                final(lints).error@[old(lints).error@.len() + i]@,
                #[trigger] perform_of(ims_view(old(artifact_ims)@), operations@).1[i],
            ),
        final(lints).other@ == old(lints).other@,
{
    let ghost ops0 = operations@;
    let ghost s0 = ims_view(artifact_ims@);
    let ghost e0 = lints.error@;
    let mut ops = operations;
    let n: usize = ops.len();
    let mut i: usize = 0;
    assert(ops@ =~= ops0.skip(0));
    assert(ops0.take(0) =~= seq![]);
    while ops.len() > 0
        invariant
            ops0.len() == n,
            i <= n,
            ops@ == ops0.skip(i as int),
            ims_view(artifact_ims@) == perform_of(s0, ops0.take(i as int)).0,
            lints.error@.len() == e0.len() + perform_of(s0, ops0.take(i as int)).1.len(),
            forall|k: int| 0 <= k < e0.len() ==> (#[trigger] lints.error@[k]) == e0[k],
            forall|k: int|
                0 <= k < perform_of(s0, ops0.take(i as int)).1.len() ==> lint_is(
                    lints.error@[e0.len() + k]@,
                    #[trigger] perform_of(s0, ops0.take(i as int)).1[k],
                ),
            lints.other@ == old(lints).other@,
        decreases ops@.len(),
    {
        let op = ops.remove(0);
        proof {
            assert(ops0.skip(i as int)[0] == ops0[i as int]);
            assert(ops@ =~= ops0.skip(i + 1));
            assert(ops0.take(i + 1).drop_last() =~= ops0.take(i as int));
            assert(ops0.take(i + 1).last() == op);
        }
        let ghost (sp, lp) = perform_of(s0, ops0.take(i as int));
        let ghost el = lints.error@;
        match op {
            ArtifactOp::Create { artifact } => {
                let id = artifact.hash_im();
                proof {
                    lemma_id_pos(ims_view(artifact_ims@), id.0@);
                    assert(ims_view(artifact_ims@).len() == artifact_ims@.len());
                }
                let existing = match find_id(artifact_ims, &id) {
                    Some(x) => Some(artifact_ims[x].1.name.as_str().to_owned()),
                    None => None,
                };
                let _ = put_by_id(artifact_ims, id, artifact);
                match existing {
                    Some(d) => {
                        let mut msg = "Attempting to create an artifact which already exists: ".to_owned();
                        msg.append(d.as_str());
                        let l = Lint::create_exists(msg);
                        lints.error.push(l);
                    },
                    None => {},
                }
            },
            ArtifactOp::Update { artifact, orig_id } => {
                if !take_by_id(artifact_ims, &orig_id) {
                    let mut msg = "Attempt to update '".to_owned();
                    msg.append(artifact.name.as_str());
                    msg.append("' failed, hash-id does not exist");
                    let l = Lint::update_dne(msg);
                    lints.error.push(l);
                } else {
                    let id = artifact.hash_im();
                    let _ = put_by_id(artifact_ims, id, artifact);
                }
            },
            ArtifactOp::Delete { name, orig_id } => {
                if !take_by_id(artifact_ims, &orig_id) {
                    let mut msg = "Attempt to delete '".to_owned();
                    msg.append(name.as_str());
                    msg.append("' failed, hash-id does not exist");
                    let l = Lint::delete_dne(msg);
                    lints.error.push(l);
                }
            },
        }
        proof {
            let lp2 = perform_of(s0, ops0.take(i + 1)).1;
            assert forall|k: int| 0 <= k < e0.len() implies (#[trigger] lints.error@[k]) == e0[k] by {
                assert(lints.error@[k] == el[k]);
            }
            assert forall|k: int| 0 <= k < lp2.len() implies lint_is(
                lints.error@[e0.len() + k]@,
                #[trigger] lp2[k],
            ) by {
                if k < lp.len() {
                    assert(lints.error@[e0.len() + k] == el[e0.len() + k]);
                    assert(lp2[k] == lp[k]);
                }
            }
        }
        i = i + 1;
    }
    assert(ops0.take(n as int) =~= ops0);
}

// ------------------------------------------------------------------
// Paths of operations

/// Some path of `paths` is a start of `p`.
pub open spec fn inside_some(p: Seq<char>, paths: Seq<String>) -> bool {
    exists|k: int| 0 <= k < paths.len() && path_starts_with(p, (#[trigger] paths[k])@)
}

/// `p` is inside an excluded path that holds one of the artifact paths
/// that `p` is inside.
pub open spec fn excluded(p: Seq<char>, settings: Settings) -> bool {
    exists|e: int, v: int|
        0 <= e < settings.exclude_artifact_paths@.len() && 0 <= v
            < settings.artifact_paths@.len() && path_starts_with(
            p,
            (#[trigger] settings.exclude_artifact_paths@[e])@,
        ) && path_starts_with(p, (#[trigger] settings.artifact_paths@[v])@) && path_starts_with(
            settings.artifact_paths@[v]@,
            settings.exclude_artifact_paths@[e]@,
        )
}

/// Why an operation cannot write to `p`, if it cannot.
pub open spec fn path_problem(p: Seq<char>, settings: Settings) -> Option<Seq<char>> {
    if file_type_of(p) is None {
        Some("Not one of the valid extensions [.toml, .md, .json]"@)
    } else if !inside_some(p, settings.artifact_paths@) {
        Some("Not inside artifact_paths"@)
    } else if excluded(p, settings) {
        Some("Is inside exclude_artifact_paths"@)
    } else {
        None
    }
}

/// The file an operation writes to, if any.
pub open spec fn op_file(op: ArtifactOp) -> Option<Seq<char>> {
    match op {
        ArtifactOp::Create { artifact } => Some(artifact.file@),
        ArtifactOp::Update { artifact, .. } => Some(artifact.file@),
        ArtifactOp::Delete { .. } => None,
    }
}

/// The lints of the operations that cannot write to their file.
pub open spec fn path_lints(ops: Seq<ArtifactOp>, settings: Settings) -> Seq<LintView>
    decreases ops.len(),
{
    if ops.len() == 0 {
        seq![]
    } else {
        let rest = path_lints(ops.drop_last(), settings);
        match op_file(ops.last()) {
            Some(p) => match path_problem(p, settings) {
                Some(m) => rest.push(
                    LintView {
                        level: Level::Error,
                        path: Some(p),
                        line: None,
                        category: Category::ModifyPathInvalid,
                        msg: m,
                    },
                ),
                None => rest,
            },
            None => rest,
        }
    }
}

/// Whether `p` starts with one of `paths`.
fn starts_with_any(p: &str, paths: &Vec<String>) -> (r: bool)
    ensures
        r == inside_some(p@, paths@),
{
    let mut k: usize = 0;
    while k < paths.len()
        invariant
            k <= paths@.len(),
            forall|j: int| 0 <= j < k ==> !path_starts_with(p@, (#[trigger] paths@[j])@),
        decreases paths@.len() - k,
    {
        if starts_with_path(p, paths[k].as_str()) {
            return true;
        }
        k = k + 1;
    }
    false
}

/// Whether `p` is inside an excluded path (see [`excluded`]).
fn check_excluded(p: &str, settings: &Settings) -> (r: bool)
    ensures
        r == excluded(p@, *settings),
{
    let ex = &settings.exclude_artifact_paths;
    let va = &settings.artifact_paths;
    let mut e: usize = 0;
    while e < ex.len()
        invariant
            e <= ex@.len(),
            ex@ == settings.exclude_artifact_paths@,
            va@ == settings.artifact_paths@,
            forall|x: int, v: int|
                0 <= x < e && 0 <= v < va@.len() ==> !(path_starts_with(p@, (#[trigger] ex@[x])@)
                    && path_starts_with(p@, (#[trigger] va@[v])@) && path_starts_with(
                    va@[v]@,
                    ex@[x]@,
                )),
        decreases ex@.len() - e,
    {
        if starts_with_path(p, ex[e].as_str()) {
            let mut v: usize = 0;
            while v < va.len()
                invariant
                    e < ex@.len(),
                    v <= va@.len(),
                    ex@ == settings.exclude_artifact_paths@,
                    va@ == settings.artifact_paths@,
                    path_starts_with(p@, ex@[e as int]@),
                    forall|y: int|
                        0 <= y < v ==> !(path_starts_with(p@, (#[trigger] va@[y])@)
                            && path_starts_with(va@[y]@, ex@[e as int]@)),
                decreases va@.len() - v,
            {
                if starts_with_path(p, va[v].as_str()) && starts_with_path(
                    va[v].as_str(),
                    ex[e].as_str(),
                ) {
                    proof {
                        assert(settings.exclude_artifact_paths@[e as int] == ex@[e as int]);
                        assert(settings.artifact_paths@[v as int] == va@[v as int]);
                    }
                    return true;
                }
                v = v + 1;
            }
        }
        e = e + 1;
    }
    false
}

/// Check that each operation writes to a file of a valid type inside the
/// artifact paths and not excluded; an error lint for each that does not.
pub fn check_paths(lints: &mut Categorized, settings: &Settings, operations: &Vec<ArtifactOp>)
    ensures
        lint_views(final(lints).error@) == lint_views(old(lints).error@) + path_lints(
            operations@,
            *settings,
        ),
        final(lints).other@ == old(lints).other@,
{
    let ghost e0 = lint_views(lints.error@);
    let mut i: usize = 0;
    assert(operations@.take(0) =~= seq![]);
    assert(lint_views(lints.error@) =~= e0 + path_lints(operations@.take(0), *settings));
    while i < operations.len()
        invariant
            i <= operations@.len(),
            lint_views(lints.error@) == e0 + path_lints(operations@.take(i as int), *settings),
            lints.other@ == old(lints).other@,
        decreases operations@.len() - i,
    {
        proof {
            assert(operations@.take(i + 1).drop_last() =~= operations@.take(i as int));
            assert(operations@.take(i + 1).last() == operations@[i as int]);
        }
        let path: Option<&String> = match &operations[i] {
            ArtifactOp::Create { artifact } => Some(&artifact.file),
            ArtifactOp::Update { artifact, .. } => Some(&artifact.file),
            ArtifactOp::Delete { .. } => None,
        };
        match path {
            Some(p) => {
                let problem: Option<&str> = if ArtFileType::from_path(p.as_str()).is_none() {
                    Some("Not one of the valid extensions [.toml, .md, .json]")
                } else if !starts_with_any(p.as_str(), &settings.artifact_paths) {
                    Some("Not inside artifact_paths")
                } else if check_excluded(p.as_str(), settings) {
                    Some("Is inside exclude_artifact_paths")
                } else {
                    None
                };
                match problem {
                    Some(m) => {
                        let l = Lint {
                            level: Level::Error,
                            path: Some(p.clone()),
                            line: None,
                            category: Category::ModifyPathInvalid,
                            msg: m.to_owned(),
                        };
                        let ghost v0 = lint_views(lints.error@);
                        lints.error.push(l);
                        assert(lint_views(lints.error@) =~= v0.push(l@));
                    },
                    None => {},
                }
            },
            None => {},
        }
        i = i + 1;
    }
    assert(operations@.take(operations@.len() as int) =~= operations@);
}

// ------------------------------------------------------------------
// From artifacts back to files

/// `r` is the editable part of the artifact `art`, in canonical form.
pub open spec fn im_of(r: ArtifactIm, art: Artifact) -> bool {
    &&& r.name == art.name
    &&& r.file == art.file
    &&& r.done == (match art.impl_ {
        Impl::Done(d) => Some(d),
        _ => None,
    })
    &&& r.text@ == cleaned(art.text@)
    &&& r.partof.0@ == isort(strip_spec(art.name.raw_v(), art.partof.0@))
}

/// The editable part of an artifact: its `partof` without the automatic
/// family, `done` from its implementation, its text; cleaned.
pub fn im_from_artifact(art: Artifact) -> (r: ArtifactIm)
    requires
        art.name.wf(),
        art.partof.wf(),
    ensures
        r.wf(),
        im_of(r, art),
{
    let Artifact { id: _, name, file, partof, parts: _, text, impl_, subnames: _ } = art;
    let done = match impl_ {
        Impl::Done(d) => Some(d),
        _ => None,
    };
    let mut out = ArtifactIm { name, file, partof, done, text };
    out.clean();
    out
}

/// Whether two paths have the same components (path equality).
fn same_path(a: &str, b: &str) -> (r: bool)
    ensures
        r == (components(a@) == components(b@)),
{
    let x = path_components(a);
    let y = path_components(b);
    if x.len() != y.len() {
        assert(comps(x@).len() == x@.len() && comps(y@).len() == y@.len());
        return false;
    }
    let mut i: usize = 0;
    while i < x.len()
        invariant
            x@.len() == y@.len(),
            comps(x@) == components(a@),
            comps(y@) == components(b@),
            i <= x@.len(),
            forall|k: int| 0 <= k < i ==> comps(x@)[k] == comps(y@)[k],
        decreases x@.len() - i,
    {
        let eq = match (&x[i], &y[i]) {
            (PathComp::RootDir, PathComp::RootDir) => true,
            (PathComp::CurDir, PathComp::CurDir) => true,
            (PathComp::ParentDir, PathComp::ParentDir) => true,
            (PathComp::Normal(p), PathComp::Normal(q)) => crate::text::chars_eq(p.as_slice(), q.as_slice()),
            _ => false,
        };
        if !eq {
            assert(comps(x@)[i as int] == x@[i as int].comp());
            assert(comps(y@)[i as int] == y@[i as int].comp());
            assert(comps(x@)[i as int] != comps(y@)[i as int]);
            return false;
        }
        i = i + 1;
    }
    assert(comps(x@) =~= comps(y@));
    true
}

/// The artifacts grouped by file: each file (by its components) in the
/// order of its first artifact, with the indices of its artifacts in
/// order.
pub open spec fn file_groups(files: Seq<Seq<char>>) -> Seq<(Seq<Component>, Seq<int>)>
    decreases files.len(),
{
    if files.len() == 0 {
        seq![]
    } else {
        let g = file_groups(files.drop_last());
        let c = components(files.last());
        let i = group_index(g, c);
        if i < 0 {
            g.push((c, seq![files.len() - 1]))
        } else {
            g.update(i, (c, g[i].1.push(files.len() - 1)))
        }
    }
}

/// The index of the group of the file with components `c`, or -1.
pub open spec fn group_index(g: Seq<(Seq<Component>, Seq<int>)>, c: Seq<Component>) -> int
    decreases g.len(),
{
    if g.len() == 0 {
        -1
    } else if group_index(g.drop_last(), c) >= 0 {
        group_index(g.drop_last(), c)
    } else if g.last().0 == c {
        g.len() - 1
    } else {
        -1
    }
}

proof fn lemma_group_index(g: Seq<(Seq<Component>, Seq<int>)>, c: Seq<Component>)
    ensures
        -1 <= group_index(g, c) < g.len(),
        group_index(g, c) >= 0 ==> g[group_index(g, c)].0 == c,
        group_index(g, c) < 0 ==> forall|k: int| 0 <= k < g.len() ==> (#[trigger] g[k]).0 != c,
        forall|k: int| 0 <= k < group_index(g, c) ==> (#[trigger] g[k]).0 != c,
    decreases g.len(),
{
    if g.len() > 0 {
        lemma_group_index(g.drop_last(), c);
        assert forall|k: int| 0 <= k < g.len() - 1 implies #[trigger] g[k] == g.drop_last()[k] by {}
    }
}

/// The raw form `raw` is what the artifact `art` is written as: `done`
/// from its implementation, its `partof` without the automatic family and
/// sorted (none if that is empty), its text cleaned (none if empty).
pub open spec fn raw_of_artifact(raw: ArtifactRaw, art: Artifact) -> bool {
    let partof = isort(strip_spec(art.name.raw_v(), art.partof.0@));
    &&& raw.done == (match art.impl_ {
        Impl::Done(d) => Some(d),
        _ => None,
    })
    &&& match raw.partof {
        Some(p) => p.inner.0@ == partof && partof.len() > 0,
        None => partof.len() == 0,
    }
    &&& match raw.text {
        Some(t) => t.0@ == cleaned(art.text@) && cleaned(art.text@).len() > 0,
        None => cleaned(art.text@).len() == 0,
    }
}

/// The files of the artifacts.
pub open spec fn art_files(arts: Seq<(Name, Artifact)>) -> Seq<Seq<char>> {
    arts.map_values(|a: (Name, Artifact)| a.1.file@)
}

/// Group `r` holds the artifacts of group `g`.
pub open spec fn group_is(
    r: (String, Vec<(Name, ArtifactRaw)>),
    g: (Seq<Component>, Seq<int>),
    arts: Seq<(Name, Artifact)>,
) -> bool {
    &&& g.1.len() > 0
    &&& r.0@ == arts[g.1[0]].1.file@
    &&& components(r.0@) == g.0
    &&& r.1@.len() == g.1.len()
    &&& forall|j: int|
        0 <= j < g.1.len() ==> {
            &&& (#[trigger] r.1@[j]).0 == arts[g.1[j]].1.name
            &&& raw_of_artifact(r.1@[j].1, arts[g.1[j]].1)
        }
}

/// The first group whose file is the path `file`.
fn find_group(out: &Vec<(String, Vec<(Name, ArtifactRaw)>)>, file: &String) -> (r: Option<usize>)
    ensures
        match r {
            Some(x) => x < out@.len() && components(out@[x as int].0@) == components(file@) && forall|
                y: int,
            | 0 <= y < x ==> components((#[trigger] out@[y]).0@) != components(file@),
            None => forall|y: int|
                0 <= y < out@.len() ==> components((#[trigger] out@[y]).0@) != components(file@),
        },
{
    let mut g: usize = 0;
    while g < out.len()
        invariant
            g <= out@.len(),
            forall|y: int| 0 <= y < g ==> components((#[trigger] out@[y]).0@) != components(file@),
        decreases out@.len() - g,
    {
        if same_path(out[g].0.as_str(), file.as_str()) {
            return Some(g);
        }
        g = g + 1;
    }
    None
}

/// The files to save: for each file, in the order of its first artifact,
/// its artifacts in their raw form.
pub fn files_to_save(arts: Vec<(Name, Artifact)>) -> (r: Vec<(String, Vec<(Name, ArtifactRaw)>)>)
    requires
        forall|i: int|
            0 <= i < arts@.len() ==> (#[trigger] arts@[i]).1.name.wf() && arts@[i].1.partof.wf(),
    ensures
        r@.len() == file_groups(art_files(arts@)).len(),
        forall|g: int|
            0 <= g < r@.len() ==> group_is(
                #[trigger] r@[g],
                file_groups(art_files(arts@))[g],
                arts@,
            ),
{
    let ghost a0 = arts@;
    let ghost fs = art_files(a0);
    let mut rest = arts;
    let mut out: Vec<(String, Vec<(Name, ArtifactRaw)>)> = Vec::new();
    let n: usize = rest.len();
    let mut i: usize = 0;
    assert(rest@ =~= a0.skip(0));
    assert(fs.take(0) =~= seq![]);
    while rest.len() > 0
        invariant
            a0.len() == n,
            fs == art_files(a0),
            i <= n,
            rest@ == a0.skip(i as int),
            forall|k: int| 0 <= k < a0.len() ==> (#[trigger] a0[k]).1.name.wf() && a0[k].1.partof.wf(),
            out@.len() == file_groups(fs.take(i as int)).len(),
            forall|g: int| 0 <= g < out@.len() ==> group_is(
                #[trigger] out@[g],
                file_groups(fs.take(i as int))[g],
                a0,
            ),
        decreases rest@.len(),
    {
        let (_, art) = rest.remove(0);
        proof {
            assert(a0.skip(i as int)[0] == a0[i as int]);
            assert(rest@ =~= a0.skip(i + 1));
            assert(fs.take(i + 1).drop_last() =~= fs.take(i as int));
            assert(fs.take(i + 1).last() == art.file@);
        }
        let ghost art0 = art;
        let im = im_from_artifact(art);
        let (file, name, raw) = im.into_raw();
        proof {
            assert(raw_of_artifact(raw, art0));
        }
        let ghost g0 = file_groups(fs.take(i as int));
        let ghost c = components(file@);
        proof {
            lemma_group_index(g0, c);
        }
        let found = find_group(&out, &file);
        proof {
            match found {
                Some(x) => {
                    assert forall|y: int| 0 <= y < x implies (#[trigger] g0[y]).0 != c by {
                        assert(components(out@[y].0@) == g0[y].0);
                    }
                    assert(components(out@[x as int].0@) == g0[x as int].0);
                },
                None => {
                    assert forall|y: int| 0 <= y < g0.len() implies (#[trigger] g0[y]).0 != c by {
                        assert(components(out@[y].0@) == g0[y].0);
                    }
                },
            }
        }
        proof {
            match found {
                Some(x) => {
                    assert(g0[x as int].0 == c);
                    if group_index(g0, c) < x {
                        assert(g0[group_index(g0, c)].0 == c);
                    }
                    assert(group_index(g0, c) == x);
                },
                None => {
                    assert(group_index(g0, c) < 0);
                },
            }
        }
        let ghost out0 = out@;
        match found {
            Some(x) => {
                let (f, mut members) = out.remove(x);
                members.push((name, raw));
                out.insert(x, (f, members));
                proof {
                    let g1 = file_groups(fs.take(i + 1));
                    assert(g1 == g0.update(x as int, (c, g0[x as int].1.push(i as int))));
                    assert forall|y: int| 0 <= y < out@.len() implies group_is(
                        #[trigger] out@[y],
                        g1[y],
                        a0,
                    ) by {
                        if y != x {
                            assert(out@[y] == out0[y]);
                        } else {
                            let gg = g1[y];
                            assert forall|j: int| 0 <= j < gg.1.len() implies {
                                &&& (#[trigger] out@[y].1@[j]).0 == a0[gg.1[j]].1.name
                                &&& raw_of_artifact(out@[y].1@[j].1, a0[gg.1[j]].1)
                            } by {
                                if j < gg.1.len() - 1 {
                                    assert(out@[y].1@[j] == out0[y].1@[j]);
                                    assert(gg.1[j] == g0[y].1[j]);
                                }
                            }
                        }
                    }
                }
            },
            None => {
                let mut members: Vec<(Name, ArtifactRaw)> = Vec::new();
                members.push((name, raw));
                out.push((file, members));
                proof {
                    let g1 = file_groups(fs.take(i + 1));
                    assert(g1 == g0.push((c, seq![i as int])));
                    assert forall|y: int| 0 <= y < out@.len() implies group_is(
                        #[trigger] out@[y],
                        g1[y],
                        a0,
                    ) by {
                        if y < out0.len() {
                            assert(out@[y] == out0[y]);
                        }
                    }
                }
            },
        }
        i = i + 1;
    }
    assert(fs.take(n as int) =~= fs);
    out
}

// ------------------------------------------------------------------
// Modifying a loaded project

/// `ops1` is `ops` with each operation in canonical form.
pub open spec fn ops_cleaned(ops1: Seq<ArtifactOp>, ops: Seq<ArtifactOp>) -> bool {
    &&& ops1.len() == ops.len()
    &&& forall|i: int|
        0 <= i < ops.len() ==> (#[trigger] ops1[i]).wf() && op_clean_of(ops1[i], ops[i])
}

/// `ims` holds the editable part of each artifact of `arts`, in canonical
/// form, with its hash id.
pub open spec fn ims_of(ims: Seq<(HashIm, ArtifactIm)>, arts: Seq<(Name, Artifact)>) -> bool {
    &&& ims.len() == arts.len()
    &&& forall|i: int|
        0 <= i < arts.len() ==> {
            let im = (#[trigger] ims[i]).1;
            &&& im.wf()
            &&& ims[i].0.0@ == sip128(im.hash_input())
            &&& im_of(im, arts[i].1)
        }
}

/// The lints `l` are, sorted and each once, `errors` and `others`.
pub open spec fn sorted_as(l: Categorized, errors: Seq<LintView>, others: Seq<LintView>) -> bool {
    &&& strictly_sorted(lint_views(l.error@))
    &&& same_lints(lint_views(l.error@), errors)
    &&& strictly_sorted(lint_views(l.other@))
    &&& same_lints(lint_views(l.other@), others)
}

/// `r` is a failed modification of kind `kind` with the lints `errors`
/// and `others`.
pub open spec fn fails_with(
    r: Option<Result<(Categorized, Project), ModifyError>>,
    kind: ModifyErrorKind,
    errors: Seq<LintView>,
    others: Seq<LintView>,
) -> bool {
    r matches Some(Err(e)) && e.kind == kind && sorted_as(e.lints, errors, others)
}

/// How a modification ends once the operations are checked: the
/// artifacts `ims0` of the project `p` are changed by the cleaned
/// operations `ops1`, joined again, and the new artifacts determined and
/// linted. `None` where the family graph cannot number the names.
pub open spec fn modify_applied(
    others: Seq<LintView>,
    p: Project,
    ops1: Seq<ArtifactOp>,
    ims0: Seq<(HashIm, ArtifactIm)>,
    r: Option<Result<(Categorized, Project), ModifyError>>,
) -> bool {
    let (ims1, pl) = perform_of(ims_view(ims0), ops1);
    if pl.len() > 0 {
        exists|errs: Seq<LintView>|
            #[trigger] fails_with(r, ModifyErrorKind::HashMismatch, errs, others) && errs.len()
                == pl.len() && forall|i: int| 0 <= i < pl.len() ==> lint_is(errs[i], pl[i])
    } else {
        let news = ims1.map_values(|x: (Seq<u8>, ArtifactIm)| x.1);
        let defined = files_of(news);
        exists|arts: Seq<(Name, ArtifactIm)>|
            #[trigger] joined(news, defined, arts) && modify_joined(
                others,
                p.settings,
                p.code_impls,
                news,
                arts,
                r,
            )
    }
}

/// How a modification ends once its artifacts `news` are joined into
/// `arts`.
pub open spec fn modify_joined(
    others: Seq<LintView>,
    settings: Settings,
    code_impls: Vec<(Name, ImplCode)>,
    news: Seq<ArtifactIm>,
    arts: Seq<(Name, ArtifactIm)>,
    r: Option<Result<(Categorized, Project), ModifyError>>,
) -> bool {
    if id_count_of(arts) >= u32::MAX {
        r is None
    } else {
        exists|x: (Vec<(Name, Artifact)>, Graphs)|
            #[trigger] determined(files_of(news), arts, code_impls@, x) && {
                let q = Project { settings, code_impls, artifacts: x.0 };
                let found = dup_name_lints(news) + error_lints(q);
                if error_views(found).len() > 0 {
                    fails_with(
                        r,
                        ModifyErrorKind::InvalidFromModify,
                        error_views(found),
                        others + other_views(found),
                    )
                } else {
                    r matches Some(Ok((l, q2))) && q2 == q && l.error@.len() == 0 && lint_views(
                        l.other@,
                    ) == others + other_views(found)
                }
            }
    }
}

/// How a modification of the loaded project `original` (loaded with the
/// lints `lints`) ends, given the cleaned operations `ops1`: a project
/// whose loading gave an error fails with `InvalidFromLoad`.
pub open spec fn modify_checked(
    lints: Categorized,
    original: Option<Project>,
    ops1: Seq<ArtifactOp>,
    r: Option<Result<(Categorized, Project), ModifyError>>,
) -> bool {
    let others = lint_views(lints.other@);
    let e1 = lint_views(lints.error@) + overlap_of(ops1).1;
    if lints.error@.len() > 0 {
        fails_with(r, ModifyErrorKind::InvalidFromLoad, e1, others)
    } else if e1.len() > 0 {
        fails_with(r, ModifyErrorKind::InvalidPaths, e1, others)
    } else {
        match original {
            None => false,
            Some(p) => {
                let e2 = path_lints(ops1, p.settings);
                if e2.len() > 0 {
                    fails_with(r, ModifyErrorKind::InvalidPaths, e2, others)
                } else {
                    exists|ims0: Seq<(HashIm, ArtifactIm)>|
                        #[trigger] ims_of(ims0, p.artifacts@) && modify_applied(
                            others,
                            p,
                            ops1,
                            ims0,
                            r,
                        )
                }
            },
        }
    }
}

/// Performing operations on well-formed artifacts with well-formed
/// operations gives well-formed artifacts.
proof fn lemma_perform_wf(ims: Seq<(Seq<u8>, ArtifactIm)>, ops: Seq<ArtifactOp>)
    requires
        forall|i: int| 0 <= i < ims.len() ==> (#[trigger] ims[i]).1.wf(),
        forall|i: int| 0 <= i < ops.len() ==> (#[trigger] ops[i]).wf(),
    ensures
        forall|i: int|
            0 <= i < perform_of(ims, ops).0.len() ==> (#[trigger] perform_of(ims, ops).0[i]).1.wf(),
    decreases ops.len(),
{
    if ops.len() > 0 {
        lemma_perform_wf(ims, ops.drop_last());
        let s = perform_of(ims, ops.drop_last()).0;
        assert(ops.last() == ops[ops.len() - 1]);
        match ops.last() {
            ArtifactOp::Create { artifact } => {
                let h = sip128(artifact.hash_input());
                lemma_put_wf(s, h, artifact);
            },
            ArtifactOp::Update { artifact, orig_id } => {
                lemma_take_wf(s, orig_id.0@);
                lemma_put_wf(take_id(s, orig_id.0@), sip128(artifact.hash_input()), artifact);
            },
            ArtifactOp::Delete { name, orig_id } => {
                lemma_take_wf(s, orig_id.0@);
            },
        }
    }
}

proof fn lemma_put_wf(s: Seq<(Seq<u8>, ArtifactIm)>, h: Seq<u8>, a: ArtifactIm)
    requires
        forall|i: int| 0 <= i < s.len() ==> (#[trigger] s[i]).1.wf(),
        a.wf(),
    ensures
        forall|i: int| 0 <= i < put_id(s, h, a).len() ==> (#[trigger] put_id(s, h, a)[i]).1.wf(),
{
    lemma_id_pos(s, h);
}

proof fn lemma_take_wf(s: Seq<(Seq<u8>, ArtifactIm)>, h: Seq<u8>)
    requires
        forall|i: int| 0 <= i < s.len() ==> (#[trigger] s[i]).1.wf(),
    ensures
        forall|i: int| 0 <= i < take_id(s, h).len() ==> (#[trigger] take_id(s, h)[i]).1.wf(),
{
    lemma_id_pos(s, h);
    if id_pos(s, h) >= 0 {
        let t = take_id(s, h);
        assert forall|i: int| 0 <= i < t.len() implies (#[trigger] t[i]).1.wf() by {
            if i != id_pos(s, h) {
                assert(t[i] == s[i]);
            } else {
                assert(t[i] == s[s.len() - 1]);
            }
        }
    }
}

/// The editable part of each artifact, in canonical form, with its hash id.
fn ims_of_artifacts(artifacts: Vec<(Name, Artifact)>) -> (r: Vec<(HashIm, ArtifactIm)>)
    requires
        forall|i: int|
            0 <= i < artifacts@.len() ==> {
                &&& (#[trigger] artifacts@[i]).1.name.wf()
                &&& artifacts@[i].1.partof.wf()
            },
    ensures
        ims_of(r@, artifacts@),
{
    let ghost a0 = artifacts@;
    let mut rest = artifacts;
    let mut ims: Vec<(HashIm, ArtifactIm)> = Vec::new();
    let n: usize = rest.len();
    let mut i: usize = 0;
    assert(rest@ =~= a0.skip(0));
    while rest.len() > 0
        invariant
            i <= n,
            n == a0.len(),
            rest@ == a0.skip(i as int),
            ims_of(ims@, a0.take(i as int)),
            forall|k: int|
                0 <= k < a0.len() ==> {
                    &&& (#[trigger] a0[k]).1.name.wf()
                    &&& a0[k].1.partof.wf()
                },
        decreases rest@.len(),
    {
        let (_, art) = rest.remove(0);
        proof {
            assert(a0.skip(i as int)[0] == a0[i as int]);
            assert(rest@ =~= a0.skip(i + 1));
        }
        let im = im_from_artifact(art);
        let h = im.hash_im();
        ims.push((h, im));
        proof {
            let t = a0.take(i + 1);
            assert forall|k: int| 0 <= k < t.len() implies {
                let x = (#[trigger] ims@[k]).1;
                &&& x.wf()
                &&& ims@[k].0.0@ == sip128(x.hash_input())
                &&& im_of(x, t[k].1)
            } by {
                if k < i {
                    assert(t[k] == a0.take(i as int)[k]);
                }
            }
        }
        i = i + 1;
    }
    assert(a0.take(n as int) =~= a0);
    ims
}

/// The artifacts of the pairs, without their hash ids.
fn drop_ids(ims: Vec<(HashIm, ArtifactIm)>) -> (r: Vec<ArtifactIm>)
    ensures
        r@ == ims_view(ims@).map_values(|x: (Seq<u8>, ArtifactIm)| x.1),
{
    let ghost s0 = ims@;
    let mut rest = ims;
    let mut out: Vec<ArtifactIm> = Vec::new();
    let n: usize = rest.len();
    let mut j: usize = 0;
    assert(rest@ =~= s0.skip(0));
    while rest.len() > 0
        invariant
            j <= n,
            n == s0.len(),
            rest@ == s0.skip(j as int),
            out@ == s0.take(j as int).map_values(|x: (HashIm, ArtifactIm)| x.1),
        decreases rest@.len(),
    {
        let (_, im) = rest.remove(0);
        proof {
            assert(s0.skip(j as int)[0] == s0[j as int]);
            assert(rest@ =~= s0.skip(j + 1));
        }
        out.push(im);
        assert(out@ =~= s0.take(j + 1).map_values(|x: (HashIm, ArtifactIm)| x.1));
        j = j + 1;
    }
    assert(s0.take(n as int) =~= s0);
    assert(out@ =~= ims_view(s0).map_values(|x: (Seq<u8>, ArtifactIm)| x.1));
    out
}

/// Join, determine and lint the artifacts `news` that the operations
/// left, as the last steps of a modification.
fn finish_modify(
    lints: Categorized,
    settings: Settings,
    code_impls: Vec<(Name, ImplCode)>,
    news: Vec<ArtifactIm>,
) -> (r: Option<Result<(Categorized, Project), ModifyError>>)
    requires
        lints.error@.len() == 0,
        forall|i: int| 0 <= i < news@.len() ==> (#[trigger] news@[i]).wf(),
    ensures
        exists|arts: Seq<(Name, ArtifactIm)>|
            #[trigger] joined(news@, files_of(news@), arts) && modify_joined(
                lint_views(lints.other@),
                settings,
                code_impls,
                news@,
                arts,
                r,
            ),
{
    let ghost others = lint_views(lints.other@);
    let ghost n0 = news@;
    let mut lints = lints;
    let (defined, arts, dups) = join_artifacts_raw(news);
    proof {
        crate::loaded::lemma_joined_wf(n0, defined@, arts@);
    }
    let ghost ag = arts@;
    let x = match try_determine_artifacts(&defined, &arts, &code_impls) {
        Some(x) => x,
        None => {
            assert(joined(n0, files_of(n0), ag));
            return None;
        },
    };
    let ghost xg = x;
    let ghost ci = code_impls;
    let ghost st = settings;
    let (artifacts, _) = x;
    let project = Project { settings, code_impls, artifacts };
    assert(project == Project { settings: st, code_impls: ci, artifacts: xg.0 });
    let mut found = dups;
    let mut errs = project.lint_errors();
    let ghost d0 = lint_views(found@);
    let ghost e0 = lint_views(errs@);
    found.append(&mut errs);
    assert(lint_views(found@) =~= d0 + e0);
    proof {
        crate::lint::lemma_split_views(found@);
    }
    lints.categorize(found);
    proof {
        assert(lint_views(lints.error@) =~= lint_views(crate::lint::errors_of(found@)));
        assert(lint_views(lints.other@) =~= others + lint_views(crate::lint::others_of(found@)));
    }
    assert(joined(n0, files_of(n0), ag));
    assert(determined(files_of(n0), ag, ci@, xg));
    if lints.error.len() > 0 {
        lints.sort();
        return Some(Err(ModifyError { lints, kind: ModifyErrorKind::InvalidFromModify }));
    }
    Some(Ok((lints, project)))
}

/// Modify a loaded project: fail if its loading gave an error, check the
/// operations (their ids, then their paths), perform them on the artifacts by hash id, and determine and
/// lint the artifacts that result. This is everything of a modification
/// but writing the files; `None` where the family graph of the result
/// cannot number its names with `u32`.
pub fn modify_loaded(
    lints: Categorized,
    original: Option<Project>,
    operations: Vec<ArtifactOp>,
) -> (r: Option<Result<(Categorized, Project), ModifyError>>)
    requires
        forall|i: int| 0 <= i < operations@.len() ==> (#[trigger] operations@[i]).wf(),
        original is None ==> lints.error@.len() > 0,
        original matches Some(p) ==> forall|i: int|
            0 <= i < p.artifacts@.len() ==> {
                &&& (#[trigger] p.artifacts@[i]).1.name.wf()
                &&& p.artifacts@[i].1.partof.wf()
            },
    ensures
        exists|ops1: Seq<ArtifactOp>|
            #[trigger] ops_cleaned(ops1, operations@) && modify_checked(lints, original, ops1, r),
{
    let ghost others = lint_views(lints.other@);
    let ghost ops0 = operations@;
    let load_failed = lints.error.len() > 0;
    let mut lints = lints;
    let mut operations = operations;
    check_overlap(&mut lints, &mut operations);
    let ghost ops1 = operations@;
    assert(ops_cleaned(ops1, ops0));
    if load_failed {
        lints.sort();
        return Some(Err(ModifyError { lints, kind: ModifyErrorKind::InvalidFromLoad }));
    }
    if lints.error.len() > 0 {
        lints.sort();
        return Some(Err(ModifyError { lints, kind: ModifyErrorKind::InvalidPaths }));
    }
    let original = match original {
        Some(p) => p,
        None => {
            assert(false);
            return None;
        },
    };
    let ghost p0 = original;
    check_paths(&mut lints, &original.settings, &operations);
    if lints.error.len() > 0 {
        lints.sort();
        return Some(Err(ModifyError { lints, kind: ModifyErrorKind::InvalidPaths }));
    }
    let Project { settings, code_impls, artifacts } = original;
    let mut ims = ims_of_artifacts(artifacts);
    let ghost ims0 = ims@;
    proof {
        assert forall|k: int| 0 <= k < ims_view(ims0).len() implies (#[trigger] ims_view(
            ims0,
        )[k]).1.wf() by {
            assert(ims_view(ims0)[k].1 == ims0[k].1);
        }
        lemma_perform_wf(ims_view(ims0), ops1);
    }
    perform_operations(operations, &mut lints, &mut ims);
    let ghost pl = perform_of(ims_view(ims0), ops1).1;
    if lints.error.len() > 0 {
        let ghost errs = lint_views(lints.error@);
        proof {
            assert forall|k: int| 0 <= k < pl.len() implies lint_is(errs[k], pl[k]) by {
                assert(lints.error@[0 + k]@ == errs[k]);
            }
        }
        lints.sort();
        let r = Some(Err(ModifyError { lints, kind: ModifyErrorKind::HashMismatch }));
        assert(fails_with(r, ModifyErrorKind::HashMismatch, errs, others));
        assert(ims_of(ims0, p0.artifacts@));
        return r;
    }
    let news = drop_ids(ims);
    proof {
        let ims1 = perform_of(ims_view(ims0), ops1).0;
        assert forall|k: int| 0 <= k < news@.len() implies (#[trigger] news@[k]).wf() by {
            assert(news@[k] == ims1[k].1);
        }
    }
    let r = finish_modify(lints, settings, code_impls, news);
    assert(ims_of(ims0, p0.artifacts@));
    r
}
} // verus!
