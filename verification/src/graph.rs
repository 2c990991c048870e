//! The family graph of the artifacts: an edge from each artifact to each
//! artifact that lists it in `partof`, and the `parts` read from it.
use vstd::prelude::*;
use petgraph::graphmap::{DiGraphMap, GraphMap};
use crate::family::{has_key, keys_unique, raws, Names};
use crate::implemented::{
    find_name_pair, first_index, insert_by_name, lemma_first_index, lemma_upsert_name_keys,
    name_keys_of, upsert_name,
};
use crate::name::{upper, Name};

verus! {

#[verifier::external_type_specification]
#[verifier::external_body]
#[verifier::reject_recursive_types(N)]
#[verifier::reject_recursive_types(E)]
#[verifier::reject_recursive_types(Ty)]
#[verifier::reject_recursive_types(S)]
pub struct ExGraphMap<N, E, Ty, S>(GraphMap<N, E, Ty, S>) where S: std::hash::BuildHasher;

#[verifier::external_type_specification]
#[verifier::external_body]
pub struct ExDirected(petgraph::Directed);

/// The edges of a graph, in the order they were first added.
pub uninterp spec fn graph_edges(g: DiGraphMap<u32, ()>) -> Seq<(u32, u32)>;

/// The nodes of a graph, in the order they were first added.
pub uninterp spec fn graph_nodes(g: DiGraphMap<u32, ()>) -> Seq<u32>;

/// `s` with `x` appended unless it is already there.
pub open spec fn add_absent<T>(s: Seq<T>, x: T) -> Seq<T> {
    if s.contains(x) {
        s
    } else {
        s.push(x)
    }
}

/// The targets of the edges from `a`, in the order of the edges.
pub open spec fn out_targets(edges: Seq<(u32, u32)>, a: u32) -> Seq<u32>
    decreases edges.len(),
{
    if edges.len() == 0 {
        seq![]
    } else if edges.last().0 == a {
        out_targets(edges.drop_last(), a).push(edges.last().1)
    } else {
        out_targets(edges.drop_last(), a)
    }
}

/// `DiGraphMap::new`: a graph with no nodes and no edges.
#[verifier::external_body]
fn graph_new() -> (r: DiGraphMap<u32, ()>)
    ensures
        graph_edges(r) == Seq::<(u32, u32)>::empty(),
        graph_nodes(r) == Seq::<u32>::empty(),
{
    DiGraphMap::new()
}

/// `GraphMap::add_node`: the node is added unless it is there (the node
/// map's `entry(n).or_default()`); edges are unchanged.
#[verifier::external_body]
fn graph_add_node(g: &mut DiGraphMap<u32, ()>, n: u32)
    ensures
        graph_edges(*final(g)) == graph_edges(*old(g)),
        graph_nodes(*final(g)) == add_absent(graph_nodes(*old(g)), n),
{
    g.add_node(n);
}

/// `GraphMap::add_edge` (with the weight `()`): a new edge is appended to
/// the edge map and its end nodes are added unless they are there; an
/// existing edge changes nothing (no parallel edges).
#[verifier::external_body]
fn graph_add_edge(g: &mut DiGraphMap<u32, ()>, a: u32, b: u32)
    ensures
        graph_edges(*final(g)) == add_absent(graph_edges(*old(g)), (a, b)),
        graph_edges(*old(g)).contains((a, b)) ==> graph_nodes(*final(g)) == graph_nodes(*old(g)),
        !graph_edges(*old(g)).contains((a, b)) ==> graph_nodes(*final(g)) == add_absent(
            add_absent(graph_nodes(*old(g)), a),
            b,
        ),
{
    g.add_edge(a, b, ());
}

/// `order` holds each node of `nodes` once, and each edge goes from an
/// earlier node of `order` to a later one.
pub open spec fn is_topo_order(nodes: Seq<u32>, edges: Seq<(u32, u32)>, order: Seq<u32>) -> bool {
    &&& order.no_duplicates()
    &&& order.to_set() == nodes.to_set()
    &&& forall|i: int, j: int|
        0 <= i < order.len() && 0 <= j < order.len() && edges.contains(
            (#[trigger] order[i], #[trigger] order[j]),
        ) ==> i < j
}

/// `petgraph::algo::toposort(g, None)`, its `Err` (a cycle) turned into
/// `None`. Claimed, as its documentation says: `Ok` holds the nodes in
/// topological order, each before its successors; `Err` comes only where
/// the graph has a cycle (a self loop counts), that is where no such order
/// exists. Which of the topological orders comes back is not stated.
#[verifier::external_body]
fn graph_toposort(g: &DiGraphMap<u32, ()>) -> (r: Option<Vec<u32>>)
    ensures
        match r {
            Some(v) => is_topo_order(graph_nodes(*g), graph_edges(*g), v@),
            None => forall|v: Seq<u32>| !is_topo_order(graph_nodes(*g), graph_edges(*g), v),
        },
{
    petgraph::algo::toposort(g, None).ok()
}

/// `GraphMap::neighbors` of a directed graph: the targets of the edges
/// from `a`, in the order the edges were added (the `Outgoing` entries of
/// `a`'s adjacency list).
#[verifier::external_body]
fn graph_neighbors(g: &DiGraphMap<u32, ()>, a: u32) -> (r: Vec<u32>)
    ensures
        r@ == out_targets(graph_edges(*g), a),
{
    g.neighbors(a).collect()
}

// ------------------------------------------------------------------
// Ids

/// Give each of `names` in turn the next id, from `next` on: a name seen
/// before takes the new id but keeps its place.
pub open spec fn ids_step(ids: Seq<(Name, u32)>, next: nat, names: Seq<Name>) -> (
    Seq<(Name, u32)>,
    nat,
)
    decreases names.len(),
{
    if names.len() == 0 {
        (ids, next)
    } else {
        let (i2, n2) = ids_step(ids, next, names.drop_last());
        (upsert_name(i2, names.last(), n2 as u32), n2 + 1)
    }
}

/// The ids of the names of `partofs`, from 1 on: each artifact and then
/// each name of its `partof`; and the next unused id.
pub open spec fn ids_of(partofs: Seq<(Name, Names)>) -> (Seq<(Name, u32)>, nat)
    decreases partofs.len(),
{
    if partofs.len() == 0 {
        (seq![], 1)
    } else {
        let (i, n) = ids_of(partofs.drop_last());
        ids_step(i, n, seq![partofs.last().0] + partofs.last().1.0@)
    }
}

/// The number of names `partofs` holds, counting repeats.
pub open spec fn id_count(partofs: Seq<(Name, Names)>) -> nat
    decreases partofs.len(),
{
    if partofs.len() == 0 {
        0
    } else {
        id_count(partofs.drop_last()) + 1 + partofs.last().1.0@.len()
    }
}

proof fn lemma_ids_step_next(ids: Seq<(Name, u32)>, next: nat, names: Seq<Name>)
    ensures
        ids_step(ids, next, names).1 == next + names.len(),
    decreases names.len(),
{
    if names.len() > 0 {
        lemma_ids_step_next(ids, next, names.drop_last());
    }
}

proof fn lemma_ids_next(partofs: Seq<(Name, Names)>)
    ensures
        ids_of(partofs).1 == 1 + id_count(partofs),
    decreases partofs.len(),
{
    if partofs.len() > 0 {
        lemma_ids_next(partofs.drop_last());
        let (i, n) = ids_of(partofs.drop_last());
        lemma_ids_step_next(i, n, seq![partofs.last().0] + partofs.last().1.0@);
    }
}

proof fn lemma_id_count_prefix(partofs: Seq<(Name, Names)>, k: int)
    requires
        0 <= k <= partofs.len(),
    ensures
        id_count(partofs.take(k)) + 1 + (if k < partofs.len() {
            partofs[k].1.0@.len()
        } else {
            0
        }) <= id_count(partofs) + 1,
    decreases partofs.len() - k,
{
    if k < partofs.len() {
        assert(partofs.take(k + 1).drop_last() =~= partofs.take(k));
        if k + 1 < partofs.len() {
            lemma_id_count_prefix(partofs, k + 1);
        } else {
            assert(partofs.take(k + 1) =~= partofs);
        }
    } else {
        assert(partofs.take(k) =~= partofs);
    }
}

/// The id of the name with key `key` in `ids`.
pub open spec fn id_of(ids: Seq<(Name, u32)>, key: Seq<char>) -> u32 {
    ids[first_index(name_keys_of(ids), key)].1
}

/// The ids are all different and all below `next`.
pub open spec fn ids_fresh(ids: Seq<(Name, u32)>, next: nat) -> bool {
    &&& forall|i: int| 0 <= i < ids.len() ==> (#[trigger] ids[i]).1 < next
    &&& forall|i: int, j: int|
        0 <= i < ids.len() && 0 <= j < ids.len() && i != j ==> (#[trigger] ids[i]).1 != (
        #[trigger] ids[j]).1
}

/// Give each of `names[..]` the next id (see [`ids_step`]).
fn assign_ids(ids: &mut Vec<(Name, u32)>, next: &mut u32, names: &Vec<Name>)
    requires
        *old(next) + names@.len() <= u32::MAX,
        *old(next) >= 1,
        name_keys_of(old(ids)@).no_duplicates(),
        ids_fresh(old(ids)@, *old(next) as nat),
        forall|k: int| 0 <= k < old(ids)@.len() ==> (#[trigger] old(ids)@[k]).0.wf(),
        forall|k: int| 0 <= k < names@.len() ==> (#[trigger] names@[k]).wf(),
    ensures
        forall|k: int| 0 <= k < final(ids)@.len() ==> (#[trigger] final(ids)@[k]).0.wf(),
        (final(ids)@, *final(next) as nat) == ids_step(old(ids)@, *old(next) as nat, names@),
        name_keys_of(final(ids)@).no_duplicates(),
        ids_fresh(final(ids)@, *final(next) as nat),
        forall|k: int|
            0 <= k < old(ids)@.len() ==> name_keys_of(final(ids)@).contains(
                #[trigger] name_keys_of(old(ids)@)[k],
            ),
        forall|k: int|
            0 <= k < names@.len() ==> name_keys_of(final(ids)@).contains(
                (#[trigger] names@[k]).key_v(),
            ),
{
    let ghost i0 = ids@;
    let ghost n0 = *next as nat;
    let mut j: usize = 0;
    assert(names@.take(0) =~= seq![]);
    while j < names.len()
        invariant
            j <= names@.len(),
            *next as nat == n0 + j,
            n0 + names@.len() <= u32::MAX,
            (ids@, *next as nat) == ids_step(i0, n0, names@.take(j as int)),
            name_keys_of(ids@).no_duplicates(),
            ids_fresh(ids@, *next as nat),
            forall|k: int| 0 <= k < ids@.len() ==> (#[trigger] ids@[k]).0.wf(),
            forall|k: int| 0 <= k < names@.len() ==> (#[trigger] names@[k]).wf(),
            forall|k: int| 0 <= k < i0.len() ==> name_keys_of(ids@).contains(
                #[trigger] name_keys_of(i0)[k],
            ),
            forall|k: int| 0 <= k < j ==> name_keys_of(ids@).contains((#[trigger] names@[k]).key_v()),
        decreases names@.len() - j,
    {
        let n = names[j].clone();
        let ghost before = ids@;
        proof {
            lemma_upsert_name_keys(before, n, *next);
            lemma_first_index(name_keys_of(before), n.key_v());
            assert(names@.take(j + 1).drop_last() =~= names@.take(j as int));
            assert(names@.take(j + 1).last() == n);
        }
        let _ = insert_by_name(ids, n, *next);
        proof {
            let a = ids@;
            let fi = first_index(name_keys_of(before), n.key_v());
            assert forall|x: int| 0 <= x < a.len() implies (#[trigger] a[x]).1 < *next + 1 by {
                if x < before.len() && x != fi {
                    assert(a[x] == before[x]);
                }
            }
            assert forall|x: int| 0 <= x < a.len() implies (#[trigger] a[x]).0.wf() by {
                if x < before.len() && x != fi {
                    assert(a[x] == before[x]);
                } else if x < before.len() {
                    assert(a[x].0 == before[x].0);
                }
            }
            assert forall|x: int, y: int|
                0 <= x < a.len() && 0 <= y < a.len() && x != y implies (#[trigger] a[x]).1 != (
                #[trigger] a[y]).1 by {
                if x < before.len() && x != fi {
                    assert(a[x] == before[x]);
                }
                if y < before.len() && y != fi {
                    assert(a[y] == before[y]);
                }
            }
            assert forall|k: int| 0 <= k < i0.len() implies name_keys_of(a).contains(
                #[trigger] name_keys_of(i0)[k],
            ) by {
                let w = choose|w: int|
                    0 <= w < name_keys_of(before).len() && name_keys_of(before)[w]
                        == name_keys_of(i0)[k];
                if fi < 0 {
                    assert(name_keys_of(a)[w] == name_keys_of(before)[w]);
                } else {
                    assert(name_keys_of(a) == name_keys_of(before));
                }
            }
            assert forall|k: int| 0 <= k < j + 1 implies name_keys_of(a).contains(
                (#[trigger] names@[k]).key_v(),
            ) by {
                if k < j {
                    let w = choose|w: int|
                        0 <= w < name_keys_of(before).len() && name_keys_of(before)[w]
                            == names@[k].key_v();
                    if fi < 0 {
                        assert(name_keys_of(a)[w] == name_keys_of(before)[w]);
                    } else {
                        assert(name_keys_of(a) == name_keys_of(before));
                    }
                }
            }
        }
        *next = *next + 1;
        j = j + 1;
    }
    assert(names@.take(names@.len() as int) =~= names@);
}

/// Unique ids for the graph: each artifact and then each name of its
/// `partof` gets the next id from 1 on; a name seen again gets a new id.
pub fn create_ids(partofs: &Vec<(Name, Names)>) -> (r: Vec<(Name, u32)>)
    requires
        id_count(partofs@) < u32::MAX,
        forall|i: int| 0 <= i < partofs@.len() ==> (#[trigger] partofs@[i]).0.wf(),
        forall|i: int| 0 <= i < partofs@.len() ==> (#[trigger] partofs@[i]).1.wf(),
    ensures
        forall|k: int| 0 <= k < r@.len() ==> (#[trigger] r@[k]).0.wf(),
        r@ == ids_of(partofs@).0,
        name_keys_of(r@).no_duplicates(),
        ids_fresh(r@, ids_of(partofs@).1),
        forall|i: int|
            0 <= i < partofs@.len() ==> name_keys_of(r@).contains((#[trigger] partofs@[i]).0.key_v()),
        forall|i: int, k: int|
            0 <= i < partofs@.len() && 0 <= k < partofs@[i].1.0@.len() ==> name_keys_of(
                r@,
            ).contains((#[trigger] partofs@[i].1.0@[k]).key_v()),
{
    let mut out: Vec<(Name, u32)> = Vec::new();
    let mut id: u32 = 1;
    let mut i: usize = 0;
    proof {
        lemma_ids_next(partofs@);
    }
    assert(partofs@.take(0) =~= seq![]);
    assert(name_keys_of(out@) =~= seq![]);
    while i < partofs.len()
        invariant
            i <= partofs@.len(),
            id_count(partofs@) < u32::MAX,
            ids_of(partofs@).1 == 1 + id_count(partofs@),
            (out@, id as nat) == ids_of(partofs@.take(i as int)),
            id as nat == 1 + id_count(partofs@.take(i as int)),
            name_keys_of(out@).no_duplicates(),
            ids_fresh(out@, id as nat),
            id >= 1,
            forall|k: int| 0 <= k < out@.len() ==> (#[trigger] out@[k]).0.wf(),
            forall|x: int| 0 <= x < partofs@.len() ==> (#[trigger] partofs@[x]).0.wf(),
            forall|x: int| 0 <= x < partofs@.len() ==> (#[trigger] partofs@[x]).1.wf(),
            forall|x: int|
                0 <= x < i ==> name_keys_of(out@).contains((#[trigger] partofs@[x]).0.key_v()),
            forall|x: int, k: int|
                0 <= x < i && 0 <= k < partofs@[x].1.0@.len() ==> name_keys_of(out@).contains(
                    (#[trigger] partofs@[x].1.0@[k]).key_v(),
                ),
        decreases partofs@.len() - i,
    {
        let mut names: Vec<Name> = Vec::new();
        names.push(partofs[i].0.clone());
        let pof = &partofs[i].1.0;
        let mut k: usize = 0;
        while k < pof.len()
            invariant
                k <= pof@.len(),
                names@ == seq![partofs@[i as int].0] + pof@.take(k as int),
            decreases pof@.len() - k,
        {
            names.push(pof[k].clone());
            k = k + 1;
            assert(names@ =~= seq![partofs@[i as int].0] + pof@.take(k as int));
        }
        assert(pof@.take(pof@.len() as int) =~= pof@);
        assert forall|x: int| 0 <= x < names@.len() implies (#[trigger] names@[x]).wf() by {
            if x > 0 {
                assert(names@[x] == pof@[x - 1]);
                assert(partofs@[i as int].1.wf());
            }
        }
        let ghost before = out@;
        proof {
            lemma_id_count_prefix(partofs@, i as int);
            assert(partofs@.take(i + 1).drop_last() =~= partofs@.take(i as int));
            assert(partofs@.take(i + 1).last() == partofs@[i as int]);
            lemma_ids_next(partofs@.take(i + 1));
            lemma_id_count_prefix(partofs@, i + 1);
        }
        assign_ids(&mut out, &mut id, &names);
        proof {
            assert forall|x: int| 0 <= x < i + 1 implies name_keys_of(out@).contains(
                (#[trigger] partofs@[x]).0.key_v(),
            ) by {
                if x < i {
                    let w = choose|w: int|
                        0 <= w < name_keys_of(before).len() && name_keys_of(before)[w]
                            == partofs@[x].0.key_v();
                    assert(name_keys_of(out@).contains(name_keys_of(before)[w]));
                } else {
                    assert(names@[0] == partofs@[x].0);
                }
            }
            assert forall|x: int, k: int|
                0 <= x < i + 1 && 0 <= k < partofs@[x].1.0@.len() implies name_keys_of(
                out@,
            ).contains((#[trigger] partofs@[x].1.0@[k]).key_v()) by {
                if x < i {
                    let w = choose|w: int|
                        0 <= w < name_keys_of(before).len() && name_keys_of(before)[w]
                            == partofs@[x].1.0@[k].key_v();
                    assert(name_keys_of(out@).contains(name_keys_of(before)[w]));
                } else {
                    assert(names@[k + 1] == partofs@[x].1.0@[k]);
                }
            }
        }
        i = i + 1;
    }
    assert(partofs@.take(partofs@.len() as int) =~= partofs@);
    out
}

// ------------------------------------------------------------------
// The graph

/// The edges added for one artifact of id `id`: one from the id of each
/// name of its `partof` `pof`.
pub open spec fn edges_step(
    edges: Seq<(u32, u32)>,
    ids: Seq<(Name, u32)>,
    pof: Seq<Name>,
    id: u32,
) -> Seq<(u32, u32)>
    decreases pof.len(),
{
    if pof.len() == 0 {
        edges
    } else {
        add_absent(edges_step(edges, ids, pof.drop_last(), id), (id_of(ids, pof.last().key_v()), id))
    }
}

/// The edges of the graph of `partofs` with the ids `ids`, in order.
pub open spec fn edges_of(partofs: Seq<(Name, Names)>, ids: Seq<(Name, u32)>) -> Seq<(u32, u32)>
    decreases partofs.len(),
{
    if partofs.len() == 0 {
        seq![]
    } else {
        edges_step(
            edges_of(partofs.drop_last(), ids),
            ids,
            partofs.last().1.0@,
            id_of(ids, partofs.last().0.key_v()),
        )
    }
}

/// The nodes added for one artifact: its own, then those of the new edges.
pub open spec fn nodes_step(
    nodes: Seq<u32>,
    edges: Seq<(u32, u32)>,
    ids: Seq<(Name, u32)>,
    pof: Seq<Name>,
    id: u32,
) -> Seq<u32>
    decreases pof.len(),
{
    if pof.len() == 0 {
        add_absent(nodes, id)
    } else {
        let prev = nodes_step(nodes, edges, ids, pof.drop_last(), id);
        let e = (id_of(ids, pof.last().key_v()), id);
        if edges_step(edges, ids, pof.drop_last(), id).contains(e) {
            prev
        } else {
            add_absent(add_absent(prev, e.0), e.1)
        }
    }
}

/// The nodes of the graph of `partofs`, in order.
pub open spec fn nodes_of(partofs: Seq<(Name, Names)>, ids: Seq<(Name, u32)>) -> Seq<u32>
    decreases partofs.len(),
{
    if partofs.len() == 0 {
        seq![]
    } else {
        nodes_step(
            nodes_of(partofs.drop_last(), ids),
            edges_of(partofs.drop_last(), ids),
            ids,
            partofs.last().1.0@,
            id_of(ids, partofs.last().0.key_v()),
        )
    }
}

/// The family graph: the ids of the names both ways, and an edge from
/// each artifact to each artifact that lists it in `partof`.
pub struct Graphs {
    pub lookup_name: Vec<(u32, Name)>,
    pub lookup_id: Vec<(Name, u32)>,
    pub full: DiGraphMap<u32, ()>,
}

/// `ids` with each pair turned around.
pub open spec fn flip(ids: Seq<(Name, u32)>) -> Seq<(u32, Name)> {
    ids.map_values(|p: (Name, u32)| (p.1, p.0))
}

/// Is `id` the id of some name of `ids`?
pub open spec fn has_id(ids: Seq<(Name, u32)>, id: u32) -> bool {
    exists|k: int| 0 <= k < ids.len() && (#[trigger] ids[k]).1 == id
}

impl Graphs {
    /// The two lookups agree, ids are unique, every name is well formed,
    /// and every edge ends at a known id.
    pub open spec fn wf(&self) -> bool {
        &&& self.lookup_name@ == flip(self.lookup_id@)
        &&& name_keys_of(self.lookup_id@).no_duplicates()
        &&& ids_fresh(self.lookup_id@, u32::MAX as nat + 1)
        &&& forall|k: int| 0 <= k < self.lookup_id@.len() ==> (#[trigger] self.lookup_id@[k]).0.wf()
        &&& forall|e: (u32, u32)| #[trigger]
            graph_edges(self.full).contains(e) ==> has_id(self.lookup_id@, e.1)
    }
}

/// The id of the name of key `key`, which `ids` holds.
fn lookup_id(ids: &Vec<(Name, u32)>, key: &String) -> (r: u32)
    requires
        name_keys_of(ids@).contains(key@),
    ensures
        r == id_of(ids@, key@),
        has_id(ids@, r),
{
    proof {
        lemma_first_index(name_keys_of(ids@), key@);
    }
    match find_name_pair(ids.as_slice(), key) {
        Some(i) => ids[i].1,
        None => {
            assert(false);
            0
        },
    }
}

proof fn lemma_add_absent_contains<T>(s: Seq<T>, x: T, e: T)
    ensures
        add_absent(s, x).contains(e) <==> (s.contains(e) || e == x),
{
    if !s.contains(x) {
        let t = s.push(x);
        if t.contains(e) {
            let k = choose|k: int| 0 <= k < t.len() && t[k] == e;
            if k < s.len() {
                assert(s[k] == e);
            }
        }
        if s.contains(e) {
            let k = choose|k: int| 0 <= k < s.len() && s[k] == e;
            assert(t[k] == e);
        }
        if e == x {
            assert(t[s.len() as int] == e);
        }
    }
}

/// The graph of the artifacts' full `partof`.
pub fn determine_graphs(partofs: &Vec<(Name, Names)>) -> (r: Graphs)
    requires
        id_count(partofs@) < u32::MAX,
        forall|i: int| 0 <= i < partofs@.len() ==> (#[trigger] partofs@[i]).0.wf(),
        forall|i: int| 0 <= i < partofs@.len() ==> (#[trigger] partofs@[i]).1.wf(),
    ensures
        r.wf(),
        r.lookup_id@ == ids_of(partofs@).0,
        forall|i: int|
            0 <= i < partofs@.len() ==> name_keys_of(r.lookup_id@).contains(
                (#[trigger] partofs@[i]).0.key_v(),
            ),
        graph_edges(r.full) == edges_of(partofs@, r.lookup_id@),
        graph_nodes(r.full) == nodes_of(partofs@, r.lookup_id@),
        graph_of(r, partofs@),
{
    let ids = create_ids(partofs);
    let mut g = graph_new();
    let mut i: usize = 0;
    assert(partofs@.take(0) =~= seq![]);
    while i < partofs.len()
        invariant
            i <= partofs@.len(),
            name_keys_of(ids@).no_duplicates(),
            forall|x: int|
                0 <= x < partofs@.len() ==> name_keys_of(ids@).contains(
                    (#[trigger] partofs@[x]).0.key_v(),
                ),
            forall|x: int, k: int|
                0 <= x < partofs@.len() && 0 <= k < partofs@[x].1.0@.len() ==> name_keys_of(
                    ids@,
                ).contains((#[trigger] partofs@[x].1.0@[k]).key_v()),
            graph_edges(g) == edges_of(partofs@.take(i as int), ids@),
            graph_nodes(g) == nodes_of(partofs@.take(i as int), ids@),
            forall|e: (u32, u32)| #[trigger] graph_edges(g).contains(e) ==> has_id(ids@, e.1),
        decreases partofs@.len() - i,
    {
        let ghost e0 = graph_edges(g);
        let ghost n0 = graph_nodes(g);
        let id = lookup_id(&ids, &partofs[i].0.0.key);
        graph_add_node(&mut g, id);
        let pof = &partofs[i].1.0;
        let mut k: usize = 0;
        assert(pof@.take(0) =~= seq![]);
        while k < pof.len()
            invariant
                k <= pof@.len(),
                pof@ == partofs@[i as int].1.0@,
                name_keys_of(ids@).no_duplicates(),
                forall|x: int, j: int|
                    0 <= x < partofs@.len() && 0 <= j < partofs@[x].1.0@.len() ==> name_keys_of(
                        ids@,
                    ).contains((#[trigger] partofs@[x].1.0@[j]).key_v()),
                i < partofs@.len(),
                has_id(ids@, id),
                graph_edges(g) == edges_step(e0, ids@, pof@.take(k as int), id),
                graph_nodes(g) == nodes_step(n0, e0, ids@, pof@.take(k as int), id),
                forall|e: (u32, u32)| #[trigger] graph_edges(g).contains(e) ==> has_id(ids@, e.1),
            decreases pof@.len() - k,
        {
            assert(partofs@[i as int].1.0@[k as int] == pof@[k as int]);
            let src = lookup_id(&ids, &pof[k].0.key);
            let ghost ge = graph_edges(g);
            graph_add_edge(&mut g, src, id);
            proof {
                assert forall|e: (u32, u32)| #[trigger] graph_edges(g).contains(e) implies has_id(
                    ids@,
                    e.1,
                ) by {
                    lemma_add_absent_contains(ge, (src, id), e);
                }
                assert(pof@.take(k + 1).drop_last() =~= pof@.take(k as int));
                assert(pof@.take(k + 1).last() == pof@[k as int]);
            }
            k = k + 1;
        }
        proof {
            assert(pof@.take(pof@.len() as int) =~= pof@);
            assert(partofs@.take(i + 1).drop_last() =~= partofs@.take(i as int));
            assert(partofs@.take(i + 1).last() == partofs@[i as int]);
        }
        i = i + 1;
    }
    assert(partofs@.take(partofs@.len() as int) =~= partofs@);
    let mut lookup_name: Vec<(u32, Name)> = Vec::new();
    let mut j: usize = 0;
    while j < ids.len()
        invariant
            j <= ids@.len(),
            lookup_name@ == flip(ids@.take(j as int)),
        decreases ids@.len() - j,
    {
        lookup_name.push((ids[j].1, ids[j].0.clone()));
        j = j + 1;
        assert(lookup_name@ =~= flip(ids@.take(j as int)));
    }
    assert(ids@.take(ids@.len() as int) =~= ids@);
    Graphs { lookup_name, lookup_id: ids, full: g }
}

// ------------------------------------------------------------------
// Parts

/// The index of the first pair of `s` with id `id`, or -1.
pub open spec fn id_index(s: Seq<(u32, Name)>, id: u32) -> int
    decreases s.len(),
{
    if s.len() == 0 {
        -1
    } else if id_index(s.drop_last(), id) >= 0 {
        id_index(s.drop_last(), id)
    } else if s.last().0 == id {
        s.len() - 1
    } else {
        -1
    }
}

proof fn lemma_id_index(s: Seq<(u32, Name)>, id: u32)
    ensures
        -1 <= id_index(s, id) < s.len(),
        id_index(s, id) >= 0 ==> s[id_index(s, id)].0 == id,
        id_index(s, id) < 0 ==> forall|k: int| 0 <= k < s.len() ==> (#[trigger] s[k]).0 != id,
        forall|k: int| 0 <= k < id_index(s, id) ==> (#[trigger] s[k]).0 != id,
    decreases s.len(),
{
    if s.len() > 0 {
        lemma_id_index(s.drop_last(), id);
        assert forall|k: int| 0 <= k < s.len() - 1 implies #[trigger] s[k] == s.drop_last()[k] by {}
    }
}

/// The index of the first pair of `v` with id `id`.
fn find_id(v: &[(u32, Name)], id: u32) -> (r: Option<usize>)
    ensures
        match r {
            Some(i) => i as int == id_index(v@, id),
            None => id_index(v@, id) < 0,
        },
{
    proof {
        lemma_id_index(v@, id);
    }
    let mut i: usize = 0;
    while i < v.len()
        invariant
            i <= v@.len(),
            forall|k: int| 0 <= k < i ==> (#[trigger] v@[k]).0 != id,
            -1 <= id_index(v@, id) < v@.len(),
            id_index(v@, id) >= 0 ==> v@[id_index(v@, id)].0 == id,
            forall|k: int| 0 <= k < id_index(v@, id) ==> (#[trigger] v@[k]).0 != id,
        decreases v@.len() - i,
    {
        if v[i].0 == id {
            proof {
                let x = id_index(v@, id);
                if x < 0 {
                    lemma_id_index(v@, id);
                    assert(v@[i as int].0 != id);
                }
                if x > i {
                    assert(v@[i as int].0 != id);
                }
            }
            return Some(i);
        }
        i = i + 1;
    }
    proof {
        let x = id_index(v@, id);
        if x >= 0 {
            assert(v@[x].0 != id);
        }
    }
    None
}

/// The name of the id `id`.
pub open spec fn name_of_id(lookup: Seq<(u32, Name)>, id: u32) -> Name {
    lookup[id_index(lookup, id)].1
}

/// The raw names of the ids `ids`.
pub open spec fn id_raws(lookup: Seq<(u32, Name)>, ids: Seq<u32>) -> Seq<Seq<char>> {
    ids.map_values(|i: u32| name_of_id(lookup, i).raw_v())
}

proof fn lemma_out_targets(edges: Seq<(u32, u32)>, a: u32)
    ensures
        forall|k: int|
            0 <= k < out_targets(edges, a).len() ==> edges.contains(
                (a, #[trigger] out_targets(edges, a)[k]),
            ),
    decreases edges.len(),
{
    if edges.len() > 0 {
        lemma_out_targets(edges.drop_last(), a);
        let p = out_targets(edges.drop_last(), a);
        assert forall|k: int| 0 <= k < out_targets(edges, a).len() implies edges.contains(
            (a, #[trigger] out_targets(edges, a)[k]),
        ) by {
            if k < p.len() {
                assert(out_targets(edges, a)[k] == p[k]);
                let w = choose|w: int|
                    0 <= w < edges.drop_last().len() && edges.drop_last()[w] == (a, p[k]);
                assert(edges[w] == edges.drop_last()[w]);
            } else {
                assert(edges[edges.len() - 1] == (a, out_targets(edges, a)[k]));
            }
        }
    }
}

/// The raw names of the `parts` of the name of key `key`: the names at
/// the ends of the edges from its id, each key once.
pub open spec fn parts_raws(g: Graphs, key: Seq<char>) -> Seq<Seq<char>> {
    crate::name::dedup_keys(
        id_raws(g.lookup_name@, out_targets(graph_edges(g.full), id_of(g.lookup_id@, key))),
    )
}

/// `g` is the family graph of `partofs`: its ids are those of
/// [`ids_of`], and its edges go from each name of an entry's `partof` to
/// that entry.
pub open spec fn graph_of(g: Graphs, partofs: Seq<(Name, Names)>) -> bool {
    &&& g.wf()
    &&& g.lookup_id@ == ids_of(partofs).0
    &&& graph_edges(g.full) == edges_of(partofs, g.lookup_id@)
}

/// `r` holds, for each name of the graph `g` in order, the names at the
/// ends of the edges from it, each key once.
pub open spec fn parts_of(r: Seq<(Name, Names)>, g: Graphs) -> bool {
    &&& r.len() == g.lookup_name@.len()
    &&& forall|k: int|
        0 <= k < r.len() ==> {
            &&& (#[trigger] r[k]).0 == g.lookup_name@[k].1
            &&& r[k].1.wf()
            &&& raws(r[k].1.0@) == crate::name::dedup_keys(
                id_raws(g.lookup_name@, out_targets(graph_edges(g.full), g.lookup_name@[k].0)),
            )
        }
}

/// The `parts` of each name of the graph: the names that list it in
/// `partof`, in the order their edges were added.
pub fn determine_parts(graphs: &Graphs) -> (r: Vec<(Name, Names)>)
    requires
        graphs.wf(),
    ensures
        r@.len() == graphs.lookup_name@.len(),
        forall|k: int|
            0 <= k < r@.len() ==> {
                &&& (#[trigger] r@[k]).0 == graphs.lookup_name@[k].1
                &&& r@[k].1.wf()
                &&& raws(r@[k].1.0@) == crate::name::dedup_keys(
                    id_raws(
                        graphs.lookup_name@,
                        out_targets(graph_edges(graphs.full), graphs.lookup_name@[k].0),
                    ),
                )
            },
        parts_of(r@, *graphs),
{
    let lookup = &graphs.lookup_name;
    let ghost edges = graph_edges(graphs.full);
    let mut out: Vec<(Name, Names)> = Vec::new();
    let mut k: usize = 0;
    while k < lookup.len()
        invariant
            graphs.wf(),
            lookup@ == graphs.lookup_name@,
            edges == graph_edges(graphs.full),
            k <= lookup@.len(),
            out@.len() == k,
            forall|x: int|
                0 <= x < k ==> {
                    &&& (#[trigger] out@[x]).0 == lookup@[x].1
                    &&& out@[x].1.wf()
                    &&& raws(out@[x].1.0@) == crate::name::dedup_keys(
                        id_raws(lookup@, out_targets(edges, lookup@[x].0)),
                    )
                },
        decreases lookup@.len() - k,
    {
        let id = lookup[k].0;
        let targets = graph_neighbors(&graphs.full, id);
        proof {
            lemma_out_targets(edges, id);
        }
        let mut parts = Names::new();
        let ghost tr = id_raws(lookup@, targets@);
        let mut j: usize = 0;
        assert(tr.take(0) =~= seq![]);
        assert(raws(parts.0@) =~= seq![]);
        while j < targets.len()
            invariant
                graphs.wf(),
                lookup@ == graphs.lookup_name@,
                edges == graph_edges(graphs.full),
                targets@ == out_targets(edges, id),
                forall|x: int|
                    0 <= x < targets@.len() ==> edges.contains((id, #[trigger] targets@[x])),
                tr == id_raws(lookup@, targets@),
                j <= targets@.len(),
                parts.wf(),
                raws(parts.0@) == crate::name::dedup_keys(tr.take(j as int)),
            decreases targets@.len() - j,
        {
            let t = targets[j];
            proof {
                assert(edges.contains((id, t)));
                let e = (id, t);
                assert(graph_edges(graphs.full).contains(e));
                assert(has_id(graphs.lookup_id@, e.1));
                let w = choose|w: int|
                    0 <= w < graphs.lookup_id@.len() && (#[trigger] graphs.lookup_id@[w]).1 == t;
                assert(lookup@[w] == (graphs.lookup_id@[w].1, graphs.lookup_id@[w].0));
                lemma_id_index(lookup@, t);
            }
            let idx = match find_id(lookup.as_slice(), t) {
                Some(x) => x,
                None => {
                    proof {
                        let w = choose|w: int|
                            0 <= w < graphs.lookup_id@.len() && (#[trigger] graphs.lookup_id@[w]).1
                                == t;
                        assert(lookup@[w].0 == t);
                    }
                    assert(false);
                    0
                },
            };
            let n = lookup[idx].1.clone();
            let ghost before = parts.0@;
            let ghost x = tr[j as int];
            proof {
                let w = idx as int;
                assert(lookup@[w] == (graphs.lookup_id@[w].1, graphs.lookup_id@[w].0));
                assert(n.wf());
                assert(x == n.raw_v());
                assert(tr.take(j + 1).drop_last() =~= tr.take(j as int));
                assert(tr.take(j + 1).last() == x);
                if has_key(before, n.key_v()) {
                    let w = choose|w: int| 0 <= w < before.len() && (#[trigger] before[w]).key_v()
                        == n.key_v();
                    assert(raws(before)[w] == before[w].raw_v());
                    assert(before[w].wf());
                    assert(crate::name::upper(raws(before)[w]) == crate::name::upper(x));
                }
                if exists|w: int|
                    0 <= w < raws(before).len() && crate::name::upper(#[trigger] raws(before)[w])
                        == crate::name::upper(x) {
                    let w = choose|w: int|
                        0 <= w < raws(before).len() && crate::name::upper(
                            #[trigger] raws(before)[w],
                        ) == crate::name::upper(x);
                    assert(before[w].wf());
                    assert(before[w].key_v() == n.key_v());
                }
            }
            parts.insert(n);
            j = j + 1;
            assert(raws(parts.0@) =~= crate::name::dedup_keys(tr.take(j as int)));
        }
        assert(tr.take(targets@.len() as int) =~= tr);
        let name = lookup[k].1.clone();
        out.push((name, parts));
        k = k + 1;
    }
    out
}

// ------------------------------------------------------------------
// Parts are the inverse of partof

/// The edge `(a, b)` is one that `pof` adds for the artifact of id `id`.
pub open spec fn step_edge(ids: Seq<(Name, u32)>, pof: Seq<Name>, id: u32, e: (u32, u32)) -> bool {
    exists|k: int| 0 <= k < pof.len() && e == (id_of(ids, (#[trigger] pof[k]).key_v()), id)
}

/// The edge `e` goes from a name of some artifact's `partof` to that
/// artifact.
pub open spec fn partof_edge(partofs: Seq<(Name, Names)>, ids: Seq<(Name, u32)>, e: (u32, u32)) -> bool {
    exists|i: int|
        0 <= i < partofs.len() && step_edge(
            ids,
            (#[trigger] partofs[i]).1.0@,
            id_of(ids, partofs[i].0.key_v()),
            e,
        )
}

proof fn lemma_edges_step(edges: Seq<(u32, u32)>, ids: Seq<(Name, u32)>, pof: Seq<Name>, id: u32, e: (u32, u32))
    ensures
        edges_step(edges, ids, pof, id).contains(e) <==> (edges.contains(e) || step_edge(ids, pof, id, e)),
    decreases pof.len(),
{
    if pof.len() > 0 {
        let prev = edges_step(edges, ids, pof.drop_last(), id);
        lemma_edges_step(edges, ids, pof.drop_last(), id, e);
        let x = (id_of(ids, pof.last().key_v()), id);
        lemma_add_absent_contains(prev, x, e);
        if step_edge(ids, pof.drop_last(), id, e) {
            let k = choose|k: int| 0 <= k < pof.drop_last().len() && e == (id_of(ids, (#[trigger] pof.drop_last()[k]).key_v()), id);
            assert(pof[k] == pof.drop_last()[k]);
        }
        if step_edge(ids, pof, id, e) {
            let k = choose|k: int| 0 <= k < pof.len() && e == (id_of(ids, (#[trigger] pof[k]).key_v()), id);
            if k < pof.len() - 1 {
                assert(pof.drop_last()[k] == pof[k]);
            }
        }
        assert(e == x ==> step_edge(ids, pof, id, e)) by {
            assert(pof[pof.len() - 1] == pof.last());
        }
    }
}

/// An edge of the family graph goes from `a` to `b` exactly when the
/// artifact of id `b` lists a name of id `a` in its `partof`.
pub proof fn lemma_edges_of(partofs: Seq<(Name, Names)>, ids: Seq<(Name, u32)>, e: (u32, u32))
    ensures
        edges_of(partofs, ids).contains(e) <==> partof_edge(partofs, ids, e),
    decreases partofs.len(),
{
    if partofs.len() > 0 {
        let rest = partofs.drop_last();
        lemma_edges_of(rest, ids, e);
        lemma_edges_step(edges_of(rest, ids), ids, partofs.last().1.0@, id_of(ids, partofs.last().0.key_v()), e);
        if partof_edge(rest, ids, e) {
            let i = choose|i: int|
                0 <= i < rest.len() && step_edge(ids, (#[trigger] rest[i]).1.0@, id_of(ids, rest[i].0.key_v()), e);
            assert(partofs[i] == rest[i]);
        }
        if partof_edge(partofs, ids, e) {
            let i = choose|i: int|
                0 <= i < partofs.len() && step_edge(ids, (#[trigger] partofs[i]).1.0@, id_of(ids, partofs[i].0.key_v()), e);
            if i < partofs.len() - 1 {
                assert(rest[i] == partofs[i]);
            }
        }
        assert(step_edge(ids, partofs.last().1.0@, id_of(ids, partofs.last().0.key_v()), e) ==> partof_edge(partofs, ids, e)) by {
            assert(partofs[partofs.len() - 1] == partofs.last());
        }
    }
}

/// `b` is a target of the edges from `a` exactly when `(a, b)` is an edge.
pub proof fn lemma_out_targets_contains(edges: Seq<(u32, u32)>, a: u32, b: u32)
    ensures
        out_targets(edges, a).contains(b) <==> edges.contains((a, b)),
    decreases edges.len(),
{
    if edges.len() > 0 {
        let rest = edges.drop_last();
        lemma_out_targets_contains(rest, a, b);
        let t = out_targets(rest, a);
        if t.contains(b) {
            let k = choose|k: int| 0 <= k < t.len() && t[k] == b;
            if edges.last().0 == a {
                assert(out_targets(edges, a)[k] == b);
            }
        }
        if rest.contains((a, b)) {
            let w = choose|w: int| 0 <= w < rest.len() && rest[w] == (a, b);
            assert(edges[w] == rest[w]);
        }
        if edges.contains((a, b)) {
            let w = choose|w: int| 0 <= w < edges.len() && edges[w] == (a, b);
            if w < edges.len() - 1 {
                assert(rest[w] == edges[w]);
            }
        }
        if out_targets(edges, a).contains(b) {
            let k = choose|k: int| 0 <= k < out_targets(edges, a).len() && out_targets(edges, a)[k] == b;
            if edges.last().0 == a && k == t.len() {
                assert(edges[edges.len() - 1] == (a, b));
            } else {
                assert(t[k] == b);
            }
        }
        if edges.last() == (a, b) {
            assert(out_targets(edges, a)[t.len() as int] == b);
        }
    }
}

/// Parts are the inverse of `partof`: in the family graph of `partofs`,
/// the artifact of id `b` is among the parts of the artifact of id `a`
/// exactly when it lists a name of id `a` in its `partof`.
pub proof fn lemma_parts_inverse_of_partof(partofs: Seq<(Name, Names)>, ids: Seq<(Name, u32)>, a: u32, b: u32)
    ensures
        out_targets(edges_of(partofs, ids), a).contains(b) <==> exists|i: int, k: int|
            0 <= i < partofs.len() && 0 <= k < partofs[i].1.0@.len() && b == id_of(
                ids,
                (#[trigger] partofs[i]).0.key_v(),
            ) && a == id_of(ids, (#[trigger] partofs[i].1.0@[k]).key_v()),
{
    lemma_out_targets_contains(edges_of(partofs, ids), a, b);
    lemma_edges_of(partofs, ids, (a, b));
    if partof_edge(partofs, ids, (a, b)) {
        let i = choose|i: int|
            0 <= i < partofs.len() && step_edge(ids, (#[trigger] partofs[i]).1.0@, id_of(ids, partofs[i].0.key_v()), (a, b));
        let k = choose|k: int| 0 <= k < partofs[i].1.0@.len() && (a, b) == (id_of(ids, (#[trigger] partofs[i].1.0@[k]).key_v()), id_of(ids, partofs[i].0.key_v()));
        assert(partofs[i].1.0@[k] == partofs[i].1.0@[k]);
    }
    if exists|i: int, k: int|
        0 <= i < partofs.len() && 0 <= k < partofs[i].1.0@.len() && b == id_of(ids, (#[trigger] partofs[i]).0.key_v()) && a == id_of(ids, (#[trigger] partofs[i].1.0@[k]).key_v())
    {
        let (i, k) = choose|i: int, k: int|
            0 <= i < partofs.len() && 0 <= k < partofs[i].1.0@.len() && b == id_of(ids, (#[trigger] partofs[i]).0.key_v()) && a == id_of(ids, (#[trigger] partofs[i].1.0@[k]).key_v());
        assert(step_edge(ids, partofs[i].1.0@, id_of(ids, partofs[i].0.key_v()), (a, b)));
    }
}

// ------------------------------------------------------------------
// Parts are the inverse of partof, by name key

/// Deduplicating by key keeps every key: some element of `dedup_keys(x)`
/// has key `k` exactly when some element of `x` has.
pub proof fn lemma_dedup_keeps_keys(x: Seq<Seq<char>>, k: Seq<char>)
    ensures
        (exists|i: int| 0 <= i < crate::name::dedup_keys(x).len() && upper(
            #[trigger] crate::name::dedup_keys(x)[i],
        ) == k) <==> (exists|i: int| 0 <= i < x.len() && upper(#[trigger] x[i]) == k),
    decreases x.len(),
{
    if x.len() > 0 {
        let d = crate::name::dedup_keys(x.drop_last());
        lemma_dedup_keeps_keys(x.drop_last(), k);
        let r = crate::name::dedup_keys(x);
        if exists|i: int| 0 <= i < r.len() && upper(#[trigger] r[i]) == k {
            let i = choose|i: int| 0 <= i < r.len() && upper(#[trigger] r[i]) == k;
            if i < d.len() && r[i] == d[i] {
                let j = choose|j: int| 0 <= j < x.drop_last().len() && upper(#[trigger] x.drop_last()[j]) == k;
                assert(x[j] == x.drop_last()[j]);
            } else {
                assert(r[i] == x.last());
                assert(x[x.len() - 1] == x.last());
            }
        }
        if exists|i: int| 0 <= i < x.len() && upper(#[trigger] x[i]) == k {
            let i = choose|i: int| 0 <= i < x.len() && upper(#[trigger] x[i]) == k;
            if i < x.len() - 1 {
                assert(x.drop_last()[i] == x[i]);
                let j = choose|j: int| 0 <= j < d.len() && upper(#[trigger] d[j]) == k;
                assert(r[j] == d[j]);
            } else {
                if exists|j: int| 0 <= j < d.len() && upper(#[trigger] d[j]) == upper(x.last()) {
                    let j = choose|j: int| 0 <= j < d.len() && upper(#[trigger] d[j]) == upper(x.last());
                    assert(r[j] == d[j]);
                } else {
                    assert(r[d.len() as int] == x.last());
                }
            }
        }
    }
}

/// Giving ids keeps every key given before and adds each name's key.
proof fn lemma_ids_step_keys(ids: Seq<(Name, u32)>, next: nat, names: Seq<Name>)
    ensures
        forall|j: int| 0 <= j < ids.len() ==> name_keys_of(ids_step(ids, next, names).0).contains(
            (#[trigger] ids[j]).0.key_v(),
        ),
        forall|j: int| 0 <= j < names.len() ==> name_keys_of(ids_step(ids, next, names).0).contains(
            (#[trigger] names[j]).key_v(),
        ),
    decreases names.len(),
{
    if names.len() > 0 {
        let (i2, n2) = ids_step(ids, next, names.drop_last());
        lemma_ids_step_keys(ids, next, names.drop_last());
        lemma_upsert_name_keys(i2, names.last(), n2 as u32);
        let r = upsert_name(i2, names.last(), n2 as u32);
        lemma_first_index(name_keys_of(i2), names.last().key_v());
        assert forall|x: Seq<char>| name_keys_of(i2).contains(x) implies name_keys_of(r).contains(x) by {
            let w = choose|w: int| 0 <= w < name_keys_of(i2).len() && name_keys_of(i2)[w] == x;
            if first_index(name_keys_of(i2), names.last().key_v()) < 0 {
                assert(name_keys_of(r)[w] == x);
            } else {
                assert(name_keys_of(r)[w] == x);
            }
        }
        assert forall|j: int| 0 <= j < names.len() implies name_keys_of(r).contains(
            (#[trigger] names[j]).key_v(),
        ) by {
            if j < names.len() - 1 {
                assert(names.drop_last()[j] == names[j]);
            }
        }
        assert forall|j: int| 0 <= j < ids.len() implies name_keys_of(r).contains(
            (#[trigger] ids[j]).0.key_v(),
        ) by {
            assert(name_keys_of(i2).contains(ids[j].0.key_v()));
        }
    } else {
        assert forall|j: int| 0 <= j < ids.len() implies name_keys_of(ids).contains(
            (#[trigger] ids[j]).0.key_v(),
        ) by {
            assert(name_keys_of(ids)[j] == ids[j].0.key_v());
        }
    }
}

/// The ids of `partofs` give every artifact and every name of a `partof`
/// an id.
pub proof fn lemma_ids_of_keys(partofs: Seq<(Name, Names)>)
    ensures
        forall|m: int| 0 <= m < partofs.len() ==> name_keys_of(ids_of(partofs).0).contains(
            (#[trigger] partofs[m]).0.key_v(),
        ),
        forall|m: int, k: int|
            0 <= m < partofs.len() && 0 <= k < partofs[m].1.0@.len() ==> name_keys_of(
                ids_of(partofs).0,
            ).contains((#[trigger] partofs[m].1.0@[k]).key_v()),
    decreases partofs.len(),
{
    if partofs.len() > 0 {
        let rest = partofs.drop_last();
        lemma_ids_of_keys(rest);
        let (i, n) = ids_of(rest);
        let names = seq![partofs.last().0] + partofs.last().1.0@;
        lemma_ids_step_keys(i, n, names);
        let r = ids_of(partofs).0;
        assert forall|x: Seq<char>| name_keys_of(i).contains(x) implies name_keys_of(r).contains(x) by {
            let w = choose|w: int| 0 <= w < name_keys_of(i).len() && name_keys_of(i)[w] == x;
            assert(i[w].0.key_v() == x);
        }
        assert forall|m: int| 0 <= m < partofs.len() implies name_keys_of(r).contains(
            (#[trigger] partofs[m]).0.key_v(),
        ) by {
            if m < partofs.len() - 1 {
                assert(rest[m] == partofs[m]);
            } else {
                assert(names[0] == partofs.last().0);
            }
        }
        assert forall|m: int, k: int|
            0 <= m < partofs.len() && 0 <= k < partofs[m].1.0@.len() implies name_keys_of(r).contains(
                (#[trigger] partofs[m].1.0@[k]).key_v(),
            ) by {
            if m < partofs.len() - 1 {
                assert(rest[m] == partofs[m]);
            } else {
                assert(names[k + 1] == partofs.last().1.0@[k]);
            }
        }
    }
}

/// In a well-formed graph, the name of the id of a known key has that key,
/// and two known keys with the same id are the same key.
pub proof fn lemma_id_of_known(g: Graphs, k1: Seq<char>, k2: Seq<char>)
    requires
        g.wf(),
        name_keys_of(g.lookup_id@).contains(k1),
        name_keys_of(g.lookup_id@).contains(k2),
    ensures
        name_of_id(g.lookup_name@, id_of(g.lookup_id@, k1)).key_v() == k1,
        name_of_id(g.lookup_name@, id_of(g.lookup_id@, k1)).wf(),
        id_of(g.lookup_id@, k1) == id_of(g.lookup_id@, k2) ==> k1 == k2,
{
    let ids = g.lookup_id@;
    lemma_first_index(name_keys_of(ids), k1);
    lemma_first_index(name_keys_of(ids), k2);
    let p1 = first_index(name_keys_of(ids), k1);
    let p2 = first_index(name_keys_of(ids), k2);
    assert(name_keys_of(ids)[p1] == ids[p1].0.key_v());
    assert(name_keys_of(ids)[p2] == ids[p2].0.key_v());
    let ln = g.lookup_name@;
    let id = ids[p1].1;
    lemma_id_index(ln, id);
    assert(ln[p1] == (ids[p1].1, ids[p1].0));
    let q = id_index(ln, id);
    assert(ln[q] == (ids[q].1, ids[q].0));
    if q != p1 {
        assert(ids[q].1 != ids[p1].1);
    }
    if p1 != p2 {
        assert(ids[p1].1 != ids[p2].1);
    }
}

/// Parts are the inverse of `partof`, by key: where `g` is the family
/// graph of `partofs`, the names on the edges out of the name of key `ka`
/// hold a name of key `kb` exactly when an entry of key `kb` lists a name
/// of key `ka` in its `partof`.
pub proof fn lemma_parts_inverse_keys(
    partofs: Seq<(Name, Names)>,
    g: Graphs,
    ka: Seq<char>,
    parts: Seq<Name>,
    kb: Seq<char>,
)
    requires
        graph_of(g, partofs),
        name_keys_of(g.lookup_id@).contains(ka),
        crate::family::all_wf(parts),
        raws(parts) == crate::name::dedup_keys(
            id_raws(g.lookup_name@, out_targets(graph_edges(g.full), id_of(g.lookup_id@, ka))),
        ),
    ensures
        has_key(parts, kb) <==> exists|m: int, k: int|
            0 <= m < partofs.len() && 0 <= k < partofs[m].1.0@.len() && (#[trigger] partofs[m]).0.key_v()
                == kb && (#[trigger] partofs[m].1.0@[k]).key_v() == ka,
{
    let p = partofs;
    let ids = g.lookup_id@;
    let a = id_of(ids, ka);
    let targets = out_targets(graph_edges(g.full), a);
    let x = id_raws(g.lookup_name@, targets);
    lemma_ids_of_keys(p);
    if has_key(parts, kb) {
        let q = choose|q: int| 0 <= q < parts.len() && (#[trigger] parts[q]).key_v() == kb;
        assert(parts[q].wf());
        assert(raws(parts)[q] == parts[q].raw_v());
        lemma_dedup_keeps_keys(x, kb);
        assert(upper(crate::name::dedup_keys(x)[q]) == kb);
        let i = choose|i: int| 0 <= i < x.len() && upper(#[trigger] x[i]) == kb;
        let t = targets[i];
        assert(targets.contains(t));
        lemma_parts_inverse_of_partof(p, ids, a, t);
        let (m, k) = choose|m: int, k: int|
            0 <= m < p.len() && 0 <= k < p[m].1.0@.len() && t == id_of(
                ids,
                (#[trigger] p[m]).0.key_v(),
            ) && a == id_of(ids, (#[trigger] p[m].1.0@[k]).key_v());
        lemma_id_of_known(g, p[m].0.key_v(), p[m].0.key_v());
        lemma_id_of_known(g, ka, p[m].1.0@[k].key_v());
        assert(x[i] == name_of_id(g.lookup_name@, t).raw_v());
    }
    if exists|m: int, k: int|
        0 <= m < p.len() && 0 <= k < p[m].1.0@.len() && (#[trigger] p[m]).0.key_v() == kb
            && (#[trigger] p[m].1.0@[k]).key_v() == ka
    {
        let (m, k) = choose|m: int, k: int|
            0 <= m < p.len() && 0 <= k < p[m].1.0@.len() && (#[trigger] p[m]).0.key_v() == kb
                && (#[trigger] p[m].1.0@[k]).key_v() == ka;
        let t = id_of(ids, kb);
        lemma_parts_inverse_of_partof(p, ids, a, t);
        assert(targets.contains(t));
        let i = choose|i: int| 0 <= i < targets.len() && targets[i] == t;
        lemma_id_of_known(g, kb, kb);
        assert(x[i] == name_of_id(g.lookup_name@, t).raw_v());
        assert(upper(x[i]) == kb);
        lemma_dedup_keeps_keys(x, kb);
        let q = choose|q: int|
            0 <= q < crate::name::dedup_keys(x).len() && upper(
                #[trigger] crate::name::dedup_keys(x)[q],
            ) == kb;
        assert(raws(parts)[q] == parts[q].raw_v());
        assert(parts[q].wf());
        assert(parts[q].key_v() == kb);
    }
}

/// Parts are the inverse of `partof`: where `g` is the family graph of
/// `partofs` and `r` the parts that [`determine_parts`] finds in it, the
/// parts of the name `r[i].0` hold a name of key `kb` exactly when an
/// entry of `partofs` of key `kb` lists `r[i].0` in its `partof`.
pub proof fn lemma_determine_parts_inverse(
    partofs: Seq<(Name, Names)>,
    g: Graphs,
    r: Seq<(Name, Names)>,
    i: int,
    kb: Seq<char>,
)
    requires
        graph_of(g, partofs),
        parts_of(r, g),
        0 <= i < r.len(),
    ensures
        has_key(r[i].1.0@, kb) <==> exists|m: int, k: int|
            0 <= m < partofs.len() && 0 <= k < partofs[m].1.0@.len() && (#[trigger] partofs[m]).0.key_v()
                == kb && (#[trigger] partofs[m].1.0@[k]).key_v() == r[i].0.key_v(),
{
    let ids = g.lookup_id@;
    let ka = r[i].0.key_v();
    assert(g.lookup_name@[i] == (ids[i].1, ids[i].0));
    assert(name_keys_of(ids)[i] == ka);
    lemma_first_index(name_keys_of(ids), ka);
    let f = first_index(name_keys_of(ids), ka);
    assert(name_keys_of(ids)[f] == ka);
    assert(f == i);
    assert(id_of(ids, ka) == g.lookup_name@[i].0);
    lemma_parts_inverse_keys(partofs, g, ka, r[i].1.0@, kb);
}

/// The ids of the family graph in topological order: each before the ids
/// its edges lead to (an artifact before those listing it in `partof`).
/// `None` where the graph has a cycle, so that no such order exists.
pub fn topological_order(graphs: &Graphs) -> (r: Option<Vec<u32>>)
    ensures
        match r {
            Some(v) => is_topo_order(graph_nodes(graphs.full), graph_edges(graphs.full), v@),
            None => forall|v: Seq<u32>|
                !is_topo_order(graph_nodes(graphs.full), graph_edges(graphs.full), v),
        },
{
    graph_toposort(&graphs.full)
}

} // verus!
