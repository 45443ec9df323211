//! The update graph: releases as nodes, permitted upgrades as directed edges.
//!
//! A well-formed graph has unique versions, release ids in ascending order,
//! edges whose endpoints are present, no duplicate edges, and no cycle.

use vstd::prelude::*;
use crate::errors::GraphError;
use crate::metadata::Metadata;
use crate::text::str_eq;

verus! {

broadcast use vstd::seq_lib::group_seq_properties;

/// What a release holds, as mathematical values.
pub struct ReleaseView {
    pub version: Seq<char>,
    pub payload: Seq<char>,
    pub metadata: Map<Seq<char>, Seq<char>>,
}

/// A release: a version, a payload reference and its metadata.
#[derive(Clone, Debug, PartialEq, Eq)]
pub struct Release {
    pub version: String,
    pub payload: String,
    pub metadata: Metadata,
}

impl View for Release {
    type V = ReleaseView;

    open spec fn view(&self) -> ReleaseView {
        ReleaseView { version: self.version@, payload: self.payload@, metadata: self.metadata@ }
    }
}

impl Release {
    /// A release with the given fields.
    pub fn new(version: String, payload: String, metadata: Metadata) -> (r: Release)
        ensures
            r.version == version,
            r.payload == payload,
            r.metadata == metadata,
    {
        Release { version, payload, metadata }
    }

    /// A field-by-field copy.
    pub fn duplicate(&self) -> (r: Release)
        ensures
            r@ == self@,
            r.metadata.wf(),
    {
        self.metadata.check_wf();
        Release {
            version: self.version.clone(),
            payload: self.payload.clone(),
            metadata: self.metadata.duplicate(),
        }
    }
}

/// The stable handle of a release within one graph.
#[derive(Clone, Copy, Debug, PartialEq, Eq, Hash, Structural)]
pub struct ReleaseId {
    pub index: u64,
}

/// A graph as mathematical values: nodes in insertion order with their ids,
/// edges in insertion order, and the next id to hand out.
pub struct GraphView {
    pub nodes: Seq<(u64, ReleaseView)>,
    pub edges: Seq<(u64, u64)>,
    pub next_id: nat,
}

/// The edges of `g` as a set.
pub open spec fn edge_set(g: GraphView) -> Set<(u64, u64)> {
    g.edges.to_set()
}

/// Whether `g` has a node with this id.
pub open spec fn has_node(g: GraphView, id: u64) -> bool {
    exists|i: int| 0 <= i < g.nodes.len() && #[trigger] g.nodes[i].0 == id
}

/// Whether `g` has a node with this version.
pub open spec fn has_version(g: GraphView, v: Seq<char>) -> bool {
    exists|i: int| 0 <= i < g.nodes.len() && #[trigger] g.nodes[i].1.version == v
}

/// Consecutive members of `p` are joined by edges of `e`.
pub open spec fn is_path(e: Set<(u64, u64)>, p: Seq<u64>) -> bool {
    forall|i: int| 0 <= i < p.len() - 1 ==> #[trigger] e.contains((p[i], p[i + 1]))
}

/// No path of one edge or more leads from a node back to itself.
pub open spec fn acyclic(e: Set<(u64, u64)>) -> bool {
    forall|p: Seq<u64>| p.len() >= 2 && #[trigger] is_path(e, p) ==> p[0] != p[p.len() - 1]
}

/// Some path of `e` leads from `a` to `b` (a node reaches itself).
pub open spec fn reaches(e: Set<(u64, u64)>, a: u64, b: u64) -> bool {
    exists|p: Seq<u64>|
        p.len() >= 1 && p[0] == a && p[p.len() - 1] == b && #[trigger] is_path(e, p)
}

/// The invariants of an update graph.
pub open spec fn valid(g: GraphView) -> bool {
    &&& forall|i: int, j: int| 0 <= i < j < g.nodes.len() ==> g.nodes[i].0 < g.nodes[j].0
    &&& forall|i: int| 0 <= i < g.nodes.len() ==> (#[trigger] g.nodes[i].0) < g.next_id
    &&& g.nodes.len() <= g.next_id
    &&& forall|i: int, j: int|
        0 <= i < g.nodes.len() && 0 <= j < g.nodes.len() && i != j
            ==> g.nodes[i].1.version != g.nodes[j].1.version
    &&& g.edges.no_duplicates()
    &&& forall|k: int|
        0 <= k < g.edges.len() ==> has_node(g, (#[trigger] g.edges[k]).0) && has_node(g, g.edges[k].1)
    &&& acyclic(edge_set(g))
}

/// Whether `ids` lists the release id `x`.
pub open spec fn listed(ids: Seq<ReleaseId>, x: u64) -> bool {
    exists|k: int| 0 <= k < ids.len() && #[trigger] ids[k].index == x
}

/// The nodes that carry `key`, with their version and value, in node order.
pub open spec fn key_matches(nodes: Seq<(u64, ReleaseView)>, key: Seq<char>) -> Seq<
    (u64, Seq<char>, Seq<char>),
>
    decreases nodes.len(),
{
    if nodes.len() == 0 {
        Seq::empty()
    } else {
        let r = key_matches(nodes.drop_last(), key);
        let n = nodes.last();
        if n.1.metadata.contains_key(key) {
            r.push((n.0, n.1.version, n.1.metadata[key]))
        } else {
            r
        }
    }
}

/// The nodes whose metadata maps `key` to `value`, with their version, in node order.
pub open spec fn pair_matches(nodes: Seq<(u64, ReleaseView)>, key: Seq<char>, value: Seq<char>) -> Seq<
    (u64, Seq<char>),
>
    decreases nodes.len(),
{
    if nodes.len() == 0 {
        Seq::empty()
    } else {
        let r = pair_matches(nodes.drop_last(), key, value);
        let n = nodes.last();
        if n.1.metadata.contains_key(key) && n.1.metadata[key] == value {
            r.push((n.0, n.1.version))
        } else {
            r
        }
    }
}

/// The serialized shape of a graph: releases in order, edges as pairs of positions.
#[derive(Clone, Debug, PartialEq, Eq)]
pub struct GraphDocument {
    pub nodes: Vec<Release>,
    pub edges: Vec<(u64, u64)>,
}

/// A document as mathematical values.
pub struct DocumentView {
    pub nodes: Seq<ReleaseView>,
    pub edges: Seq<(u64, u64)>,
}

impl View for GraphDocument {
    type V = DocumentView;

    open spec fn view(&self) -> DocumentView {
        DocumentView {
            nodes: self.nodes@.map_values(|r: Release| r@),
            edges: self.edges@,
        }
    }
}

/// The position of the node with id `id`.
pub open spec fn position_of(g: GraphView, id: u64) -> int {
    choose|i: int| 0 <= i < g.nodes.len() && g.nodes[i].0 == id
}

/// The document of a graph: its releases in insertion order, its edges as positions.
pub open spec fn document_of(g: GraphView) -> DocumentView {
    DocumentView {
        nodes: g.nodes.map_values(|n: (u64, ReleaseView)| n.1),
        edges: g.edges.map_values(
            |e: (u64, u64)| (position_of(g, e.0) as u64, position_of(g, e.1) as u64),
        ),
    }
}

/// `s` with each element kept at its first occurrence only.
pub open spec fn dedup<A>(s: Seq<A>) -> Seq<A>
    decreases s.len(),
{
    if s.len() == 0 {
        Seq::empty()
    } else if dedup(s.drop_last()).contains(s.last()) {
        dedup(s.drop_last())
    } else {
        dedup(s.drop_last()).push(s.last())
    }
}

/// No two releases of the document share a version.
pub open spec fn doc_versions_unique(d: DocumentView) -> bool {
    forall|i: int, j: int|
        0 <= i < d.nodes.len() && 0 <= j < d.nodes.len() && i != j ==> d.nodes[i].version
            != d.nodes[j].version
}

/// Every edge of the document names two of its releases.
pub open spec fn doc_edges_in_range(d: DocumentView) -> bool {
    forall|k: int|
        0 <= k < d.edges.len() ==> (#[trigger] d.edges[k]).0 < d.nodes.len() && d.edges[k].1
            < d.nodes.len()
}

/// The graph that a document describes: ids are positions.
pub open spec fn graph_of(d: DocumentView) -> GraphView {
    GraphView {
        nodes: d.nodes.map(|i: int, r: ReleaseView| (i as u64, r)),
        edges: dedup(d.edges),
        next_id: d.nodes.len(),
    }
}

/// Two graphs with the same releases in the same order and the same edges
/// between them, whatever their ids.
pub open spec fn same_graph(a: GraphView, b: GraphView) -> bool {
    &&& document_of(a).nodes == document_of(b).nodes
    &&& document_of(a).edges.to_set() == document_of(b).edges.to_set()
}

/// Keeps the nodes whose id is not listed.
pub open spec fn node_not_listed(ids: Seq<ReleaseId>) -> spec_fn((u64, ReleaseView)) -> bool {
    |n: (u64, ReleaseView)| !listed(ids, n.0)
}

/// Keeps the edges that touch no listed id.
pub open spec fn edge_not_listed(ids: Seq<ReleaseId>) -> spec_fn((u64, u64)) -> bool {
    |e: (u64, u64)| !listed(ids, e.0) && !listed(ids, e.1)
}

/// Keeps the edges other than `f -> t`.
pub open spec fn edge_other(f: u64, t: u64) -> spec_fn((u64, u64)) -> bool {
    |e: (u64, u64)| e.0 != f || e.1 != t
}

/// The graph left after removing the listed releases and every edge touching one.
pub open spec fn remove_spec(g: GraphView, ids: Seq<ReleaseId>) -> GraphView {
    GraphView {
        nodes: g.nodes.filter(node_not_listed(ids)),
        edges: g.edges.filter(edge_not_listed(ids)),
        next_id: g.next_id,
    }
}

/// The graph after adding a release with a fresh id.
pub open spec fn add_release_spec(g: GraphView, r: ReleaseView) -> GraphView {
    GraphView { nodes: g.nodes.push((g.next_id as u64, r)), edges: g.edges, next_id: g.next_id + 1 }
}

/// The outcome of adding the edge `f -> t`.
pub open spec fn add_edge_spec(g: GraphView, f: u64, t: u64) -> Result<GraphView, GraphError> {
    if !has_node(g, f) || !has_node(g, t) {
        Err(GraphError::UnknownRelease)
    } else if reaches(edge_set(g), t, f) {
        Err(GraphError::CycleDetected)
    } else {
        Ok(
            GraphView {
                edges: if g.edges.contains((f, t)) {
                    g.edges
                } else {
                    g.edges.push((f, t))
                },
                ..g
            },
        )
    }
}

/// The graph after removing the edge `f -> t`.
pub open spec fn remove_edge_spec(g: GraphView, f: u64, t: u64) -> GraphView {
    GraphView { edges: g.edges.filter(edge_other(f, t)), ..g }
}

/// The id of the release with version `v`.
pub open spec fn version_id(g: GraphView, v: Seq<char>) -> u64 {
    g.nodes[choose|i: int| 0 <= i < g.nodes.len() && #[trigger] g.nodes[i].1.version == v].0
}

/// The graph that stored nodes, edges and next id stand for.
pub closed spec fn parts_view(nodes: Seq<(u64, Release)>, edges: Seq<(u64, u64)>, next_id: u64) -> GraphView {
    GraphView {
        nodes: nodes.map_values(|n: (u64, Release)| (n.0, n.1@)),
        edges: edges,
        next_id: next_id as nat,
    }
}

/// Stored parts that form a well-formed graph.
pub closed spec fn parts_wf(nodes: Seq<(u64, Release)>, edges: Seq<(u64, u64)>, next_id: u64) -> bool {
    &&& valid(parts_view(nodes, edges, next_id))
    &&& forall|i: int| 0 <= i < nodes.len() ==> (#[trigger] nodes[i]).1.metadata.wf()
}

/// A directed acyclic graph of releases.
pub struct Graph {
    nodes: Vec<(u64, Release)>,
    edges: Vec<(u64, u64)>,
    next_id: u64,
}

impl View for Graph {
    type V = GraphView;

    closed spec fn view(&self) -> GraphView {
        parts_view(self.nodes@, self.edges@, self.next_id)
    }
}

pub proof fn lemma_empty_acyclic()
    ensures
        acyclic(Set::<(u64, u64)>::empty()),
{
    assert forall|p: Seq<u64>| p.len() >= 2 && #[trigger] is_path(Set::<(u64, u64)>::empty(), p) implies p[0] != p[p.len() - 1] by {
        let i: int = 0;
        assert(Set::<(u64, u64)>::empty().contains((p[i], p[i + 1])));
    }
}

/// A path of a smaller edge set is a path of a larger one, so a subset of an acyclic set is acyclic.
pub proof fn lemma_acyclic_subset(small: Set<(u64, u64)>, big: Set<(u64, u64)>)
    requires
        small.subset_of(big),
        acyclic(big),
    ensures
        acyclic(small),
{
    assert forall|p: Seq<u64>| p.len() >= 2 && #[trigger] is_path(small, p) implies p[0] != p[p.len() - 1] by {
        assert forall|i: int| 0 <= i < p.len() - 1 implies #[trigger] big.contains((p[i], p[i + 1])) by {
            assert(small.contains((p[i], p[i + 1])));
        }
        assert(is_path(big, p));
    }
}

/// Every edge of `e` that leaves `r` ends in `r`.
pub open spec fn closed_under(e: Set<(u64, u64)>, r: Set<u64>) -> bool {
    forall|a: u64, b: u64| #[trigger] e.contains((a, b)) && r.contains(a) ==> r.contains(b)
}

pub proof fn lemma_reaches_self(e: Set<(u64, u64)>, a: u64)
    ensures
        reaches(e, a, a),
{
    let p = seq![a];
    assert(is_path(e, p));
}

pub proof fn lemma_reaches_step(e: Set<(u64, u64)>, s: u64, a: u64, b: u64)
    requires
        reaches(e, s, a),
        e.contains((a, b)),
    ensures
        reaches(e, s, b),
{
    let p = choose|p: Seq<u64>| p.len() >= 1 && p[0] == s && p[p.len() - 1] == a && #[trigger] is_path(e, p);
    let q = p.push(b);
    assert forall|i: int| 0 <= i < q.len() - 1 implies #[trigger] e.contains((q[i], q[i + 1])) by {
        if i < p.len() - 1 {
            assert(e.contains((p[i], p[i + 1])));
        }
    }
    assert(is_path(e, q));
}

proof fn lemma_stays_within(e: Set<(u64, u64)>, r: Set<u64>, f: u64, t: u64, p: Seq<u64>, i: int, j: int)
    requires
        closed_under(e, r),
        !r.contains(f),
        is_path(e.insert((f, t)), p),
        0 <= i <= j < p.len(),
        r.contains(p[i]),
    ensures
        r.contains(p[j]),
    decreases j - i,
{
    if j > i {
        lemma_stays_within(e, r, f, t, p, i, j - 1);
        let k = j - 1;
        assert(e.insert((f, t)).contains((p[k], p[k + 1])));
        assert(e.contains((p[k], p[k + 1])));
    }
}

/// Adding the edge `(f, t)` keeps a graph acyclic when the nodes reachable from `t`
/// form a set closed under the edges that does not hold `f`.
pub proof fn lemma_add_edge_acyclic(e: Set<(u64, u64)>, r: Set<u64>, f: u64, t: u64)
    requires
        acyclic(e),
        closed_under(e, r),
        r.contains(t),
        !r.contains(f),
    ensures
        acyclic(e.insert((f, t))),
        !reaches(e, t, f),
{
    let e2 = e.insert((f, t));
    assert forall|p: Seq<u64>| p.len() >= 2 && #[trigger] is_path(e2, p) implies p[0] != p[p.len() - 1] by {
        if exists|k: int| 0 <= k < p.len() - 1 && #[trigger] p[k] == f && p[k + 1] == t {
            let k = choose|k: int| 0 <= k < p.len() - 1 && #[trigger] p[k] == f && p[k + 1] == t;
            lemma_stays_within(e, r, f, t, p, k + 1, p.len() - 1);
            if p[0] == p[p.len() - 1] {
                lemma_stays_within(e, r, f, t, p, 0, k);
            }
        } else {
            assert forall|i: int| 0 <= i < p.len() - 1 implies #[trigger] e.contains((p[i], p[i + 1])) by {
                assert(e2.contains((p[i], p[i + 1])));
            }
            assert(is_path(e, p));
        }
    }
    if reaches(e, t, f) {
        let q = choose|q: Seq<u64>| q.len() >= 1 && q[0] == t && q[q.len() - 1] == f && #[trigger] is_path(e, q);
        assert forall|i: int| 0 <= i < q.len() - 1 implies #[trigger] e2.contains((q[i], q[i + 1])) by {
            assert(e.contains((q[i], q[i + 1])));
        }
        assert(is_path(e2, q));
        lemma_stays_within(e, r, f, t, q, 0, q.len() - 1);
    }
}

/// What a filtered sequence holds, and that filtering keeps it free of duplicates.
pub proof fn lemma_filter_facts<A>(s: Seq<A>, p: spec_fn(A) -> bool)
    ensures
        forall|x: A| #[trigger] s.filter(p).contains(x) <==> s.contains(x) && p(x),
        s.no_duplicates() ==> s.filter(p).no_duplicates(),
    decreases s.len(),
{
    reveal(Seq::filter);
    if s.len() > 0 {
        let t = s.drop_last();
        let sub = t.filter(p);
        lemma_filter_facts(t, p);
        assert(s.filter(p) == (if p(s.last()) { sub.push(s.last()) } else { sub }));
        assert forall|x: A| #[trigger] s.filter(p).contains(x) <==> s.contains(x) && p(x) by {
            if s.filter(p).contains(x) {
                let k = choose|k: int| 0 <= k < s.filter(p).len() && s.filter(p)[k] == x;
                if k < sub.len() {
                    assert(sub[k] == x);
                    assert(sub.contains(x));
                    let j = choose|j: int| 0 <= j < t.len() && t[j] == x;
                    assert(s[j] == x);
                } else {
                    assert(s[s.len() - 1] == x);
                }
            }
            if s.contains(x) && p(x) {
                let k = choose|k: int| 0 <= k < s.len() && s[k] == x;
                if k < t.len() {
                    assert(t[k] == x);
                    assert(sub.contains(x));
                    let j = choose|j: int| 0 <= j < sub.len() && sub[j] == x;
                    assert(s.filter(p)[j] == x);
                } else {
                    assert(s.filter(p)[sub.len() as int] == x);
                }
            }
        }
        if s.no_duplicates() {
            assert(t.no_duplicates());
            if p(s.last()) {
                if sub.contains(s.last()) {
                    assert(t.contains(s.last()));
                    let j = choose|j: int| 0 <= j < t.len() && t[j] == s.last();
                    assert(s[j] == s[s.len() - 1]);
                }
                assert(s.filter(p).no_duplicates());
            }
        }
    }
}

/// A relation that holds between each earlier and later member still holds after filtering.
pub proof fn lemma_filter_pairwise<A>(s: Seq<A>, p: spec_fn(A) -> bool, rel: spec_fn(A, A) -> bool)
    requires
        forall|i: int, j: int| 0 <= i < j < s.len() ==> rel(s[i], s[j]),
    ensures
        forall|i: int, j: int|
            0 <= i < j < s.filter(p).len() ==> rel(s.filter(p)[i], s.filter(p)[j]),
    decreases s.len(),
{
    reveal(Seq::filter);
    if s.len() > 0 {
        let t = s.drop_last();
        let sub = t.filter(p);
        lemma_filter_pairwise(t, p, rel);
        lemma_filter_facts(t, p);
        assert(s.filter(p) == (if p(s.last()) { sub.push(s.last()) } else { sub }));
        if p(s.last()) {
            assert forall|i: int, j: int| 0 <= i < j < s.filter(p).len() implies rel(s.filter(p)[i], s.filter(p)[j]) by {
                if j == sub.len() {
                    assert(sub.contains(sub[i]));
                    let k = choose|k: int| 0 <= k < t.len() && t[k] == sub[i];
                    assert(rel(s[k], s[s.len() - 1]));
                }
            }
        }
    }
}

pub proof fn lemma_dedup<A>(s: Seq<A>)
    ensures
        dedup(s).to_set() == s.to_set(),
        dedup(s).no_duplicates(),
    decreases s.len(),
{
    if s.len() > 0 {
        lemma_dedup(s.drop_last());
        assert(s.to_set() =~= s.drop_last().to_set().insert(s.last())) by {
            assert forall|x: A| s.to_set().contains(x) implies s.drop_last().to_set().insert(s.last()).contains(x) by {
                let k = choose|k: int| 0 <= k < s.len() && s[k] == x;
                if k < s.len() - 1 {
                    assert(s.drop_last()[k] == x);
                }
            }
            assert forall|x: A| s.drop_last().to_set().insert(s.last()).contains(x) implies s.to_set().contains(x) by {
                if x != s.last() {
                    let k = choose|k: int| 0 <= k < s.drop_last().len() && s.drop_last()[k] == x;
                    assert(s[k] == x);
                } else {
                    assert(s[s.len() - 1] == x);
                }
            }
        }
        let d = dedup(s.drop_last());
        if !d.contains(s.last()) {
            assert(d.push(s.last()).to_set() =~= d.to_set().insert(s.last())) by {
                assert forall|x: A| d.push(s.last()).to_set().contains(x) implies d.to_set().insert(s.last()).contains(x) by {
                    let k = choose|k: int| 0 <= k < d.push(s.last()).len() && d.push(s.last())[k] == x;
                    if k < d.len() {
                        assert(d[k] == x);
                    }
                }
                assert forall|x: A| d.to_set().insert(s.last()).contains(x) implies d.push(s.last()).to_set().contains(x) by {
                    if x != s.last() {
                        let k = choose|k: int| 0 <= k < d.len() && d[k] == x;
                        assert(d.push(s.last())[k] == x);
                    } else {
                        assert(d.push(s.last())[d.len() as int] == x);
                    }
                }
            }
        } else {
            assert(d.to_set().contains(s.last()));
        }
    }
}

/// A path from `t` to `f`, closed by the edge `(f, t)`, is a cycle of any set that holds both.
pub proof fn lemma_reaches_cycle(e: Set<(u64, u64)>, big: Set<(u64, u64)>, f: u64, t: u64)
    requires
        reaches(e, t, f),
        e.subset_of(big),
        big.contains((f, t)),
    ensures
        !acyclic(big),
{
    let p = choose|p: Seq<u64>| p.len() >= 1 && p[0] == t && p[p.len() - 1] == f && #[trigger] is_path(e, p);
    let q = p.push(t);
    assert forall|i: int| 0 <= i < q.len() - 1 implies #[trigger] big.contains((q[i], q[i + 1])) by {
        if i < p.len() - 1 {
            assert(e.contains((p[i], p[i + 1])));
        }
    }
    assert(is_path(big, q));
}

/// In a valid graph each id sits at one position.
pub proof fn lemma_position_unique(g: GraphView, id: u64, i: int)
    requires
        valid(g),
        0 <= i < g.nodes.len(),
        g.nodes[i].0 == id,
    ensures
        position_of(g, id) == i,
{
    let j = position_of(g, id);
    if j < i {
        assert(g.nodes[j].0 < g.nodes[i].0);
    } else if j > i {
        assert(g.nodes[i].0 < g.nodes[j].0);
    }
}

/// A duplicate-free sequence drawn from another has at most its length.
pub proof fn lemma_distinct_within(a: Seq<u64>, b: Seq<u64>)
    requires
        a.no_duplicates(),
        forall|x: u64| a.contains(x) ==> b.contains(x),
    ensures
        a.len() <= b.len(),
{
    a.unique_seq_to_set();
    b.lemma_cardinality_of_set();
    assert(a.to_set().subset_of(b.to_set()));
    vstd::set_lib::lemma_len_subset(a.to_set(), b.to_set());
}

fn id_listed(ids: &Vec<ReleaseId>, x: u64) -> (r: bool)
    ensures
        r == listed(ids@, x),
{
    let mut i: usize = 0;
    while i < ids.len()
        invariant
            i <= ids.len(),
            forall|k: int| 0 <= k < i ==> ids@[k].index != x,
        decreases ids.len() - i,
    {
        if ids[i].index == x {
            assert(ids@[i as int].index == x);
            return true;
        }
        i = i + 1;
    }
    false
}

fn vec_has(v: &Vec<u64>, x: u64) -> (r: bool)
    ensures
        r == v@.contains(x),
{
    let mut i: usize = 0;
    while i < v.len()
        invariant
            i <= v.len(),
            forall|k: int| 0 <= k < i ==> v@[k] != x,
        decreases v.len() - i,
    {
        if v[i] == x {
            return true;
        }
        i = i + 1;
    }
    false
}

impl Graph {
    /// The graph holds its invariants and each release's metadata is well formed.
    pub closed spec fn wf(&self) -> bool {
        parts_wf(self.nodes@, self.edges@, self.next_id)
    }

    #[verifier::type_invariant]
    spec fn inv(&self) -> bool {
        self.wf()
    }

    /// Every graph is well formed; this makes that fact available to a caller.
    pub fn check_wf(&self)
        ensures
            self.wf(),
    {
        proof {
            use_type_invariant(self);
        }
    }

    /// Takes the stored parts out, leaving an empty graph behind.
    fn take_parts(&mut self) -> (r: (Vec<(u64, Release)>, Vec<(u64, u64)>, u64))
        ensures
            r.0@ == old(self).nodes@,
            r.1@ == old(self).edges@,
            r.2 == old(self).next_id,
            parts_wf(r.0@, r.1@, r.2),
    {
        proof {
            use_type_invariant(&*self);
        }
        let mut tmp = Graph::new();
        core::mem::swap(self, &mut tmp);
        proof {
            use_type_invariant(&tmp);
        }
        let Graph { nodes, edges, next_id } = tmp;
        (nodes, edges, next_id)
    }

    /// A graph without releases.
    pub fn new() -> (r: Graph)
        ensures
            r.wf(),
            r@.nodes.len() == 0,
            r@.edges.len() == 0,
            r@.next_id == 0,
    {
        let nodes: Vec<(u64, Release)> = Vec::new();
        let edges: Vec<(u64, u64)> = Vec::new();
        proof {
            assert(parts_view(nodes@, edges@, 0).edges.to_set() =~= Set::<(u64, u64)>::empty());
            lemma_empty_acyclic();
            assert(parts_wf(nodes@, edges@, 0));
        }
        Graph { nodes, edges, next_id: 0 }
    }

    /// Every well-formed graph is acyclic, and every edge's endpoints are present.
    pub proof fn lemma_wf_valid(&self)
        requires
            self.wf(),
        ensures
            valid(self@),
            acyclic(edge_set(self@)),
            forall|a: u64, b: u64| #[trigger]
                edge_set(self@).contains((a, b)) ==> has_node(self@, a) && has_node(self@, b),
    {
        assert forall|a: u64, b: u64| #[trigger] edge_set(self@).contains((a, b)) implies has_node(self@, a) && has_node(self@, b) by {
            let k = choose|k: int| 0 <= k < self@.edges.len() && self@.edges[k] == (a, b);
            assert(has_node(self@, self@.edges[k].0));
        }
    }

    /// The number of releases.
    pub fn releases_count(&self) -> (r: usize)
        ensures
            r == self@.nodes.len(),
    {
        self.nodes.len()
    }

    /// The release at position `i`, with its id.
    pub fn node_at(&self, i: usize) -> (r: (ReleaseId, Release))
        requires
            i < self@.nodes.len(),
        ensures
            r.0.index == self@.nodes[i as int].0,
            r.1@ == self@.nodes[i as int].1,
            r.1.metadata.wf(),
    {
        proof {
            use_type_invariant(self);
        }
        proof {
            assert(self.nodes@[i as int].1.metadata.wf());
        }
        (ReleaseId { index: self.nodes[i].0 }, self.nodes[i].1.duplicate())
    }

    /// The position of the release with this id, if present.
    fn position(&self, id: u64) -> (r: Option<usize>)
        ensures
            match r {
                Some(i) => i < self@.nodes.len() && self@.nodes[i as int].0 == id,
                None => !has_node(self@, id),
            },
    {
        let mut i: usize = 0;
        while i < self.nodes.len()
            invariant
                i <= self.nodes.len(),
                forall|k: int| 0 <= k < i ==> self@.nodes[k].0 != id,
            decreases self.nodes.len() - i,
        {
            if self.nodes[i].0 == id {
                return Some(i);
            }
            i = i + 1;
        }
        None
    }

    /// Whether the release with this id is in the graph.
    pub fn contains(&self, id: ReleaseId) -> (r: bool)
        ensures
            r == has_node(self@, id.index),
    {
        match self.position(id.index) {
            Some(_) => true,
            None => false,
        }
    }

    /// The id of the release with this version, if any.
    pub fn find_by_version(&self, version: &str) -> (r: Option<ReleaseId>)
        ensures
            match r {
                Some(id) => has_version(self@, version@) && id.index == version_id(self@, version@)
                    && has_node(self@, id.index),
                None => !has_version(self@, version@),
            },
    {
        proof {
            use_type_invariant(self);
        }
        let mut i: usize = 0;
        while i < self.nodes.len()
            invariant
                self.wf(),
                i <= self.nodes.len(),
                forall|k: int| 0 <= k < i ==> self@.nodes[k].1.version != version@,
            decreases self.nodes.len() - i,
        {
            if str_eq(self.nodes[i].1.version.as_str(), version) {
                proof {
                    assert(self@.nodes[i as int].1.version == version@);
                    let j = choose|j: int| 0 <= j < self@.nodes.len() && #[trigger] self@.nodes[j].1.version == version@;
                    if j != i {
                        assert(self@.nodes[j].1.version != self@.nodes[i as int].1.version);
                    }
                }
                return Some(ReleaseId { index: self.nodes[i].0 });
            }
            i = i + 1;
        }
        None
    }

    /// Adds a release under a fresh id; fails if its version is already present.
    pub fn add_release(&mut self, release: Release) -> (r: Result<ReleaseId, GraphError>)
        requires
            old(self)@.next_id < u64::MAX,
        ensures
            final(self).wf(),
            has_version(old(self)@, release.version@) ==> r == Err::<ReleaseId, GraphError>(
                GraphError::DuplicateVersion,
            ) && final(self)@ == old(self)@,
            !has_version(old(self)@, release.version@) ==> r == Ok::<ReleaseId, GraphError>(
                ReleaseId { index: old(self)@.next_id as u64 },
            ) && final(self)@ == (GraphView {
                nodes: old(self)@.nodes.push((old(self)@.next_id as u64, release@)),
                edges: old(self)@.edges,
                next_id: old(self)@.next_id + 1,
            }),
    {
        release.metadata.check_wf();
        proof {
            use_type_invariant(&*self);
        }
        match self.find_by_version(release.version.as_str()) {
            Some(_) => {
                return Err(GraphError::DuplicateVersion);
            },
            None => {},
        }
        let id = self.next_id;
        let ghost before = self@;
        let (mut nodes, edges, _) = self.take_parts();
        nodes.push((id, release));
        proof {
            let g = parts_view(nodes@, edges@, (id + 1) as u64);
            assert(g.nodes =~= before.nodes.push((id, release@)));
            assert forall|k: int| 0 <= k < g.edges.len() implies has_node(g, (#[trigger] g.edges[k]).0) && has_node(g, g.edges[k].1) by {
                assert(has_node(before, before.edges[k].0));
                assert(has_node(before, before.edges[k].1));
                let a = choose|i: int| 0 <= i < before.nodes.len() && before.nodes[i].0 == before.edges[k].0;
                let b = choose|i: int| 0 <= i < before.nodes.len() && before.nodes[i].0 == before.edges[k].1;
                assert(g.nodes[a].0 == g.edges[k].0);
                assert(g.nodes[b].0 == g.edges[k].1);
            }
            assert forall|i: int| 0 <= i < nodes@.len() implies (#[trigger] nodes@[i]).1.metadata.wf() by {
                if i < before.nodes.len() {
                    assert(nodes@[i] == old(self).nodes@[i]);
                }
            }
            assert(has_version(before, release@.version) == false);
            assert(edge_set(g) == edge_set(before));
            assert forall|a: int, b: int| 0 <= a < g.nodes.len() && 0 <= b < g.nodes.len() && a != b implies g.nodes[a].1.version != g.nodes[b].1.version by {
                if a == before.nodes.len() {
                    assert(before.nodes[b].1.version == g.nodes[b].1.version);
                } else if b == before.nodes.len() {
                    assert(before.nodes[a].1.version == g.nodes[a].1.version);
                }
            }
            assert(valid(g));
            assert(parts_wf(nodes@, edges@, (id + 1) as u64));
        }
        *self = Graph { nodes, edges, next_id: id + 1 };
        Ok(ReleaseId { index: id })
    }

    /// The ids of the nodes, in order.
    pub closed spec fn ids(&self) -> Seq<u64> {
        self@.nodes.map_values(|n: (u64, ReleaseView)| n.0)
    }

    /// The nodes reachable from `start`, `start` first: a set closed under the edges.
    fn reach_set(&self, start: u64) -> (r: Vec<u64>)
        requires
            has_node(self@, start),
        ensures
            r@.contains(start),
            forall|x: u64| r@.contains(x) ==> reaches(edge_set(self@), start, x),
            closed_under(edge_set(self@), r@.to_set()),
    {
        proof {
            use_type_invariant(self);
        }
        let ghost e = edge_set(self@);
        let ghost ids = self.ids();
        let mut visited: Vec<u64> = Vec::new();
        visited.push(start);
        proof {
            lemma_reaches_self(e, start);
            assert(visited@[0] == start);
        }
        let mut i: usize = 0;
        while i < visited.len()
            invariant
                self.wf(),
                e == edge_set(self@),
                ids == self.ids(),
                i <= visited.len(),
                visited.len() >= 1,
                visited@[0] == start,
                visited@.no_duplicates(),
                forall|k: int| 0 <= k < visited.len() ==> has_node(self@, #[trigger] visited@[k]),
                forall|k: int| 0 <= k < visited.len() ==> reaches(e, start, #[trigger] visited@[k]),
                forall|k: int, m: int|
                    0 <= k < i && 0 <= m < self.edges.len() && (#[trigger] self.edges@[m]).0
                        == #[trigger] visited@[k] ==> visited@.contains(self.edges@[m].1),
            decreases self.nodes.len() - visited.len(), visited.len() - i,
        {
            proof {
                assert forall|x: u64| visited@.contains(x) implies ids.contains(x) by {
                    let k = choose|k: int| 0 <= k < visited.len() && visited@[k] == x;
                    assert(has_node(self@, visited@[k]));
                    let n = choose|n: int| 0 <= n < self@.nodes.len() && #[trigger] self@.nodes[n].0 == x;
                    assert(ids[n] == x);
                }
                lemma_distinct_within(visited@, ids);
            }
            let a = visited[i];
            let ghost len0 = visited.len();
            let mut m: usize = 0;
            while m < self.edges.len()
                invariant
                    self.wf(),
                    e == edge_set(self@),
                    ids == self.ids(),
                    i < visited.len(),
                    len0 <= visited.len(),
                    a == visited@[i as int],
                    m <= self.edges.len(),
                    visited@[0] == start,
                    visited@.no_duplicates(),
                    forall|k: int| 0 <= k < visited.len() ==> has_node(self@, #[trigger] visited@[k]),
                    forall|k: int| 0 <= k < visited.len() ==> reaches(e, start, #[trigger] visited@[k]),
                    forall|k: int, mm: int|
                        0 <= k < i && 0 <= mm < self.edges.len() && (#[trigger] self.edges@[mm]).0
                            == #[trigger] visited@[k] ==> visited@.contains(self.edges@[mm].1),
                    forall|mm: int|
                        0 <= mm < m && (#[trigger] self.edges@[mm]).0 == a ==> visited@.contains(
                            self.edges@[mm].1,
                        ),
                decreases self.edges.len() - m,
            {
                let (x, y) = self.edges[m];
                if x == a && !vec_has(&visited, y) {
                    let ghost old_v = visited@;
                    visited.push(y);
                    proof {
                        assert(self@.edges[m as int] == (x, y));
                        assert(e.contains((x, y)));
                        lemma_reaches_step(e, start, a, y);
                        assert(has_node(self@, self@.edges[m as int].1));
                        assert forall|z: u64| old_v.contains(z) implies visited@.contains(z) by {
                            let k = choose|k: int| 0 <= k < old_v.len() && old_v[k] == z;
                            assert(visited@[k] == z);
                        }
                        assert(visited@[old_v.len() as int] == y);
                    }
                }
                m = m + 1;
            }
            proof {
                assert forall|x: u64| visited@.contains(x) implies ids.contains(x) by {
                    let k = choose|k: int| 0 <= k < visited.len() && visited@[k] == x;
                    assert(has_node(self@, visited@[k]));
                    let n = choose|n: int| 0 <= n < self@.nodes.len() && #[trigger] self@.nodes[n].0 == x;
                    assert(ids[n] == x);
                }
                lemma_distinct_within(visited@, ids);
            }
            i = i + 1;
        }
        proof {
            assert(visited@.contains(visited@[0]));
            assert forall|x: u64| visited@.contains(x) implies reaches(e, start, x) by {
                let k = choose|k: int| 0 <= k < visited.len() && visited@[k] == x;
                assert(reaches(e, start, visited@[k]));
            }
            assert forall|a: u64, b: u64| #[trigger] e.contains((a, b)) && visited@.to_set().contains(a) implies visited@.to_set().contains(b) by {
                let m = choose|m: int| 0 <= m < self@.edges.len() && self@.edges[m] == (a, b);
                let k = choose|k: int| 0 <= k < visited.len() && visited@[k] == a;
                assert(self.edges@[m].0 == visited@[k]);
            }
        }
        visited
    }

    /// Adds the edge `from -> to`. Fails with `UnknownRelease` if either end is
    /// absent, and with `CycleDetected` if `to` already reaches `from` (so also
    /// when `from == to`). An edge that is already present is not added twice.
    pub fn add_edge(&mut self, from: ReleaseId, to: ReleaseId) -> (r: Result<(), GraphError>)
        ensures
            final(self).wf(),
            !has_node(old(self)@, from.index) || !has_node(old(self)@, to.index) ==> r == Err::<
                (),
                GraphError,
            >(GraphError::UnknownRelease) && final(self)@ == old(self)@,
            has_node(old(self)@, from.index) && has_node(old(self)@, to.index) && reaches(
                edge_set(old(self)@),
                to.index,
                from.index,
            ) ==> r == Err::<(), GraphError>(GraphError::CycleDetected) && final(self)@ == old(
                self,
            )@,
            has_node(old(self)@, from.index) && has_node(old(self)@, to.index) && !reaches(
                edge_set(old(self)@),
                to.index,
                from.index,
            ) ==> r == Ok::<(), GraphError>(()) && final(self)@ == (GraphView {
                edges: if old(self)@.edges.contains((from.index, to.index)) {
                    old(self)@.edges
                } else {
                    old(self)@.edges.push((from.index, to.index))
                },
                ..old(self)@
            }),
            r matches Ok(_) ==> add_edge_spec(old(self)@, from.index, to.index) == Ok::<
                GraphView,
                GraphError,
            >(final(self)@),
            r matches Err(e) ==> add_edge_spec(old(self)@, from.index, to.index) == Err::<
                GraphView,
                GraphError,
            >(e),
    {
        proof {
            use_type_invariant(&*self);
        }
        if !self.contains(from) || !self.contains(to) {
            return Err(GraphError::UnknownRelease);
        }
        let reach = self.reach_set(to.index);
        if vec_has(&reach, from.index) {
            return Err(GraphError::CycleDetected);
        }
        proof {
            lemma_add_edge_acyclic(edge_set(self@), reach@.to_set(), from.index, to.index);
        }
        let pair = (from.index, to.index);
        if self.edges_contain(pair) {
            return Ok(());
        }
        let ghost before = self@;
        let (nodes, mut edges, next_id) = self.take_parts();
        edges.push(pair);
        proof {
            let g = parts_view(nodes@, edges@, next_id);
            assert(g.nodes == before.nodes);
            assert(has_node(before, from.index) && has_node(before, to.index));
            assert(edge_set(g) =~= edge_set(before).insert(pair));
            assert forall|k: int| 0 <= k < g.edges.len() implies has_node(g, (#[trigger] g.edges[k]).0) && has_node(g, g.edges[k].1) by {
                if k < before.edges.len() {
                    assert(before.edges[k] == g.edges[k]);
                    assert(has_node(before, before.edges[k].0));
                }
            }
            assert(parts_wf(nodes@, edges@, next_id));
        }
        *self = Graph { nodes, edges, next_id };
        Ok(())
    }

    /// Adds the edge between the releases with these versions. Fails with
    /// `UnknownRelease` if either version is absent, else as `add_edge` does.
    pub fn add_edge_by_version(&mut self, from: &str, to: &str) -> (r: Result<(), GraphError>)
        ensures
            final(self).wf(),
            !has_version(old(self)@, from@) || !has_version(old(self)@, to@) ==> r == Err::<
                (),
                GraphError,
            >(GraphError::UnknownRelease) && final(self)@ == old(self)@,
            has_version(old(self)@, from@) && has_version(old(self)@, to@) ==> match r {
                Ok(_) => add_edge_spec(
                    old(self)@,
                    version_id(old(self)@, from@),
                    version_id(old(self)@, to@),
                ) == Ok::<GraphView, GraphError>(final(self)@),
                Err(e) => add_edge_spec(
                    old(self)@,
                    version_id(old(self)@, from@),
                    version_id(old(self)@, to@),
                ) == Err::<GraphView, GraphError>(e) && final(self)@ == old(self)@,
            },
    {
        proof {
            use_type_invariant(&*self);
        }
        let f = match self.find_by_version(from) {
            Some(f) => f,
            None => {
                return Err(GraphError::UnknownRelease);
            },
        };
        let t = match self.find_by_version(to) {
            Some(t) => t,
            None => {
                return Err(GraphError::UnknownRelease);
            },
        };
        self.add_edge(f, t)
    }

    /// Removes the edge between the releases with these versions, if any; an
    /// absent version or edge is no error.
    pub fn remove_edge_by_version(&mut self, from: &str, to: &str)
        ensures
            final(self).wf(),
            !has_version(old(self)@, from@) || !has_version(old(self)@, to@) ==> final(self)@ == old(
                self,
            )@,
            has_version(old(self)@, from@) && has_version(old(self)@, to@) ==> final(self)@
                == remove_edge_spec(
                old(self)@,
                version_id(old(self)@, from@),
                version_id(old(self)@, to@),
            ),
    {
        proof {
            use_type_invariant(&*self);
        }
        match (self.find_by_version(from), self.find_by_version(to)) {
            (Some(f), Some(t)) => self.remove_edge(f, t),
            _ => {},
        }
    }

    /// Whether the edge is present.
    pub fn edges_contain(&self, pair: (u64, u64)) -> (r: bool)
        ensures
            r == self@.edges.contains(pair),
    {
        let mut i: usize = 0;
        while i < self.edges.len()
            invariant
                i <= self.edges.len(),
                forall|k: int| 0 <= k < i ==> self@.edges[k] != pair,
            decreases self.edges.len() - i,
        {
            if self.edges[i].0 == pair.0 && self.edges[i].1 == pair.1 {
                assert(self@.edges[i as int] == pair);
                return true;
            }
            i = i + 1;
        }
        false
    }

    /// Removes the edge `from -> to` if present; a missing edge is no error.
    pub fn remove_edge(&mut self, from: ReleaseId, to: ReleaseId)
        ensures
            final(self).wf(),
            final(self)@.nodes == old(self)@.nodes,
            final(self)@.next_id == old(self)@.next_id,
            final(self)@.edges == old(self)@.edges.filter(edge_other(from.index, to.index)),
            edge_set(final(self)@) == edge_set(old(self)@).remove((from.index, to.index)),
            final(self)@ == remove_edge_spec(old(self)@, from.index, to.index),
    {
        proof {
            use_type_invariant(&*self);
        }
        let ghost pred = edge_other(from.index, to.index);
        let ghost before = self@;
        let mut kept: Vec<(u64, u64)> = Vec::new();
        let mut i: usize = 0;
        while i < self.edges.len()
            invariant
                self@ == before,
                i <= self.edges.len(),
                pred == edge_other(from.index, to.index),
                kept@ == self.edges@.subrange(0, i as int).filter(pred),
            decreases self.edges.len() - i,
        {
            proof {
                reveal(Seq::filter);
                assert(self.edges@.subrange(0, i + 1).drop_last() =~= self.edges@.subrange(0, i as int));
            }
            let e = self.edges[i];
            proof {
                assert(self.edges@.subrange(0, i + 1).last() == e);
            }
            let ghost kept0 = kept@;
            if e.0 != from.index || e.1 != to.index {
                kept.push(e);
            }
            proof {
                reveal(Seq::filter);
                let t = self.edges@.subrange(0, i + 1);
                assert(t.filter(pred) == (if pred(t.last()) { t.drop_last().filter(pred).push(t.last()) } else { t.drop_last().filter(pred) }));
                assert(t.last() == e);
                assert(t.drop_last() =~= self.edges@.subrange(0, i as int));
                assert(pred(e) <==> (e.0 != from.index || e.1 != to.index));
                assert(kept@ =~= t.filter(pred));
            }
            i = i + 1;
        }
        proof {
            assert(self.edges@.subrange(0, self.edges.len() as int) =~= self.edges@);
        }
        let (nodes, _, next_id) = self.take_parts();
        proof {
            let g = parts_view(nodes@, kept@, next_id);
            lemma_filter_facts(before.edges, pred);
            assert(g.nodes == before.nodes);
            assert(g.edges.no_duplicates());
            let f = from.index;
            let t = to.index;
            assert(g.edges == remove_edge_spec(before, f, t).edges);
            assert(g == remove_edge_spec(before, f, t));
            assert(edge_set(g) =~= edge_set(before).remove((from.index, to.index)));
            lemma_acyclic_subset(edge_set(g), edge_set(before));
            assert forall|k: int| 0 <= k < g.edges.len() implies has_node(g, (#[trigger] g.edges[k]).0) && has_node(g, g.edges[k].1) by {
                assert(g.nodes == before.nodes);
                assert(g.edges.contains(g.edges[k]));
                assert(before.edges.contains(g.edges[k]));
                let j = choose|j: int| 0 <= j < before.edges.len() && before.edges[j] == g.edges[k];
                assert(has_node(before, before.edges[j].0));
            }
            assert(parts_wf(nodes@, kept@, next_id));
        }
        *self = Graph { nodes, edges: kept, next_id };
    }

    /// Removes the listed releases and every edge that touches one of them;
    /// ids that are not in the graph are ignored. Returns how many releases went.
    pub fn remove_releases(&mut self, ids: &Vec<ReleaseId>) -> (r: usize)
        ensures
            final(self).wf(),
            final(self)@.nodes == old(self)@.nodes.filter(node_not_listed(ids@)),
            final(self)@.edges == old(self)@.edges.filter(edge_not_listed(ids@)),
            final(self)@.next_id == old(self)@.next_id,
            final(self)@ == remove_spec(old(self)@, ids@),
            r == old(self)@.nodes.len() - final(self)@.nodes.len(),
    {
        proof {
            use_type_invariant(&*self);
        }
        let ghost np = node_not_listed(ids@);
        let ghost ep = edge_not_listed(ids@);
        let ghost before = self@;
        let mut kept: Vec<(u64, Release)> = Vec::new();
        let mut i: usize = 0;
        while i < self.nodes.len()
            invariant
                self.wf(),
                self@ == before,
                np == node_not_listed(ids@),
                i <= self.nodes.len(),
                kept@.map_values(|n: (u64, Release)| (n.0, n.1@)) == before.nodes.subrange(
                    0,
                    i as int,
                ).filter(np),
                forall|k: int| 0 <= k < kept@.len() ==> (#[trigger] kept@[k]).1.metadata.wf(),
            decreases self.nodes.len() - i,
        {
            let id = self.nodes[i].0;
            let ghost k0 = kept@.map_values(|n: (u64, Release)| (n.0, n.1@));
            if !id_listed(ids, id) {
                proof {
                    assert(self.nodes@[i as int].1.metadata.wf());
                }
                let rel = self.nodes[i].1.duplicate();
                kept.push((id, rel));
                proof {
                    assert(kept@.map_values(|n: (u64, Release)| (n.0, n.1@)) =~= k0.push(before.nodes[i as int]));
                }
            }
            proof {
                reveal(Seq::filter);
                let t = before.nodes.subrange(0, i + 1);
                assert(t.filter(np) == (if np(t.last()) { t.drop_last().filter(np).push(t.last()) } else { t.drop_last().filter(np) }));
                assert(t.last() == before.nodes[i as int]);
                assert(t.drop_last() =~= before.nodes.subrange(0, i as int));
            }
            i = i + 1;
        }
        let mut kept_edges: Vec<(u64, u64)> = Vec::new();
        let mut j: usize = 0;
        while j < self.edges.len()
            invariant
                self@ == before,
                ep == edge_not_listed(ids@),
                j <= self.edges.len(),
                kept_edges@ == before.edges.subrange(0, j as int).filter(ep),
            decreases self.edges.len() - j,
        {
            let e = self.edges[j];
            if !id_listed(ids, e.0) && !id_listed(ids, e.1) {
                kept_edges.push(e);
            }
            proof {
                reveal(Seq::filter);
                let t = before.edges.subrange(0, j + 1);
                assert(t.filter(ep) == (if ep(t.last()) { t.drop_last().filter(ep).push(t.last()) } else { t.drop_last().filter(ep) }));
                assert(t.last() == e);
                assert(t.drop_last() =~= before.edges.subrange(0, j as int));
            }
            j = j + 1;
        }
        proof {
            assert(before.nodes.subrange(0, before.nodes.len() as int) =~= before.nodes);
            assert(before.edges.subrange(0, before.edges.len() as int) =~= before.edges);
            before.nodes.lemma_filter_len(np);
        }
        let removed = self.nodes.len() - kept.len();
        let next_id = self.next_id;
        proof {
            let g = parts_view(kept@, kept_edges@, next_id);
            lemma_filter_facts(before.nodes, np);
            lemma_filter_facts(before.edges, ep);
            lemma_filter_pairwise(before.nodes, np, |a: (u64, ReleaseView), b: (u64, ReleaseView)| a.0 < b.0);
            assert forall|a: int, b: int| 0 <= a < b < before.nodes.len() implies before.nodes[a].1.version != before.nodes[b].1.version by {}
            lemma_filter_pairwise(before.nodes, np, |a: (u64, ReleaseView), b: (u64, ReleaseView)| a.1.version != b.1.version);
            assert forall|a: int, b: int| 0 <= a < g.nodes.len() && 0 <= b < g.nodes.len() && a != b implies g.nodes[a].1.version != g.nodes[b].1.version by {
                if a > b {
                    assert(g.nodes[b].1.version != g.nodes[a].1.version);
                }
            }
            assert forall|a: int| 0 <= a < g.nodes.len() implies (#[trigger] g.nodes[a].0) < g.next_id by {
                assert(g.nodes.contains(g.nodes[a]));
                let k = choose|k: int| 0 <= k < before.nodes.len() && before.nodes[k] == g.nodes[a];
            }
            assert forall|k: int| 0 <= k < g.edges.len() implies has_node(g, (#[trigger] g.edges[k]).0) && has_node(g, g.edges[k].1) by {
                let e = g.edges[k];
                assert(g.edges.contains(e));
                let m = choose|m: int| 0 <= m < before.edges.len() && before.edges[m] == e;
                assert(has_node(before, before.edges[m].0));
                assert(has_node(before, before.edges[m].1));
                let a = choose|a: int| 0 <= a < before.nodes.len() && #[trigger] before.nodes[a].0 == e.0;
                let b = choose|b: int| 0 <= b < before.nodes.len() && #[trigger] before.nodes[b].0 == e.1;
                assert(before.nodes.contains(before.nodes[a]));
                assert(g.nodes.contains(before.nodes[a]));
                assert(before.nodes.contains(before.nodes[b]));
                assert(g.nodes.contains(before.nodes[b]));
                let a2 = choose|a2: int| 0 <= a2 < g.nodes.len() && g.nodes[a2] == before.nodes[a];
                let b2 = choose|b2: int| 0 <= b2 < g.nodes.len() && g.nodes[b2] == before.nodes[b];
                assert(g.nodes[a2].0 == e.0);
                assert(g.nodes[b2].0 == e.1);
            }
            assert(edge_set(g).subset_of(edge_set(before)));
            lemma_acyclic_subset(edge_set(g), edge_set(before));
            assert(parts_wf(kept@, kept_edges@, next_id));
        }
        *self = Graph { nodes: kept, edges: kept_edges, next_id };
        removed
    }

    /// The releases whose metadata holds `key`, with their version and the value
    /// under `key`, ordered by release id.
    pub fn find_by_metadata_key(&self, key: &str) -> (r: Vec<(ReleaseId, String, String)>)
        ensures
            r@.map_values(|t: (ReleaseId, String, String)| (t.0.index, t.1@, t.2@)) == key_matches(
                self@.nodes,
                key@,
            ),
    {
        proof {
            use_type_invariant(self);
        }
        let mut out: Vec<(ReleaseId, String, String)> = Vec::new();
        let mut i: usize = 0;
        while i < self.nodes.len()
            invariant
                self.wf(),
                i <= self.nodes.len(),
                out@.map_values(|t: (ReleaseId, String, String)| (t.0.index, t.1@, t.2@)) == key_matches(
                    self@.nodes.subrange(0, i as int),
                    key@,
                ),
            decreases self.nodes.len() - i,
        {
            proof {
                assert(self@.nodes.subrange(0, i + 1).drop_last() =~= self@.nodes.subrange(0, i as int));
                assert(self@.nodes.subrange(0, i + 1).last() == self@.nodes[i as int]);
                assert(self.nodes@[i as int].1.metadata.wf());
            }
            let ghost o0 = out@.map_values(|t: (ReleaseId, String, String)| (t.0.index, t.1@, t.2@));
            match self.nodes[i].1.metadata.get(key) {
                Some(v) => {
                    out.push((ReleaseId { index: self.nodes[i].0 }, self.nodes[i].1.version.clone(), v));
                    proof {
                        assert(out@.map_values(|t: (ReleaseId, String, String)| (t.0.index, t.1@, t.2@)) =~= o0.push(
                            (self@.nodes[i as int].0, self@.nodes[i as int].1.version, self@.nodes[i as int].1.metadata[key@]),
                        ));
                    }
                },
                None => {},
            }
            i = i + 1;
        }
        proof {
            assert(self@.nodes.subrange(0, self.nodes.len() as int) =~= self@.nodes);
        }
        out
    }

    /// The releases whose metadata maps `key` to exactly `value`, with their
    /// version, ordered by release id.
    pub fn find_by_metadata_pair(&self, key: &str, value: &str) -> (r: Vec<(ReleaseId, String)>)
        ensures
            r@.map_values(|t: (ReleaseId, String)| (t.0.index, t.1@)) == pair_matches(
                self@.nodes,
                key@,
                value@,
            ),
    {
        proof {
            use_type_invariant(self);
        }
        let mut out: Vec<(ReleaseId, String)> = Vec::new();
        let mut i: usize = 0;
        while i < self.nodes.len()
            invariant
                self.wf(),
                i <= self.nodes.len(),
                out@.map_values(|t: (ReleaseId, String)| (t.0.index, t.1@)) == pair_matches(
                    self@.nodes.subrange(0, i as int),
                    key@,
                    value@,
                ),
            decreases self.nodes.len() - i,
        {
            proof {
                assert(self@.nodes.subrange(0, i + 1).drop_last() =~= self@.nodes.subrange(0, i as int));
                assert(self@.nodes.subrange(0, i + 1).last() == self@.nodes[i as int]);
                assert(self.nodes@[i as int].1.metadata.wf());
            }
            let ghost o0 = out@.map_values(|t: (ReleaseId, String)| (t.0.index, t.1@));
            match self.nodes[i].1.metadata.get(key) {
                Some(v) => {
                    if str_eq(v.as_str(), value) {
                        out.push((ReleaseId { index: self.nodes[i].0 }, self.nodes[i].1.version.clone()));
                        proof {
                            assert(out@.map_values(|t: (ReleaseId, String)| (t.0.index, t.1@)) =~= o0.push(
                                (self@.nodes[i as int].0, self@.nodes[i as int].1.version),
                            ));
                        }
                    }
                },
                None => {},
            }
            i = i + 1;
        }
        proof {
            assert(self@.nodes.subrange(0, self.nodes.len() as int) =~= self@.nodes);
        }
        out
    }

    /// A copy of the metadata of the release with this id.
    pub fn get_metadata(&self, id: ReleaseId) -> (r: Result<Metadata, GraphError>)
        ensures
            !has_node(self@, id.index) ==> r == Err::<Metadata, GraphError>(GraphError::UnknownRelease),
            forall|i: int|
                0 <= i < self@.nodes.len() && #[trigger] self@.nodes[i].0 == id.index ==> r.is_ok()
                    && r.unwrap().wf() && r.unwrap()@ == self@.nodes[i].1.metadata,
    {
        proof {
            use_type_invariant(self);
        }
        match self.position(id.index) {
            None => Err(GraphError::UnknownRelease),
            Some(i) => {
                proof {
                    assert(self.nodes@[i as int].1.metadata.wf());
                }
                Ok(self.nodes[i].1.metadata.duplicate())
            },
        }
    }

    /// Sets `key` to `value` in the metadata of the release with this id, and
    /// returns the value it replaced, if any.
    pub fn insert_metadata(&mut self, id: ReleaseId, key: String, value: String) -> (r: Result<
        Option<String>,
        GraphError,
    >)
        ensures
            final(self).wf(),
            !has_node(old(self)@, id.index) ==> r == Err::<Option<String>, GraphError>(
                GraphError::UnknownRelease,
            ) && final(self)@ == old(self)@,
            forall|i: int|
                0 <= i < old(self)@.nodes.len() && #[trigger] old(self)@.nodes[i].0 == id.index
                    ==> final(self)@ == (GraphView {
                    nodes: old(self)@.nodes.update(
                        i,
                        (
                            id.index,
                            ReleaseView {
                                metadata: old(self)@.nodes[i].1.metadata.insert(key@, value@),
                                ..old(self)@.nodes[i].1
                            },
                        ),
                    ),
                    ..old(self)@
                }) && match r {
                    Ok(Some(p)) => old(self)@.nodes[i].1.metadata.contains_key(key@)
                        && old(self)@.nodes[i].1.metadata[key@] == p@,
                    Ok(None) => !old(self)@.nodes[i].1.metadata.contains_key(key@),
                    Err(_) => false,
                },
    {
        proof {
            use_type_invariant(&*self);
        }
        match self.position(id.index) {
            None => Err(GraphError::UnknownRelease),
            Some(i) => {
                proof {
                    assert(self.nodes@[i as int].1.metadata.wf());
                }
                let ghost before = self@;
                let mut md = self.nodes[i].1.metadata.duplicate();
                let prev = md.insert(key, value);
                let rel = Release {
                    version: self.nodes[i].1.version.clone(),
                    payload: self.nodes[i].1.payload.clone(),
                    metadata: md,
                };
                let (mut nodes, edges, next_id) = self.take_parts();
                nodes.set(i, (id.index, rel));
                proof {
                    let g = parts_view(nodes@, edges@, next_id);
                    assert(g.nodes =~= before.nodes.update(i as int, (id.index, rel@)));
                    assert forall|a: int, b: int| 0 <= a < b < before.nodes.len() implies before.nodes[a].0 < before.nodes[b].0 by {}
                    assert forall|a: int| 0 <= a < g.nodes.len() implies g.nodes[a].0 == before.nodes[a].0 && g.nodes[a].1.version == before.nodes[a].1.version by {}
                    assert forall|k: int| 0 <= k < g.edges.len() implies has_node(g, (#[trigger] g.edges[k]).0) && has_node(g, g.edges[k].1) by {
                        assert(has_node(before, before.edges[k].0));
                        assert(has_node(before, before.edges[k].1));
                        let a = choose|a: int| 0 <= a < before.nodes.len() && #[trigger] before.nodes[a].0 == before.edges[k].0;
                        let b = choose|b: int| 0 <= b < before.nodes.len() && #[trigger] before.nodes[b].0 == before.edges[k].1;
                        assert(g.nodes[a].0 == g.edges[k].0);
                        assert(g.nodes[b].0 == g.edges[k].1);
                    }
                    assert(edge_set(g) == edge_set(before));
                    assert forall|a: int| 0 <= a < nodes@.len() implies (#[trigger] nodes@[a]).1.metadata.wf() by {
                        if a != i {
                            assert(nodes@[a] == old(self).nodes@[a]);
                        }
                    }
                    assert forall|j: int| 0 <= j < before.nodes.len() && #[trigger] before.nodes[j].0 == id.index implies j == i by {
                        if j < i {
                            assert(before.nodes[j].0 < before.nodes[i as int].0);
                        } else if j > i {
                            assert(before.nodes[i as int].0 < before.nodes[j].0);
                        }
                    }
                    assert(parts_wf(nodes@, edges@, next_id));
                }
                *self = Graph { nodes, edges, next_id };
                Ok(prev)
            },
        }
    }

    /// The document of this graph: releases in insertion order, edges as positions.
    pub fn to_document(&self) -> (r: GraphDocument)
        ensures
            r@ == document_of(self@),
            forall|i: int| 0 <= i < r.nodes@.len() ==> (#[trigger] r.nodes@[i]).metadata.wf(),
    {
        proof {
            use_type_invariant(self);
        }
        let mut nodes: Vec<Release> = Vec::new();
        let mut i: usize = 0;
        while i < self.nodes.len()
            invariant
                self.wf(),
                i <= self.nodes.len(),
                nodes@.len() == i,
                forall|k: int| 0 <= k < i ==> (#[trigger] nodes@[k])@ == self@.nodes[k].1,
                forall|k: int| 0 <= k < i ==> (#[trigger] nodes@[k]).metadata.wf(),
            decreases self.nodes.len() - i,
        {
            proof {
                assert(self.nodes@[i as int].1.metadata.wf());
            }
            nodes.push(self.nodes[i].1.duplicate());
            i = i + 1;
        }
        let mut edges: Vec<(u64, u64)> = Vec::new();
        let mut j: usize = 0;
        while j < self.edges.len()
            invariant
                self.wf(),
                j <= self.edges.len(),
                edges@.len() == j,
                forall|k: int| 0 <= k < j ==> #[trigger] edges@[k] == (
                    position_of(self@, self@.edges[k].0) as u64,
                    position_of(self@, self@.edges[k].1) as u64,
                ),
            decreases self.edges.len() - j,
        {
            let (x, y) = self.edges[j];
            proof {
                assert(has_node(self@, self@.edges[j as int].0));
                assert(has_node(self@, self@.edges[j as int].1));
            }
            let a = self.position(x).unwrap();
            let b = self.position(y).unwrap();
            proof {
                lemma_position_unique(self@, x, a as int);
                lemma_position_unique(self@, y, b as int);
            }
            edges.push((a as u64, b as u64));
            j = j + 1;
        }
        let r = GraphDocument { nodes, edges };
        proof {
            assert(r@.nodes =~= document_of(self@).nodes);
            assert(r@.edges =~= document_of(self@).edges);
        }
        r
    }

    /// Rebuilds a graph from its document, with positions as ids. Fails with
    /// `DuplicateVersion` if two releases share a version, else with
    /// `UnknownRelease` if an edge names a position past the releases, else with
    /// `CycleDetected` if the edges form a cycle. Repeated edges count once.
    pub fn from_document(doc: &GraphDocument) -> (r: Result<Graph, GraphError>)
        ensures
            !doc_versions_unique(doc@) ==> r == Err::<Graph, GraphError>(GraphError::DuplicateVersion),
            doc_versions_unique(doc@) && !doc_edges_in_range(doc@) ==> r == Err::<Graph, GraphError>(
                GraphError::UnknownRelease,
            ),
            doc_versions_unique(doc@) && doc_edges_in_range(doc@) && !acyclic(doc@.edges.to_set())
                ==> r == Err::<Graph, GraphError>(GraphError::CycleDetected),
            doc_versions_unique(doc@) && doc_edges_in_range(doc@) && acyclic(doc@.edges.to_set())
                ==> r.is_ok() && r.unwrap().wf() && r.unwrap()@ == graph_of(doc@),
    {
        let ghost d = doc@;
        let mut g = Graph::new();
        let mut i: usize = 0;
        while i < doc.nodes.len()
            invariant
                d == doc@,
                g.wf(),
                i <= doc.nodes.len(),
                g@.nodes == d.nodes.subrange(0, i as int).map(|k: int, r: ReleaseView| (k as u64, r)),
                g@.edges.len() == 0,
                g@.next_id == i,
                forall|a: int, b: int| 0 <= a < i && 0 <= b < i && a != b ==> d.nodes[a].version != d.nodes[b].version,
            decreases doc.nodes.len() - i,
        {
            let rel = doc.nodes[i].duplicate();
            let ghost g0 = g@;
            match g.add_release(rel) {
                Err(e) => {
                    proof {
                        let k = choose|k: int| 0 <= k < g0.nodes.len() && #[trigger] g0.nodes[k].1.version == rel@.version;
                        assert(d.nodes[k].version == d.nodes[i as int].version);
                    }
                    return Err(GraphError::DuplicateVersion);
                },
                Ok(_) => {},
            }
            proof {
                assert(g@.nodes =~= d.nodes.subrange(0, i + 1).map(|k: int, r: ReleaseView| (k as u64, r)));
                assert forall|a: int, b: int| 0 <= a < i + 1 && 0 <= b < i + 1 && a != b implies d.nodes[a].version != d.nodes[b].version by {
                    if a == i {
                        assert(g0.nodes[b].1.version == d.nodes[b].version);
                    } else if b == i {
                        assert(g0.nodes[a].1.version == d.nodes[a].version);
                    }
                }
            }
            i = i + 1;
        }
        proof {
            assert(d.nodes.subrange(0, d.nodes.len() as int) =~= d.nodes);
            assert(doc_versions_unique(d));
        }
        let n = doc.nodes.len();
        let mut k: usize = 0;
        while k < doc.edges.len()
            invariant
                d == doc@,
                n == d.nodes.len(),
                doc_versions_unique(d),
                k <= doc.edges.len(),
                forall|m: int| 0 <= m < k ==> (#[trigger] d.edges[m]).0 < n && d.edges[m].1 < n,
            decreases doc.edges.len() - k,
        {
            if doc.edges[k].0 >= n as u64 || doc.edges[k].1 >= n as u64 {
                return Err(GraphError::UnknownRelease);
            }
            k = k + 1;
        }
        let ghost nodes0 = g@.nodes;
        let mut m: usize = 0;
        while m < doc.edges.len()
            invariant
                d == doc@,
                n == d.nodes.len(),
                g.wf(),
                doc_versions_unique(d),
                doc_edges_in_range(d),
                nodes0 == d.nodes.map(|k: int, r: ReleaseView| (k as u64, r)),
                g@.nodes == nodes0,
                g@.next_id == n,
                m <= doc.edges.len(),
                g@.edges == dedup(d.edges.subrange(0, m as int)),
            decreases doc.edges.len() - m,
        {
            let (x, y) = doc.edges[m];
            proof {
                assert(d.edges[m as int] == (x, y));
                assert(g@.nodes[x as int].0 == x);
                assert(g@.nodes[y as int].0 == y);
                lemma_dedup(d.edges.subrange(0, m as int));
                assert(d.edges.subrange(0, m + 1).drop_last() =~= d.edges.subrange(0, m as int));
                assert(d.edges.subrange(0, m + 1).last() == (x, y));
            }
            match g.add_edge(ReleaseId { index: x }, ReleaseId { index: y }) {
                Err(e) => {
                    proof {
                        let small = edge_set(g@);
                        assert forall|z: (u64, u64)| small.contains(z) implies d.edges.to_set().contains(z) by {
                            assert(d.edges.subrange(0, m as int).to_set().contains(z));
                            let j = choose|j: int| 0 <= j < m && d.edges.subrange(0, m as int)[j] == z;
                            assert(d.edges[j] == z);
                        }
                        assert(d.edges.to_set().contains((x, y)));
                        lemma_reaches_cycle(small, d.edges.to_set(), x, y);
                    }
                    return Err(GraphError::CycleDetected);
                },
                Ok(_) => {},
            }
            m = m + 1;
        }
        proof {
            assert(d.edges.subrange(0, d.edges.len() as int) =~= d.edges);
            lemma_dedup(d.edges);
            g.lemma_wf_valid();
            assert(g@ == graph_of(d));
        }
        Ok(g)
    }
}

/// Round trip: the document of a well-formed graph is always accepted, and the
/// graph rebuilt from it has the same releases, with the same metadata, in the
/// same order, and the same edges between them.
pub proof fn lemma_document_round_trip(g: &Graph)
    requires
        g.wf(),
    ensures
        doc_versions_unique(document_of(g@)),
        doc_edges_in_range(document_of(g@)),
        acyclic(document_of(g@).edges.to_set()),
        same_graph(graph_of(document_of(g@)), g@),
{
    let v = g@;
    let d = document_of(v);
    let n = v.nodes.len();
    assert(v.next_id <= u64::MAX);
    assert forall|k: int| 0 <= k < v.edges.len() implies {
        &&& 0 <= position_of(v, v.edges[k].0) < n
        &&& v.nodes[position_of(v, v.edges[k].0)].0 == v.edges[k].0
        &&& 0 <= position_of(v, v.edges[k].1) < n
        &&& v.nodes[position_of(v, v.edges[k].1)].0 == v.edges[k].1
    } by {
        assert(has_node(v, v.edges[k].0));
        assert(has_node(v, v.edges[k].1));
    }
    assert(doc_edges_in_range(d));
    let de = d.edges.to_set();
    assert forall|p: Seq<u64>| p.len() >= 2 && #[trigger] is_path(de, p) implies p[0] != p[p.len() - 1] by {
        assert forall|i: int| 0 <= i < p.len() implies #[trigger] p[i] < n by {
            let j = if i < p.len() - 1 { i } else { i - 1 };
            assert(de.contains((p[j], p[j + 1])));
            let k = choose|k: int| 0 <= k < d.edges.len() && d.edges[k] == (p[j], p[j + 1]);
        }
        let q = p.map_values(|x: u64| v.nodes[x as int].0);
        assert forall|i: int| 0 <= i < q.len() - 1 implies #[trigger] edge_set(v).contains((q[i], q[i + 1])) by {
            assert(de.contains((p[i], p[i + 1])));
            let k = choose|k: int| 0 <= k < d.edges.len() && d.edges[k] == (p[i], p[i + 1]);
            assert(v.edges.contains(v.edges[k]));
            assert(q[i] == v.edges[k].0);
            assert(q[i + 1] == v.edges[k].1);
        }
        assert(is_path(edge_set(v), q));
    }
    let g2 = graph_of(d);
    let d2 = document_of(g2);
    assert forall|i: int| 0 <= i < g2.nodes.len() implies #[trigger] g2.nodes[i].0 == i as u64 by {}
    assert forall|k: int| 0 <= k < g2.edges.len() implies (#[trigger] d2.edges[k]) == g2.edges[k] by {
        lemma_dedup(d.edges);
        assert(g2.edges.to_set().contains(g2.edges[k]));
        assert(d.edges.to_set().contains(g2.edges[k]));
        let j = choose|j: int| 0 <= j < d.edges.len() && d.edges[j] == g2.edges[k];
        let (x, y) = g2.edges[k];
        assert(x < n && y < n);
        assert(g2.nodes[x as int].0 == x);
        assert(g2.nodes[y as int].0 == y);
        let px = position_of(g2, x);
        let py = position_of(g2, y);
        assert(g2.nodes[px].0 == x);
        assert(px as u64 == x);
        assert(g2.nodes[py].0 == y);
        assert(py as u64 == y);
    }
    assert(d2.edges =~= g2.edges);
    lemma_dedup(d.edges);
    assert(d2.nodes =~= d.nodes);
}

/// Filtering a sequence whose members all pass keeps it whole.
pub proof fn lemma_filter_all<A>(s: Seq<A>, p: spec_fn(A) -> bool)
    requires
        forall|i: int| 0 <= i < s.len() ==> p(#[trigger] s[i]),
    ensures
        s.filter(p) == s,
    decreases s.len(),
{
    reveal(Seq::filter);
    if s.len() > 0 {
        lemma_filter_all(s.drop_last(), p);
        assert(s.drop_last().push(s.last()) =~= s);
    }
}

/// Adding a release and then removing it by its id leaves the releases and the
/// edges exactly as they were: the count is unchanged and no edge dangles.
pub proof fn lemma_add_then_remove(g: &Graph, r: ReleaseView)
    requires
        g.wf(),
        !has_version(g@, r.version),
    ensures
        remove_spec(add_release_spec(g@, r), seq![ReleaseId { index: g@.next_id as u64 }]).nodes
            == g@.nodes,
        remove_spec(add_release_spec(g@, r), seq![ReleaseId { index: g@.next_id as u64 }]).edges
            == g@.edges,
        remove_spec(add_release_spec(g@, r), seq![ReleaseId { index: g@.next_id as u64 }]).nodes.len()
            == g@.nodes.len(),
{
    let v = g@;
    let id = v.next_id as u64;
    let ids = seq![ReleaseId { index: id }];
    let a = add_release_spec(v, r);
    assert(v.next_id <= u64::MAX);
    assert(id as nat == v.next_id);
    assert(listed(ids, id)) by {
        assert(ids[0].index == id);
    }
    assert forall|x: u64| listed(ids, x) implies x == id by {
        let k = choose|k: int| 0 <= k < ids.len() && #[trigger] ids[k].index == x;
    }
    reveal(Seq::filter);
    assert(a.nodes.drop_last() =~= v.nodes);
    assert(a.nodes.filter(node_not_listed(ids)) == v.nodes.filter(node_not_listed(ids)));
    assert forall|i: int| 0 <= i < v.nodes.len() implies (node_not_listed(ids))(#[trigger] v.nodes[i]) by {
        assert(v.nodes[i].0 < v.next_id);
    }
    lemma_filter_all(v.nodes, node_not_listed(ids));
    assert forall|k: int| 0 <= k < v.edges.len() implies (edge_not_listed(ids))(#[trigger] v.edges[k]) by {
        assert(has_node(v, v.edges[k].0));
        assert(has_node(v, v.edges[k].1));
        let i = choose|i: int| 0 <= i < v.nodes.len() && #[trigger] v.nodes[i].0 == v.edges[k].0;
        let j = choose|j: int| 0 <= j < v.nodes.len() && #[trigger] v.nodes[j].0 == v.edges[k].1;
        assert(v.nodes[i].0 < v.next_id);
        assert(v.nodes[j].0 < v.next_id);
    }
    lemma_filter_all(v.edges, edge_not_listed(ids));
}

/// Removing the same releases a second time changes nothing.
pub proof fn lemma_remove_idempotent(g: GraphView, ids: Seq<ReleaseId>)
    ensures
        remove_spec(remove_spec(g, ids), ids) == remove_spec(g, ids),
{
    let once = remove_spec(g, ids);
    lemma_filter_facts(g.nodes, node_not_listed(ids));
    lemma_filter_facts(g.edges, edge_not_listed(ids));
    assert forall|i: int| 0 <= i < once.nodes.len() implies (node_not_listed(ids))(#[trigger] once.nodes[i]) by {
        assert(once.nodes.contains(once.nodes[i]));
    }
    assert forall|i: int| 0 <= i < once.edges.len() implies (edge_not_listed(ids))(#[trigger] once.edges[i]) by {
        assert(once.edges.contains(once.edges[i]));
    }
    lemma_filter_all(once.nodes, node_not_listed(ids));
    lemma_filter_all(once.edges, edge_not_listed(ids));
}

} // verus!
