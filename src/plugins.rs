//! The built-in plugins that transform a graph, and the envelope they pass on.

use vstd::prelude::*;
use vstd::string::*;
use crate::errors::{GraphError, GraphErrorView};
use crate::graph::{
    Graph, GraphDocument, GraphView, ReleaseId, ReleaseView, add_edge_spec, doc_edges_in_range,
    doc_versions_unique, graph_of, has_node, listed, has_version, key_matches, lemma_position_unique,
    pair_matches, position_of, remove_edge_spec, remove_spec, valid, version_id, acyclic,
    DocumentView,
};
use crate::errors::value_of;
use crate::metadata::Metadata;
use crate::text::{contains_str, params_set_of, parse_params_set, views};

verus! {

/// The default prefix of the metadata keys that plugins read.
pub const DEFAULT_KEY_PREFIX: &'static str = "io.openshift.upgrades.graph";

/// The pattern that channel and architecture names must match.
pub const SELECTOR_REGEX: &'static str = "^[0-9a-z\\-\\.]+$";

/// The envelope passed from plugin to plugin: a graph and the request parameters.
pub struct PluginIO {
    pub graph: Graph,
    pub parameters: Metadata,
}

/// An envelope as mathematical values.
pub struct IOView {
    pub graph: GraphView,
    pub parameters: Map<Seq<char>, Seq<char>>,
}

impl View for PluginIO {
    type V = IOView;

    open spec fn view(&self) -> IOView {
        IOView { graph: self.graph@, parameters: self.parameters@ }
    }
}

impl PluginIO {
    pub open spec fn wf(&self) -> bool {
        self.graph.wf() && self.parameters.wf()
    }

    /// An envelope with an empty graph and the given parameters.
    pub fn with_parameters(parameters: Metadata) -> (r: PluginIO)
        ensures
            r.wf(),
            r@.graph.nodes.len() == 0,
            r@.graph.edges.len() == 0,
            r@.graph.next_id == 0,
            r@.parameters == parameters@,
    {
        parameters.check_wf();
        PluginIO { graph: Graph::new(), parameters }
    }
}

/// The outcome of a plugin run as mathematical values.
pub open spec fn result_view(r: Result<PluginIO, GraphError>) -> Result<IOView, GraphErrorView> {
    match r {
        Ok(io) => Ok(io@),
        Err(e) => Err(e@),
    }
}

/// The metadata key `prefix.suffix`.
pub open spec fn dotted(prefix: Seq<char>, suffix: Seq<char>) -> Seq<char> {
    prefix + "."@ + suffix
}

/// The metadata key `prefix.suffix`.
pub fn join_key(prefix: &str, suffix: &str) -> (r: String)
    ensures
        r@ == dotted(prefix@, suffix@),
{
    let mut r = String::from_str(prefix);
    r.append(".");
    r.append(suffix);
    r
}

/// The ids of the matches.
pub open spec fn ids_of_matches(m: Seq<(u64, Seq<char>)>) -> Seq<ReleaseId> {
    m.map_values(|t: (u64, Seq<char>)| ReleaseId { index: t.0 })
}

/// The value of parameter `key`, or `default` when it is absent.
pub open spec fn param_or(p: Map<Seq<char>, Seq<char>>, key: Seq<char>, default: Seq<char>) -> Seq<char> {
    if p.contains_key(key) {
        p[key]
    } else {
        default
    }
}

/// A character that may stand in a channel or architecture name.
pub open spec fn selector_char(c: char) -> bool {
    ('0' <= c && c <= '9') || ('a' <= c && c <= 'z') || c == '-' || c == '.'
}

/// A non-empty name of lowercase letters, digits, dashes and dots.
pub open spec fn valid_selector(s: Seq<char>) -> bool {
    s.len() > 0 && forall|i: int| 0 <= i < s.len() ==> selector_char(#[trigger] s[i])
}

/// The message for a name that is not a valid selector.
pub open spec fn selector_message(name: Seq<char>, value: Seq<char>) -> Seq<char> {
    name + " '"@ + value + "' does not match regex '"@ + SELECTOR_REGEX@ + "'"@
}

/// A node that does not list `item` under `key`.
pub open spec fn lacks_item(key: Seq<char>, item: Seq<char>) -> spec_fn((u64, ReleaseView)) -> bool {
    |n: (u64, ReleaseView)|
        !(n.1.metadata.contains_key(key) && params_set_of(n.1.metadata[key]).contains(item))
}

/// The graph keeping only the releases that list `item` under `key`.
pub open spec fn keep_listing(g: GraphView, key: Seq<char>, item: Seq<char>) -> GraphView {
    remove_spec(
        g,
        g.nodes.filter(lacks_item(key, item)).map_values(
            |n: (u64, ReleaseView)| ReleaseId { index: n.0 },
        ),
    )
}

/// Whether `s` is a valid selector.
pub fn is_valid_selector(s: &str) -> (r: bool)
    ensures
        r == valid_selector(s@),
{
    let n = s.unicode_len();
    if n == 0 {
        return false;
    }
    let mut i: usize = 0;
    while i < n
        invariant
            n == s@.len(),
            i <= n,
            forall|k: int| 0 <= k < i ==> selector_char(#[trigger] s@[k]),
        decreases n - i,
    {
        let c = s.get_char(i);
        if !(('0' <= c && c <= '9') || ('a' <= c && c <= 'z') || c == '-' || c == '.') {
            return false;
        }
        i = i + 1;
    }
    true
}

fn selector_error(name: &str, value: &str) -> (r: GraphError)
    ensures
        r@ == GraphErrorView::InvalidParams(selector_message(name@, value@)),
{
    let mut m = String::from_str(name);
    m.append(" '");
    m.append(value);
    m.append("' does not match regex '");
    m.append(SELECTOR_REGEX);
    m.append("'");
    GraphError::InvalidParams(m)
}

/// Keeps only the releases that list `item` under `key`, with their edges.
fn retain_listing(graph: &mut Graph, key: &str, item: &str)
    requires
        old(graph).wf(),
    ensures
        final(graph).wf(),
        final(graph)@ == keep_listing(old(graph)@, key@, item@),
{
    let ghost g0 = graph@;
    let ghost pred = lacks_item(key@, item@);
    let mut ids: Vec<ReleaseId> = Vec::new();
    let mut i: usize = 0;
    while i < graph.releases_count()
        invariant
            graph.wf(),
            graph@ == g0,
            pred == lacks_item(key@, item@),
            i <= g0.nodes.len(),
            ids@.len() == g0.nodes.subrange(0, i as int).filter(pred).len(),
            forall|k: int| 0 <= k < ids@.len() ==> (#[trigger] ids@[k]).index == g0.nodes.subrange(
                0,
                i as int,
            ).filter(pred)[k].0,
        decreases g0.nodes.len() - i,
    {
        let (id, rel) = graph.node_at(i);
        let present = match rel.metadata.get(key) {
            Some(v) => {
                let set = parse_params_set(v.as_str());
                contains_str(&set, item)
            },
            None => false,
        };
        if !present {
            ids.push(id);
        }
        proof {
            reveal(Seq::filter);
            let t = g0.nodes.subrange(0, i + 1);
            assert(t.drop_last() =~= g0.nodes.subrange(0, i as int));
            assert(t.last() == g0.nodes[i as int]);
            assert(t.filter(pred) == (if pred(t.last()) { t.drop_last().filter(pred).push(t.last()) } else { t.drop_last().filter(pred) }));
            assert(pred(g0.nodes[i as int]) == !present);
        }
        i = i + 1;
    }
    proof {
        assert(g0.nodes.subrange(0, g0.nodes.len() as int) =~= g0.nodes);
        assert(ids@ =~= g0.nodes.filter(pred).map_values(|n: (u64, ReleaseView)| ReleaseId { index: n.0 }));
    }
    graph.remove_releases(&ids);
}

/// Removes every release whose metadata maps `{key_prefix}.release.remove` to `"true"`.
pub struct NodeRemovePlugin {
    pub key_prefix: String,
}

/// What the node-remove plugin makes of a graph.
pub open spec fn node_remove_spec(prefix: Seq<char>, g: GraphView) -> GraphView {
    remove_spec(g, ids_of_matches(pair_matches(g.nodes, dotted(prefix, "release.remove"@), "true"@)))
}

/// Validates a configured key prefix: the default when absent, never empty.
pub fn validated_prefix(key_prefix: Option<String>) -> (r: Result<String, GraphError>)
    ensures
        key_prefix matches Some(p) && p@.len() == 0 ==> r matches Err(GraphError::InvalidPluginConfig(_)),
        key_prefix matches Some(p) && p@.len() > 0 ==> (r matches Ok(q) && q@ == key_prefix.unwrap()@),
        key_prefix is None ==> (r matches Ok(q) && q@ == DEFAULT_KEY_PREFIX@),
{
    match key_prefix {
        Some(p) => {
            if p.as_str().is_empty() {
                Err(GraphError::InvalidPluginConfig(String::from_str("empty prefix")))
            } else {
                Ok(p)
            }
        },
        None => Ok(String::from_str(DEFAULT_KEY_PREFIX)),
    }
}

impl NodeRemovePlugin {
    /// Validates the configured prefix: the default when absent, never empty.
    pub fn deserialize_config(key_prefix: Option<String>) -> (r: Result<NodeRemovePlugin, GraphError>)
        ensures
            key_prefix matches Some(p) && p@.len() == 0 ==> r matches Err(
                GraphError::InvalidPluginConfig(_),
            ),
            key_prefix matches Some(p) && p@.len() > 0 ==> (r matches Ok(q) && q.key_prefix@
                == key_prefix.unwrap()@),
            key_prefix is None ==> (r matches Ok(q) && q.key_prefix@ == DEFAULT_KEY_PREFIX@),
    {
        let p = validated_prefix(key_prefix)?;
        Ok(NodeRemovePlugin { key_prefix: p })
    }

    /// Removes the marked releases and their edges; never fails.
    pub fn run_internal(&self, io: PluginIO) -> (r: Result<PluginIO, GraphError>)
        ensures
            r matches Ok(o) && o.wf() && o@ == (IOView {
                graph: node_remove_spec(self.key_prefix@, io@.graph),
                parameters: io@.parameters,
            }),
    {
        io.graph.check_wf();
        io.parameters.check_wf();
        let mut graph = io.graph;
        let key = join_key(self.key_prefix.as_str(), "release.remove");
        let found = graph.find_by_metadata_pair(key.as_str(), "true");
        let mut ids: Vec<ReleaseId> = Vec::new();
        let mut i: usize = 0;
        while i < found.len()
            invariant
                i <= found.len(),
                ids@.len() == i,
                forall|k: int| 0 <= k < i ==> #[trigger] ids@[k] == found@[k].0,
            decreases found.len() - i,
        {
            ids.push(found[i].0);
            i = i + 1;
        }
        proof {
            let m = pair_matches(graph@.nodes, key@, "true"@);
            assert forall|k: int| 0 <= k < ids@.len() implies ids@[k] == ids_of_matches(m)[k] by {
                assert(found@.map_values(|t: (ReleaseId, String)| (t.0.index, t.1@))[k] == m[k]);
            }
            assert(ids@ =~= ids_of_matches(m));
        }
        graph.remove_releases(&ids);
        Ok(PluginIO { graph, parameters: io.parameters })
    }
}

/// Keeps only the releases that list the requested channel.
pub struct ChannelFilterPlugin {
    pub key_prefix: String,
    pub key_suffix: String,
}

/// What the channel filter makes of an envelope.
pub open spec fn channel_filter_spec(prefix: Seq<char>, suffix: Seq<char>, io: IOView) -> Result<
    IOView,
    GraphErrorView,
> {
    let c = param_or(io.parameters, "channel"@, Seq::empty());
    if !valid_selector(c) {
        Err(GraphErrorView::InvalidParams(selector_message("channel"@, c)))
    } else {
        Ok(IOView { graph: keep_listing(io.graph, dotted(prefix, suffix), c), parameters: io.parameters })
    }
}

impl ChannelFilterPlugin {
    /// Fails with `InvalidParams` unless the `channel` parameter is a valid name;
    /// then keeps only the releases whose `{prefix}.{suffix}` list holds it.
    pub fn run_internal(&self, io: PluginIO) -> (r: Result<PluginIO, GraphError>)
        ensures
            result_view(r) == channel_filter_spec(self.key_prefix@, self.key_suffix@, io@),
            r matches Ok(o) ==> o.wf(),
    {
        io.graph.check_wf();
        io.parameters.check_wf();
        let channel = match io.parameters.get("channel") {
            Some(c) => c,
            None => String::new(),
        };
        if !is_valid_selector(channel.as_str()) {
            return Err(selector_error("channel", channel.as_str()));
        }
        let mut graph = io.graph;
        let key = join_key(self.key_prefix.as_str(), self.key_suffix.as_str());
        retain_listing(&mut graph, key.as_str(), channel.as_str());
        Ok(PluginIO { graph, parameters: io.parameters })
    }
}

/// Keeps only the releases that list the requested (or default) architecture.
pub struct ArchFilterPlugin {
    pub key_prefix: String,
    pub key_suffix: String,
    pub default_arch: String,
}

/// What the architecture filter makes of an envelope.
pub open spec fn arch_filter_spec(prefix: Seq<char>, suffix: Seq<char>, default: Seq<char>, io: IOView) -> Result<
    IOView,
    GraphErrorView,
> {
    let a = param_or(io.parameters, "arch"@, default);
    if !valid_selector(a) {
        Err(GraphErrorView::InvalidParams(selector_message("arch"@, a)))
    } else {
        Ok(IOView { graph: keep_listing(io.graph, dotted(prefix, suffix), a), parameters: io.parameters })
    }
}

impl ArchFilterPlugin {
    /// Fails with `InvalidParams` unless the `arch` parameter (or the default
    /// when it is absent) is a valid name; then keeps only the releases whose
    /// `{prefix}.{suffix}` list holds it.
    pub fn run_internal(&self, io: PluginIO) -> (r: Result<PluginIO, GraphError>)
        ensures
            result_view(r) == arch_filter_spec(self.key_prefix@, self.key_suffix@, self.default_arch@, io@),
            r matches Ok(o) ==> o.wf(),
    {
        io.graph.check_wf();
        io.parameters.check_wf();
        let arch = match io.parameters.get("arch") {
            Some(a) => a,
            None => self.default_arch.clone(),
        };
        if !is_valid_selector(arch.as_str()) {
            return Err(selector_error("arch", arch.as_str()));
        }
        let mut graph = io.graph;
        let key = join_key(self.key_prefix.as_str(), self.key_suffix.as_str());
        retain_listing(&mut graph, key.as_str(), arch.as_str());
        Ok(PluginIO { graph, parameters: io.parameters })
    }
}

/// The outcome of adding an edge from each known source version to `t`, in
/// order; unknown versions are skipped, the first failure stops.
pub open spec fn add_sources(g: GraphView, sources: Seq<Seq<char>>, t: u64) -> Result<GraphView, GraphErrorView>
    decreases sources.len(),
{
    if sources.len() == 0 {
        Ok(g)
    } else {
        match add_sources(g, sources.drop_last(), t) {
            Err(e) => Err(e),
            Ok(g1) => if has_version(g1, sources.last()) {
                match add_edge_spec(g1, version_id(g1, sources.last()), t) {
                    Ok(g2) => Ok(g2),
                    Err(e) => Err(e@),
                }
            } else {
                Ok(g1)
            },
        }
    }
}

/// The outcome of adding, for each target, the edges from its listed sources.
pub open spec fn edge_add_over(g: GraphView, targets: Seq<(u64, Seq<char>, Seq<char>)>) -> Result<GraphView, GraphErrorView>
    decreases targets.len(),
{
    if targets.len() == 0 {
        Ok(g)
    } else {
        match edge_add_over(g, targets.drop_last()) {
            Err(e) => Err(e),
            Ok(g1) => add_sources(g1, params_set_of(targets.last().2), targets.last().0),
        }
    }
}

/// What the edge-add plugin makes of a graph.
pub open spec fn edge_add_spec(prefix: Seq<char>, g: GraphView) -> Result<GraphView, GraphErrorView> {
    edge_add_over(g, key_matches(g.nodes, dotted(prefix, "previous.add"@)))
}

/// The graph after removing the edge from each known source version to `t`.
pub open spec fn remove_sources(g: GraphView, sources: Seq<Seq<char>>, t: u64) -> GraphView
    decreases sources.len(),
{
    if sources.len() == 0 {
        g
    } else {
        let g1 = remove_sources(g, sources.drop_last(), t);
        if has_version(g1, sources.last()) {
            remove_edge_spec(g1, version_id(g1, sources.last()), t)
        } else {
            g1
        }
    }
}

/// The graph after removing, for each target, the edges from its listed sources.
pub open spec fn edge_remove_over(g: GraphView, targets: Seq<(u64, Seq<char>, Seq<char>)>) -> GraphView
    decreases targets.len(),
{
    if targets.len() == 0 {
        g
    } else {
        remove_sources(edge_remove_over(g, targets.drop_last()), params_set_of(targets.last().2), targets.last().0)
    }
}

/// What the edge-remove plugin makes of a graph.
pub open spec fn edge_remove_spec(prefix: Seq<char>, g: GraphView) -> GraphView {
    edge_remove_over(g, key_matches(g.nodes, dotted(prefix, "previous.remove"@)))
}

proof fn lemma_add_sources_err(g: GraphView, s: Seq<Seq<char>>, t: u64, j: int, e: GraphErrorView)
    requires
        0 <= j <= s.len(),
        add_sources(g, s.subrange(0, j), t) == Err::<GraphView, GraphErrorView>(e),
    ensures
        add_sources(g, s, t) == Err::<GraphView, GraphErrorView>(e),
    decreases s.len() - j,
{
    if j < s.len() {
        assert(s.subrange(0, j + 1).drop_last() =~= s.subrange(0, j));
        lemma_add_sources_err(g, s, t, j + 1, e);
    } else {
        assert(s.subrange(0, j) =~= s);
    }
}

proof fn lemma_edge_add_err(g: GraphView, s: Seq<(u64, Seq<char>, Seq<char>)>, j: int, e: GraphErrorView)
    requires
        0 <= j <= s.len(),
        edge_add_over(g, s.subrange(0, j)) == Err::<GraphView, GraphErrorView>(e),
    ensures
        edge_add_over(g, s) == Err::<GraphView, GraphErrorView>(e),
    decreases s.len() - j,
{
    if j < s.len() {
        assert(s.subrange(0, j + 1).drop_last() =~= s.subrange(0, j));
        lemma_edge_add_err(g, s, j + 1, e);
    } else {
        assert(s.subrange(0, j) =~= s);
    }
}

/// Adds the upgrade edges that releases ask for under `{key_prefix}.previous.add`.
pub struct EdgeAddPlugin {
    pub key_prefix: String,
}

impl EdgeAddPlugin {
    /// For each release carrying `{prefix}.previous.add`, adds an edge from each
    /// listed version to it; unknown versions are skipped, and an edge that
    /// would close a cycle fails the run with `CycleDetected`.
    pub fn run_internal(&self, io: PluginIO) -> (r: Result<PluginIO, GraphError>)
        ensures
            result_view(r) == (match edge_add_spec(self.key_prefix@, io@.graph) {
                Ok(g) => Ok(IOView { graph: g, parameters: io@.parameters }),
                Err(e) => Err::<IOView, GraphErrorView>(e),
            }),
            r matches Ok(o) ==> o.wf(),
    {
        io.graph.check_wf();
        io.parameters.check_wf();
        let mut graph = io.graph;
        let ghost g0 = graph@;
        let key = join_key(self.key_prefix.as_str(), "previous.add");
        let targets = graph.find_by_metadata_key(key.as_str());
        let ghost tv = key_matches(g0.nodes, key@);
        let mut i: usize = 0;
        proof {
            assert(tv.subrange(0, 0) =~= Seq::<(u64, Seq<char>, Seq<char>)>::empty());
        }
        while i < targets.len()
            invariant
                graph.wf(),
                tv == key_matches(g0.nodes, key@),
                g0 == io@.graph,
                key@ == dotted(self.key_prefix@, "previous.add"@),
                targets@.map_values(|t: (ReleaseId, String, String)| (t.0.index, t.1@, t.2@)) == tv,
                i <= targets.len(),
                edge_add_over(g0, tv.subrange(0, i as int)) == Ok::<GraphView, GraphErrorView>(graph@),
            decreases targets.len() - i,
        {
            let t = targets[i].0;
            let sources = parse_params_set(targets[i].2.as_str());
            let ghost sv = views(sources@);
            let ghost gi = graph@;
            proof {
                assert(tv[i as int] == (t.index, targets@[i as int].1@, targets@[i as int].2@));
                assert(tv.subrange(0, i + 1).drop_last() =~= tv.subrange(0, i as int));
                assert(tv.subrange(0, i + 1).last() == tv[i as int]);
                assert(sv.subrange(0, 0) =~= Seq::<Seq<char>>::empty());
            }
            let mut j: usize = 0;
            while j < sources.len()
                invariant
                    graph.wf(),
                    sv == views(sources@),
                    j <= sources.len(),
                    add_sources(gi, sv.subrange(0, j as int), t.index) == Ok::<GraphView, GraphErrorView>(graph@),
                    i < targets.len(),
                    tv.len() == targets.len(),
                    tv == key_matches(g0.nodes, key@),
                    g0 == io@.graph,
                    key@ == dotted(self.key_prefix@, "previous.add"@),
                    edge_add_over(g0, tv.subrange(0, i as int)) == Ok::<GraphView, GraphErrorView>(gi),
                    sv == params_set_of(tv[i as int].2),
                    t.index == tv[i as int].0,
                decreases sources.len() - j,
            {
                proof {
                    assert(sv.subrange(0, j + 1).drop_last() =~= sv.subrange(0, j as int));
                    assert(sv.subrange(0, j + 1).last() == sv[j as int]);
                }
                match graph.find_by_version(sources[j].as_str()) {
                    None => {},
                    Some(from) => {
                        match graph.add_edge(from, t) {
                            Err(e) => {
                                proof {
                                    lemma_add_sources_err(gi, sv, t.index, j + 1, e@);
                                    let u = tv.subrange(0, i + 1);
                                    assert(u.drop_last() =~= tv.subrange(0, i as int));
                                    assert(u.last() == tv[i as int]);
                                    assert(edge_add_over(g0, u) == Err::<GraphView, GraphErrorView>(e@));
                                    lemma_edge_add_err(g0, tv, i + 1, e@);
                                    assert(edge_add_over(g0, tv) == Err::<GraphView, GraphErrorView>(e@));
                                    assert(edge_add_spec(self.key_prefix@, io@.graph) == Err::<GraphView, GraphErrorView>(e@));
                                }
                                return Err(e);
                            },
                            Ok(_) => {},
                        }
                    },
                }
                j = j + 1;
            }
            proof {
                assert(sv.subrange(0, sources.len() as int) =~= sv);
            }
            i = i + 1;
        }
        proof {
            assert(tv.subrange(0, targets.len() as int) =~= tv);
        }
        Ok(PluginIO { graph, parameters: io.parameters })
    }
}

/// Removes the upgrade edges that releases reject under `{key_prefix}.previous.remove`.
pub struct EdgeRemovePlugin {
    pub key_prefix: String,
}

impl EdgeRemovePlugin {
    /// For each release carrying `{prefix}.previous.remove`, removes the edge
    /// from each listed version to it; missing edges and unknown versions are
    /// ignored. Never fails.
    pub fn run_internal(&self, io: PluginIO) -> (r: Result<PluginIO, GraphError>)
        ensures
            r matches Ok(o) && o.wf() && o@ == (IOView {
                graph: edge_remove_spec(self.key_prefix@, io@.graph),
                parameters: io@.parameters,
            }),
    {
        io.graph.check_wf();
        io.parameters.check_wf();
        let mut graph = io.graph;
        let ghost g0 = graph@;
        let key = join_key(self.key_prefix.as_str(), "previous.remove");
        let targets = graph.find_by_metadata_key(key.as_str());
        let ghost tv = key_matches(g0.nodes, key@);
        let mut i: usize = 0;
        proof {
            assert(tv.subrange(0, 0) =~= Seq::<(u64, Seq<char>, Seq<char>)>::empty());
        }
        while i < targets.len()
            invariant
                graph.wf(),
                tv == key_matches(g0.nodes, key@),
                g0 == io@.graph,
                key@ == dotted(self.key_prefix@, "previous.remove"@),
                targets@.map_values(|t: (ReleaseId, String, String)| (t.0.index, t.1@, t.2@)) == tv,
                i <= targets.len(),
                edge_remove_over(g0, tv.subrange(0, i as int)) == graph@,
            decreases targets.len() - i,
        {
            let t = targets[i].0;
            let sources = parse_params_set(targets[i].2.as_str());
            let ghost sv = views(sources@);
            let ghost gi = graph@;
            proof {
                assert(tv[i as int] == (t.index, targets@[i as int].1@, targets@[i as int].2@));
                assert(tv.subrange(0, i + 1).drop_last() =~= tv.subrange(0, i as int));
                assert(tv.subrange(0, i + 1).last() == tv[i as int]);
                assert(sv.subrange(0, 0) =~= Seq::<Seq<char>>::empty());
            }
            let mut j: usize = 0;
            while j < sources.len()
                invariant
                    graph.wf(),
                    sv == views(sources@),
                    j <= sources.len(),
                    remove_sources(gi, sv.subrange(0, j as int), t.index) == graph@,
                    i < targets.len(),
                    tv.len() == targets.len(),
                    tv == key_matches(g0.nodes, key@),
                    edge_remove_over(g0, tv.subrange(0, i as int)) == gi,
                    sv == params_set_of(tv[i as int].2),
                    t.index == tv[i as int].0,
                decreases sources.len() - j,
            {
                proof {
                    assert(sv.subrange(0, j + 1).drop_last() =~= sv.subrange(0, j as int));
                    assert(sv.subrange(0, j + 1).last() == sv[j as int]);
                }
                match graph.find_by_version(sources[j].as_str()) {
                    None => {},
                    Some(from) => {
                        graph.remove_edge(from, t);
                    },
                }
                j = j + 1;
            }
            proof {
                assert(sv.subrange(0, sources.len() as int) =~= sv);
            }
            i = i + 1;
        }
        proof {
            assert(tv.subrange(0, targets.len() as int) =~= tv);
        }
        Ok(PluginIO { graph, parameters: io.parameters })
    }
}

/// The warning for a label that overwrites an existing metadata value.
pub open spec fn label_warning(version: Seq<char>, key: Seq<char>, value: Seq<char>, prev: Seq<char>) -> Seq<char> {
    "["@ + version + "] key '"@ + key + "' already exists. overwriting with value '"@ + value
        + "'. previous value: '"@ + prev + "'"@
}

/// The graph with `key` set to `value` in the metadata of release `id`.
pub open spec fn set_meta(g: GraphView, id: u64, key: Seq<char>, value: Seq<char>) -> GraphView {
    let i = position_of(g, id);
    GraphView {
        nodes: g.nodes.update(
            i,
            (id, ReleaseView { metadata: g.nodes[i].1.metadata.insert(key, value), ..g.nodes[i].1 }),
        ),
        ..g
    }
}

/// The outcome of merging labels `(release, version, key, value)` in order,
/// with the warnings for overwritten values; an unknown release fails.
pub open spec fn apply_labels_spec(g: GraphView, labels: Seq<(u64, Seq<char>, Seq<char>, Seq<char>)>) -> Result<
    (GraphView, Seq<Seq<char>>),
    GraphErrorView,
>
    decreases labels.len(),
{
    if labels.len() == 0 {
        Ok((g, Seq::empty()))
    } else {
        match apply_labels_spec(g, labels.drop_last()) {
            Err(e) => Err(e),
            Ok((g1, w)) => {
                let (id, ver, k, v) = labels.last();
                if !has_node(g1, id) {
                    Err(GraphErrorView::UnknownRelease)
                } else {
                    let md = g1.nodes[position_of(g1, id)].1.metadata;
                    Ok(
                        (
                            set_meta(g1, id, k, v),
                            if md.contains_key(k) {
                                w.push(label_warning(ver, k, v, md[k]))
                            } else {
                                w
                            },
                        ),
                    )
                }
            },
        }
    }
}

/// The views of flattened labels.
pub open spec fn label_views(v: Seq<(ReleaseId, String, String, String)>) -> Seq<(u64, Seq<char>, Seq<char>, Seq<char>)> {
    v.map_values(|l: (ReleaseId, String, String, String)| (l.0.index, l.1@, l.2@, l.3@))
}

proof fn lemma_labels_err(g: GraphView, s: Seq<(u64, Seq<char>, Seq<char>, Seq<char>)>, j: int, e: GraphErrorView)
    requires
        0 <= j <= s.len(),
        apply_labels_spec(g, s.subrange(0, j)) == Err::<(GraphView, Seq<Seq<char>>), GraphErrorView>(e),
    ensures
        apply_labels_spec(g, s) == Err::<(GraphView, Seq<Seq<char>>), GraphErrorView>(e),
    decreases s.len() - j,
{
    if j < s.len() {
        assert(s.subrange(0, j + 1).drop_last() =~= s.subrange(0, j));
        lemma_labels_err(g, s, j + 1, e);
    } else {
        assert(s.subrange(0, j) =~= s);
    }
}

/// The warning for a label that overwrites an existing metadata value.
pub fn overwrite_warning(version: &str, key: &str, value: &str, prev: &str) -> (r: String)
    ensures
        r@ == label_warning(version@, key@, value@, prev@),
{
    let mut m = String::from_str("[");
    m.append(version);
    m.append("] key '");
    m.append(key);
    m.append("' already exists. overwriting with value '");
    m.append(value);
    m.append("'. previous value: '");
    m.append(prev);
    m.append("'");
    m
}

/// Merges labels `(release, version, key, value)` into the releases' metadata,
/// in order; a label overwrites an existing value and yields a warning that
/// names the previous one. Fails with `UnknownRelease`, changing nothing
/// further, at the first label whose release is absent.
pub fn apply_labels(io: PluginIO, labels: &Vec<(ReleaseId, String, String, String)>) -> (r: Result<(PluginIO, Vec<String>), GraphError>)
    ensures
        match (r, apply_labels_spec(io@.graph, label_views(labels@))) {
            (Ok((o, w)), Ok((g, ws))) => o.wf() && o@ == (IOView { graph: g, parameters: io@.parameters })
                && views(w@) == ws,
            (Err(e), Err(ev)) => e@ == ev,
            _ => false,
        },
{
    io.graph.check_wf();
    io.parameters.check_wf();
    let mut graph = io.graph;
    let ghost g0 = graph@;
    let ghost lv = label_views(labels@);
    let mut warnings: Vec<String> = Vec::new();
    let mut i: usize = 0;
    proof {
        assert(lv.subrange(0, 0) =~= Seq::<(u64, Seq<char>, Seq<char>, Seq<char>)>::empty());
        assert(views(warnings@) =~= Seq::<Seq<char>>::empty());
    }
    while i < labels.len()
        invariant
            graph.wf(),
            g0 == io@.graph,
            lv == label_views(labels@),
            i <= labels.len(),
            apply_labels_spec(g0, lv.subrange(0, i as int)) == Ok::<(GraphView, Seq<Seq<char>>), GraphErrorView>(
                (graph@, views(warnings@)),
            ),
        decreases labels.len() - i,
    {
        let (id, ver, key, value) = (labels[i].0, &labels[i].1, &labels[i].2, &labels[i].3);
        let ghost gi = graph@;
        let ghost wi = views(warnings@);
        proof {
            let u = lv.subrange(0, i + 1);
            assert(u.drop_last() =~= lv.subrange(0, i as int));
            assert(u.last() == (id.index, ver@, key@, value@));
            graph.lemma_wf_valid();
        }
        match graph.insert_metadata(id, key.clone(), value.clone()) {
            Err(e) => {
                proof {
                    lemma_labels_err(g0, lv, i + 1, e@);
                }
                return Err(e);
            },
            Ok(prev) => {
                proof {
                    let j = choose|j: int| 0 <= j < gi.nodes.len() && #[trigger] gi.nodes[j].0 == id.index;
                    lemma_position_unique(gi, id.index, j);
                    assert(graph@ == set_meta(gi, id.index, key@, value@));
                }
                match prev {
                    Some(p) => {
                        let w = overwrite_warning(ver.as_str(), key.as_str(), value.as_str(), p.as_str());
                        warnings.push(w);
                        proof {
                            assert(views(warnings@) =~= wi.push(w@));
                        }
                    },
                    None => {},
                }
            },
        }
        i = i + 1;
    }
    proof {
        assert(lv.subrange(0, labels.len() as int) =~= lv);
    }
    Ok((PluginIO { graph, parameters: io.parameters }, warnings))
}

/// Settings of the registry metadata fetch.
pub struct QuayMetadataSettings {
    pub api_base: String,
    pub api_credentials_path: Option<String>,
    pub repository: String,
    pub label_filter: String,
    pub manifestref_key: String,
}

/// The default base of the registry API.
pub const DEFAULT_QUAY_API_BASE: &'static str = "https://quay.io/api/v1";

/// The default prefix of the labels that are fetched.
pub const DEFAULT_QUAY_LABEL_FILTER: &'static str = "io.openshift.upgrades.graph";

/// The default metadata key that holds a release's manifest reference.
pub const DEFAULT_QUAY_MANIFESTREF_KEY: &'static str = "io.openshift.upgrades.graph.release.manifestref";

/// The default registry repository.
pub const DEFAULT_QUAY_REPOSITORY: &'static str = "openshift";

impl QuayMetadataSettings {
    /// The default settings.
    pub fn defaults() -> (r: QuayMetadataSettings)
        ensures
            r.api_base@ == DEFAULT_QUAY_API_BASE@,
            r.api_credentials_path is None,
            r.repository@ == DEFAULT_QUAY_REPOSITORY@,
            r.label_filter@ == DEFAULT_QUAY_LABEL_FILTER@,
            r.manifestref_key@ == DEFAULT_QUAY_MANIFESTREF_KEY@,
    {
        QuayMetadataSettings {
            api_base: String::from_str(DEFAULT_QUAY_API_BASE),
            api_credentials_path: None,
            repository: String::from_str(DEFAULT_QUAY_REPOSITORY),
            label_filter: String::from_str(DEFAULT_QUAY_LABEL_FILTER),
            manifestref_key: String::from_str(DEFAULT_QUAY_MANIFESTREF_KEY),
        }
    }
}

/// Fetches release labels from the registry and merges them into the releases'
/// metadata. The fetch itself is done by the caller; this holds its settings,
/// names what to fetch, and merges what came back.
pub struct QuayMetadataFetchPlugin {
    pub repo: String,
    pub label_filter: String,
    pub manifestref_key: String,
    pub api_token: Option<String>,
    pub api_base: String,
}

impl QuayMetadataFetchPlugin {
    /// Validates the settings: the repository and the label filter must not be empty.
    pub fn deserialize_config(settings: QuayMetadataSettings) -> (r: Result<QuayMetadataSettings, GraphError>)
        ensures
            settings.repository@.len() == 0 ==> r matches Err(GraphError::InvalidPluginConfig(_)),
            settings.repository@.len() > 0 && settings.label_filter@.len() == 0 ==> r matches Err(
                GraphError::InvalidPluginConfig(_),
            ),
            settings.repository@.len() > 0 && settings.label_filter@.len() > 0 ==> (r matches Ok(s)
                && s == settings),
    {
        if settings.repository.as_str().is_empty() {
            return Err(GraphError::InvalidPluginConfig(String::from_str("empty repository")));
        }
        if settings.label_filter.as_str().is_empty() {
            return Err(GraphError::InvalidPluginConfig(String::from_str("empty label_filter")));
        }
        Ok(settings)
    }

    /// A plugin with the given settings and the registry token, if any.
    pub fn try_new(
        repo: String,
        label_filter: String,
        manifestref_key: String,
        api_token: Option<String>,
        api_base: String,
    ) -> (r: Result<QuayMetadataFetchPlugin, GraphError>)
        ensures
            r matches Ok(p) && p.repo == repo && p.label_filter == label_filter && p.manifestref_key
                == manifestref_key && p.api_token == api_token && p.api_base == api_base,
    {
        Ok(QuayMetadataFetchPlugin { repo, label_filter, manifestref_key, api_token, api_base })
    }

    /// The releases whose labels are to be fetched: those carrying the
    /// manifest reference key, with their version and the reference.
    pub fn targets(&self, io: &PluginIO) -> (r: Vec<(ReleaseId, String, String)>)
        ensures
            r@.map_values(|t: (ReleaseId, String, String)| (t.0.index, t.1@, t.2@)) == key_matches(
                io@.graph.nodes,
                self.manifestref_key@,
            ),
    {
        io.graph.check_wf();
        io.parameters.check_wf();
        io.graph.find_by_metadata_key(self.manifestref_key.as_str())
    }
}

/// Replaces the graph by the one the upstream service serves.
pub struct UpstreamFetchPlugin {
    pub upstream: String,
}

/// What adopting a fetched upstream document makes of an envelope.
pub open spec fn adopt_spec(d: DocumentView, io: IOView) -> Result<IOView, GraphErrorView> {
    if !doc_versions_unique(d) {
        Err(GraphErrorView::FailedUpstreamParse(value_of(GraphError::DuplicateVersion)))
    } else if !doc_edges_in_range(d) {
        Err(GraphErrorView::FailedUpstreamParse(value_of(GraphError::UnknownRelease)))
    } else if !acyclic(d.edges.to_set()) {
        Err(GraphErrorView::FailedUpstreamParse(value_of(GraphError::CycleDetected)))
    } else {
        Ok(IOView { graph: graph_of(d), parameters: io.parameters })
    }
}

impl UpstreamFetchPlugin {
    /// Puts the graph of the fetched document in the envelope; a document that
    /// does not describe a valid graph fails with `FailedUpstreamParse`.
    pub fn adopt(&self, io: PluginIO, doc: &GraphDocument) -> (r: Result<PluginIO, GraphError>)
        ensures
            result_view(r) == adopt_spec(doc@, io@),
            r matches Ok(o) ==> o.wf(),
    {
        io.graph.check_wf();
        io.parameters.check_wf();
        match Graph::from_document(doc) {
            Ok(g) => Ok(PluginIO { graph: g, parameters: io.parameters }),
            Err(e) => Err(GraphError::FailedUpstreamParse(e.value())),
        }
    }
}

/// Builds the graph from the release inventory of a registry. The inventory is
/// read by the caller; this holds the settings and adopts what came back.
pub struct ReleaseScrapePlugin {
    pub registry: String,
    pub repository: String,
}

/// The document of an inventory: its releases, no edges.
pub open spec fn inventory_doc(releases: Seq<ReleaseView>) -> DocumentView {
    DocumentView { nodes: releases, edges: Seq::empty() }
}

/// What adopting a release inventory makes of an envelope.
pub open spec fn inventory_spec(releases: Seq<ReleaseView>, io: IOView) -> Result<IOView, GraphErrorView> {
    if !doc_versions_unique(inventory_doc(releases)) {
        Err(GraphErrorView::UpstreamMalformed(value_of(GraphError::DuplicateVersion)))
    } else {
        Ok(IOView { graph: graph_of(inventory_doc(releases)), parameters: io.parameters })
    }
}

impl ReleaseScrapePlugin {
    /// Replaces the graph by one holding the inventory's releases, in order,
    /// without edges; two releases with one version fail with `UpstreamMalformed`.
    pub fn adopt_releases(&self, io: PluginIO, releases: Vec<crate::graph::Release>) -> (r: Result<PluginIO, GraphError>)
        ensures
            result_view(r) == inventory_spec(releases@.map_values(|x: crate::graph::Release| x@), io@),
            r matches Ok(o) ==> o.wf(),
    {
        io.graph.check_wf();
        io.parameters.check_wf();
        let doc = GraphDocument { nodes: releases, edges: Vec::new() };
        proof {
            crate::graph::lemma_empty_acyclic();
            assert(doc@.edges.to_set() =~= Set::<(u64, u64)>::empty());
            assert(doc@ == inventory_doc(releases@.map_values(|x: crate::graph::Release| x@)));
        }
        match Graph::from_document(&doc) {
            Ok(g) => Ok(PluginIO { graph: g, parameters: io.parameters }),
            Err(e) => Err(GraphError::UpstreamMalformed(e.value())),
        }
    }
}

/// The fetched label lists, one per target `(release, version, reference)`,
/// flattened to `(release, version, key, value)` in order.
pub open spec fn label_list(
    targets: Seq<(u64, Seq<char>, Seq<char>)>,
    fetched: Seq<Seq<(Seq<char>, Seq<char>)>>,
) -> Seq<(u64, Seq<char>, Seq<char>, Seq<char>)>
    decreases fetched.len(),
{
    if fetched.len() == 0 || targets.len() == 0 {
        Seq::empty()
    } else {
        label_list(targets.drop_last(), fetched.drop_last()) + fetched.last().map_values(
            |p: (Seq<char>, Seq<char>)| (targets.last().0, targets.last().1, p.0, p.1),
        )
    }
}

/// The views of fetched label lists.
pub open spec fn fetched_views(f: Seq<Vec<(String, String)>>) -> Seq<Seq<(Seq<char>, Seq<char>)>> {
    f.map_values(|l: Vec<(String, String)>| l@.map_values(|p: (String, String)| (p.0@, p.1@)))
}

/// Merging labels changes only the metadata of the releases they name: ids,
/// versions, payloads, edges and the releases no label names stay as they were.
pub proof fn lemma_apply_labels_frame(g: GraphView, labels: Seq<(u64, Seq<char>, Seq<char>, Seq<char>)>)
    ensures
        apply_labels_spec(g, labels) matches Ok((g2, w)) ==> {
            &&& g2.edges == g.edges
            &&& g2.next_id == g.next_id
            &&& g2.nodes.len() == g.nodes.len()
            &&& forall|i: int| 0 <= i < g.nodes.len() ==> (#[trigger] g2.nodes[i]).0 == g.nodes[i].0
                && g2.nodes[i].1.version == g.nodes[i].1.version && g2.nodes[i].1.payload
                == g.nodes[i].1.payload
            &&& forall|i: int|
                0 <= i < g.nodes.len() && (forall|k: int| 0 <= k < labels.len() ==> (#[trigger] labels[k]).0
                    != g.nodes[i].0) ==> #[trigger] g2.nodes[i] == g.nodes[i]
        },
    decreases labels.len(),
{
    if labels.len() > 0 {
        let t = labels.drop_last();
        lemma_apply_labels_frame(g, t);
        if apply_labels_spec(g, labels) is Ok {
            let (g1, w1) = apply_labels_spec(g, t)->Ok_0;
            let (id, ver, k, v) = labels.last();
            let pos = position_of(g1, id);
            let g2 = set_meta(g1, id, k, v);
            assert(has_node(g1, id));
            assert(g1.nodes[pos].0 == id);
            assert forall|i: int|
                0 <= i < g.nodes.len() && (forall|kk: int| 0 <= kk < labels.len() ==> (#[trigger] labels[kk]).0
                    != g.nodes[i].0) implies #[trigger] g2.nodes[i] == g.nodes[i] by {
                assert(labels[labels.len() - 1].0 != g.nodes[i].0);
                assert forall|kk: int| 0 <= kk < t.len() implies (#[trigger] t[kk]).0 != g.nodes[i].0 by {
                    assert(labels[kk] == t[kk]);
                }
                assert(g1.nodes[i] == g.nodes[i]);
                assert(i != pos);
            }
        }
    }
}

proof fn lemma_label_list_ids(
    targets: Seq<(u64, Seq<char>, Seq<char>)>,
    fetched: Seq<Seq<(Seq<char>, Seq<char>)>>,
)
    requires
        targets.len() == fetched.len(),
    ensures
        forall|k: int| 0 <= k < label_list(targets, fetched).len() ==> exists|j: int|
            0 <= j < targets.len() && #[trigger] label_list(targets, fetched)[k].0 == targets[j].0,
    decreases fetched.len(),
{
    if fetched.len() > 0 {
        let ti = targets.drop_last();
        let fi = fetched.drop_last();
        lemma_label_list_ids(ti, fi);
        let l = label_list(targets, fetched);
        let a = label_list(ti, fi);
        assert forall|k: int| 0 <= k < l.len() implies exists|j: int|
            0 <= j < targets.len() && #[trigger] l[k].0 == targets[j].0 by {
            if k < a.len() {
                let j = choose|j: int| 0 <= j < ti.len() && a[k].0 == ti[j].0;
                assert(l[k] == a[k]);
                assert(targets[j] == ti[j]);
            } else {
                assert(l[k].0 == targets[targets.len() - 1].0);
            }
        }
    }
}

/// Some node with this id carries `key`.
pub open spec fn carries_key(nodes: Seq<(u64, ReleaseView)>, key: Seq<char>, id: u64) -> bool {
    exists|m: int| 0 <= m < nodes.len() && nodes[m].0 == id && #[trigger] nodes[m].1.metadata.contains_key(key)
}

proof fn lemma_key_matches_carry(nodes: Seq<(u64, ReleaseView)>, key: Seq<char>)
    ensures
        forall|j: int| 0 <= j < key_matches(nodes, key).len() ==> carries_key(nodes, key, (#[trigger] key_matches(nodes, key)[j]).0),
    decreases nodes.len(),
{
    if nodes.len() > 0 {
        let t = nodes.drop_last();
        lemma_key_matches_carry(t, key);
        let a = key_matches(t, key);
        let n = nodes.last();
        assert(key_matches(nodes, key) == (if n.1.metadata.contains_key(key) { a.push((n.0, n.1.version, n.1.metadata[key])) } else { a }));
        assert forall|j: int| 0 <= j < key_matches(nodes, key).len() implies carries_key(nodes, key, (#[trigger] key_matches(nodes, key)[j]).0) by {
            if j < a.len() {
                assert(key_matches(nodes, key)[j] == a[j]);
                assert(carries_key(t, key, a[j].0));
                let m = choose|m: int| 0 <= m < t.len() && t[m].0 == a[j].0 && #[trigger] t[m].1.metadata.contains_key(key);
                assert(nodes[m] == t[m]);
            } else {
                let m = nodes.len() - 1;
                assert(nodes[m] == n);
            }
        }
    }
}

impl QuayMetadataFetchPlugin {
    /// Merges the labels fetched for this plugin's targets: `fetched[i]` holds
    /// the key/value pairs served for the `i`-th target, in order. Each target
    /// gets its own labels, overwriting with a warning; nothing else changes.
    /// A list count other than the number of targets fails with `UpstreamMalformed`.
    pub fn merge_labels(&self, io: PluginIO, fetched: &Vec<Vec<(String, String)>>) -> (r: Result<(PluginIO, Vec<String>), GraphError>)
        ensures
            fetched.len() != key_matches(io@.graph.nodes, self.manifestref_key@).len() ==> r matches Err(
                GraphError::UpstreamMalformed(_),
            ),
            fetched.len() == key_matches(io@.graph.nodes, self.manifestref_key@).len() ==> match (
                r,
                apply_labels_spec(
                    io@.graph,
                    label_list(key_matches(io@.graph.nodes, self.manifestref_key@), fetched_views(fetched@)),
                ),
            ) {
                (Ok((o, w)), Ok((g, ws))) => o.wf() && o@ == (IOView { graph: g, parameters: io@.parameters })
                    && views(w@) == ws,
                (Err(e), Err(ev)) => e@ == ev,
                _ => false,
            },
            r matches Ok((o, w)) ==> {
                &&& o@.graph.edges == io@.graph.edges
                &&& o@.graph.nodes.len() == io@.graph.nodes.len()
                &&& forall|i: int| 0 <= i < io@.graph.nodes.len() ==> (#[trigger] o@.graph.nodes[i]).0
                    == io@.graph.nodes[i].0 && o@.graph.nodes[i].1.version == io@.graph.nodes[i].1.version
                    && o@.graph.nodes[i].1.payload == io@.graph.nodes[i].1.payload
                &&& forall|i: int|
                    0 <= i < io@.graph.nodes.len() && !io@.graph.nodes[i].1.metadata.contains_key(
                        self.manifestref_key@,
                    ) ==> #[trigger] o@.graph.nodes[i] == io@.graph.nodes[i]
            },
    {
        io.graph.check_wf();
        let ghost g0 = io@.graph;
        proof {
            io.graph.lemma_wf_valid();
        }
        let targets = self.targets(&io);
        let ghost tv = key_matches(g0.nodes, self.manifestref_key@);
        let ghost fv = fetched_views(fetched@);
        if fetched.len() != targets.len() {
            return Err(GraphError::UpstreamMalformed(String::from_str("one label list per release expected")));
        }
        let mut flat: Vec<(ReleaseId, String, String, String)> = Vec::new();
        let mut i: usize = 0;
        proof {
            assert(label_views(flat@) =~= Seq::<(u64, Seq<char>, Seq<char>, Seq<char>)>::empty());
            assert(tv.subrange(0, 0).len() == 0);
        }
        while i < fetched.len()
            invariant
                fetched.len() == targets.len(),
                valid(g0),
                tv == key_matches(g0.nodes, self.manifestref_key@),
                fv == fetched_views(fetched@),
                targets@.map_values(|t: (ReleaseId, String, String)| (t.0.index, t.1@, t.2@)) == tv,
                i <= fetched.len(),
                label_views(flat@) == label_list(tv.subrange(0, i as int), fv.subrange(0, i as int)),
            decreases fetched.len() - i,
        {
            let ghost base = label_views(flat@);
            let ghost tgt = tv[i as int];
            let list = &fetched[i];
            let mut j: usize = 0;
            proof {
                assert(tgt == (targets@[i as int].0.index, targets@[i as int].1@, targets@[i as int].2@));
            }
            while j < list.len()
                invariant
                    i < fetched.len(),
                    fetched.len() == targets.len(),
                    list == &fetched@[i as int],
                    tgt == (targets@[i as int].0.index, targets@[i as int].1@, targets@[i as int].2@),
                    j <= list.len(),
                    label_views(flat@) == base + fv[i as int].subrange(0, j as int).map_values(
                        |p: (Seq<char>, Seq<char>)| (tgt.0, tgt.1, p.0, p.1),
                    ),
                    fv == fetched_views(fetched@),
                decreases list.len() - j,
            {
                let ghost f0 = label_views(flat@);
                flat.push((targets[i].0, targets[i].1.clone(), list[j].0.clone(), list[j].1.clone()));
                proof {
                    assert(fv[i as int][j as int] == (list@[j as int].0@, list@[j as int].1@));
                    assert(label_views(flat@) =~= f0.push((tgt.0, tgt.1, fv[i as int][j as int].0, fv[i as int][j as int].1)));
                    assert(label_views(flat@) =~= base + fv[i as int].subrange(0, j + 1).map_values(
                        |p: (Seq<char>, Seq<char>)| (tgt.0, tgt.1, p.0, p.1),
                    ));
                }
                j = j + 1;
            }
            proof {
                assert(fv[i as int].subrange(0, j as int) =~= fv[i as int]);
                let ts = tv.subrange(0, i + 1);
                let fs = fv.subrange(0, i + 1);
                assert(ts.drop_last() =~= tv.subrange(0, i as int));
                assert(fs.drop_last() =~= fv.subrange(0, i as int));
                assert(ts.last() == tgt);
                assert(fs.last() == fv[i as int]);
                assert(label_views(flat@) == label_list(ts, fs));
            }
            i = i + 1;
        }
        proof {
            assert(tv.subrange(0, i as int) =~= tv);
            assert(fv.subrange(0, i as int) =~= fv);
        }
        let r = apply_labels(io, &flat);
        proof {
            let ll = label_list(tv, fv);
            lemma_apply_labels_frame(g0, ll);
            lemma_label_list_ids(tv, fv);
            lemma_key_matches_carry(g0.nodes, self.manifestref_key@);
            if r is Ok {
                let (g2, w) = apply_labels_spec(g0, ll)->Ok_0;
                assert forall|i: int|
                    0 <= i < g0.nodes.len() && !g0.nodes[i].1.metadata.contains_key(self.manifestref_key@)
                    implies #[trigger] g2.nodes[i] == g0.nodes[i] by {
                    assert forall|k: int| 0 <= k < ll.len() implies (#[trigger] ll[k]).0 != g0.nodes[i].0 by {
                        let j = choose|j: int| 0 <= j < tv.len() && ll[k].0 == tv[j].0;
                        assert(carries_key(g0.nodes, self.manifestref_key@, tv[j].0));
                        let m = choose|m: int|
                            0 <= m < g0.nodes.len() && g0.nodes[m].0 == tv[j].0 && #[trigger] g0.nodes[m].1.metadata.contains_key(self.manifestref_key@);
                        assert(m != i);
                        if m < i {
                            assert(g0.nodes[m].0 < g0.nodes[i].0);
                        } else {
                            assert(g0.nodes[i].0 < g0.nodes[m].0);
                        }
                    }
                }
            }
        }
        r
    }
}

/// A release marked for removal under `key`.
pub open spec fn marked(n: (u64, ReleaseView), key: Seq<char>) -> bool {
    n.1.metadata.contains_key(key) && n.1.metadata[key] == "true"@
}

proof fn lemma_pair_matches_marked(nodes: Seq<(u64, ReleaseView)>, key: Seq<char>)
    ensures
        forall|m: int| 0 <= m < nodes.len() && marked(nodes[m], key) ==> listed(
            ids_of_matches(pair_matches(nodes, key, "true"@)),
            (#[trigger] nodes[m]).0,
        ),
        (forall|m: int| 0 <= m < nodes.len() ==> !marked(#[trigger] nodes[m], key)) ==> pair_matches(
            nodes,
            key,
            "true"@,
        ).len() == 0,
    decreases nodes.len(),
{
    if nodes.len() > 0 {
        let t = nodes.drop_last();
        lemma_pair_matches_marked(t, key);
        let a = pair_matches(t, key, "true"@);
        let n = nodes.last();
        let r = pair_matches(nodes, key, "true"@);
        assert(r == (if n.1.metadata.contains_key(key) && n.1.metadata[key] == "true"@ { a.push((n.0, n.1.version)) } else { a }));
        assert forall|m: int| 0 <= m < nodes.len() && marked(nodes[m], key) implies listed(
            ids_of_matches(r),
            (#[trigger] nodes[m]).0,
        ) by {
            if m < t.len() {
                assert(t[m] == nodes[m]);
                assert(listed(ids_of_matches(a), t[m].0));
                let k = choose|k: int| 0 <= k < ids_of_matches(a).len() && #[trigger] ids_of_matches(a)[k].index == t[m].0;
                assert(ids_of_matches(r)[k] == ids_of_matches(a)[k]);
            } else {
                assert(ids_of_matches(r)[a.len() as int].index == n.0);
            }
        }
        if forall|m: int| 0 <= m < nodes.len() ==> !marked(#[trigger] nodes[m], key) {
            assert forall|m: int| 0 <= m < t.len() implies !marked(#[trigger] t[m], key) by {
                assert(t[m] == nodes[m]);
            }
            assert(!marked(nodes[nodes.len() - 1], key));
        }
    }
}

/// Running node-remove a second time changes nothing: no marked release is left.
pub proof fn lemma_node_remove_idempotent(prefix: Seq<char>, g: GraphView)
    ensures
        node_remove_spec(prefix, node_remove_spec(prefix, g)) == node_remove_spec(prefix, g),
{
    let key = dotted(prefix, "release.remove"@);
    let ids = ids_of_matches(pair_matches(g.nodes, key, "true"@));
    let g1 = node_remove_spec(prefix, g);
    lemma_pair_matches_marked(g.nodes, key);
    crate::graph::lemma_filter_facts(g.nodes, crate::graph::node_not_listed(ids));
    assert forall|m: int| 0 <= m < g1.nodes.len() implies !marked(#[trigger] g1.nodes[m], key) by {
        assert(g1.nodes.contains(g1.nodes[m]));
        let i = choose|i: int| 0 <= i < g.nodes.len() && g.nodes[i] == g1.nodes[m];
        assert(!listed(ids, g.nodes[i].0));
    }
    lemma_pair_matches_marked(g1.nodes, key);
    let ids2 = ids_of_matches(pair_matches(g1.nodes, key, "true"@));
    assert(ids2.len() == 0);
    assert forall|i: int| 0 <= i < g1.nodes.len() implies (crate::graph::node_not_listed(ids2))(#[trigger] g1.nodes[i]) by {}
    assert forall|i: int| 0 <= i < g1.edges.len() implies (crate::graph::edge_not_listed(ids2))(#[trigger] g1.edges[i]) by {}
    crate::graph::lemma_filter_all(g1.nodes, crate::graph::node_not_listed(ids2));
    crate::graph::lemma_filter_all(g1.edges, crate::graph::edge_not_listed(ids2));
}

proof fn lemma_pair_matches_only_marked(nodes: Seq<(u64, ReleaseView)>, key: Seq<char>, y: u64)
    requires
        listed(ids_of_matches(pair_matches(nodes, key, "true"@)), y),
    ensures
        exists|m: int| 0 <= m < nodes.len() && nodes[m].0 == y && #[trigger] marked(nodes[m], key),
    decreases nodes.len(),
{
    let t = nodes.drop_last();
    let a = pair_matches(t, key, "true"@);
    let n = nodes.last();
    let r = pair_matches(nodes, key, "true"@);
    if nodes.len() == 0 {
        assert(r.len() == 0);
        let k = choose|k: int| 0 <= k < ids_of_matches(r).len() && #[trigger] ids_of_matches(r)[k].index == y;
    } else {
        assert(r == (if n.1.metadata.contains_key(key) && n.1.metadata[key] == "true"@ { a.push((n.0, n.1.version)) } else { a }));
        let k = choose|k: int| 0 <= k < ids_of_matches(r).len() && #[trigger] ids_of_matches(r)[k].index == y;
        if k < a.len() {
            assert(ids_of_matches(a)[k] == ids_of_matches(r)[k]);
            assert(listed(ids_of_matches(a), y));
            lemma_pair_matches_only_marked(t, key, y);
            let m = choose|m: int| 0 <= m < t.len() && t[m].0 == y && #[trigger] marked(t[m], key);
            assert(nodes[m] == t[m]);
        } else {
            assert(nodes[nodes.len() - 1] == n);
            assert(marked(nodes[nodes.len() - 1], key));
        }
    }
}

proof fn lemma_filter_one_out<A>(s: Seq<A>, p: spec_fn(A) -> bool, i: int)
    requires
        0 <= i < s.len(),
        !p(s[i]),
        forall|j: int| 0 <= j < s.len() && j != i ==> p(#[trigger] s[j]),
    ensures
        s.filter(p).len() == s.len() - 1,
    decreases s.len(),
{
    reveal(Seq::filter);
    let t = s.drop_last();
    if i == s.len() - 1 {
        assert forall|j: int| 0 <= j < t.len() implies p(#[trigger] t[j]) by {
            assert(t[j] == s[j]);
        }
        crate::graph::lemma_filter_all(t, p);
    } else {
        assert(t[i] == s[i]);
        assert forall|j: int| 0 <= j < t.len() && j != i implies p(#[trigger] t[j]) by {
            assert(t[j] == s[j]);
        }
        lemma_filter_one_out(t, p, i);
        assert(p(s[s.len() - 1]));
    }
}

/// When exactly one release `x` is marked for removal (as after adding a
/// marked release to a graph that had none, with any edges to it),
/// node-remove takes out that release alone, and with it every edge that
/// touches it; the count is back to what it was before the release was added.
pub proof fn lemma_node_remove_single_marked(prefix: Seq<char>, g: GraphView, x: u64)
    requires
        valid(g),
        has_node(g, x),
        forall|m: int| 0 <= m < g.nodes.len() ==> (marked(#[trigger] g.nodes[m], dotted(prefix, "release.remove"@)) <==> g.nodes[m].0 == x),
    ensures
        node_remove_spec(prefix, g).nodes.len() == g.nodes.len() - 1,
        !has_node(node_remove_spec(prefix, g), x),
        forall|k: int| 0 <= k < node_remove_spec(prefix, g).edges.len() ==> (#[trigger] node_remove_spec(prefix, g).edges[k]).0 != x
            && node_remove_spec(prefix, g).edges[k].1 != x,
{
    let key = dotted(prefix, "release.remove"@);
    let ids = ids_of_matches(pair_matches(g.nodes, key, "true"@));
    let g1 = node_remove_spec(prefix, g);
    lemma_pair_matches_marked(g.nodes, key);
    let i = choose|i: int| 0 <= i < g.nodes.len() && #[trigger] g.nodes[i].0 == x;
    assert(marked(g.nodes[i], key));
    assert(listed(ids, x));
    assert forall|j: int| 0 <= j < g.nodes.len() && j != i implies (crate::graph::node_not_listed(ids))(#[trigger] g.nodes[j]) by {
        if listed(ids, g.nodes[j].0) {
            lemma_pair_matches_only_marked(g.nodes, key, g.nodes[j].0);
            let m = choose|m: int| 0 <= m < g.nodes.len() && g.nodes[m].0 == g.nodes[j].0 && #[trigger] marked(g.nodes[m], key);
            assert(g.nodes[m].0 == x);
            if j < i {
                assert(g.nodes[j].0 < g.nodes[i].0);
            } else {
                assert(g.nodes[i].0 < g.nodes[j].0);
            }
        }
    }
    lemma_filter_one_out(g.nodes, crate::graph::node_not_listed(ids), i);
    crate::graph::lemma_filter_facts(g.nodes, crate::graph::node_not_listed(ids));
    crate::graph::lemma_filter_facts(g.edges, crate::graph::edge_not_listed(ids));
    if has_node(g1, x) {
        let m = choose|m: int| 0 <= m < g1.nodes.len() && #[trigger] g1.nodes[m].0 == x;
        assert(g1.nodes.contains(g1.nodes[m]));
    }
    assert forall|k: int| 0 <= k < g1.edges.len() implies (#[trigger] g1.edges[k]).0 != x && g1.edges[k].1 != x by {
        assert(g1.edges.contains(g1.edges[k]));
    }
}

/// `g` has a release with this id that is not marked under `key`.
pub open spec fn unmarked_release(g: GraphView, key: Seq<char>, id: u64) -> bool {
    exists|a: int| 0 <= a < g.nodes.len() && #[trigger] g.nodes[a].0 == id && !marked(g.nodes[a], key)
}

/// Node-remove keeps exactly the releases that are not marked, and every edge
/// it keeps joins two of them.
pub proof fn lemma_node_remove_keeps_unmarked(prefix: Seq<char>, g: GraphView)
    requires
        valid(g),
    ensures
        forall|n: (u64, ReleaseView)| #[trigger] node_remove_spec(prefix, g).nodes.contains(n) <==> g.nodes.contains(n)
            && !marked(n, dotted(prefix, "release.remove"@)),
        forall|k: int| 0 <= k < node_remove_spec(prefix, g).edges.len() ==> unmarked_release(
            g,
            dotted(prefix, "release.remove"@),
            (#[trigger] node_remove_spec(prefix, g).edges[k]).0,
        ) && unmarked_release(g, dotted(prefix, "release.remove"@), node_remove_spec(prefix, g).edges[k].1),
{
    let key = dotted(prefix, "release.remove"@);
    let ids = ids_of_matches(pair_matches(g.nodes, key, "true"@));
    let g1 = node_remove_spec(prefix, g);
    lemma_pair_matches_marked(g.nodes, key);
    crate::graph::lemma_filter_facts(g.nodes, crate::graph::node_not_listed(ids));
    crate::graph::lemma_filter_facts(g.edges, crate::graph::edge_not_listed(ids));
    // an id is listed exactly when the release carrying it is marked
    assert forall|j: int| 0 <= j < g.nodes.len() implies (listed(ids, #[trigger] g.nodes[j].0) <==> marked(g.nodes[j], key)) by {
        if listed(ids, g.nodes[j].0) {
            lemma_pair_matches_only_marked(g.nodes, key, g.nodes[j].0);
            let m = choose|m: int| 0 <= m < g.nodes.len() && g.nodes[m].0 == g.nodes[j].0 && #[trigger] marked(g.nodes[m], key);
            if m < j {
                assert(g.nodes[m].0 < g.nodes[j].0);
            } else if m > j {
                assert(g.nodes[j].0 < g.nodes[m].0);
            }
        }
    }
    assert forall|n: (u64, ReleaseView)| #[trigger] g1.nodes.contains(n) <==> g.nodes.contains(n) && !marked(n, key) by {
        if g.nodes.contains(n) {
            let j = choose|j: int| 0 <= j < g.nodes.len() && g.nodes[j] == n;
            assert(listed(ids, g.nodes[j].0) <==> marked(g.nodes[j], key));
        }
    }
    assert forall|k: int| 0 <= k < g1.edges.len() implies unmarked_release(g, key, (#[trigger] g1.edges[k]).0)
        && unmarked_release(g, key, g1.edges[k].1) by {
        let e = g1.edges[k];
        assert(g1.edges.contains(e));
        assert(g.edges.contains(e));
        let q = choose|q: int| 0 <= q < g.edges.len() && g.edges[q] == e;
        assert(has_node(g, g.edges[q].0) && has_node(g, g.edges[q].1));
        let a = choose|a: int| 0 <= a < g.nodes.len() && #[trigger] g.nodes[a].0 == e.0;
        let b = choose|b: int| 0 <= b < g.nodes.len() && #[trigger] g.nodes[b].0 == e.1;
        assert(listed(ids, g.nodes[a].0) <==> marked(g.nodes[a], key));
        assert(listed(ids, g.nodes[b].0) <==> marked(g.nodes[b], key));
    }
}

} // verus!
