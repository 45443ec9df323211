//! The pipeline driver: runs plugins in order, threading the envelope through
//! them, and stops at the first failure. Plugins that need outside work (a
//! registry or an upstream service) suspend the run; the caller does that work,
//! completes the plugin, and resumes after it.

use vstd::prelude::*;
use vstd::string::*;
use crate::errors::{GraphError, GraphErrorView};
use crate::graph::{acyclic, edge_set, has_node};
use crate::plugins::{
    ArchFilterPlugin, ChannelFilterPlugin, EdgeAddPlugin, EdgeRemovePlugin, IOView,
    NodeRemovePlugin, PluginIO, QuayMetadataFetchPlugin, QuayMetadataSettings,
    ReleaseScrapePlugin, UpstreamFetchPlugin, arch_filter_spec,
    channel_filter_spec, edge_add_spec, edge_remove_spec, node_remove_spec, result_view,
};

verus! {

/// The built-in plugins.
pub enum Plugin {
    NodeRemove(NodeRemovePlugin),
    EdgeAdd(EdgeAddPlugin),
    EdgeRemove(EdgeRemovePlugin),
    ChannelFilter(ChannelFilterPlugin),
    ArchFilter(ArchFilterPlugin),
    QuayMetadata(QuayMetadataFetchPlugin),
    UpstreamFetch(UpstreamFetchPlugin),
    ReleaseScrape(ReleaseScrapePlugin),
}

/// A plugin that works on the envelope alone.
pub open spec fn is_internal(p: Plugin) -> bool {
    !(p is QuayMetadata || p is UpstreamFetch || p is ReleaseScrape)
}

/// The configuration name of a plugin.
pub open spec fn name_of(p: Plugin) -> Seq<char> {
    match p {
        Plugin::NodeRemove(_) => "node-remove"@,
        Plugin::EdgeAdd(_) => "edge-add"@,
        Plugin::EdgeRemove(_) => "edge-remove"@,
        Plugin::ChannelFilter(_) => "channel-filter"@,
        Plugin::ArchFilter(_) => "arch-filter"@,
        Plugin::QuayMetadata(_) => "quay-metadata"@,
        Plugin::UpstreamFetch(_) => "cincinnati-graph-fetch"@,
        Plugin::ReleaseScrape(_) => "release-scrape"@,
    }
}

/// What running an internal plugin makes of an envelope.
pub open spec fn run_spec(p: Plugin, io: IOView) -> Result<IOView, GraphErrorView> {
    match p {
        Plugin::NodeRemove(q) => Ok(
            IOView { graph: node_remove_spec(q.key_prefix@, io.graph), parameters: io.parameters },
        ),
        Plugin::EdgeAdd(q) => match edge_add_spec(q.key_prefix@, io.graph) {
            Ok(g) => Ok(IOView { graph: g, parameters: io.parameters }),
            Err(e) => Err(e),
        },
        Plugin::EdgeRemove(q) => Ok(
            IOView { graph: edge_remove_spec(q.key_prefix@, io.graph), parameters: io.parameters },
        ),
        Plugin::ChannelFilter(q) => channel_filter_spec(q.key_prefix@, q.key_suffix@, io),
        Plugin::ArchFilter(q) => arch_filter_spec(q.key_prefix@, q.key_suffix@, q.default_arch@, io),
        _ => Ok(io),
    }
}

impl Plugin {
    /// The configuration name of this plugin.
    pub fn name(&self) -> (r: String)
        ensures
            r@ == name_of(*self),
    {
        let n = match self {
            Plugin::NodeRemove(_) => "node-remove",
            Plugin::EdgeAdd(_) => "edge-add",
            Plugin::EdgeRemove(_) => "edge-remove",
            Plugin::ChannelFilter(_) => "channel-filter",
            Plugin::ArchFilter(_) => "arch-filter",
            Plugin::QuayMetadata(_) => "quay-metadata",
            Plugin::UpstreamFetch(_) => "cincinnati-graph-fetch",
            Plugin::ReleaseScrape(_) => "release-scrape",
        };
        String::from_str(n)
    }

    /// Whether this plugin needs outside work.
    pub fn is_external(&self) -> (r: bool)
        ensures
            r == !is_internal(*self),
    {
        match self {
            Plugin::QuayMetadata(_) => true,
            Plugin::UpstreamFetch(_) => true,
            Plugin::ReleaseScrape(_) => true,
            _ => false,
        }
    }

    /// Runs an internal plugin on the envelope.
    pub fn run(&self, io: PluginIO) -> (r: Result<PluginIO, GraphError>)
        requires
            is_internal(*self),
        ensures
            result_view(r) == run_spec(*self, io@),
            r matches Ok(o) ==> o.wf(),
    {
        io.graph.check_wf();
        io.parameters.check_wf();
        match self {
            Plugin::NodeRemove(q) => q.run_internal(io),
            Plugin::EdgeAdd(q) => q.run_internal(io),
            Plugin::EdgeRemove(q) => q.run_internal(io),
            Plugin::ChannelFilter(q) => q.run_internal(io),
            Plugin::ArchFilter(q) => q.run_internal(io),
            _ => Ok(io),
        }
    }
}

impl QuayMetadataSettings {
    /// The metadata-fetch plugin these settings describe, with the registry
    /// token (read from the credentials file, if any).
    pub fn build_plugin(&self, api_token: Option<String>) -> (r: Result<Plugin, GraphError>)
        ensures
            r matches Ok(Plugin::QuayMetadata(p)) && p.repo@ == self.repository@ && p.label_filter@
                == self.label_filter@ && p.manifestref_key@ == self.manifestref_key@ && p.api_base@
                == self.api_base@ && p.api_token == api_token,
    {
        let p = QuayMetadataFetchPlugin::try_new(
            self.repository.clone(),
            self.label_filter.clone(),
            self.manifestref_key.clone(),
            api_token,
            self.api_base.clone(),
        )?;
        Ok(Plugin::QuayMetadata(p))
    }
}

/// Where a pipeline run stopped.
pub enum Step {
    /// Every plugin ran; the final envelope.
    Finished(PluginIO),
    /// The plugin at `index` failed.
    Failed { index: usize, error: GraphError },
    /// The plugin at `index` needs outside work; the envelope it is to work on.
    Suspended { index: usize, io: PluginIO },
}

/// Where a pipeline run stopped, as mathematical values.
pub enum StepView {
    Finished(IOView),
    Failed(int, GraphErrorView),
    Suspended(int, IOView),
}

/// A step as mathematical values.
pub open spec fn step_view(s: Step) -> StepView {
    match s {
        Step::Finished(io) => StepView::Finished(io@),
        Step::Failed { index, error } => StepView::Failed(index as int, error@),
        Step::Suspended { index, io } => StepView::Suspended(index as int, io@),
    }
}

/// Running `ps` from position `start` on `io`: internal plugins in order, until
/// the end, the first failure, or the first plugin that needs outside work.
pub open spec fn process_spec(ps: Seq<Plugin>, start: int, io: IOView) -> StepView
    decreases ps.len() - start,
{
    if start < 0 || start >= ps.len() {
        StepView::Finished(io)
    } else if !is_internal(ps[start]) {
        StepView::Suspended(start, io)
    } else {
        match run_spec(ps[start], io) {
            Err(e) => StepView::Failed(start, e),
            Ok(o) => process_spec(ps, start + 1, o),
        }
    }
}

/// Runs the plugins from position `start` on the envelope, in order. Stops at
/// the end, at the first failure, or before the first plugin that needs
/// outside work.
pub fn process(plugins: &Vec<Plugin>, start: usize, io: PluginIO) -> (r: Step)
    ensures
        step_view(r) == process_spec(plugins@, start as int, io@),
        r matches Step::Finished(o) ==> o.wf(),
        r matches Step::Suspended { index, io: o } ==> o.wf() && index < plugins.len(),
{
    io.graph.check_wf();
    io.parameters.check_wf();
    let ghost io0 = io@;
    let mut cur = io;
    let mut i: usize = start;
    while i < plugins.len()
        invariant
            cur.wf(),
            io0 == io@,
            start <= i,
            process_spec(plugins@, start as int, io0) == process_spec(plugins@, i as int, cur@),
        decreases plugins.len() - i,
    {
        if plugins[i].is_external() {
            return Step::Suspended { index: i, io: cur };
        }
        match plugins[i].run(cur) {
            Err(e) => {
                return Step::Failed { index: i, error: e };
            },
            Ok(o) => {
                cur = o;
            },
        }
        i = i + 1;
    }
    Step::Finished(cur)
}

/// Every envelope a pipeline run finishes with, or hands over for outside
/// work, holds an acyclic graph whose edges join releases that are present.
pub proof fn lemma_pipeline_graph_valid(io: &PluginIO)
    requires
        io.wf(),
    ensures
        acyclic(edge_set(io.graph@)),
        forall|a: u64, b: u64| #[trigger]
            edge_set(io.graph@).contains((a, b)) ==> has_node(io.graph@, a) && has_node(io.graph@, b),
{
    io.graph.lemma_wf_valid();
}

/// Applying `ps` one after the other: the final envelope, or the position of
/// the first plugin that failed and its error.
pub open spec fn apply_all(ps: Seq<Plugin>, io: IOView) -> Result<IOView, (int, GraphErrorView)>
    decreases ps.len(),
{
    if ps.len() == 0 {
        Ok(io)
    } else {
        match apply_all(ps.drop_last(), io) {
            Err(x) => Err(x),
            Ok(o) => match run_spec(ps.last(), o) {
                Ok(o2) => Ok(o2),
                Err(e) => Err((ps.len() - 1, e)),
            },
        }
    }
}

/// A pipeline of one internal plugin gives what that plugin gives.
pub proof fn lemma_single_plugin(p: Plugin, io: IOView)
    requires
        is_internal(p),
    ensures
        process_spec(seq![p], 0, io) == match run_spec(p, io) {
            Ok(o) => StepView::Finished(o),
            Err(e) => StepView::Failed(0, e),
        },
{
    let ps = seq![p];
    assert(ps[0] == p);
    match run_spec(p, io) {
        Ok(o) => {
            assert(process_spec(ps, 1, o) == StepView::Finished(o));
        },
        Err(e) => {},
    }
}

proof fn lemma_apply_all_err(ps: Seq<Plugin>, io: IOView, k: int, x: (int, GraphErrorView))
    requires
        0 <= k <= ps.len(),
        apply_all(ps.subrange(0, k), io) == Err::<IOView, (int, GraphErrorView)>(x),
    ensures
        apply_all(ps, io) == Err::<IOView, (int, GraphErrorView)>(x),
    decreases ps.len() - k,
{
    if k < ps.len() {
        assert(ps.subrange(0, k + 1).drop_last() =~= ps.subrange(0, k));
        lemma_apply_all_err(ps, io, k + 1, x);
    } else {
        assert(ps.subrange(0, k) =~= ps);
    }
}

proof fn lemma_process_from(ps: Seq<Plugin>, io: IOView, k: int, o: IOView)
    requires
        forall|i: int| 0 <= i < ps.len() ==> is_internal(#[trigger] ps[i]),
        0 <= k <= ps.len(),
        apply_all(ps.subrange(0, k), io) == Ok::<IOView, (int, GraphErrorView)>(o),
    ensures
        process_spec(ps, k, o) == match apply_all(ps, io) {
            Ok(f) => StepView::Finished(f),
            Err((i, e)) => StepView::Failed(i, e),
        },
    decreases ps.len() - k,
{
    if k == ps.len() {
        assert(ps.subrange(0, k) =~= ps);
    } else {
        let u = ps.subrange(0, k + 1);
        assert(u.drop_last() =~= ps.subrange(0, k));
        assert(u.last() == ps[k]);
        assert(is_internal(ps[k]));
        match run_spec(ps[k], o) {
            Ok(o2) => {
                lemma_process_from(ps, io, k + 1, o2);
            },
            Err(e) => {
                lemma_apply_all_err(ps, io, k + 1, (k, e));
            },
        }
    }
}

/// A pipeline of internal plugins fails exactly where sequential application
/// first fails, with that plugin's error; when none fails it finishes with the
/// result of applying them one after the other.
pub proof fn lemma_process_sequential(ps: Seq<Plugin>, io: IOView)
    requires
        forall|i: int| 0 <= i < ps.len() ==> is_internal(#[trigger] ps[i]),
    ensures
        process_spec(ps, 0, io) == match apply_all(ps, io) {
            Ok(f) => StepView::Finished(f),
            Err((i, e)) => StepView::Failed(i, e),
        },
{
    assert(ps.subrange(0, 0) =~= Seq::<Plugin>::empty());
    lemma_process_from(ps, io, 0, io);
}

/// Sequential application fails at position `i` exactly when the plugins
/// before `i` succeed and plugin `i` fails on the envelope they produced.
pub proof fn lemma_apply_all_fails(ps: Seq<Plugin>, io: IOView)
    ensures
        apply_all(ps, io) matches Err((i, e)) ==> (0 <= i < ps.len() && (apply_all(
            ps.subrange(0, i),
            io,
        ) matches Ok(o) && run_spec(ps[i], o) == Err::<IOView, GraphErrorView>(e))),
        forall|i: int, o: IOView|
            0 <= i < ps.len() && apply_all(ps.subrange(0, i), io) == Ok::<IOView, (int, GraphErrorView)>(o)
                && #[trigger] run_spec(ps[i], o) is Err ==> apply_all(ps, io) is Err,
    decreases ps.len(),
{
    if ps.len() > 0 {
        let t = ps.drop_last();
        lemma_apply_all_fails(t, io);
        assert(ps.subrange(0, ps.len() - 1) =~= t);
        if apply_all(t, io) is Err {
            let (i, e) = apply_all(t, io)->Err_0;
            assert(t.subrange(0, i) =~= ps.subrange(0, i));
            assert(t[i] == ps[i]);
        }
        assert forall|i: int, o: IOView|
            0 <= i < ps.len() && apply_all(ps.subrange(0, i), io) == Ok::<IOView, (int, GraphErrorView)>(o)
                && #[trigger] run_spec(ps[i], o) is Err implies apply_all(ps, io) is Err by {
            if i < ps.len() - 1 {
                assert(t.subrange(0, i) =~= ps.subrange(0, i));
                assert(t[i] == ps[i]);
            }
        }
    }
}

} // verus!
