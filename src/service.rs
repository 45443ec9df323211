//! The policy engine's request path: the checks on the request, the envelope
//! the pipeline starts from, and how pipeline errors are answered.

use vstd::prelude::*;
use crate::errors::{GraphError, value_of};
use crate::graph::GraphView;
use crate::metadata::map_of;
use crate::pipeline::{Plugin, Step, process, process_spec, step_view};
use crate::plugins::{IOView, PluginIO};
use crate::request::{check_request, parse_query_params, query_keys_of, query_pairs_of};
use crate::text::{strictly_sorted, views};

verus! {

/// The graph every request-time pipeline starts from.
pub open spec fn empty_graph() -> GraphView {
    GraphView { nodes: Seq::empty(), edges: Seq::empty(), next_id: 0 }
}

/// Checks a graph request, then runs the request-time pipeline from the start
/// on an empty graph and the query's parameters (a later value wins). The
/// pipeline is not run when a check fails.
pub fn begin_request(
    accept: Option<&str>,
    content_type: &str,
    mandatory: &Vec<String>,
    query: &str,
    plugins: &Vec<Plugin>,
) -> (r: Result<Step, GraphError>)
    ensures
        !(accept matches Some(a) && a@ == content_type@) ==> r == Err::<Step, GraphError>(
            GraphError::InvalidContentType,
        ),
        (accept matches Some(a) && a@ == content_type@) ==> (r is Ok <==> forall|x: Seq<char>|
            views(mandatory@).contains(x) ==> #[trigger] query_keys_of(query@).contains(x)),
        (accept matches Some(a) && a@ == content_type@) ==> (r matches Err(e) ==> e matches GraphError::MissingParams(m)
            && strictly_sorted(views(m@)) && forall|x: Seq<char>| #[trigger]
            views(m@).contains(x) <==> views(mandatory@).contains(x) && !query_keys_of(query@).contains(x)),
        r matches Ok(s) ==> step_view(s) == process_spec(
            plugins@,
            0,
            IOView { graph: empty_graph(), parameters: map_of(query_pairs_of(query@)) },
        ),
        r matches Ok(s) ==> (s matches Step::Finished(o) ==> o.wf()),
        r matches Ok(s) ==> (s matches Step::Suspended { index, io } ==> io.wf() && index < plugins.len()),
{
    check_request(accept, content_type, mandatory, query)?;
    let params = parse_query_params(query);
    let io = PluginIO::with_parameters(params);
    proof {
        assert(io@.graph.nodes =~= empty_graph().nodes);
        assert(io@.graph.edges =~= empty_graph().edges);
    }
    Ok(process(plugins, 0, io))
}

/// How an error is answered: the graph model's own errors are reported as a
/// failed plugin execution carrying their text; the others as they are.
pub fn to_service_error(e: GraphError) -> (r: GraphError)
    ensures
        (e is DuplicateVersion || e is UnknownRelease || e is CycleDetected) ==> (r
            matches GraphError::FailedPluginExecution(m) && m@ == value_of(e)),
        !(e is DuplicateVersion || e is UnknownRelease || e is CycleDetected) ==> r == e,
{
    match e {
        GraphError::DuplicateVersion => GraphError::FailedPluginExecution(e.value()),
        GraphError::UnknownRelease => GraphError::FailedPluginExecution(e.value()),
        GraphError::CycleDetected => GraphError::FailedPluginExecution(e.value()),
        _ => e,
    }
}

} // verus!
