//! The graph builder's state: liveness, readiness and the cached graph, and
//! the decisions of the periodic scrape. The caller runs the loop: it sleeps
//! when told to, runs the pipeline, and reports the outcome.

use vstd::prelude::*;
use vstd::string::*;
use crate::errors::GraphError;
use crate::graph::{Graph, GraphDocument, document_of, valid};
use crate::json::document_json;
use crate::request::{CONTENT_TYPE, check_request, query_keys_of};
use crate::text::views;

verus! {

/// Text that is the JSON document of some valid graph.
pub open spec fn is_graph_json(j: Seq<char>) -> bool {
    exists|g: crate::graph::GraphView, d: GraphDocument|
        valid(g) && d@ == #[trigger] document_of(g) && j == #[trigger] document_json(d)
}

/// The JSON document of a valid graph, ready to be installed in the cache.
pub struct CachedGraph {
    json: String,
}

impl CachedGraph {
    #[verifier::type_invariant]
    spec fn inv(&self) -> bool {
        is_graph_json(self.json@)
    }

    pub closed spec fn json_spec(&self) -> Seq<char> {
        self.json@
    }

    /// Serializes a graph.
    pub fn of(graph: &Graph) -> (r: CachedGraph)
        ensures
            exists|d: GraphDocument| d@ == document_of(graph@) && r.json_spec() == #[trigger] document_json(d),
    {
        graph.check_wf();
        let doc = graph.to_document();
        let j = crate::json::document_to_json(&doc);
        proof {
            graph.lemma_wf_valid();
            assert(valid(graph@) && doc@ == document_of(graph@) && j@ == document_json(doc));
        }
        CachedGraph { json: j }
    }

    /// The serialized graph.
    pub fn json(&self) -> (r: String)
        ensures
            r@ == self.json_spec(),
            is_graph_json(r@),
    {
        proof {
            use_type_invariant(self);
        }
        self.json.clone()
    }
}

/// The builder's shared state.
pub struct State {
    json: String,
    mandatory_params: Vec<String>,
    live: bool,
    ready: bool,
    first_iteration: bool,
    upstream_scrapes: u64,
    upstream_errors: u64,
}

impl State {
    /// Readiness holds exactly when a graph has been cached, and the cache
    /// then holds the JSON document of a valid graph.
    pub closed spec fn wf(&self) -> bool {
        self.ready ==> is_graph_json(self.json@)
    }

    #[verifier::type_invariant]
    spec fn inv(&self) -> bool {
        self.wf()
    }

    pub closed spec fn live_spec(&self) -> bool {
        self.live
    }

    pub closed spec fn ready_spec(&self) -> bool {
        self.ready
    }

    pub closed spec fn json_spec(&self) -> Seq<char> {
        self.json@
    }

    pub closed spec fn mandatory_spec(&self) -> Seq<Seq<char>> {
        views(self.mandatory_params@)
    }

    pub closed spec fn first_spec(&self) -> bool {
        self.first_iteration
    }

    pub closed spec fn scrapes_spec(&self) -> nat {
        self.upstream_scrapes as nat
    }

    pub closed spec fn errors_spec(&self) -> nat {
        self.upstream_errors as nat
    }

    /// A builder that is neither live nor ready, with an empty cache.
    pub fn new(mandatory_params: Vec<String>) -> (r: State)
        ensures
            r.wf(),
            !r.live_spec(),
            !r.ready_spec(),
            r.first_spec(),
            r.json_spec().len() == 0,
            r.mandatory_spec() == views(mandatory_params@),
            r.scrapes_spec() == 0,
            r.errors_spec() == 0,
    {
        State {
            json: String::new(),
            mandatory_params,
            live: false,
            ready: false,
            first_iteration: true,
            upstream_scrapes: 0,
            upstream_errors: 0,
        }
    }

    /// Whether the service is live.
    pub fn is_live(&self) -> (r: bool)
        ensures
            r == self.live_spec(),
    {
        self.live
    }

    /// Whether a graph has been cached.
    pub fn is_ready(&self) -> (r: bool)
        ensures
            r == self.ready_spec(),
    {
        self.ready
    }

    /// The number of scrapes run, and of those that failed.
    pub fn counters(&self) -> (r: (u64, u64))
        ensures
            r.0 == self.scrapes_spec(),
            r.1 == self.errors_spec(),
    {
        (self.upstream_scrapes, self.upstream_errors)
    }

    /// The cached JSON; empty until the first success.
    pub fn json(&self) -> (r: String)
        ensures
            r@ == self.json_spec(),
            self.ready_spec() ==> is_graph_json(r@),
    {
        proof {
            use_type_invariant(self);
        }
        self.json.clone()
    }

    /// Marks the service as no longer live (after a panic).
    pub fn set_not_live(&mut self)
        ensures
            final(self).wf(),
            !final(self).live_spec(),
            final(self).ready_spec() == old(self).ready_spec(),
            final(self).json_spec() == old(self).json_spec(),
    {
        proof {
            use_type_invariant(&*self);
        }
        self.live = false;
    }

    /// Starts a scrape iteration: the first makes the service live at once and
    /// does not wait; every later one waits the configured pause first.
    /// Returns whether to wait.
    pub fn begin_iteration(&mut self) -> (wait: bool)
        ensures
            final(self).wf(),
            wait == !old(self).first_spec(),
            old(self).first_spec() ==> final(self).live_spec(),
            !old(self).first_spec() ==> final(self).live_spec() == old(self).live_spec(),
            !final(self).first_spec(),
            final(self).ready_spec() == old(self).ready_spec(),
            final(self).json_spec() == old(self).json_spec(),
            final(self).scrapes_spec() == old(self).scrapes_spec(),
            final(self).errors_spec() == old(self).errors_spec(),
    {
        proof {
            use_type_invariant(&*self);
        }
        if self.first_iteration {
            self.live = true;
            self.first_iteration = false;
            false
        } else {
            true
        }
    }

    /// Installs a freshly serialized graph: the cache is replaced in one step
    /// and the service becomes ready. Returns whether this was the first success.
    pub fn install(&mut self, cache: CachedGraph) -> (first: bool)
        ensures
            final(self).wf(),
            first == !old(self).ready_spec(),
            final(self).ready_spec(),
            final(self).json_spec() == cache.json_spec(),
            final(self).live_spec() == old(self).live_spec(),
            final(self).first_spec() == old(self).first_spec(),
            final(self).errors_spec() == old(self).errors_spec(),
            final(self).scrapes_spec() == (if old(self).scrapes_spec() < u64::MAX { old(self).scrapes_spec() + 1 } else { old(self).scrapes_spec() }),
    {
        proof {
            use_type_invariant(&*self);
        }
        proof {
            use_type_invariant(&cache);
        }
        if self.upstream_scrapes < u64::MAX {
            self.upstream_scrapes = self.upstream_scrapes + 1;
        }
        let CachedGraph { json } = cache;
        let first = !self.ready;
        self.json = json;
        self.ready = true;
        first
    }

    /// Records a scrape whose pipeline failed: the error count grows and the
    /// cache, liveness and readiness are left alone.
    pub fn record_failure(&mut self)
        ensures
            final(self).wf(),
            final(self).live_spec() == old(self).live_spec(),
            final(self).ready_spec() == old(self).ready_spec(),
            final(self).json_spec() == old(self).json_spec(),
            final(self).first_spec() == old(self).first_spec(),
            final(self).scrapes_spec() == (if old(self).scrapes_spec() < u64::MAX { old(self).scrapes_spec() + 1 } else { old(self).scrapes_spec() }),
            final(self).errors_spec() == (if old(self).errors_spec() < u64::MAX { old(self).errors_spec() + 1 } else { old(self).errors_spec() }),
    {
        proof {
            use_type_invariant(&*self);
        }
        if self.upstream_scrapes < u64::MAX {
            self.upstream_scrapes = self.upstream_scrapes + 1;
        }
        if self.upstream_errors < u64::MAX {
            self.upstream_errors = self.upstream_errors + 1;
        }
    }
}

/// Serves a graph request from the cache: the client must accept JSON and
/// the query must hold every mandatory parameter; then the cached JSON.
pub fn index(app_data: &State, accept: Option<&str>, query: &str) -> (r: Result<String, GraphError>)
    ensures
        !(accept matches Some(a) && a@ == CONTENT_TYPE@) ==> r == Err::<String, GraphError>(
            GraphError::InvalidContentType,
        ),
        (accept matches Some(a) && a@ == CONTENT_TYPE@) ==> (r is Ok <==> forall|x: Seq<char>|
            app_data.mandatory_spec().contains(x) ==> #[trigger] query_keys_of(query@).contains(x)),
        r matches Ok(j) ==> j@ == app_data.json_spec(),
{
    proof {
        use_type_invariant(app_data);
    }
    check_request(accept, CONTENT_TYPE, &app_data.mandatory_params, query)?;
    Ok(app_data.json.clone())
}

/// A reader that sees the builder ready reads the complete JSON document of a
/// valid graph, produced by a successful scrape.
pub proof fn lemma_ready_cache_complete(s: &State)
    requires
        s.wf(),
        s.ready_spec(),
    ensures
        is_graph_json(s.json_spec()),
{
}

} // verus!
