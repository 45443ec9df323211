//! The error taxonomy of the graph services.

use vstd::prelude::*;
use vstd::string::*;

verus! {

/// What can go wrong while building, transforming or serving a graph.
#[derive(Clone, Debug, PartialEq, Eq)]
pub enum GraphError {
    /// The client does not accept the served media type.
    InvalidContentType,
    /// Mandatory query parameters are missing (sorted).
    MissingParams(Vec<String>),
    /// A query parameter has an invalid value.
    InvalidParams(String),
    /// The upstream graph could not be fetched.
    FailedUpstreamFetch(String),
    /// The upstream graph could not be parsed.
    FailedUpstreamParse(String),
    /// A plugin failed.
    FailedPluginExecution(String),
    /// A release with this version already exists.
    DuplicateVersion,
    /// A release that an operation names does not exist.
    UnknownRelease,
    /// An edge would close a cycle.
    CycleDetected,
    /// The release registry could not be reached.
    UpstreamUnavailable(String),
    /// The release registry answered with something malformed.
    UpstreamMalformed(String),
    /// A plugin configuration is invalid.
    InvalidPluginConfig(String),
}

/// An error as mathematical values.
pub enum GraphErrorView {
    InvalidContentType,
    MissingParams(Seq<Seq<char>>),
    InvalidParams(Seq<char>),
    FailedUpstreamFetch(Seq<char>),
    FailedUpstreamParse(Seq<char>),
    FailedPluginExecution(Seq<char>),
    DuplicateVersion,
    UnknownRelease,
    CycleDetected,
    UpstreamUnavailable(Seq<char>),
    UpstreamMalformed(Seq<char>),
    InvalidPluginConfig(Seq<char>),
}

impl View for GraphError {
    type V = GraphErrorView;

    open spec fn view(&self) -> GraphErrorView {
        match self {
            GraphError::InvalidContentType => GraphErrorView::InvalidContentType,
            GraphError::MissingParams(ps) => GraphErrorView::MissingParams(
                ps@.map_values(|p: String| p@),
            ),
            GraphError::InvalidParams(s) => GraphErrorView::InvalidParams(s@),
            GraphError::FailedUpstreamFetch(s) => GraphErrorView::FailedUpstreamFetch(s@),
            GraphError::FailedUpstreamParse(s) => GraphErrorView::FailedUpstreamParse(s@),
            GraphError::FailedPluginExecution(s) => GraphErrorView::FailedPluginExecution(s@),
            GraphError::DuplicateVersion => GraphErrorView::DuplicateVersion,
            GraphError::UnknownRelease => GraphErrorView::UnknownRelease,
            GraphError::CycleDetected => GraphErrorView::CycleDetected,
            GraphError::UpstreamUnavailable(s) => GraphErrorView::UpstreamUnavailable(s@),
            GraphError::UpstreamMalformed(s) => GraphErrorView::UpstreamMalformed(s@),
            GraphError::InvalidPluginConfig(s) => GraphErrorView::InvalidPluginConfig(s@),
        }
    }
}

/// `items` joined with ", ".
pub open spec fn join_list(items: Seq<Seq<char>>) -> Seq<char>
    decreases items.len(),
{
    if items.len() == 0 {
        Seq::empty()
    } else if items.len() == 1 {
        items[0]
    } else {
        join_list(items.drop_last()) + ", "@ + items.last()
    }
}

/// The stable identifier of each kind of error.
pub open spec fn kind_of(e: GraphError) -> Seq<char> {
    match e {
        GraphError::InvalidContentType => "invalid_content_type"@,
        GraphError::MissingParams(_) => "missing_params"@,
        GraphError::InvalidParams(_) => "invalid_params"@,
        GraphError::FailedUpstreamFetch(_) => "failed_upstream_fetch"@,
        GraphError::FailedUpstreamParse(_) => "failed_upstream_parse"@,
        GraphError::FailedPluginExecution(_) => "failed_plugin_execution"@,
        GraphError::DuplicateVersion => "duplicate_version"@,
        GraphError::UnknownRelease => "unknown_release"@,
        GraphError::CycleDetected => "cycle_detected"@,
        GraphError::UpstreamUnavailable(_) => "upstream_unavailable"@,
        GraphError::UpstreamMalformed(_) => "upstream_malformed"@,
        GraphError::InvalidPluginConfig(_) => "invalid_plugin_config"@,
    }
}

/// The human-readable text of an error.
pub open spec fn value_of(e: GraphError) -> Seq<char> {
    match e {
        GraphError::InvalidContentType => "invalid Content-Type requested"@,
        GraphError::MissingParams(ps) => "mandatory client parameters missing: "@ + join_list(
            ps@.map_values(|p: String| p@),
        ),
        GraphError::InvalidParams(s) => s@,
        GraphError::FailedUpstreamFetch(s) => s@,
        GraphError::FailedUpstreamParse(s) => s@,
        GraphError::FailedPluginExecution(s) => s@,
        GraphError::DuplicateVersion => "a release with this version already exists"@,
        GraphError::UnknownRelease => "unknown release"@,
        GraphError::CycleDetected => "the edge would close a cycle"@,
        GraphError::UpstreamUnavailable(s) => s@,
        GraphError::UpstreamMalformed(s) => s@,
        GraphError::InvalidPluginConfig(s) => s@,
    }
}

/// The HTTP status with which an error is answered.
pub open spec fn status_of(e: GraphError) -> u16 {
    match e {
        GraphError::InvalidContentType => 406,
        GraphError::MissingParams(_) => 400,
        GraphError::InvalidParams(_) => 400,
        GraphError::FailedUpstreamFetch(_) => 502,
        GraphError::FailedUpstreamParse(_) => 502,
        GraphError::UpstreamUnavailable(_) => 502,
        GraphError::UpstreamMalformed(_) => 502,
        _ => 500,
    }
}

/// `s` joined with ", ".
pub fn join_strings(s: &Vec<String>) -> (r: String)
    ensures
        r@ == join_list(s@.map_values(|p: String| p@)),
{
    let ghost v = s@.map_values(|p: String| p@);
    let mut r = String::new();
    let mut i: usize = 0;
    while i < s.len()
        invariant
            i <= s.len(),
            v == s@.map_values(|p: String| p@),
            r@ == join_list(v.subrange(0, i as int)),
        decreases s.len() - i,
    {
        proof {
            assert(v.subrange(0, i + 1).drop_last() =~= v.subrange(0, i as int));
            reveal_strlit(", ");
        }
        if i > 0 {
            r.append(", ");
        } else {
            assert(v.subrange(0, 1) =~= seq![v[0]]);
        }
        r.append(s[i].as_str());
        i = i + 1;
    }
    assert(v.subrange(0, s.len() as int) =~= v);
    r
}

impl GraphError {
    /// The stable identifier of this kind of error.
    pub fn kind(&self) -> (r: String)
        ensures
            r@ == kind_of(*self),
    {
        let k = match self {
            GraphError::InvalidContentType => "invalid_content_type",
            GraphError::MissingParams(_) => "missing_params",
            GraphError::InvalidParams(_) => "invalid_params",
            GraphError::FailedUpstreamFetch(_) => "failed_upstream_fetch",
            GraphError::FailedUpstreamParse(_) => "failed_upstream_parse",
            GraphError::FailedPluginExecution(_) => "failed_plugin_execution",
            GraphError::DuplicateVersion => "duplicate_version",
            GraphError::UnknownRelease => "unknown_release",
            GraphError::CycleDetected => "cycle_detected",
            GraphError::UpstreamUnavailable(_) => "upstream_unavailable",
            GraphError::UpstreamMalformed(_) => "upstream_malformed",
            GraphError::InvalidPluginConfig(_) => "invalid_plugin_config",
        };
        String::from_str(k)
    }

    /// The human-readable text of this error.
    pub fn value(&self) -> (r: String)
        ensures
            r@ == value_of(*self),
    {
        match self {
            GraphError::InvalidContentType => String::from_str("invalid Content-Type requested"),
            GraphError::MissingParams(ps) => {
                let mut r = String::from_str("mandatory client parameters missing: ");
                let j = join_strings(ps);
                r.append(j.as_str());
                r
            },
            GraphError::InvalidParams(s) => s.clone(),
            GraphError::FailedUpstreamFetch(s) => s.clone(),
            GraphError::FailedUpstreamParse(s) => s.clone(),
            GraphError::FailedPluginExecution(s) => s.clone(),
            GraphError::DuplicateVersion => String::from_str(
                "a release with this version already exists",
            ),
            GraphError::UnknownRelease => String::from_str("unknown release"),
            GraphError::CycleDetected => String::from_str("the edge would close a cycle"),
            GraphError::UpstreamUnavailable(s) => s.clone(),
            GraphError::UpstreamMalformed(s) => s.clone(),
            GraphError::InvalidPluginConfig(s) => s.clone(),
        }
    }

    /// The HTTP status with which this error is answered.
    pub fn status_code(&self) -> (r: u16)
        ensures
            r == status_of(*self),
    {
        match self {
            GraphError::InvalidContentType => 406,
            GraphError::MissingParams(_) => 400,
            GraphError::InvalidParams(_) => 400,
            GraphError::FailedUpstreamFetch(_) => 502,
            GraphError::FailedUpstreamParse(_) => 502,
            GraphError::UpstreamUnavailable(_) => 502,
            GraphError::UpstreamMalformed(_) => 502,
            _ => 500,
        }
    }
}

} // verus!
