use cincinnati::catalog::build_plugin;
use cincinnati::errors::GraphError;
use cincinnati::graph::{Graph, GraphDocument, Release, ReleaseId};
use cincinnati::metadata::Metadata;
use cincinnati::pipeline::{process, Plugin, Step};
use cincinnati::plugins::{
    apply_labels, ArchFilterPlugin, ChannelFilterPlugin, EdgeAddPlugin, EdgeRemovePlugin,
    NodeRemovePlugin, PluginIO, QuayMetadataFetchPlugin, QuayMetadataSettings, ReleaseScrapePlugin,
    UpstreamFetchPlugin, DEFAULT_KEY_PREFIX,
};
use cincinnati::request::CONTENT_TYPE;
use cincinnati::service::{begin_request, to_service_error};
use cincinnati::state::{index, CachedGraph, State};

type TestMetadata = Vec<(usize, Vec<(String, String)>)>;

fn metadata_of(entries: &[(String, String)]) -> Metadata {
    let mut m = Metadata::new();
    for (k, v) in entries {
        m.insert(k.clone(), v.clone());
    }
    m
}

/// Releases `0.0.i` with payload `image:i`, joined in order unless edges are given.
fn generate_custom_graph(image: &str, metadata: TestMetadata, edges: Option<Vec<(usize, usize)>>) -> Graph {
    let mut graph = Graph::new();
    let mut ids = Vec::new();
    for (i, md) in metadata.iter() {
        let release = Release::new(format!("0.0.{}", i), format!("{}:{}", image, i), metadata_of(md));
        ids.push(graph.add_release(release).unwrap());
    }
    let edges = edges.unwrap_or_else(|| (1..ids.len()).map(|i| (i - 1, i)).collect());
    for (from, to) in edges {
        graph.add_edge(ids[from], ids[to]).unwrap();
    }
    graph
}

fn io_of(graph: Graph) -> PluginIO {
    PluginIO { graph, parameters: Metadata::new() }
}

fn io_with(graph: Graph, params: &[(&str, &str)]) -> PluginIO {
    let mut parameters = Metadata::new();
    for (k, v) in params {
        parameters.insert(k.to_string(), v.to_string());
    }
    PluginIO { graph, parameters }
}

fn edge_versions(g: &Graph) -> Vec<(String, String)> {
    let doc = g.to_document();
    doc.edges
        .iter()
        .map(|(a, b)| (doc.nodes[*a as usize].version.clone(), doc.nodes[*b as usize].version.clone()))
        .collect()
}

fn channel_filter() -> Plugin {
    Plugin::ChannelFilter(ChannelFilterPlugin {
        key_prefix: "io.openshift.upgrades.graph".to_string(),
        key_suffix: "release.channels".to_string(),
    })
}

#[test]
fn ensure_release_remove() {
    let key_prefix = "test_prefix".to_string();
    let key_suffix = "release.remove".to_string();

    let input_graph: Graph = {
        let metadata: TestMetadata = vec![
            (0, vec![(format!("{}.{}", key_prefix, key_suffix), String::from("true"))]),
            (1, vec![]),
            (2, vec![(format!("{}.{}", key_prefix, key_suffix), String::from("true"))]),
        ];
        generate_custom_graph("image", metadata, None)
    };

    let expected_graph: Graph = {
        let metadata: TestMetadata = vec![(1, vec![])];
        generate_custom_graph("image", metadata, None)
    };

    let plugin = Box::new(NodeRemovePlugin { key_prefix });
    let processed_graph = plugin
        .run_internal(PluginIO { graph: input_graph, parameters: Metadata::new() })
        .expect("plugin run failed")
        .graph;

    assert_eq!(expected_graph.to_document(), processed_graph.to_document());
}

#[test]
fn node_remove_needs_exact_true() {
    let key = "p.release.remove".to_string();
    let g = generate_custom_graph(
        "image",
        vec![(0, vec![(key.clone(), "TRUE".to_string())]), (1, vec![(key.clone(), "true".to_string())])],
        None,
    );
    let out = NodeRemovePlugin { key_prefix: "p".to_string() }.run_internal(io_of(g)).unwrap();
    assert_eq!(out.graph.releases_count(), 1);
    assert_eq!(out.graph.find_by_version("0.0.0").map(|id| id.index), Some(0));
}

#[test]
fn node_remove_config() {
    assert_eq!(NodeRemovePlugin::deserialize_config(None).unwrap().key_prefix, DEFAULT_KEY_PREFIX);
    assert_eq!(NodeRemovePlugin::deserialize_config(Some("x".to_string())).unwrap().key_prefix, "x");
    assert!(matches!(
        NodeRemovePlugin::deserialize_config(Some(String::new())),
        Err(GraphError::InvalidPluginConfig(_))
    ));
}

#[test]
fn edge_add_from_previous_versions() {
    let g = generate_custom_graph(
        "image",
        vec![
            (0, vec![]),
            (1, vec![]),
            (2, vec![]),
            (3, vec![("p.previous.add".to_string(), "0.0.1,0.0.0".to_string())]),
        ],
        Some(vec![]),
    );
    let out = EdgeAddPlugin { key_prefix: "p".to_string() }.run_internal(io_of(g)).unwrap();
    assert_eq!(
        edge_versions(&out.graph),
        vec![
            ("0.0.1".to_string(), "0.0.3".to_string()),
            ("0.0.0".to_string(), "0.0.3".to_string())
        ]
    );
}

#[test]
fn edge_add_skips_unknown_and_rejects_cycles() {
    let g = generate_custom_graph(
        "image",
        vec![(0, vec![("p.previous.add".to_string(), " 9.9.9 , 0.0.1".to_string())]), (1, vec![])],
        None,
    );
    let out = EdgeAddPlugin { key_prefix: "p".to_string() }.run_internal(io_of(g));
    assert_eq!(out.err(), Some(GraphError::CycleDetected));

    let g = generate_custom_graph(
        "image",
        vec![(0, vec![]), (1, vec![("p.previous.add".to_string(), "9.9.9".to_string())])],
        Some(vec![]),
    );
    let out = EdgeAddPlugin { key_prefix: "p".to_string() }.run_internal(io_of(g)).unwrap();
    assert_eq!(edge_versions(&out.graph), Vec::<(String, String)>::new());
}

#[test]
fn edge_remove_from_previous_versions() {
    let g = generate_custom_graph(
        "image",
        vec![
            (0, vec![]),
            (1, vec![]),
            (2, vec![("p.previous.remove".to_string(), "0.0.1,0.0.0,7.7.7".to_string())]),
        ],
        Some(vec![(0, 1), (1, 2), (0, 2)]),
    );
    let out = EdgeRemovePlugin { key_prefix: "p".to_string() }.run_internal(io_of(g)).unwrap();
    assert_eq!(edge_versions(&out.graph), vec![("0.0.0".to_string(), "0.0.1".to_string())]);
}

#[test]
fn channel_filter_keeps_listed_releases() {
    let k = "io.openshift.upgrades.graph.release.channels".to_string();
    let g = generate_custom_graph(
        "image",
        vec![
            (0, vec![(k.clone(), "stable-4.1, fast-4.1".to_string())]),
            (1, vec![(k.clone(), "fast-4.1".to_string())]),
            (2, vec![]),
            (3, vec![(k.clone(), "stable-4.1".to_string())]),
        ],
        None,
    );
    let plugin = ChannelFilterPlugin {
        key_prefix: "io.openshift.upgrades.graph".to_string(),
        key_suffix: "release.channels".to_string(),
    };
    let out = plugin.run_internal(io_with(g, &[("channel", "stable-4.1")])).unwrap();
    let versions: Vec<String> = out.graph.to_document().nodes.iter().map(|r| r.version.clone()).collect();
    assert_eq!(versions, vec!["0.0.0", "0.0.3"]);
    assert_eq!(out.graph.to_document().edges, Vec::<(u64, u64)>::new());
}

#[test]
fn channel_filter_rejects_bad_or_missing_channel() {
    let plugin = ChannelFilterPlugin {
        key_prefix: "p".to_string(),
        key_suffix: "release.channels".to_string(),
    };
    let err = plugin.run_internal(io_with(Graph::new(), &[("channel", "invalid:channel")])).err();
    assert_eq!(
        err,
        Some(GraphError::InvalidParams(
            "channel 'invalid:channel' does not match regex '^[0-9a-z\\-\\.]+$'".to_string()
        ))
    );
    assert_eq!(err.unwrap().status_code(), 400);
    let err = plugin.run_internal(io_of(Graph::new())).err();
    assert!(matches!(err, Some(GraphError::InvalidParams(ref m)) if m.starts_with("channel ''")));
    let err = plugin.run_internal(io_with(Graph::new(), &[("channel", "Stable")])).err();
    assert!(matches!(err, Some(GraphError::InvalidParams(_))));
}

#[test]
fn arch_filter_uses_default() {
    let k = "p.release.arch".to_string();
    let g = generate_custom_graph(
        "image",
        vec![(0, vec![(k.clone(), "amd64".to_string())]), (1, vec![(k.clone(), "s390x".to_string())])],
        None,
    );
    let plugin = ArchFilterPlugin {
        key_prefix: "p".to_string(),
        key_suffix: "release.arch".to_string(),
        default_arch: "amd64".to_string(),
    };
    let out = plugin.run_internal(io_of(g)).unwrap();
    assert_eq!(out.graph.to_document().nodes[0].version, "0.0.0");
    assert_eq!(out.graph.releases_count(), 1);
    let err = plugin.run_internal(io_with(Graph::new(), &[("arch", "x86_64")])).err();
    assert_eq!(
        err,
        Some(GraphError::InvalidParams("arch 'x86_64' does not match regex '^[0-9a-z\\-\\.]+$'".to_string()))
    );
}

#[test]
fn metadata_labels_overwrite_with_warning() {
    let g = generate_custom_graph("image", vec![(0, vec![("k".to_string(), "v1".to_string())])], None);
    let id = g.find_by_version("0.0.0").unwrap();
    let labels = vec![
        (id, "0.0.0".to_string(), "k".to_string(), "v2".to_string()),
        (id, "0.0.0".to_string(), "new".to_string(), "x".to_string()),
    ];
    let (out, warnings) = apply_labels(io_of(g), &labels).unwrap();
    let md = out.graph.get_metadata(id).unwrap();
    assert_eq!(md.get("k"), Some("v2".to_string()));
    assert_eq!(md.get("new"), Some("x".to_string()));
    assert_eq!(
        warnings,
        vec!["[0.0.0] key 'k' already exists. overwriting with value 'v2'. previous value: 'v1'".to_string()]
    );
    let bad = vec![(ReleaseId { index: 5 }, "x".to_string(), "k".to_string(), "v".to_string())];
    assert_eq!(apply_labels(io_of(Graph::new()), &bad).err(), Some(GraphError::UnknownRelease));
}

#[test]
fn metadata_fetch_config_and_targets() {
    let mut settings = QuayMetadataSettings::defaults();
    settings.repository = String::new();
    assert!(QuayMetadataFetchPlugin::deserialize_config(settings).is_err());
    let settings = QuayMetadataSettings::defaults();
    let settings = QuayMetadataFetchPlugin::deserialize_config(settings).unwrap();
    let plugin = QuayMetadataFetchPlugin::try_new(
        settings.repository,
        settings.label_filter,
        settings.manifestref_key.clone(),
        None,
        settings.api_base,
    )
    .unwrap();
    let g = generate_custom_graph(
        "image",
        vec![(0, vec![]), (1, vec![(settings.manifestref_key.clone(), "sha256:1".to_string())])],
        None,
    );
    let targets: Vec<(u64, String, String)> =
        plugin.targets(&io_of(g)).into_iter().map(|(id, v, m)| (id.index, v, m)).collect();
    assert_eq!(targets, vec![(1, "0.0.1".to_string(), "sha256:1".to_string())]);
}

#[test]
fn pipeline_applies_plugins_in_order() {
    let g = generate_custom_graph(
        "image",
        vec![
            (0, vec![]),
            (1, vec![("p.release.remove".to_string(), "true".to_string())]),
            (2, vec![("p.previous.add".to_string(), "0.0.0".to_string())]),
        ],
        Some(vec![]),
    );
    let plugins = vec![
        Plugin::EdgeAdd(EdgeAddPlugin { key_prefix: "p".to_string() }),
        Plugin::NodeRemove(NodeRemovePlugin { key_prefix: "p".to_string() }),
    ];
    match process(&plugins, 0, io_of(g)) {
        Step::Finished(io) => {
            assert_eq!(io.graph.releases_count(), 2);
            assert_eq!(edge_versions(&io.graph), vec![("0.0.0".to_string(), "0.0.2".to_string())]);
        }
        _ => panic!("expected the pipeline to finish"),
    }
    assert_eq!(plugins[0].name(), "edge-add");
}

#[test]
fn pipeline_stops_at_first_failure() {
    let plugins = vec![
        Plugin::NodeRemove(NodeRemovePlugin { key_prefix: "p".to_string() }),
        channel_filter(),
        Plugin::EdgeAdd(EdgeAddPlugin { key_prefix: "p".to_string() }),
    ];
    match process(&plugins, 0, io_of(Graph::new())) {
        Step::Failed { index, error } => {
            assert_eq!(index, 1);
            assert!(matches!(error, GraphError::InvalidParams(_)));
        }
        _ => panic!("expected a failure"),
    }
}

#[test]
fn pipeline_single_plugin_equals_run() {
    let g = || generate_custom_graph("image", vec![(0, vec![("p.release.remove".to_string(), "true".to_string())]), (1, vec![])], None);
    let direct = NodeRemovePlugin { key_prefix: "p".to_string() }.run_internal(io_of(g())).unwrap();
    let plugins = vec![Plugin::NodeRemove(NodeRemovePlugin { key_prefix: "p".to_string() })];
    match process(&plugins, 0, io_of(g())) {
        Step::Finished(io) => assert_eq!(io.graph.to_document(), direct.graph.to_document()),
        _ => panic!("expected the pipeline to finish"),
    }
}

#[test]
fn missing_content_type() {
    let resp = begin_request(None, CONTENT_TYPE, &Vec::new(), "", &Vec::new()).err().unwrap();
    assert_eq!(resp, GraphError::InvalidContentType);
    assert_eq!(resp.status_code(), 406);
}

#[test]
fn missing_mandatory_params() {
    let mandatory_params = vec!["id".to_string()];
    let resp = begin_request(Some(CONTENT_TYPE), CONTENT_TYPE, &mandatory_params, "", &Vec::new())
        .err()
        .unwrap();
    assert_eq!(resp, GraphError::MissingParams(vec!["id".to_string()]));
}

#[test]
fn failed_plugin_execution() {
    let plugins = vec![channel_filter()];
    let mandatory_params = vec!["channel".to_string()];
    let step = begin_request(Some(CONTENT_TYPE), CONTENT_TYPE, &mandatory_params, "channel=':'", &plugins)
        .unwrap();
    match step {
        Step::Failed { error: GraphError::InvalidParams(ref msg), .. } if msg.contains("does not match regex") => {}
        _ => panic!("expected InvalidParams error"),
    }
}

/// Runs the request path with a graph builder that serves `upstream_body`
/// (already parsed into a document), or fails to answer.
fn serve(
    mandatory_params: &[&str],
    passed_params: &[(&str, &str)],
    plugins: Vec<Plugin>,
    upstream: Result<GraphDocument, GraphError>,
) -> Result<String, GraphError> {
    let query = passed_params
        .iter()
        .map(|(k, v)| format!("{}={}", k, v))
        .collect::<Vec<String>>()
        .join("&");
    let mandatory: Vec<String> = mandatory_params.iter().map(|s| s.to_string()).collect();
    let mut step = begin_request(Some("application/json"), CONTENT_TYPE, &mandatory, &query, &plugins)?;
    loop {
        step = match step {
            Step::Finished(io) => return Ok(io.graph.to_json()),
            Step::Failed { error, .. } => return Err(to_service_error(error)),
            Step::Suspended { index, io } => {
                let next = match &plugins[index] {
                    Plugin::UpstreamFetch(p) => match &upstream {
                        Ok(doc) => p.adopt(io, doc)?,
                        Err(e) => return Err(e.clone()),
                    },
                    _ => unreachable!(),
                };
                process(&plugins, index + 1, next)
            }
        }
    }
}

#[test]
fn webservice_graph_json_response() {
    static SERVED_GRAPH_BODY: &str = r#"{"nodes":[],"edges":[]}"#;
    let upstream = || Plugin::UpstreamFetch(UpstreamFetchPlugin { upstream: "http://127.0.0.1".to_string() });
    let empty = || Ok(GraphDocument { nodes: vec![], edges: vec![] });

    // successful upstream graph fetch
    assert_eq!(serve(&[], &[], vec![upstream()], empty()), Ok(SERVED_GRAPH_BODY.to_string()));

    // offline upstream
    let offline = GraphError::FailedUpstreamFetch(
        "error sending request for url (http://offline.url.test/): error trying to connect".to_string(),
    );
    let err = serve(&[], &[], vec![upstream()], Err(offline.clone())).unwrap_err();
    assert_eq!(err.status_code(), 502);
    assert_eq!(err.kind(), offline.kind());

    // missing channel parameter
    let expected = GraphError::MissingParams(vec!["channel".to_string()]);
    let err = serve(&["channel"], &[], vec![channel_filter()], empty()).unwrap_err();
    assert_eq!(err.status_code(), 400);
    assert_eq!(err.kind(), expected.kind());
    assert!(err.value().contains(&expected.value()));

    // invalid channel name
    let expected = GraphError::InvalidParams("channel 'invalid:channel'".to_string());
    let err = serve(&["channel"], &[("channel", "invalid:channel")], vec![channel_filter()], empty()).unwrap_err();
    assert_eq!(err.status_code(), 400);
    assert_eq!(err.kind(), expected.kind());
    assert!(err.value().contains(&expected.value()));

    // invalid channel name with equal sign
    let expected = GraphError::InvalidParams("channel 'invalid=channel'".to_string());
    let err = serve(&["channel"], &[("channel", "invalid=channel")], vec![channel_filter()], empty()).unwrap_err();
    assert_eq!(err.status_code(), 400);
    assert_eq!(err.kind(), expected.kind());
    assert!(err.value().contains(&expected.value()));
}

#[test]
fn upstream_document_cycle_is_parse_failure() {
    let rel = |v: &str| Release::new(v.to_string(), "img".to_string(), Metadata::new());
    let doc = GraphDocument { nodes: vec![rel("a"), rel("b")], edges: vec![(0, 1), (1, 0)] };
    let plugin = UpstreamFetchPlugin { upstream: "u".to_string() };
    let err = plugin.adopt(io_of(Graph::new()), &doc).err().unwrap();
    assert_eq!(err, GraphError::FailedUpstreamParse("the edge would close a cycle".to_string()));
    assert_eq!(err.status_code(), 502);
}

#[test]
fn graph_errors_answered_as_plugin_failures() {
    assert_eq!(
        to_service_error(GraphError::CycleDetected),
        GraphError::FailedPluginExecution("the edge would close a cycle".to_string())
    );
    assert_eq!(to_service_error(GraphError::InvalidContentType), GraphError::InvalidContentType);
}

#[test]
fn builder_state_becomes_ready_on_first_success() {
    let mut state = State::new(vec!["id".to_string()]);
    assert!(!state.is_live());
    assert!(!state.is_ready());
    assert!(!state.begin_iteration());
    assert!(state.is_live());
    state.record_failure();
    assert!(!state.is_ready());
    assert_eq!(state.json(), "");
    assert_eq!(state.counters(), (1, 1));
    assert!(state.begin_iteration());
    let g = generate_custom_graph("image", vec![(0, vec![])], None);
    let cache = CachedGraph::of(&g);
    assert_eq!(cache.json(), g.to_json());
    assert!(state.install(cache));
    assert!(state.is_ready());
    assert_eq!(state.json(), g.to_json());
    assert!(!state.install(CachedGraph::of(&Graph::new())));
    assert_eq!(state.json(), r#"{"nodes":[],"edges":[]}"#);
    assert_eq!(state.counters(), (3, 1));
    assert_eq!(index(&state, Some(CONTENT_TYPE), "id=1"), Ok(r#"{"nodes":[],"edges":[]}"#.to_string()));
    assert_eq!(index(&state, None, "id=1"), Err(GraphError::InvalidContentType));
    assert_eq!(index(&state, Some(CONTENT_TYPE), ""), Err(GraphError::MissingParams(vec!["id".to_string()])));
    state.set_not_live();
    assert!(!state.is_live());
    assert!(state.is_ready());
}

fn config(name: &str) -> cincinnati::catalog::PluginConfig {
    cincinnati::catalog::PluginConfig {
        name: name.to_string(),
        key_prefix: None,
        key_suffix: None,
        default_arch: None,
        upstream: None,
        registry: None,
        repository: None,
        api_base: None,
        api_credentials_path: None,
        label_filter: None,
        manifestref_key: None,
    }
}

#[test]
fn catalog_builds_and_validates() {
    match build_plugin(config("channel-filter"), None).unwrap() {
        Plugin::ChannelFilter(p) => {
            assert_eq!(p.key_prefix, DEFAULT_KEY_PREFIX);
            assert_eq!(p.key_suffix, "release.channels");
        }
        _ => panic!("expected a channel filter"),
    }
    match build_plugin(config("arch-filter"), None).unwrap() {
        Plugin::ArchFilter(p) => assert_eq!(p.default_arch, "amd64"),
        _ => panic!("expected an arch filter"),
    }
    let mut c = config("node-remove");
    c.key_prefix = Some(String::new());
    assert_eq!(build_plugin(c, None).err(), Some(GraphError::InvalidPluginConfig("empty prefix".to_string())));
    assert!(matches!(build_plugin(config("cincinnati-graph-fetch"), None), Err(GraphError::InvalidPluginConfig(_))));
    let mut c = config("cincinnati-graph-fetch");
    c.upstream = Some("http://localhost:8080/v1/graph".to_string());
    assert_eq!(build_plugin(c, None).unwrap().name(), "cincinnati-graph-fetch");
    assert_eq!(
        build_plugin(config("no-such-plugin"), None).err(),
        Some(GraphError::InvalidPluginConfig("unknown plugin 'no-such-plugin'".to_string()))
    );
    match build_plugin(config("quay-metadata"), Some("t".to_string())).unwrap() {
        Plugin::QuayMetadata(p) => {
            assert_eq!(p.repo, "openshift");
            assert_eq!(p.api_token, Some("t".to_string()));
        }
        _ => panic!("expected a metadata fetch"),
    }
    let mut c = config("quay-metadata");
    c.label_filter = Some(String::new());
    assert_eq!(
        build_plugin(c, None).err(),
        Some(GraphError::InvalidPluginConfig("empty label_filter".to_string()))
    );
    let mut c = config("release-scrape");
    c.registry = Some("http://registry".to_string());
    c.repository = Some("repo".to_string());
    assert!(build_plugin(c, None).unwrap().is_external());
}

#[test]
fn release_inventory_becomes_graph_without_edges() {
    let rel = |v: &str| Release::new(v.to_string(), format!("img@{}", v), Metadata::new());
    let plugin = ReleaseScrapePlugin { registry: "http://registry".to_string(), repository: "repo".to_string() };
    let io = PluginIO::with_parameters(Metadata::new());
    let out = plugin.adopt_releases(io, vec![rel("1.0.0"), rel("1.1.0")]).unwrap();
    let doc = out.graph.to_document();
    assert_eq!(doc.nodes.len(), 2);
    assert_eq!(doc.nodes[1].payload, "img@1.1.0");
    assert_eq!(doc.edges, Vec::<(u64, u64)>::new());
    let io = PluginIO::with_parameters(Metadata::new());
    let err = plugin.adopt_releases(io, vec![rel("1.0.0"), rel("1.0.0")]).err().unwrap();
    assert_eq!(err, GraphError::UpstreamMalformed("a release with this version already exists".to_string()));
    assert_eq!(err.status_code(), 502);
}

fn metadata_labels_test_annotated(manifestrefs: &[(usize, &str)], input: bool) -> TestMetadata {
    let key = cincinnati::plugins::DEFAULT_QUAY_MANIFESTREF_KEY.to_string();
    let extra = [
        (1, "io.openshift.upgrades.graph.previous.remove", "0.0.0"),
        (2, "io.openshift.upgrades.graph.release.remove", "true"),
        (3, "io.openshift.upgrades.graph.previous.add", "0.0.1,0.0.0"),
    ];
    let mut out: TestMetadata = vec![(0, vec![])];
    for (i, k, v) in extra.iter() {
        let mref = manifestrefs.iter().find(|(j, _)| j == i).expect("expected manifestref").1;
        let mut md = vec![(key.clone(), mref.to_string())];
        if !input {
            md.push((k.to_string(), v.to_string()));
        }
        out.push((*i, md));
    }
    out
}

#[test]
fn metadata_fetch_from_public_quay_succeeds() {
    let manifestrefs: Vec<(usize, &str)> = vec![
        (0, ""),
        (1, "sha256:0275e5e316373faaabea9f13dfc27541e3c6e301b08bd92f443e987195faa9d6"),
        (2, "sha256:e6077b9aee2bb5dae2d90d91ce2165cee802d84ce1af45e281cba47950a37f39"),
        (3, "sha256:9ad8330c3b697d0631083edf72634ddf2ad1d50982d7090faf36c4a1f7eae10f"),
    ];
    let input_graph = generate_custom_graph("image", metadata_labels_test_annotated(&manifestrefs, true), None);
    let expected_graph = generate_custom_graph("image", metadata_labels_test_annotated(&manifestrefs, false), None);

    let plugin = QuayMetadataFetchPlugin::try_new(
        "redhat/openshift-cincinnati-test-labels-public-manual".to_string(),
        cincinnati::plugins::DEFAULT_QUAY_LABEL_FILTER.to_string(),
        cincinnati::plugins::DEFAULT_QUAY_MANIFESTREF_KEY.to_string(),
        None,
        cincinnati::plugins::DEFAULT_QUAY_API_BASE.to_string(),
    )
    .expect("could not initialize the QuayMetadataPlugin");
    let io = io_of(input_graph);
    let targets = plugin.targets(&io);
    assert_eq!(targets.len(), 3);

    // The labels the registry serves for each manifest reference.
    let served = |mref: &str| -> Vec<(String, String)> {
        match manifestrefs.iter().position(|(_, m)| *m == mref) {
            Some(1) => vec![("io.openshift.upgrades.graph.previous.remove".to_string(), "0.0.0".to_string())],
            Some(2) => vec![("io.openshift.upgrades.graph.release.remove".to_string(), "true".to_string())],
            Some(3) => vec![("io.openshift.upgrades.graph.previous.add".to_string(), "0.0.1,0.0.0".to_string())],
            _ => vec![],
        }
    };
    let fetched: Vec<Vec<(String, String)>> = targets.iter().map(|(_, _, mref)| served(mref)).collect();
    let (processed, warnings) = plugin.merge_labels(io, &fetched).expect("plugin run failed");
    assert!(warnings.is_empty());
    assert_eq!(expected_graph.to_document(), processed.graph.to_document());
}

#[test]
fn merge_labels_needs_one_list_per_target() {
    let key = cincinnati::plugins::DEFAULT_QUAY_MANIFESTREF_KEY.to_string();
    let g = generate_custom_graph(
        "image",
        vec![(0, vec![(key.clone(), "sha256:a".to_string()), ("k".to_string(), "old".to_string())]), (1, vec![])],
        None,
    );
    let plugin = QuayMetadataFetchPlugin::try_new(
        "repo".to_string(),
        "f".to_string(),
        key.clone(),
        None,
        "http://api".to_string(),
    )
    .unwrap();
    let err = plugin.merge_labels(io_of(Graph::new()), &vec![vec![]]).err().unwrap();
    assert!(matches!(err, GraphError::UpstreamMalformed(_)));
    let before = g.to_document();
    let (out, warnings) = plugin
        .merge_labels(io_of(g), &vec![vec![("k".to_string(), "new".to_string())]])
        .unwrap();
    assert_eq!(
        warnings,
        vec!["[0.0.0] key 'k' already exists. overwriting with value 'new'. previous value: 'old'".to_string()]
    );
    let after = out.graph.to_document();
    assert_eq!(after.nodes[1], before.nodes[1]);
    assert_eq!(after.edges, before.edges);
    assert_eq!(after.nodes[0].metadata.get("k"), Some("new".to_string()));
}

#[test]
fn catalog_rejects_foreign_options() {
    let mut c = config("node-remove");
    c.upstream = Some("http://x".to_string());
    assert_eq!(
        build_plugin(c, None).err(),
        Some(GraphError::InvalidPluginConfig("option not taken by plugin 'node-remove'".to_string()))
    );
    let mut c = config("cincinnati-graph-fetch");
    c.upstream = Some("http://x".to_string());
    c.key_prefix = Some("p".to_string());
    assert!(matches!(build_plugin(c, None), Err(GraphError::InvalidPluginConfig(_))));
    let mut c = config("channel-filter");
    c.key_suffix = Some("release.channels".to_string());
    assert!(build_plugin(c, None).is_ok());
}
