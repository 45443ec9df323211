use cincinnati::errors::GraphError;
use cincinnati::graph::{Graph, GraphDocument, Release, ReleaseId};
use cincinnati::json::{decimal, document_to_json};
use cincinnati::metadata::Metadata;

type TestMetadata = Vec<(usize, Vec<(String, String)>)>;

fn metadata_of(entries: &[(String, String)]) -> Metadata {
    let mut m = Metadata::new();
    for (k, v) in entries {
        m.insert(k.clone(), v.clone());
    }
    m
}

/// Releases `0.0.i` with payload `image:i`, joined in order unless edges are given.
fn generate_custom_graph(image: &str, metadata: TestMetadata, edges: Option<Vec<(usize, usize)>>) -> Graph {
    let mut graph = Graph::new();
    let mut ids = Vec::new();
    for (i, md) in metadata.iter() {
        let release = Release::new(
            format!("0.0.{}", i),
            format!("{}:{}", image, i),
            metadata_of(md),
        );
        ids.push(graph.add_release(release).unwrap());
    }
    let edges = edges.unwrap_or_else(|| (1..ids.len()).map(|i| (i - 1, i)).collect());
    for (from, to) in edges {
        graph.add_edge(ids[from], ids[to]).unwrap();
    }
    graph
}

fn release(version: &str) -> Release {
    Release::new(version.to_string(), format!("image:{}", version), Metadata::new())
}

#[test]
fn add_release_rejects_duplicate_version() {
    let mut g = Graph::new();
    let a = g.add_release(release("1.0.0")).unwrap();
    let b = g.add_release(release("1.0.1")).unwrap();
    assert_ne!(a, b);
    assert_eq!(g.add_release(release("1.0.0")), Err(GraphError::DuplicateVersion));
    assert_eq!(g.releases_count(), 2);
    assert_eq!(g.find_by_version("1.0.1"), Some(b));
    assert_eq!(g.find_by_version("2.0.0"), None);
}

#[test]
fn add_edge_detects_cycles_and_unknown_releases() {
    let mut g = Graph::new();
    let a = g.add_release(release("a")).unwrap();
    let b = g.add_release(release("b")).unwrap();
    let c = g.add_release(release("c")).unwrap();
    assert_eq!(g.add_edge(a, b), Ok(()));
    assert_eq!(g.add_edge(b, c), Ok(()));
    assert_eq!(g.add_edge(c, a), Err(GraphError::CycleDetected));
    assert_eq!(g.add_edge(a, a), Err(GraphError::CycleDetected));
    assert_eq!(g.add_edge(a, ReleaseId { index: 99 }), Err(GraphError::UnknownRelease));
    assert_eq!(g.add_edge(a, c), Ok(()));
    assert_eq!(g.add_edge(a, c), Ok(()));
    assert_eq!(g.to_document().edges, vec![(0, 1), (1, 2), (0, 2)]);
}

#[test]
fn remove_edge_is_idempotent() {
    let mut g = generate_custom_graph("image", vec![(0, vec![]), (1, vec![]), (2, vec![])], None);
    let ids: Vec<ReleaseId> = (0..3).map(|i| g.find_by_version(&format!("0.0.{}", i)).unwrap()).collect();
    g.remove_edge(ids[0], ids[1]);
    g.remove_edge(ids[0], ids[1]);
    g.remove_edge(ids[2], ids[0]);
    assert_eq!(g.to_document().edges, vec![(1, 2)]);
}

#[test]
fn remove_releases_drops_incident_edges() {
    let mut g = generate_custom_graph("image", vec![(0, vec![]), (1, vec![]), (2, vec![]), (3, vec![])], None);
    let one = g.find_by_version("0.0.1").unwrap();
    let removed = g.remove_releases(&vec![one, ReleaseId { index: 42 }]);
    assert_eq!(removed, 1);
    assert_eq!(g.releases_count(), 3);
    let doc = g.to_document();
    let versions: Vec<String> = doc.nodes.iter().map(|r| r.version.clone()).collect();
    assert_eq!(versions, vec!["0.0.0", "0.0.2", "0.0.3"]);
    assert_eq!(doc.edges, vec![(1, 2)]);
}

#[test]
fn add_then_remove_keeps_count() {
    let mut g = generate_custom_graph("image", vec![(0, vec![]), (1, vec![])], None);
    let before = g.to_document();
    let id = g.add_release(release("9.9.9")).unwrap();
    assert_eq!(g.releases_count(), 3);
    assert_eq!(g.remove_releases(&vec![id]), 1);
    assert_eq!(g.releases_count(), 2);
    assert_eq!(g.remove_releases(&vec![id]), 0);
    assert_eq!(g.to_document(), before);
}

#[test]
fn metadata_queries_are_ordered_by_id() {
    let k = "k".to_string();
    let g = generate_custom_graph(
        "image",
        vec![
            (0, vec![(k.clone(), "x".to_string())]),
            (1, vec![]),
            (2, vec![(k.clone(), "y".to_string())]),
            (3, vec![(k.clone(), "x".to_string())]),
        ],
        None,
    );
    let by_key: Vec<(u64, String, String)> = g
        .find_by_metadata_key("k")
        .into_iter()
        .map(|(id, v, val)| (id.index, v, val))
        .collect();
    assert_eq!(
        by_key,
        vec![
            (0, "0.0.0".to_string(), "x".to_string()),
            (2, "0.0.2".to_string(), "y".to_string()),
            (3, "0.0.3".to_string(), "x".to_string()),
        ]
    );
    let by_pair: Vec<(u64, String)> = g
        .find_by_metadata_pair("k", "x")
        .into_iter()
        .map(|(id, v)| (id.index, v))
        .collect();
    assert_eq!(by_pair, vec![(0, "0.0.0".to_string()), (3, "0.0.3".to_string())]);
}

#[test]
fn insert_metadata_returns_previous_value() {
    let mut g = generate_custom_graph("image", vec![(0, vec![("k".to_string(), "v1".to_string())])], None);
    let id = g.find_by_version("0.0.0").unwrap();
    assert_eq!(g.insert_metadata(id, "k".to_string(), "v2".to_string()), Ok(Some("v1".to_string())));
    assert_eq!(g.insert_metadata(id, "n".to_string(), "1".to_string()), Ok(None));
    let md = g.get_metadata(id).unwrap();
    assert_eq!(md.get("k"), Some("v2".to_string()));
    assert_eq!(md.len(), 2);
    assert_eq!(
        g.insert_metadata(ReleaseId { index: 7 }, "k".to_string(), "v".to_string()),
        Err(GraphError::UnknownRelease)
    );
}

#[test]
fn document_round_trip() {
    let g = generate_custom_graph(
        "image",
        vec![
            (0, vec![("a".to_string(), "1".to_string())]),
            (1, vec![]),
            (2, vec![("b".to_string(), "2".to_string()), ("c".to_string(), "3".to_string())]),
        ],
        Some(vec![(0, 1), (0, 2), (1, 2)]),
    );
    let doc = g.to_document();
    let back = Graph::from_document(&doc).unwrap();
    assert_eq!(back.to_document(), doc);
}

#[test]
fn from_document_rejections() {
    let dup = GraphDocument { nodes: vec![release("a"), release("a")], edges: vec![] };
    assert_eq!(Graph::from_document(&dup).err(), Some(GraphError::DuplicateVersion));
    let out = GraphDocument { nodes: vec![release("a"), release("b")], edges: vec![(0, 2)] };
    assert_eq!(Graph::from_document(&out).err(), Some(GraphError::UnknownRelease));
    let cyc = GraphDocument { nodes: vec![release("a"), release("b")], edges: vec![(0, 1), (1, 0)] };
    assert_eq!(Graph::from_document(&cyc).err(), Some(GraphError::CycleDetected));
    let rep = GraphDocument { nodes: vec![release("a"), release("b")], edges: vec![(0, 1), (0, 1)] };
    assert_eq!(Graph::from_document(&rep).unwrap().to_document().edges, vec![(0, 1)]);
}

#[test]
fn empty_graph_json() {
    assert_eq!(Graph::new().to_json(), r#"{"nodes":[],"edges":[]}"#);
}

#[test]
fn graph_json_shape_and_escaping() {
    let g = generate_custom_graph(
        "quay.io/img",
        vec![(0, vec![("say".to_string(), "a \"b\"\n".to_string())]), (10, vec![])],
        None,
    );
    let expected = String::from(r#"{"nodes":[{"version":"0.0.0","payload":"quay.io/img:0","metadata":{"say":"a \"b\"\n"}},"#)
        + r#"{"version":"0.0.10","payload":"quay.io/img:10","metadata":{}}],"edges":[[0,1]]}"#;
    assert_eq!(g.to_json(), expected);
    let doc = g.to_document();
    assert_eq!(document_to_json(&doc), g.to_json());
}

#[test]
fn decimal_digits() {
    assert_eq!(decimal(0), "0");
    assert_eq!(decimal(7), "7");
    assert_eq!(decimal(10), "10");
    assert_eq!(decimal(1234567890), "1234567890");
    assert_eq!(decimal(u64::MAX), "18446744073709551615");
}

#[test]
fn edges_by_version() {
    let mut g = generate_custom_graph("image", vec![(0, vec![]), (1, vec![]), (2, vec![])], Some(vec![]));
    assert_eq!(g.add_edge_by_version("0.0.0", "0.0.2"), Ok(()));
    assert_eq!(g.add_edge_by_version("0.0.2", "0.0.0"), Err(GraphError::CycleDetected));
    assert_eq!(g.add_edge_by_version("0.0.0", "9.9.9"), Err(GraphError::UnknownRelease));
    g.remove_edge_by_version("0.0.0", "9.9.9");
    assert_eq!(g.to_document().edges, vec![(0, 2)]);
    g.remove_edge_by_version("0.0.0", "0.0.2");
    g.remove_edge_by_version("0.0.0", "0.0.2");
    assert_eq!(g.to_document().edges, Vec::<(u64, u64)>::new());
}

#[test]
fn json_control_characters_escaped() {
    let mut md = Metadata::new();
    md.insert("k\u{1}".to_string(), "\u{1f}\t\\".to_string());
    let mut g = Graph::new();
    g.add_release(Release::new("v".to_string(), "p".to_string(), md)).unwrap();
    assert_eq!(
        g.to_json(),
        r#"{"nodes":[{"version":"v","payload":"p","metadata":{"k\u0001":"\u001f\t\\"}}],"edges":[]}"#
    );
}
