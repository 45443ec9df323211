use std::collections::HashSet;

use cincinnati::errors::GraphError;
use cincinnati::request::{
    check_request, ensure_content_type, ensure_query_params, missing_params, parse_query_params,
    CONTENT_TYPE,
};
use cincinnati::text::{parse_params_set, parse_path_prefix};

fn set_of(v: Vec<String>) -> HashSet<String> {
    v.into_iter().collect()
}

#[test]
fn test_parse_path_prefix() {
    assert_eq!(parse_path_prefix("//a/b/c//"), "/a/b/c");
    assert_eq!(parse_path_prefix("/a/b/c/"), "/a/b/c");
    assert_eq!(parse_path_prefix("/a/b/c"), "/a/b/c");
    assert_eq!(parse_path_prefix("a/b/c"), "/a/b/c");
}

#[test]
fn test_parse_params_set() {
    assert_eq!(set_of(parse_params_set("")), HashSet::new());

    let basic = vec!["a".to_string(), "b".to_string(), "c".to_string()];
    assert_eq!(set_of(parse_params_set("a,b,c")), basic.into_iter().collect());

    let dedup = vec!["a".to_string(), "b".to_string()];
    assert_eq!(set_of(parse_params_set("a,b,a")), dedup.into_iter().collect());

    let trimmed = vec!["foo".to_string(), "bar".to_string()];
    assert_eq!(
        set_of(parse_params_set("foo , , bar")),
        trimmed.into_iter().collect()
    );
}

#[test]
fn test_ensure_query_params() {
    let empty: Vec<String> = Vec::new();
    ensure_query_params(&empty, "").unwrap();
    ensure_query_params(&empty, "a=b").unwrap();

    let simple = vec!["a".to_string()];
    ensure_query_params(&simple, "a=b").unwrap();
    ensure_query_params(&simple, "a=b&a=c").unwrap();
    ensure_query_params(&simple, "").unwrap_err();
    ensure_query_params(&simple, "c=d").unwrap_err();
}

#[test]
fn test_ensure_content_type() {
    let accept = Some("application/json");
    ensure_content_type(accept, "application/json").unwrap();
    ensure_content_type(accept, "text/html").unwrap_err();
}

#[test]
fn parse_path_prefix_edge_cases() {
    assert_eq!(parse_path_prefix(""), "/");
    assert_eq!(parse_path_prefix("///"), "/");
    assert_eq!(parse_path_prefix("x"), "/x");
}

#[test]
fn parse_params_set_keeps_first_occurrence_order() {
    assert_eq!(parse_params_set(" b ,a,\tb, c "), vec!["b", "a", "c"]);
    assert_eq!(parse_params_set(",,, ,"), Vec::<String>::new());
}

#[test]
fn missing_params_are_sorted_and_unique() {
    let required = vec![
        "zeta".to_string(),
        "alpha".to_string(),
        "mid".to_string(),
        "alpha".to_string(),
        "beta".to_string(),
    ];
    let keys = vec!["mid".to_string()];
    assert_eq!(
        missing_params(&required, &keys),
        vec!["alpha".to_string(), "beta".to_string(), "zeta".to_string()]
    );
    assert_eq!(
        ensure_query_params(&required, "mid=1&beta=2"),
        Err(GraphError::MissingParams(vec![
            "alpha".to_string(),
            "zeta".to_string()
        ]))
    );
}

#[test]
fn query_keys_are_percent_decoded() {
    let required = vec!["a b".to_string(), "c".to_string()];
    ensure_query_params(&required, "a%20b=1&c").unwrap();
    ensure_query_params(&required, "a+b=1&c=").unwrap();
    assert_eq!(
        ensure_query_params(&required, "ab=1&c=2"),
        Err(GraphError::MissingParams(vec!["a b".to_string()]))
    );
}

#[test]
fn query_params_last_value_wins() {
    let p = parse_query_params("channel=a&arch=x&channel=b%2Dc");
    assert_eq!(p.get("channel"), Some("b-c".to_string()));
    assert_eq!(p.get("arch"), Some("x".to_string()));
    assert_eq!(p.get("other"), None);
    assert_eq!(p.len(), 2);
}

#[test]
fn content_type_checked_before_params() {
    let required = vec!["id".to_string()];
    assert_eq!(
        check_request(None, CONTENT_TYPE, &required, ""),
        Err(GraphError::InvalidContentType)
    );
    assert_eq!(
        check_request(Some("text/html"), CONTENT_TYPE, &required, "id=1"),
        Err(GraphError::InvalidContentType)
    );
    assert_eq!(
        check_request(Some(CONTENT_TYPE), CONTENT_TYPE, &required, ""),
        Err(GraphError::MissingParams(vec!["id".to_string()]))
    );
    assert_eq!(check_request(Some(CONTENT_TYPE), CONTENT_TYPE, &required, "id=1"), Ok(()));
}

#[test]
fn error_kinds_values_and_statuses() {
    let missing = GraphError::MissingParams(vec!["a".to_string(), "b".to_string()]);
    assert_eq!(missing.kind(), "missing_params");
    assert_eq!(missing.value(), "mandatory client parameters missing: a, b");
    assert_eq!(missing.status_code(), 400);
    assert_eq!(GraphError::InvalidContentType.status_code(), 406);
    assert_eq!(GraphError::InvalidContentType.kind(), "invalid_content_type");
    assert_eq!(GraphError::FailedUpstreamFetch("x".to_string()).status_code(), 502);
    assert_eq!(GraphError::FailedUpstreamParse("x".to_string()).status_code(), 502);
    assert_eq!(GraphError::FailedPluginExecution("x".to_string()).status_code(), 500);
    assert_eq!(GraphError::InvalidParams("p".to_string()).value(), "p");
    assert_eq!(GraphError::CycleDetected.kind(), "cycle_detected");
}
