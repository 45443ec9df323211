use cincinnati::tracing::{extract_trace_context, inject_trace_context, TRACE_HEADER_NAME};

#[test]
fn trace_context_round_trip() {
    let mut headers = vec![("accept".to_string(), "application/json".to_string())];
    assert_eq!(extract_trace_context(&headers), None);
    inject_trace_context(&mut headers, "abc:def:0:1");
    assert_eq!(headers.len(), 2);
    assert_eq!(headers[1].0, TRACE_HEADER_NAME);
    assert_eq!(extract_trace_context(&headers), Some("abc:def:0:1".to_string()));
}

#[test]
fn first_trace_header_wins() {
    let headers = vec![
        ("uber-trace-id".to_string(), "first".to_string()),
        ("uber-trace-id".to_string(), "second".to_string()),
    ];
    assert_eq!(extract_trace_context(&headers), Some("first".to_string()));
}
