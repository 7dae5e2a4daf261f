use voidveil::proxy::{
    apply_headers, extract_headers, request_url, sse_data_payloads, upstream_error, upstream_or_default,
    upstream_stream_error, DEFAULT_UPSTREAM, GENERIC_UA,
};

fn pairs(v: &[(&str, &str)]) -> Vec<(String, String)> {
    v.iter().map(|(k, v)| (k.to_string(), v.to_string())).collect()
}

#[test]
fn telemetry_is_stripped_and_the_user_agent_replaced() {
    let out = apply_headers(&pairs(&[
        ("User-Agent", "curl/8.0"),
        ("X-Stainless-Lang", "js"),
        ("Authorization", "Bearer k"),
        ("cf-ray", "abc"),
        ("X-Request-Id", "1"),
        ("x-api-key", "secret"),
        ("X-Stainless-Retry-Count", "0"),
        ("anthropic-client-platform", "web"),
        ("anthropic-version", "2023-06-01"),
    ]));
    assert_eq!(
        out,
        pairs(&[
            ("user-agent", GENERIC_UA),
            ("Authorization", "Bearer k"),
            ("x-api-key", "secret"),
            ("anthropic-version", "2023-06-01"),
        ])
    );
}

#[test]
fn no_headers_go_out_for_none() {
    assert!(apply_headers(&Vec::new()).is_empty());
}

#[test]
fn passthrough_headers_are_extracted() {
    let headers: Vec<(String, Vec<u8>)> = vec![
        ("content-type".to_string(), b"text/plain".to_vec()),
        ("authorization".to_string(), b"Bearer k".to_vec()),
        ("x-api-key".to_string(), vec![0xff, 0x41]),
        ("anthropic-version".to_string(), b"2023-06-01".to_vec()),
        ("x-stainless-os".to_string(), b"Linux".to_vec()),
        ("authorization".to_string(), b"second".to_vec()),
    ];
    assert_eq!(
        extract_headers(&headers),
        pairs(&[
            ("authorization", "Bearer k"),
            ("anthropic-version", "2023-06-01"),
            ("content-type", "application/json"),
        ])
    );
}

#[test]
fn the_content_type_is_always_json() {
    assert_eq!(extract_headers(&Vec::new()), pairs(&[("content-type", "application/json")]));
}

#[test]
fn data_lines_are_collected_up_to_done() {
    let text = "event: x\ndata: {\"a\":1}\n\n  data: {\"b\":2}  \r\n: comment\ndata: [DONE]\ndata: {\"c\":3}\n";
    assert_eq!(sse_data_payloads(text), vec!["{\"a\":1}".to_string(), "{\"b\":2}".to_string()]);
}

#[test]
fn a_stream_without_data_gives_nothing() {
    assert!(sse_data_payloads("").is_empty());
    assert!(sse_data_payloads("data:x\nevent: y").is_empty());
    assert_eq!(sse_data_payloads("data: last"), vec!["last".to_string()]);
}

#[test]
fn upstream_urls_and_errors() {
    assert_eq!(upstream_or_default(None), DEFAULT_UPSTREAM);
    assert_eq!(DEFAULT_UPSTREAM, "https://api.anthropic.com");
    assert_eq!(upstream_or_default(Some("http://localhost:1".to_string())), "http://localhost:1");
    assert_eq!(request_url("https://api.example.com", "/v1/messages"), "https://api.example.com/v1/messages");
    assert_eq!(upstream_error("401 Unauthorized", "{\"e\":1}"), "upstream 401 Unauthorized: {\"e\":1}");
    assert_eq!(upstream_stream_error("500 Internal Server Error"), "upstream 500 Internal Server Error");
}
