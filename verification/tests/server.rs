use voidveil::json::Json;
use voidveil::server::{
    decimal, error_reply, health_reply, is_stream, join, models_reply, parse_port, port_or_default, stream_reply,
};

fn s(x: &str) -> Json {
    Json::String(x.to_string())
}

fn obj(members: Vec<(&str, Json)>) -> Json {
    Json::Object(members.into_iter().map(|(k, v)| (k.to_string(), v)).collect())
}

#[test]
fn stream_is_asked_for_only_by_true() {
    assert!(is_stream(&obj(vec![("model", s("m")), ("stream", Json::Bool(true))])));
    assert!(!is_stream(&obj(vec![("stream", Json::Bool(false))])));
    assert!(!is_stream(&obj(vec![("stream", s("true"))])));
    assert!(!is_stream(&obj(vec![])));
    assert!(!is_stream(&Json::Array(vec![Json::Bool(true)])));
}

#[test]
fn decimal_text() {
    assert_eq!(decimal(0), "0");
    assert_eq!(decimal(7), "7");
    assert_eq!(decimal(1234), "1234");
    assert_eq!(decimal(usize::MAX), usize::MAX.to_string());
}

#[test]
fn join_puts_the_separator_between() {
    let v = vec!["a".to_string(), "b".to_string(), "c".to_string()];
    assert_eq!(join(&v, "\n"), "a\nb\nc");
    assert_eq!(join(&vec!["x".to_string()], ", "), "x");
    assert_eq!(join(&Vec::new(), ", "), "");
}

#[test]
fn stream_reply_counts_and_joins_chunks() {
    let chunks = vec!["{\"a\":1}".to_string(), "{\"b\":2}".to_string()];
    assert_eq!(
        stream_reply(&chunks),
        obj(vec![("data", s("{\"a\":1}\n{\"b\":2}")), ("streamed_chunks", Json::Number("2".to_string()))])
    );
    assert_eq!(
        stream_reply(&Vec::new()),
        obj(vec![("data", s("")), ("streamed_chunks", Json::Number("0".to_string()))])
    );
}

#[test]
fn error_reply_holds_the_message() {
    assert_eq!(error_reply("upstream 500"), obj(vec![("error", s("upstream 500"))]));
}

#[test]
fn health_reply_names_the_session() {
    assert_eq!(
        health_reply("abc"),
        obj(vec![
            ("map", s("RAM only — never transmitted")),
            ("session", s("abc")),
            ("sovereignty", s("complete")),
            ("status", s("ok")),
            ("telemetry_stripped", Json::Bool(true)),
            ("tls", s("active")),
        ])
    );
}

#[test]
fn models_reply_lists_the_proxy_first() {
    let entry = |id: &str, owner: &str| obj(vec![("id", s(id)), ("object", s("model")), ("owned_by", s(owner))]);
    assert_eq!(
        models_reply(&vec![("gpt-4o".to_string(), "openai".to_string())]),
        obj(vec![
            ("data", Json::Array(vec![entry("voidveil-proxy", "voidveil"), entry("gpt-4o", "openai")])),
            ("object", s("list")),
        ])
    );
    assert_eq!(
        models_reply(&Vec::new()),
        obj(vec![("data", Json::Array(vec![entry("voidveil-proxy", "voidveil")])), ("object", s("list"))])
    );
}

#[test]
fn ports_parse_as_u16_does() {
    for text in ["8080", "+80", "0", "00080", "65535", "65536", "", "+", "-1", " 80", "80 ", "8o", "99999999999"] {
        assert_eq!(parse_port(text), text.parse::<u16>().ok(), "{text:?}");
    }
    assert_eq!(parse_port("9999"), Some(9999));
    assert_eq!(parse_port("65536"), None);
}

#[test]
fn ports_fall_back_to_the_default() {
    assert_eq!(port_or_default(None, 9999), 9999);
    assert_eq!(port_or_default(Some("8443"), 9998), 8443);
    assert_eq!(port_or_default(Some("nope"), 9998), 9998);
    assert_eq!(port_or_default(Some("70000"), 9999), 9999);
}
