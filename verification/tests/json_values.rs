use voidveil::anonymise::{anonymise_messages, anonymise_value, Anonymiser};
use voidveil::json::Json;
use voidveil::proxy::{anonymise_request, rehydrate_value};
use voidveil::token_map::TokenMap;

fn s(x: &str) -> Json {
    Json::String(x.to_string())
}

fn obj(members: Vec<(&str, Json)>) -> Json {
    Json::Object(members.into_iter().map(|(k, v)| (k.to_string(), v)).collect())
}

fn setup() -> (TokenMap, Anonymiser) {
    (TokenMap::new(), Anonymiser::new().expect("the standard patterns compile"))
}

#[test]
fn a_string_value_is_anonymised() {
    let (mut map, a) = setup();
    let mut v = s("write to dan@example.com");
    anonymise_value(&mut v, &mut map, &a).unwrap();
    assert_eq!(v, s("write to [EMAIL_0001]"));
}

#[test]
fn object_content_and_text_are_anonymised_and_nothing_else() {
    let (mut map, a) = setup();
    let mut v = obj(vec![
        ("role", s("dan@example.com")),
        ("content", s("from dan@example.com")),
        ("text", s("at 8.8.8.8")),
    ]);
    anonymise_value(&mut v, &mut map, &a).unwrap();
    assert_eq!(
        v,
        obj(vec![
            ("role", s("dan@example.com")),
            ("content", s("from [EMAIL_0001]")),
            ("text", s("at [IP_0001]")),
        ])
    );
}

#[test]
fn array_parts_have_their_text_anonymised() {
    let (mut map, a) = setup();
    let mut v = obj(vec![
        ("role", s("user")),
        (
            "content",
            Json::Array(vec![
                obj(vec![("type", s("text")), ("text", s("ping 8.8.8.8"))]),
                obj(vec![("type", s("image")), ("url", s("8.8.4.4"))]),
                s("raw 1.1.1.1"),
                Json::Number("7".to_string()),
            ]),
        ),
    ]);
    anonymise_value(&mut v, &mut map, &a).unwrap();
    assert_eq!(
        v,
        obj(vec![
            ("role", s("user")),
            (
                "content",
                Json::Array(vec![
                    obj(vec![("type", s("text")), ("text", s("ping [IP_0001]"))]),
                    obj(vec![("type", s("image")), ("url", s("8.8.4.4"))]),
                    s("raw [IP_0002]"),
                    Json::Number("7".to_string()),
                ]),
            ),
        ])
    );
}

#[test]
fn other_values_are_left_alone() {
    let (mut map, a) = setup();
    let mut v = Json::Bool(true);
    anonymise_value(&mut v, &mut map, &a).unwrap();
    assert_eq!(v, Json::Bool(true));
    let mut n = Json::Null;
    anonymise_value(&mut n, &mut map, &a).unwrap();
    assert_eq!(n, Json::Null);
}

#[test]
fn messages_are_anonymised_in_turn() {
    let (mut map, a) = setup();
    let mut msgs = vec![
        obj(vec![("role", s("user")), ("content", s("I am Jane Doe"))]),
        obj(vec![("role", s("assistant")), ("content", s("hello Jane Doe"))]),
    ];
    anonymise_messages(&mut msgs, &mut map, &a).unwrap();
    assert_eq!(
        msgs,
        vec![
            obj(vec![("role", s("user")), ("content", s("I am [PERSON_0001]"))]),
            obj(vec![("role", s("assistant")), ("content", s("hello [PERSON_0001]"))]),
        ]
    );
}

#[test]
fn a_request_has_messages_then_system_anonymised() {
    let (mut map, a) = setup();
    let mut body = obj(vec![
        ("model", s("m")),
        ("system", s("I am Jane Doe")),
        ("messages", Json::Array(vec![obj(vec![("role", s("user")), ("content", s("Mail jane@x.org"))])])),
        ("stream", Json::Bool(false)),
    ]);
    anonymise_request(&mut body, &mut map, &a).unwrap();
    assert_eq!(
        body,
        obj(vec![
            ("model", s("m")),
            ("system", s("I am [PERSON_0001]")),
            ("messages", Json::Array(vec![obj(vec![("role", s("user")), ("content", s("Mail [EMAIL_0001]"))])])),
            ("stream", Json::Bool(false)),
        ])
    );
    assert_eq!(map.rehydrate("[EMAIL_0001]"), Some("jane@x.org".to_string()));
}

#[test]
fn a_request_that_is_not_an_object_is_unchanged() {
    let (mut map, a) = setup();
    let mut body = s("Jane Doe");
    anonymise_request(&mut body, &mut map, &a).unwrap();
    assert_eq!(body, s("Jane Doe"));
}

#[test]
fn replies_are_rehydrated_in_content_text_delta_and_value() {
    let (mut map, a) = setup();
    let mut req = s("Hi Jane Doe at jane@x.org");
    anonymise_value(&mut req, &mut map, &a).unwrap();
    assert_eq!(req, s("Hi [PERSON_0001] at [EMAIL_0001]"));
    let mut reply = obj(vec![
        ("id", s("[PERSON_0001]")),
        ("content", Json::Array(vec![obj(vec![("type", s("text")), ("text", s("Dear [PERSON_0001]"))])])),
        ("delta", obj(vec![("text", s("[EMAIL_0001]")), ("other", s("[EMAIL_0001]"))])),
        ("value", s("[PERSON_0001]!")),
    ]);
    rehydrate_value(&mut reply, &map);
    assert_eq!(
        reply,
        obj(vec![
            ("id", s("[PERSON_0001]")),
            ("content", Json::Array(vec![obj(vec![("type", s("text")), ("text", s("Dear Jane Doe"))])])),
            ("delta", obj(vec![("text", s("jane@x.org")), ("other", s("[EMAIL_0001]"))])),
            ("value", s("Jane Doe!")),
        ])
    );
}

#[test]
fn a_top_level_string_is_rehydrated() {
    let mut map = TokenMap::new();
    let t = map.tokenize("Acme Ltd", "ORG");
    let mut v = Json::Array(vec![s(&format!("{t} and {t}")), Json::Null]);
    rehydrate_value(&mut v, &map);
    assert_eq!(v, Json::Array(vec![s("Acme Ltd and Acme Ltd"), Json::Null]));
}

#[test]
fn tool_result_content_is_anonymised() {
    let (mut map, a) = setup();
    let mut msgs = vec![obj(vec![
        ("role", s("user")),
        (
            "content",
            Json::Array(vec![obj(vec![("type", s("tool_result")), ("content", s("bob@example.com"))])]),
        ),
    ])];
    anonymise_messages(&mut msgs, &mut map, &a).unwrap();
    assert_eq!(
        msgs,
        vec![obj(vec![
            ("role", s("user")),
            (
                "content",
                Json::Array(vec![obj(vec![("type", s("tool_result")), ("content", s("[EMAIL_0001]"))])]),
            ),
        ])]
    );
}

#[test]
fn array_system_prompts_and_prompts_are_anonymised() {
    let (mut map, a) = setup();
    let mut body = obj(vec![
        ("system", Json::Array(vec![obj(vec![("type", s("text")), ("text", s("mail bob@example.com"))])])),
        ("prompt", s("John Smith")),
    ]);
    anonymise_request(&mut body, &mut map, &a).unwrap();
    assert_eq!(
        body,
        obj(vec![
            ("system", Json::Array(vec![obj(vec![("type", s("text")), ("text", s("mail [EMAIL_0001]"))])])),
            ("prompt", s("[PERSON_0001]")),
        ])
    );
}

#[test]
fn openai_choices_are_rehydrated() {
    let mut map = TokenMap::new();
    let t = map.tokenize("John Smith", "PERSON");
    let mut v = obj(vec![(
        "choices",
        Json::Array(vec![obj(vec![("index", Json::Number("0".to_string())), ("message", obj(vec![("content", s(&t))]))])]),
    )]);
    rehydrate_value(&mut v, &map);
    assert_eq!(
        v,
        obj(vec![(
            "choices",
            Json::Array(vec![obj(vec![
                ("index", Json::Number("0".to_string())),
                ("message", obj(vec![("content", s("John Smith"))])),
            ])]),
        )])
    );
}
