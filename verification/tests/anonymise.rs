use voidveil::anonymise::{anonymise, Anonymiser};
use voidveil::token_map::TokenMap;

fn setup() -> (TokenMap, Anonymiser) {
    (TokenMap::new(), Anonymiser::new().expect("the standard patterns compile"))
}

#[test]
fn standard_patterns_compile() {
    assert!(Anonymiser::new().is_some());
}

#[test]
fn email_becomes_a_token() {
    let (mut map, a) = setup();
    let out = anonymise("Contact me at alice@example.com", &mut map, &a).unwrap();
    assert_eq!(out, "Contact me at [EMAIL_0001]");
    assert_eq!(map.rehydrate("[EMAIL_0001]"), Some("alice@example.com".to_string()));
}

#[test]
fn private_ipv4_addresses_are_kept() {
    let (mut map, a) = setup();
    let out = anonymise(
        "Ping 8.8.8.8 or 10.0.0.1 or 192.168.1.20 or 172.20.1.1 or 172.32.0.1",
        &mut map,
        &a,
    )
    .unwrap();
    assert_eq!(out, "Ping [IP_0001] or 10.0.0.1 or 192.168.1.20 or 172.20.1.1 or [IP_0002]");
    assert_eq!(map.rehydrate("[IP_0002]"), Some("172.32.0.1".to_string()));
}

#[test]
fn loopback_is_kept() {
    let (mut map, a) = setup();
    let out = anonymise("local 127.0.0.1 only", &mut map, &a).unwrap();
    assert_eq!(out, "local 127.0.0.1 only");
}

#[test]
fn secret_key_becomes_a_token() {
    let (mut map, a) = setup();
    let key: String = "sk-".chars().chain('a'..='x').collect();
    let out = anonymise(&format!("key {key} end"), &mut map, &a).unwrap();
    assert_eq!(out, "key [SECRET_0001] end");
    assert_eq!(map.rehydrate("[SECRET_0001]"), Some(key));
}

#[test]
fn person_roles_and_pronouns_share_one_token() {
    let (mut map, a) = setup();
    let out = anonymise("Jane Doe is my manager and she is kind.", &mut map, &a).unwrap();
    assert_eq!(out, "[PERSON_0001] is [PERSON_0001] and [PERSON_0001] is kind.");
    assert_eq!(map.rehydrate("[PERSON_0001]"), Some("Jane Doe".to_string()));
    assert_eq!(map.rehydrate("[ROLE_REF_0001]"), Some("my manager".to_string()));
    assert_eq!(map.rehydrate("[PRONOUN_0001]"), Some("she".to_string()));
}

#[test]
fn pronouns_stay_without_a_person() {
    let (mut map, a) = setup();
    let out = anonymise("she said the doctor would call", &mut map, &a).unwrap();
    assert_eq!(out, "she said the doctor would call");
    assert_eq!(map.counter("PRONOUN"), 0);
}

#[test]
fn the_same_entity_gets_the_same_token_across_calls() {
    let (mut map, a) = setup();
    let first = anonymise("Write to bob@example.org today", &mut map, &a).unwrap();
    let second = anonymise("bob@example.org replied", &mut map, &a).unwrap();
    assert_eq!(first, "Write to [EMAIL_0001] today");
    assert_eq!(second, "[EMAIL_0001] replied");
}

#[test]
fn plain_text_is_unchanged() {
    let (mut map, a) = setup();
    assert_eq!(anonymise("hello world", &mut map, &a).unwrap(), "hello world");
    assert_eq!(anonymise("", &mut map, &a).unwrap(), "");
}

#[test]
fn anonymised_text_rehydrates_to_the_original() {
    let (mut map, a) = setup();
    let text = "Mail carol@example.net or call from 8.8.4.4";
    let out = anonymise(text, &mut map, &a).unwrap();
    assert_ne!(out, text);
    assert_eq!(map.rehydrate_text(&out), text);
}

#[test]
fn tokens_inside_real_values_are_resolved() {
    let (mut map, a) = setup();
    let text = "see https://bob@example.com/x";
    let out = anonymise(text, &mut map, &a).unwrap();
    assert_eq!(out, "see [URL_0001]");
    assert_eq!(map.rehydrate("[URL_0001]"), Some("https://[EMAIL_0001]/x".to_string()));
    assert_eq!(map.rehydrate_text(&out), text);
}

#[test]
fn anonymising_again_gives_the_same_text_and_adds_nothing() {
    let (mut map, a) = setup();
    let text = "Jane Doe wrote to bob@example.com from 8.8.8.8";
    let first = anonymise(text, &mut map, &a).unwrap();
    let counts: Vec<u32> = ["PERSON", "EMAIL", "IP"].iter().map(|t| map.counter(t)).collect();
    let second = anonymise(text, &mut map, &a).unwrap();
    assert_eq!(first, second);
    let again: Vec<u32> = ["PERSON", "EMAIL", "IP"].iter().map(|t| map.counter(t)).collect();
    assert_eq!(counts, again);
    assert_eq!(counts, vec![1, 1, 1]);
}
