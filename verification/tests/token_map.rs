use voidveil::text::replace_all;
use voidveil::token::format_token;
use voidveil::token_map::TokenMap;

#[test]
fn token_format_is_type_and_four_hex_digits() {
    assert_eq!(format_token("PERSON", 1), "[PERSON_0001]");
    assert_eq!(format_token("EMAIL", 10), "[EMAIL_000A]");
    assert_eq!(format_token("IP", 0xBEEF), "[IP_BEEF]");
    assert_eq!(format_token("ORG", 0x1A2B3), "[ORG_1A2B3]");
    assert_eq!(format_token("X", 0), "[X_0000]");
}

#[test]
fn tokenize_numbers_each_type_on_its_own() {
    let mut map = TokenMap::new();
    assert_eq!(map.tokenize("John Smith", "PERSON"), "[PERSON_0001]");
    assert_eq!(map.tokenize("Jane Doe", "PERSON"), "[PERSON_0002]");
    assert_eq!(map.tokenize("a@b.com", "EMAIL"), "[EMAIL_0001]");
    assert_eq!(map.counter("PERSON"), 2);
    assert_eq!(map.counter("EMAIL"), 1);
    assert_eq!(map.counter("IP"), 0);
}

#[test]
fn same_value_keeps_its_token() {
    let mut map = TokenMap::new();
    let first = map.tokenize("John Smith", "PERSON");
    let again = map.tokenize("John Smith", "PERSON");
    let other_type = map.tokenize("John Smith", "ORG");
    assert_eq!(first, again);
    assert_eq!(first, other_type);
    assert_eq!(map.counter("PERSON"), 1);
    assert_eq!(map.counter("ORG"), 0);
}

#[test]
fn rehydrate_reads_back_what_tokenize_wrote() {
    let mut map = TokenMap::new();
    let tok = map.tokenize("Acme Ltd", "ORG");
    assert_eq!(map.rehydrate(&tok), Some("Acme Ltd".to_string()));
    assert_eq!(map.rehydrate("[ORG_0002]"), None);
    assert_eq!(map.rehydrate("Acme Ltd"), None);
}

#[test]
fn distinct_values_get_distinct_tokens() {
    let mut map = TokenMap::new();
    let a = map.tokenize("alpha", "SECRET");
    let b = map.tokenize("beta", "SECRET");
    assert_ne!(a, b);
}

#[test]
fn can_tokenize_until_the_count_runs_out() {
    let mut map = TokenMap::new();
    assert!(map.can_tokenize("x", "T"));
    map.tokenize("x", "T");
    assert!(map.can_tokenize("x", "T"));
    assert!(map.can_tokenize("y", "T"));
}

#[test]
fn rehydrate_text_replaces_every_token() {
    let mut map = TokenMap::new();
    let p = map.tokenize("John Smith", "PERSON");
    let o = map.tokenize("Acme Ltd", "ORG");
    let text = format!("{} has a contract with {}. {} confirmed.", p, o, p);
    assert_eq!(
        map.rehydrate_text(&text),
        "John Smith has a contract with Acme Ltd. John Smith confirmed."
    );
}

#[test]
fn rehydrate_text_leaves_plain_text_alone() {
    let mut map = TokenMap::new();
    map.tokenize("John Smith", "PERSON");
    assert_eq!(map.rehydrate_text("nothing to see [PERSON_0009]"), "nothing to see [PERSON_0009]");
    assert_eq!(map.rehydrate_text(""), "");
}

#[test]
fn rehydrate_of_a_lone_token_is_its_value() {
    let mut map = TokenMap::new();
    let tok = map.tokenize("jane@example.com", "EMAIL");
    assert_eq!(map.rehydrate_text(&tok), "jane@example.com");
}

#[test]
fn default_map_is_empty() {
    let map = TokenMap::default();
    assert_eq!(map.counter("PERSON"), 0);
    assert_eq!(map.rehydrate("[PERSON_0001]"), None);
}

#[test]
fn session_id_is_a_v4_uuid() {
    let id = TokenMap::session_id();
    let chars: Vec<char> = id.chars().collect();
    assert_eq!(chars.len(), 36);
    for (i, c) in chars.iter().enumerate() {
        if i == 8 || i == 13 || i == 18 || i == 23 {
            assert_eq!(*c, '-');
        } else {
            assert!(c.is_ascii_hexdigit() && !c.is_ascii_uppercase());
        }
    }
    assert_eq!(chars[14], '4');
    assert!(matches!(chars[19], '8' | '9' | 'a' | 'b'));
    assert_ne!(TokenMap::session_id(), id);
}

#[test]
fn replace_all_scans_left_to_right_without_overlap() {
    assert_eq!(replace_all("a-b-c", "-", "+"), "a+b+c");
    assert_eq!(replace_all("aaa", "aa", "b"), "ba");
    assert_eq!(replace_all("abc", "x", "y"), "abc");
    assert_eq!(replace_all("", "x", "y"), "");
    assert_eq!(replace_all("[A_0001]", "[A_0001]", "ünï"), "ünï");
}

#[test]
fn a_token_between_plain_text_reads_back() {
    let mut map = TokenMap::new();
    let tok = map.tokenize("Acme Ltd", "ORG");
    map.tokenize("x@y.org", "EMAIL");
    assert_eq!(map.rehydrate_text(&format!("before {tok} after")), "before Acme Ltd after");
}

#[test]
fn fresh_tokens_depend_only_on_the_count() {
    let mut m1 = TokenMap::new();
    let mut m2 = TokenMap::new();
    assert_eq!(m1.tokenize("alice", "PERSON"), m2.tokenize("bob", "PERSON"));
    assert_eq!(m1.tokenize("carol", "PERSON"), m2.tokenize("dave", "PERSON"));
}
