//! Single-pass anonymiser: each rule's matches become tokens; once a person has
//! been seen, role references and pronouns become that person's token.
use vstd::prelude::*;
use vstd::string::StringSliceAdditionalSpecFns;
use vstd::utf8::*;
use crate::pattern::{bytes_of, collect_spans, compile, find_spans, regex_compiles, spans_valid, CompiledPattern};
use crate::text::{owned, push_str};
use crate::token_map::{keeps, lemma_keeps_trans, lemma_tokenize_keeps_wf, lemma_tokenize_only_adds, TokenMap, TokenMapView};
use crate::json::{copy_json, copy_members, find_key, items_view, key_index, lemma_view_parts, members_view, Json, JsonView};

verus! {

/// The text that the bytes `b[from..to]` encode.
pub open spec fn piece(b: Seq<u8>, from: int, to: int) -> Seq<char> {
    decode_utf8(b.subrange(from, to))
}

/// `x` with `out` put in front of its text; its last token if it has one, else `last`.
pub open spec fn prepend(
    out: Seq<char>,
    last: Option<Seq<char>>,
    x: Option<(Seq<char>, TokenMapView, Option<Seq<char>>)>,
) -> Option<(Seq<char>, TokenMapView, Option<Seq<char>>)> {
    match x {
        None => None,
        Some((rest, m, l)) => Some((out + rest, m, if l is Some { l } else { last })),
    }
}

/// Replaces the spans of `text` from the `i`-th on, the text before them starting at
/// byte `pos`: each matched value is tokenized as `ty`, and the span becomes `fixed`
/// where given, else the token. The result is the new text, the map after the
/// tokenizations, and the token of the last span; `None` where a type's count runs out.
pub open spec fn splice_from(
    text: Seq<char>,
    spans: Seq<(usize, usize)>,
    i: int,
    pos: int,
    ty: Seq<char>,
    fixed: Option<Seq<char>>,
    m: TokenMapView,
) -> Option<(Seq<char>, TokenMapView, Option<Seq<char>>)>
    decreases spans.len() - i,
{
    let b = bytes_of(text);
    if i < 0 || i >= spans.len() {
        Some((piece(b, pos, b.len() as int), m, None))
    } else {
        let s = spans[i].0 as int;
        let e = spans[i].1 as int;
        let value = piece(b, s, e);
        if !m.can_tokenize(value, ty) {
            None
        } else {
            let tok = m.token_for(value, ty);
            let rep = match fixed {
                Some(f) => f,
                None => tok,
            };
            prepend(
                piece(b, pos, s) + rep,
                Some(tok),
                splice_from(text, spans, i + 1, e, ty, fixed, m.after_tokenize(value, ty)),
            )
        }
    }
}

/// The view of an optional string.
pub open spec fn opt_view(o: Option<String>) -> Option<Seq<char>> {
    match o {
        Some(s) => Some(s@),
        None => None,
    }
}

proof fn lemma_prepend_empty(x: Option<(Seq<char>, TokenMapView, Option<Seq<char>>)>)
    ensures
        prepend(Seq::<char>::empty(), None, x) == x,
{
    match x {
        None => {},
        Some((rest, m, l)) => {
            assert(Seq::<char>::empty() + rest =~= rest);
        },
    }
}

proof fn lemma_prepend_twice(
    out: Seq<char>,
    last: Option<Seq<char>>,
    more: Seq<char>,
    tok: Seq<char>,
    x: Option<(Seq<char>, TokenMapView, Option<Seq<char>>)>,
)
    ensures
        prepend(out, last, prepend(more, Some(tok), x)) == prepend(out + more, Some(tok), x),
{
    match x {
        None => {},
        Some((rest, m, l)) => {
            assert(out + (more + rest) =~= (out + more) + rest);
        },
    }
}

/// A boundary of `b` at or after `p` is a boundary of the bytes from `p` on.
pub proof fn lemma_suffix_boundary(b: Seq<u8>, p: int, k: int)
    requires
        valid_utf8(b),
        is_char_boundary(b, p),
        is_char_boundary(b, k),
        0 <= p <= k <= b.len(),
    ensures
        valid_utf8(b.subrange(p, b.len() as int)),
        is_char_boundary(b.subrange(p, b.len() as int), k - p),
{
    let t = b.subrange(p, b.len() as int);
    valid_utf8_split(b, p);
    is_char_boundary_start_end_of_seq(t);
    if k < b.len() {
        is_char_boundary_iff_not_is_continuation_byte(b, k);
        is_char_boundary_iff_not_is_continuation_byte(t, k - p);
    } else {
        assert(t.len() == k - p);
    }
}

/// The text of a `&str` is what its bytes encode.
proof fn lemma_str_piece(s: &str)
    ensures
        s@ == decode_utf8(s.spec_bytes()),
{
    encode_utf8_decode_utf8(s@);
}

/// Replaces the given spans of `text` (see `splice_from`). Returns the new text and the
/// token of the last span, or `None` where the count of `entity_type` runs out; the
/// map keeps the tokens made before that.
#[verifier::rlimit(40)]
pub fn splice(
    text: &str,
    spans: &Vec<(usize, usize)>,
    entity_type: &str,
    fixed: Option<&str>,
    map: &mut TokenMap,
) -> (res: Option<(String, Option<String>)>)
    requires
        old(map)@.wf(),
        spans_valid(bytes_of(text@), spans@),
    ensures
        final(map)@.wf(),
        match res {
            Some((out, last)) => splice_from(
                text@,
                spans@,
                0,
                0,
                entity_type@,
                match fixed {
                    Some(f) => Some(f@),
                    None => None,
                },
                old(map)@,
            ) == Some((out@, final(map)@, opt_view(last))),
            None => splice_from(
                text@,
                spans@,
                0,
                0,
                entity_type@,
                match fixed {
                    Some(f) => Some(f@),
                    None => None,
                },
                old(map)@,
            ) is None,
        },
{
    let ghost fixed_view = match fixed {
        Some(f) => Some(f@),
        None => None,
    };
    let ghost b = bytes_of(text@);
    let ghost m0 = map@;
    let mut out = String::new();
    let mut last: Option<String> = None;
    let mut rest: &str = text;
    let mut pos: usize = 0;
    let mut i: usize = 0;
    proof {
        lemma_prepend_empty(splice_from(text@, spans@, 0, 0, entity_type@, fixed_view, m0));
        assert(b.subrange(0, b.len() as int) =~= b);
        encode_utf8_valid_utf8(text@);
        is_char_boundary_start_end_of_seq(b);
    }
    while i < spans.len()
        invariant
            b == bytes_of(text@),
            valid_utf8(b),
            m0 == old(map)@,
            map@.wf(),
            spans_valid(b, spans@),
            fixed_view == match fixed {
                Some(f) => Some(f@),
                None => None,
            },
            i <= spans@.len(),
            pos <= b.len(),
            is_char_boundary(b, pos as int),
            i < spans@.len() ==> pos <= spans@[i as int].0,
            rest.spec_bytes() == b.subrange(pos as int, b.len() as int),
            splice_from(text@, spans@, 0, 0, entity_type@, fixed_view, m0) == prepend(
                out@,
                opt_view(last),
                splice_from(text@, spans@, i as int, pos as int, entity_type@, fixed_view, map@),
            ),
        decreases spans@.len() - i,
    {
        let (s, e) = spans[i];
        proof {
            assert(spans@[i as int] == (s, e));
            lemma_suffix_boundary(b, pos as int, s as int);
            lemma_suffix_boundary(b, s as int, e as int);
        }
        let (gap, tail) = rest.split_at(s - pos);
        proof {
            assert(tail.spec_bytes() =~= b.subrange(s as int, b.len() as int));
        }
        let (matched, after) = tail.split_at(e - s);
        proof {
            assert(gap.spec_bytes() =~= b.subrange(pos as int, s as int));
            assert(matched.spec_bytes() =~= b.subrange(s as int, e as int));
            assert(after.spec_bytes() =~= b.subrange(e as int, b.len() as int));
            lemma_str_piece(gap);
            lemma_str_piece(matched);
        }
        if !map.can_tokenize(matched, entity_type) {
            proof {
                assert(matched@ == piece(b, s as int, e as int));
                assert(splice_from(text@, spans@, i as int, pos as int, entity_type@, fixed_view, map@)
                    is None);
                assert(splice_from(text@, spans@, 0, 0, entity_type@, fixed_view, m0) is None);
                assert(m0 == old(map)@);
                assert(splice_from(
                    text@,
                    spans@,
                    0,
                    0,
                    entity_type@,
                    match fixed {
                        Some(f) => Some(f@),
                        None => None,
                    },
                    old(map)@,
                ) is None);
            }
            return None;
        }
        let ghost m_before = map@;
        let tok = map.tokenize(matched, entity_type);
        let ghost out_before = out@;
        push_str(&mut out, gap);
        match fixed {
            Some(f) => push_str(&mut out, f),
            None => push_str(&mut out, tok.as_str()),
        }
        proof {
            let rep = match fixed_view {
                Some(f) => f,
                None => tok@,
            };
            assert(out@ =~= out_before + (piece(b, pos as int, s as int) + rep));
            lemma_prepend_twice(
                out_before,
                opt_view(last),
                piece(b, pos as int, s as int) + rep,
                tok@,
                splice_from(text@, spans@, i + 1, e as int, entity_type@, fixed_view, map@),
            );
            if i + 1 < spans@.len() {
                assert(spans@[i as int].1 <= spans@[i + 1].0);
            }
        }
        last = Some(tok);
        rest = after;
        pos = e;
        i = i + 1;
    }
    proof {
        lemma_str_piece(rest);
    }
    let ghost out_before = out@;
    push_str(&mut out, rest);
    Some((out, last))
}

/// Secrets and API keys: checked before anything else.
pub const SECRET_PATTERN: &'static str = r"(?i)(sk-[a-z0-9]{20,60}|sk-ant-[a-zA-Z0-9\-]{20,80}|ghp_[a-zA-Z0-9]{36}|gho_[a-zA-Z0-9]{36}|xox[baprs]-[a-zA-Z0-9\-]{10,80}|AIza[a-zA-Z0-9\-_]{35})";

/// E-mail addresses.
pub const EMAIL_PATTERN: &'static str = r"[a-zA-Z0-9._%+\-]+@[a-zA-Z0-9.\-]+\.[a-zA-Z]{2,}";

/// IPv4 addresses; private ones are passed over by the search itself.
pub const IP_PATTERN: &'static str = r"\b(\d{1,3}\.){3}\d{1,3}\b";

/// Phone numbers, UK and international.
pub const PHONE_PATTERN: &'static str = r"(\+44|0044|0)[0-9\s\-\(\)]{9,15}";

/// URLs.
pub const URL_PATTERN: &'static str = r#"https?://[^\s"'<>]{10,}"#;

/// Monetary amounts.
pub const AMOUNT_PATTERN: &'static str = r"£\d[\d,]*(?:\.\d{1,2})?|\$\d[\d,]*(?:\.\d{1,2})?|€\d[\d,]*(?:\.\d{1,2})?|\b\d[\d,]*(?:\.\d{1,2})?\s*(?:pounds?|dollars?|euros?|GBP|USD|EUR)\b";

/// UUIDs.
pub const UUID_PATTERN: &'static str = r"[0-9a-f]{8}-[0-9a-f]{4}-[0-9a-f]{4}-[0-9a-f]{4}-[0-9a-f]{12}";

/// UK postcodes.
pub const POSTCODE_PATTERN: &'static str = r"\b[A-Z]{1,2}[0-9][0-9A-Z]?\s*[0-9][A-Z]{2}\b";

/// Dates.
pub const DATE_PATTERN: &'static str = r"\b\d{1,2}[\/\-\.]\d{1,2}[\/\-\.]\d{2,4}\b|\b(?:Jan|Feb|Mar|Apr|May|Jun|Jul|Aug|Sep|Oct|Nov|Dec)[a-z]*\.?\s+\d{1,2},?\s+\d{4}\b";

/// Companies (Ltd, Inc, Corp, ...).
pub const ORG_PATTERN: &'static str = r"\b[A-Z][A-Za-z0-9\s&]{2,30}(?:Ltd|Limited|Inc|Corp|Corporation|LLC|LLP|PLC|Group|Holdings)\b";

/// Person names: pairs or triples of title-case words.
pub const PERSON_PATTERN: &'static str = r"\b([A-Z][a-z]{2,15})\s+([A-Z][a-z]{2,15})(?:\s+([A-Z][a-z]{2,15}))?\b";

/// Role references: "the CEO", "my manager", ...
pub const ROLE_REF_PATTERN: &'static str = r"\b(?:the|my|our|his|her|their)\s+(?:CEO|CTO|CFO|COO|director|manager|boss|doctor|dr|nurse|lawyer|solicitor|client|customer|partner|founder|owner|head|lead|chief)\b";

/// Pronouns.
pub const PRONOUN_PATTERN: &'static str = r"\b(he|she|they|him|her|them|his|hers|their|theirs|himself|herself|themselves)\b";

/// Entity type of secrets.
pub const SECRET: &'static str = "SECRET";
/// Entity type of e-mail addresses.
pub const EMAIL: &'static str = "EMAIL";
/// Entity type of IP addresses.
pub const IP: &'static str = "IP";
/// Entity type of phone numbers.
pub const PHONE: &'static str = "PHONE";
/// Entity type of URLs.
pub const URL: &'static str = "URL";
/// Entity type of amounts.
pub const AMOUNT: &'static str = "AMOUNT";
/// Entity type of UUIDs.
pub const UUID: &'static str = "UUID";
/// Entity type of postcodes.
pub const POSTCODE: &'static str = "POSTCODE";
/// Entity type of dates.
pub const DATE: &'static str = "DATE";
/// Entity type of organisations.
pub const ORG: &'static str = "ORG";
/// Entity type of persons.
pub const PERSON: &'static str = "PERSON";
/// Entity type under which role references are recorded.
pub const ROLE_REF: &'static str = "ROLE_REF";
/// Entity type under which pronouns are recorded.
pub const PRONOUN: &'static str = "PRONOUN";

/// What a rule stands for: its pattern, the entity type of its matches, whether the
/// search passes over private IPv4 addresses, and whether its matches are persons.
pub struct RuleView {
    pub source: Seq<char>,
    pub entity_type: Seq<char>,
    pub skip_private_ipv4: bool,
    pub marks_person: bool,
}

/// One pattern pass of the anonymiser.
pub struct Rule {
    pattern: CompiledPattern,
    entity_type: String,
    skip_private_ipv4: bool,
    marks_person: bool,
}

impl View for Rule {
    type V = RuleView;

    closed spec fn view(&self) -> RuleView {
        RuleView {
            source: self.pattern@,
            entity_type: self.entity_type@,
            skip_private_ipv4: self.skip_private_ipv4,
            marks_person: self.marks_person,
        }
    }
}

/// What an anonymiser stands for: its rules in order, and the patterns of role
/// references and of pronouns.
pub struct AnonymiserView {
    pub rules: Seq<RuleView>,
    pub role_refs: Seq<char>,
    pub pronouns: Seq<char>,
}

/// The compiled patterns of the anonymiser.
pub struct Anonymiser {
    rules: Vec<Rule>,
    role_refs: CompiledPattern,
    pronouns: CompiledPattern,
}

impl View for Anonymiser {
    type V = AnonymiserView;

    closed spec fn view(&self) -> AnonymiserView {
        AnonymiserView {
            rules: self.rules@.map_values(|r: Rule| r@),
            role_refs: self.role_refs@,
            pronouns: self.pronouns@,
        }
    }
}

/// A rule of the standard table.
pub open spec fn rule_of(source: &str, ty: &str, skip_private_ipv4: bool, marks_person: bool) -> RuleView {
    RuleView { source: source@, entity_type: ty@, skip_private_ipv4, marks_person }
}

/// The standard rules, in the order they run: secrets first, persons last.
pub open spec fn standard_rules() -> Seq<RuleView> {
    seq![
        rule_of(SECRET_PATTERN, SECRET, false, false),
        rule_of(EMAIL_PATTERN, EMAIL, false, false),
        rule_of(IP_PATTERN, IP, true, false),
        rule_of(PHONE_PATTERN, PHONE, false, false),
        rule_of(URL_PATTERN, URL, false, false),
        rule_of(AMOUNT_PATTERN, AMOUNT, false, false),
        rule_of(UUID_PATTERN, UUID, false, false),
        rule_of(POSTCODE_PATTERN, POSTCODE, false, false),
        rule_of(DATE_PATTERN, DATE, false, false),
        rule_of(ORG_PATTERN, ORG, false, false),
        rule_of(PERSON_PATTERN, PERSON, false, true),
    ]
}

/// The standard anonymiser.
pub open spec fn standard_anonymiser() -> AnonymiserView {
    AnonymiserView {
        rules: standard_rules(),
        role_refs: ROLE_REF_PATTERN@,
        pronouns: PRONOUN_PATTERN@,
    }
}

/// Whether the regex crate accepts every pattern of the standard anonymiser.
pub open spec fn standard_patterns_compile() -> bool {
    &&& forall|i: int| 0 <= i < standard_rules().len() ==> regex_compiles(#[trigger] standard_rules()[i].source)
    &&& regex_compiles(ROLE_REF_PATTERN@)
    &&& regex_compiles(PRONOUN_PATTERN@)
}

/// The rows of the standard table.
fn standard_table() -> (res: Vec<(&'static str, &'static str, bool, bool)>)
    ensures
        res@.len() == standard_rules().len(),
        forall|i: int| 0 <= i < res@.len() ==> rule_of(#[trigger] res@[i].0, res@[i].1, res@[i].2, res@[i].3) == standard_rules()[i],
{
    let res = vec![
        (SECRET_PATTERN, SECRET, false, false),
        (EMAIL_PATTERN, EMAIL, false, false),
        (IP_PATTERN, IP, true, false),
        (PHONE_PATTERN, PHONE, false, false),
        (URL_PATTERN, URL, false, false),
        (AMOUNT_PATTERN, AMOUNT, false, false),
        (UUID_PATTERN, UUID, false, false),
        (POSTCODE_PATTERN, POSTCODE, false, false),
        (DATE_PATTERN, DATE, false, false),
        (ORG_PATTERN, ORG, false, false),
        (PERSON_PATTERN, PERSON, false, true),
    ];
    res
}

impl Anonymiser {
    /// Compiles the standard patterns; `None` where the regex crate refuses one.
    pub fn new() -> (res: Option<Self>)
        ensures
            res is Some <==> standard_patterns_compile(),
            res matches Some(a) ==> a@ == standard_anonymiser(),
    {
        let table = standard_table();
        let mut rules: Vec<Rule> = Vec::new();
        let mut i: usize = 0;
        while i < table.len()
            invariant
                table@.len() == standard_rules().len(),
                forall|k: int| 0 <= k < table@.len() ==> rule_of(#[trigger] table@[k].0, table@[k].1, table@[k].2, table@[k].3) == standard_rules()[k],
                i <= table@.len(),
                rules@.len() == i,
                forall|k: int| 0 <= k < i ==> (#[trigger] rules@[k])@ == standard_rules()[k],
                forall|k: int| 0 <= k < i ==> regex_compiles(#[trigger] standard_rules()[k].source),
            decreases table@.len() - i,
        {
            let (source, ty, skip, person) = table[i];
            assert(rule_of(source, ty, skip, person) == standard_rules()[i as int]);
            match compile(source) {
                Some(pattern) => {
                    rules.push(Rule { pattern, entity_type: owned(ty), skip_private_ipv4: skip, marks_person: person });
                },
                None => {
                    assert(!regex_compiles(standard_rules()[i as int].source));
                    return None;
                },
            }
            i = i + 1;
        }
        let role_refs = match compile(ROLE_REF_PATTERN) {
            Some(p) => p,
            None => {
                return None;
            },
        };
        let pronouns = match compile(PRONOUN_PATTERN) {
            Some(p) => p,
            None => {
                return None;
            },
        };
        let res = Anonymiser { rules, role_refs, pronouns };
        assert(res@.rules =~= standard_rules());
        Some(res)
    }
}

/// The view of an optional string slice.
pub open spec fn opt_str_view(o: Option<&str>) -> Option<Seq<char>> {
    match o {
        Some(s) => Some(s@),
        None => None,
    }
}

/// One pass: every span the search finds for `source` is replaced (see `splice_from`).
pub open spec fn pass(
    text: Seq<char>,
    source: Seq<char>,
    skip_private_ipv4: bool,
    ty: Seq<char>,
    fixed: Option<Seq<char>>,
    m: TokenMapView,
) -> Option<(Seq<char>, TokenMapView, Option<Seq<char>>)> {
    splice_from(text, find_spans(source, text, 0, skip_private_ipv4), 0, 0, ty, fixed, m)
}

/// The rules from the `i`-th on, run one after the other; `person` is the token of
/// the last person seen so far.
pub open spec fn rule_passes(
    rules: Seq<RuleView>,
    i: int,
    text: Seq<char>,
    m: TokenMapView,
    person: Option<Seq<char>>,
) -> Option<(Seq<char>, TokenMapView, Option<Seq<char>>)>
    decreases rules.len() - i,
{
    if i < 0 || i >= rules.len() {
        Some((text, m, person))
    } else {
        match pass(text, rules[i].source, rules[i].skip_private_ipv4, rules[i].entity_type, None, m) {
            None => None,
            Some((out, m2, last)) => rule_passes(
                rules,
                i + 1,
                out,
                m2,
                if rules[i].marks_person && last is Some {
                    last
                } else {
                    person
                },
            ),
        }
    }
}

/// The anonymisation of `text` from map state `m`: the new text and map state, or
/// `None` where a type's count runs out. After the rules, if a person was seen, role
/// references and then pronouns become the token of the last person seen; each is
/// still recorded in the map under its own type.
pub open spec fn anonymised(a: AnonymiserView, text: Seq<char>, m: TokenMapView) -> Option<
    (Seq<char>, TokenMapView),
> {
    match rule_passes(a.rules, 0, text, m, None) {
        None => None,
        Some((t1, m1, person)) => match person {
            None => Some((t1, m1)),
            Some(p) => match pass(t1, a.role_refs, false, ROLE_REF@, Some(p), m1) {
                None => None,
                Some((t2, m2, _)) => match pass(t2, a.pronouns, false, PRONOUN@, Some(p), m2) {
                    None => None,
                    Some((t3, m3, _)) => Some((t3, m3)),
                },
            },
        },
    }
}

/// Anonymisation stopped: the token count of some entity type ran out.
#[derive(Debug, Clone, Copy, PartialEq, Eq)]
pub struct TokensExhausted;

/// Runs one pass over `text`.
pub fn run_pass(
    text: &str,
    pattern: &CompiledPattern,
    skip_private_ipv4: bool,
    entity_type: &str,
    fixed: Option<&str>,
    map: &mut TokenMap,
) -> (res: Option<(String, Option<String>)>)
    requires
        old(map)@.wf(),
    ensures
        final(map)@.wf(),
        match res {
            Some((out, last)) => pass(
                text@,
                pattern@,
                skip_private_ipv4,
                entity_type@,
                opt_str_view(fixed),
                old(map)@,
            ) == Some((out@, final(map)@, opt_view(last))),
            None => pass(
                text@,
                pattern@,
                skip_private_ipv4,
                entity_type@,
                opt_str_view(fixed),
                old(map)@,
            ) is None,
        },
{
    let spans = collect_spans(pattern, text, skip_private_ipv4);
    splice(text, &spans, entity_type, fixed, map)
}

/// Anonymises `text`: PII, secrets and entities become tokens, recorded in `map`.
pub fn anonymise(text: &str, map: &mut TokenMap, anonymiser: &Anonymiser) -> (res: Result<
    String,
    TokensExhausted,
>)
    requires
        old(map)@.wf(),
    ensures
        final(map)@.wf(),
        match res {
            Ok(out) => anonymised(anonymiser@, text@, old(map)@) == Some((out@, final(map)@)),
            Err(_) => anonymised(anonymiser@, text@, old(map)@) is None,
        },
{
    let ghost a = anonymiser@;
    let ghost m0 = map@;
    let mut result = owned(text);
    let mut person: Option<String> = None;
    let mut i: usize = 0;
    while i < anonymiser.rules.len()
        invariant
            a == anonymiser@,
            m0 == old(map)@,
            map@.wf(),
            i <= anonymiser.rules@.len(),
            rule_passes(a.rules, 0, text@, m0, None) == rule_passes(
                a.rules,
                i as int,
                result@,
                map@,
                opt_view(person),
            ),
        decreases anonymiser.rules@.len() - i,
    {
        let rule = &anonymiser.rules[i];
        assert(a.rules[i as int] == rule@);
        match run_pass(
            result.as_str(),
            &rule.pattern,
            rule.skip_private_ipv4,
            rule.entity_type.as_str(),
            None,
            map,
        ) {
            Some((out, last)) => {
                if rule.marks_person && last.is_some() {
                    person = last;
                }
                result = out;
            },
            None => {
                return Err(TokensExhausted);
            },
        }
        i = i + 1;
    }
    match person {
        None => Ok(result),
        Some(p) => {
            let t2 = match run_pass(
                result.as_str(),
                &anonymiser.role_refs,
                false,
                ROLE_REF,
                Some(p.as_str()),
                map,
            ) {
                Some((out, _)) => out,
                None => {
                    return Err(TokensExhausted);
                },
            };
            match run_pass(t2.as_str(), &anonymiser.pronouns, false, PRONOUN, Some(p.as_str()), map) {
                Some((out, _)) => Ok(out),
                None => Err(TokensExhausted),
            }
        },
    }
}

/// Key of message content.
pub const CONTENT_KEY: &'static str = "content";
/// Key of text parts.
pub const TEXT_KEY: &'static str = "text";

/// The anonymisation of a JSON value: a string is anonymised; an array's items one
/// after the other, each as a JSON value (so a part's `text` and a tool result's
/// `content` alike); an object's `content` member and then its `text` member, as JSON
/// values; anything else is left as it is.
pub open spec fn anon_value(a: AnonymiserView, v: JsonView, m: TokenMapView) -> Option<
    (JsonView, TokenMapView),
>
    decreases v, 0int,
{
    match v {
        JsonView::String(s) => match anonymised(a, s, m) {
            None => None,
            Some((o, m2)) => Some((JsonView::String(o), m2)),
        },
        JsonView::Array(items) => match anon_items(a, items, 0, m) {
            None => None,
            Some((new_items, m2)) => Some((JsonView::Array(new_items), m2)),
        },
        JsonView::Object(members) => {
            let first = match key_index(members, CONTENT_KEY@) {
                Some(j) => if 0 <= j < members.len() {
                    match anon_value(a, members[j].1, m) {
                        None => None,
                        Some((nv, m2)) => Some((members.update(j, (members[j].0, nv)), m2)),
                    }
                } else {
                    Some((members, m))
                },
                None => Some((members, m)),
            };
            match first {
                None => None,
                Some((ms1, m1)) => match key_index(members, TEXT_KEY@) {
                    Some(j) => if 0 <= j < members.len() {
                        match anon_value(a, members[j].1, m1) {
                            None => None,
                            Some((nv, m2)) => Some(
                                (JsonView::Object(ms1.update(j, (members[j].0, nv))), m2),
                            ),
                        }
                    } else {
                        Some((JsonView::Object(ms1), m1))
                    },
                    None => Some((JsonView::Object(ms1), m1)),
                },
            }
        },
        _ => Some((v, m)),
    }
}

/// The items of an array from the `i`-th on, anonymised one after the other.
pub open spec fn anon_items(a: AnonymiserView, items: Seq<JsonView>, i: int, m: TokenMapView) -> Option<
    (Seq<JsonView>, TokenMapView),
>
    decreases items, items.len() - i,
{
    if i < 0 || i >= items.len() {
        Some((Seq::empty(), m))
    } else {
        match anon_value(a, items[i], m) {
            None => None,
            Some((it, m2)) => match anon_items(a, items, i + 1, m2) {
                None => None,
                Some((rest, m3)) => Some((seq![it] + rest, m3)),
            },
        }
    }
}

/// `x` with the items `done` put in front.
pub open spec fn prepend_items(done: Seq<JsonView>, x: Option<(Seq<JsonView>, TokenMapView)>) -> Option<
    (Seq<JsonView>, TokenMapView),
> {
    match x {
        None => None,
        Some((rest, m)) => Some((done + rest, m)),
    }
}

/// Replaces the value of the `j`-th member.
pub fn set_member(members: &mut Vec<(String, Json)>, j: usize, value: Json)
    requires
        j < old(members)@.len(),
    ensures
        final(members)@.len() == old(members)@.len(),
        members_view(final(members)@) == members_view(old(members)@).update(
            j as int,
            (old(members)@[j as int].0@, value@),
        ),
{
    let key = owned(members[j].0.as_str());
    members.set(j, (key, value));
    assert(members_view(members@) =~= members_view(old(members)@).update(
        j as int,
        (old(members)@[j as int].0@, value@),
    ));
}

/// The anonymisation of `v` (see `anon_value`), as a new value.
pub fn anonymised_json(v: &Json, map: &mut TokenMap, anonymiser: &Anonymiser) -> (res: Result<
    Json,
    TokensExhausted,
>)
    requires
        old(map)@.wf(),
    ensures
        final(map)@.wf(),
        match res {
            Ok(nv) => anon_value(anonymiser@, v@, old(map)@) == Some((nv@, final(map)@)),
            Err(_) => anon_value(anonymiser@, v@, old(map)@) is None,
        },
    decreases v, 1int,
{
    proof {
        lemma_view_parts(*v);
    }
    match v {
        Json::String(s) => match anonymise(s.as_str(), map, anonymiser) {
            Ok(o) => Ok(Json::String(o)),
            Err(e) => Err(e),
        },
        Json::Array(items) => match anonymised_items(items, map, anonymiser) {
            Ok(out) => {
                let res = Json::Array(out);
                proof {
                    lemma_view_parts(res);
                }
                Ok(res)
            },
            Err(e) => Err(e),
        },
        Json::Object(members) => match anonymised_members(members, map, anonymiser) {
            Ok(ms) => {
                let res = Json::Object(ms);
                proof {
                    lemma_view_parts(res);
                }
                Ok(res)
            },
            Err(e) => Err(e),
        },
        _ => Ok(copy_json(v)),
    }
}

/// The anonymisation of the items of an array (see `anon_items`).
#[verifier::loop_isolation(false)]
fn anonymised_items(items: &Vec<Json>, map: &mut TokenMap, anonymiser: &Anonymiser) -> (res: Result<
    Vec<Json>,
    TokensExhausted,
>)
    requires
        old(map)@.wf(),
    ensures
        final(map)@.wf(),
        match res {
            Ok(out) => anon_items(anonymiser@, items_view(items@), 0, old(map)@) == Some(
                (items_view(out@), final(map)@),
            ),
            Err(_) => anon_items(anonymiser@, items_view(items@), 0, old(map)@) is None,
        },
    decreases items, 0int,
{
    let ghost a = anonymiser@;
    let ghost m0 = map@;
    let ghost iv = items_view(items@);
    let mut out: Vec<Json> = Vec::new();
    let mut i: usize = 0;
    assert(prepend_items(Seq::empty(), anon_items(a, iv, 0, m0)) == anon_items(a, iv, 0, m0)) by {
        match anon_items(a, iv, 0, m0) {
            Some((rest, m)) => {
                assert(Seq::<JsonView>::empty() + rest =~= rest);
            },
            None => {},
        }
    }
    while i < items.len()
        invariant
            map@.wf(),
            i <= items@.len(),
            anon_items(a, iv, 0, m0) == prepend_items(items_view(out@), anon_items(a, iv, i as int, map@)),
        decreases items@.len() - i,
    {
        let ghost m_before = map@;
        assert(iv[i as int] == items@[i as int]@);
        let new_item = match anonymised_json(&items[i], map, anonymiser) {
            Ok(ni) => ni,
            Err(e) => {
                return Err(e);
            },
        };
        let ghost out_before = items_view(out@);
        out.push(new_item);
        assert(items_view(out@) =~= out_before + seq![new_item@]);
        proof {
            match anon_items(a, iv, i + 1, map@) {
                Some((rest, m3)) => {
                    assert(out_before + (seq![new_item@] + rest) =~= items_view(out@) + rest);
                },
                None => {},
            }
        }
        i = i + 1;
    }
    assert(items_view(out@) + Seq::<JsonView>::empty() =~= items_view(out@));
    Ok(out)
}

/// The anonymisation of the members of an object: `content`, then `text`.
fn anonymised_members(members: &Vec<(String, Json)>, map: &mut TokenMap, anonymiser: &Anonymiser) -> (res: Result<
    Vec<(String, Json)>,
    TokensExhausted,
>)
    requires
        old(map)@.wf(),
    ensures
        final(map)@.wf(),
        match res {
            Ok(ms) => anon_value(anonymiser@, JsonView::Object(members_view(members@)), old(map)@)
                == Some((JsonView::Object(members_view(ms@)), final(map)@)),
            Err(_) => anon_value(anonymiser@, JsonView::Object(members_view(members@)), old(map)@) is None,
        },
    decreases members, 0int,
{
    let ghost a = anonymiser@;
    let ghost m0 = map@;
    let ghost mv = members_view(members@);
    let ghost first = match key_index(mv, CONTENT_KEY@) {
        Some(j) => if 0 <= j < mv.len() {
            match anon_value(a, mv[j].1, m0) {
                None => None,
                Some((nv, m2)) => Some((mv.update(j, (mv[j].0, nv)), m2)),
            }
        } else {
            Some((mv, m0))
        },
        None => Some((mv, m0)),
    };
    let mut ms = copy_members(members);
    match find_key(members, CONTENT_KEY) {
        Some(j) => {
            assert(mv[j as int].1 == members@[j as int].1@);
            match anonymised_json(&members[j].1, map, anonymiser) {
                Ok(nv) => set_member(&mut ms, j, nv),
                Err(e) => {
                    assert(first is None);
                    return Err(e);
                },
            }
        },
        None => {},
    }
    assert(first == Some((members_view(ms@), map@)));
    assert(ms@.len() == members@.len());
    let ghost m1 = map@;
    match find_key(members, TEXT_KEY) {
        Some(j) => {
            assert(mv[j as int].1 == members@[j as int].1@);
            let ghost ms1 = members_view(ms@);
            assert(ms1[j as int].0 == ms@[j as int].0@);
            assert(ms1[j as int].0 == mv[j as int].0);
            match anonymised_json(&members[j].1, map, anonymiser) {
                Ok(nv) => {
                    set_member(&mut ms, j, nv);
                    assert(key_index(mv, TEXT_KEY@) == Some(j as int));
                    assert(anon_value(a, mv[j as int].1, m1) == Some((nv@, map@)));
                    assert(members_view(ms@) == ms1.update(j as int, (mv[j as int].0, nv@)));
                },
                Err(e) => {
                    assert(anon_value(a, mv[j as int].1, m1) is None);
                    return Err(e);
                },
            }
        },
        None => {
            assert(key_index(mv, TEXT_KEY@) is None);
        },
    }
    assert(anon_value(a, JsonView::Object(mv), m0) == Some((JsonView::Object(members_view(ms@)), map@)));
    Ok(ms)
}

/// Anonymises a JSON value in place (see `anon_value`). Where a type's count runs
/// out the value is left as it was.
pub fn anonymise_value(val: &mut Json, map: &mut TokenMap, anonymiser: &Anonymiser) -> (res: Result<
    (),
    TokensExhausted,
>)
    requires
        old(map)@.wf(),
    ensures
        final(map)@.wf(),
        match res {
            Ok(_) => anon_value(anonymiser@, old(val)@, old(map)@) == Some((final(val)@, final(map)@)),
            Err(_) => anon_value(anonymiser@, old(val)@, old(map)@) is None && final(val)@ == old(val)@,
        },
{
    match anonymised_json(val, map, anonymiser) {
        Ok(nv) => {
            *val = nv;
            Ok(())
        },
        Err(e) => Err(e),
    }
}

/// The values of `vs` from the `i`-th on, each anonymised as a JSON value, one after
/// the other.
pub open spec fn anon_values(a: AnonymiserView, vs: Seq<JsonView>, i: int, m: TokenMapView) -> Option<
    (Seq<JsonView>, TokenMapView),
>
    decreases vs.len() - i,
{
    if i < 0 || i >= vs.len() {
        Some((Seq::empty(), m))
    } else {
        match anon_value(a, vs[i], m) {
            None => None,
            Some((v2, m2)) => match anon_values(a, vs, i + 1, m2) {
                None => None,
                Some((rest, m3)) => Some((seq![v2] + rest, m3)),
            },
        }
    }
}

/// Anonymises each message in turn (see `anon_values`). Where a type's count runs
/// out, the messages before it stay anonymised and the rest are left as they were.
pub fn anonymise_messages(messages: &mut Vec<Json>, map: &mut TokenMap, anonymiser: &Anonymiser) -> (res: Result<
    (),
    TokensExhausted,
>)
    requires
        old(map)@.wf(),
    ensures
        final(map)@.wf(),
        final(messages)@.len() == old(messages)@.len(),
        match res {
            Ok(_) => anon_values(anonymiser@, items_view(old(messages)@), 0, old(map)@) == Some(
                (items_view(final(messages)@), final(map)@),
            ),
            Err(_) => anon_values(anonymiser@, items_view(old(messages)@), 0, old(map)@) is None,
        },
{
    let ghost a = anonymiser@;
    let ghost m0 = map@;
    let ghost vs = items_view(messages@);
    let mut i: usize = 0;
    assert(prepend_items(Seq::empty(), anon_values(a, vs, 0, m0)) == anon_values(a, vs, 0, m0)) by {
        match anon_values(a, vs, 0, m0) {
            Some((rest, m)) => {
                assert(Seq::<JsonView>::empty() + rest =~= rest);
            },
            None => {},
        }
    }
    assert(items_view(messages@).take(0) =~= Seq::<JsonView>::empty());
    while i < messages.len()
        invariant
            map@.wf(),
            a == anonymiser@,
            m0 == old(map)@,
            vs == items_view(old(messages)@),
            messages@.len() == vs.len(),
            i <= messages@.len(),
            forall|k: int| i <= k < vs.len() ==> #[trigger] messages@[k]@ == vs[k],
            anon_values(a, vs, 0, m0) == prepend_items(
                items_view(messages@).take(i as int),
                anon_values(a, vs, i as int, map@),
            ),
        decreases messages@.len() - i,
    {
        let ghost m_before = map@;
        let ghost done = items_view(messages@).take(i as int);
        assert(vs[i as int] == messages@[i as int]@);
        let nv = match anonymised_json(&messages[i], map, anonymiser) {
            Ok(nv) => nv,
            Err(e) => {
                assert(anon_values(a, vs, i as int, m_before) is None);
                assert(anon_values(a, vs, 0, m0) is None);
                return Err(e);
            },
        };
        let ghost nv_view = nv@;
        messages.set(i, nv);
        assert(items_view(messages@).take(i + 1) =~= done + seq![nv_view]);
        proof {
            assert(anon_value(a, vs[i as int], m_before) == Some((nv_view, map@)));
            match anon_values(a, vs, i + 1, map@) {
                Some((rest, m3)) => {
                    assert(anon_values(a, vs, i as int, m_before) == Some((seq![nv_view] + rest, m3)));
                    assert(done + (seq![nv_view] + rest) =~= (done + seq![nv_view]) + rest);
                },
                None => {
                    assert(anon_values(a, vs, i as int, m_before) is None);
                },
            }
            assert forall|k: int| i + 1 <= k < vs.len() implies #[trigger] messages@[k]@ == vs[k] by {}
        }
        i = i + 1;
    }
    assert(items_view(messages@).take(i as int) =~= items_view(messages@));
    assert(items_view(messages@) + Seq::<JsonView>::empty() =~= items_view(messages@));
    Ok(())
}

/// A splice keeps every token the map held, and the invariant.
pub proof fn lemma_splice_keeps(
    text: Seq<char>,
    spans: Seq<(usize, usize)>,
    i: int,
    pos: int,
    ty: Seq<char>,
    fixed: Option<Seq<char>>,
    m: TokenMapView,
)
    requires
        m.wf(),
    ensures
        splice_from(text, spans, i, pos, ty, fixed, m) matches Some((_, m2, _)) ==> m2.wf() && keeps(m, m2),
    decreases spans.len() - i,
{
    if 0 <= i < spans.len() {
        let b = bytes_of(text);
        let value = piece(b, spans[i].0 as int, spans[i].1 as int);
        if m.can_tokenize(value, ty) {
            let m1 = m.after_tokenize(value, ty);
            lemma_tokenize_keeps_wf(m, value, ty);
            lemma_tokenize_only_adds(m, value, ty);
            lemma_splice_keeps(text, spans, i + 1, spans[i].1 as int, ty, fixed, m1);
            match splice_from(text, spans, i + 1, spans[i].1 as int, ty, fixed, m1) {
                Some((_, m2, _)) => lemma_keeps_trans(m, m1, m2),
                None => {},
            }
        }
    } else {
        assert(keeps(m, m));
    }
}

/// The rule passes keep every token the map held, and the invariant.
pub proof fn lemma_rule_passes_keep(
    rules: Seq<RuleView>,
    i: int,
    text: Seq<char>,
    m: TokenMapView,
    person: Option<Seq<char>>,
)
    requires
        m.wf(),
    ensures
        rule_passes(rules, i, text, m, person) matches Some((_, m2, _)) ==> m2.wf() && keeps(m, m2),
    decreases rules.len() - i,
{
    if 0 <= i < rules.len() {
        let spans = find_spans(rules[i].source, text, 0, rules[i].skip_private_ipv4);
        lemma_splice_keeps(text, spans, 0, 0, rules[i].entity_type, None, m);
        match pass(text, rules[i].source, rules[i].skip_private_ipv4, rules[i].entity_type, None, m) {
            Some((out, m1, last)) => {
                let p2 = if rules[i].marks_person && last is Some {
                    last
                } else {
                    person
                };
                lemma_rule_passes_keep(rules, i + 1, out, m1, p2);
                match rule_passes(rules, i + 1, out, m1, p2) {
                    Some((_, m2, _)) => lemma_keeps_trans(m, m1, m2),
                    None => {},
                }
            },
            None => {},
        }
    } else {
        assert(keeps(m, m));
    }
}

/// Anonymising forgets nothing: every token the map held before stays, with the same
/// real value, and no count goes down. So a value keeps its token across requests.
pub proof fn lemma_anonymise_keeps_tokens(a: AnonymiserView, text: Seq<char>, m: TokenMapView)
    requires
        m.wf(),
    ensures
        anonymised(a, text, m) matches Some((_, m2)) ==> m2.wf() && keeps(m, m2),
{
    lemma_rule_passes_keep(a.rules, 0, text, m, None);
    match rule_passes(a.rules, 0, text, m, None) {
        Some((t1, m1, Some(p))) => {
            let s1 = find_spans(a.role_refs, t1, 0, false);
            lemma_splice_keeps(t1, s1, 0, 0, ROLE_REF@, Some(p), m1);
            match pass(t1, a.role_refs, false, ROLE_REF@, Some(p), m1) {
                Some((t2, m2, _)) => {
                    lemma_keeps_trans(m, m1, m2);
                    let s2 = find_spans(a.pronouns, t2, 0, false);
                    lemma_splice_keeps(t2, s2, 0, 0, PRONOUN@, Some(p), m2);
                    match pass(t2, a.pronouns, false, PRONOUN@, Some(p), m2) {
                        Some((t3, m3, _)) => lemma_keeps_trans(m, m2, m3),
                        None => {},
                    }
                },
                None => {},
            }
        },
        _ => {},
    }
}


/// A splice run again on a map that already holds every token the first run made
/// gives the same text and token, and changes nothing.
proof fn lemma_splice_again(
    text: Seq<char>,
    spans: Seq<(usize, usize)>,
    i: int,
    pos: int,
    ty: Seq<char>,
    fixed: Option<Seq<char>>,
    m: TokenMapView,
    big: TokenMapView,
)
    requires
        m.wf(),
        big.wf(),
        splice_from(text, spans, i, pos, ty, fixed, m) matches Some((_, m1, _)) && keeps(m1, big),
    ensures
        ({
            let (o, _, l) = splice_from(text, spans, i, pos, ty, fixed, m).unwrap();
            splice_from(text, spans, i, pos, ty, fixed, big) == Some((o, big, l))
        }),
    decreases spans.len() - i,
{
    if 0 <= i < spans.len() {
        let b = bytes_of(text);
        let e = spans[i].1 as int;
        let v = piece(b, spans[i].0 as int, e);
        let tok = m.token_for(v, ty);
        let mm = m.after_tokenize(v, ty);
        lemma_tokenize_keeps_wf(m, v, ty);
        assert(mm.forward.contains_key(v) && mm.forward[v] == tok);
        lemma_splice_keeps(text, spans, i + 1, e, ty, fixed, mm);
        let (_, m1, _) = splice_from(text, spans, i + 1, e, ty, fixed, mm).unwrap();
        lemma_keeps_trans(mm, m1, big);
        assert(big.forward.contains_key(v) && big.forward[v] == tok) by {
            assert(mm.forward.dom().contains(v));
            assert(big.forward.dom().contains(v));
            assert(mm.forward.index(v) == big.forward.index(v));
        }
        assert(big.after_tokenize(v, ty) == big);
        lemma_splice_again(text, spans, i + 1, e, ty, fixed, mm, big);
    }
}

/// Rule passes run again on a map that already holds every token the first run made
/// give the same text and person, and change nothing.
proof fn lemma_rule_passes_again(
    rules: Seq<RuleView>,
    i: int,
    text: Seq<char>,
    m: TokenMapView,
    person: Option<Seq<char>>,
    big: TokenMapView,
)
    requires
        m.wf(),
        big.wf(),
        rule_passes(rules, i, text, m, person) matches Some((_, m1, _)) && keeps(m1, big),
    ensures
        ({
            let (t1, _, p1) = rule_passes(rules, i, text, m, person).unwrap();
            rule_passes(rules, i, text, big, person) == Some((t1, big, p1))
        }),
    decreases rules.len() - i,
{
    if 0 <= i < rules.len() {
        let r = rules[i];
        let spans = find_spans(r.source, text, 0, r.skip_private_ipv4);
        lemma_splice_keeps(text, spans, 0, 0, r.entity_type, None, m);
        let (out, mm, last) = pass(text, r.source, r.skip_private_ipv4, r.entity_type, None, m).unwrap();
        let next = if r.marks_person && last is Some {
            last
        } else {
            person
        };
        lemma_rule_passes_keep(rules, i + 1, out, mm, next);
        let (_, m1, _) = rule_passes(rules, i + 1, out, mm, next).unwrap();
        lemma_keeps_trans(mm, m1, big);
        lemma_splice_again(text, spans, 0, 0, r.entity_type, None, m, big);
        lemma_rule_passes_again(rules, i + 1, out, mm, next, big);
    }
}

/// Anonymising the same text again, with the map the first call left, gives the same
/// text and adds nothing to the map: every entity already has its token.
pub proof fn lemma_anonymise_again(a: AnonymiserView, text: Seq<char>, m: TokenMapView)
    requires
        m.wf(),
        anonymised(a, text, m) is Some,
    ensures
        anonymised(a, text, anonymised(a, text, m).unwrap().1) == anonymised(a, text, m),
{
    let (o, m3) = anonymised(a, text, m).unwrap();
    lemma_anonymise_keeps_tokens(a, text, m);
    lemma_rule_passes_keep(a.rules, 0, text, m, None);
    let (t1, m1, person) = rule_passes(a.rules, 0, text, m, None).unwrap();
    assert(keeps(m3, m3));
    match person {
        None => {
            lemma_rule_passes_again(a.rules, 0, text, m, None, m3);
        },
        Some(p) => {
            let s1 = find_spans(a.role_refs, t1, 0, false);
            lemma_splice_keeps(t1, s1, 0, 0, ROLE_REF@, Some(p), m1);
            let (t2, m2, _) = pass(t1, a.role_refs, false, ROLE_REF@, Some(p), m1).unwrap();
            let s2 = find_spans(a.pronouns, t2, 0, false);
            lemma_splice_keeps(t2, s2, 0, 0, PRONOUN@, Some(p), m2);
            lemma_keeps_trans(m1, m2, m3);
            lemma_rule_passes_again(a.rules, 0, text, m, None, m3);
            lemma_splice_again(t1, s1, 0, 0, ROLE_REF@, Some(p), m1, m3);
            lemma_splice_again(t2, s2, 0, 0, PRONOUN@, Some(p), m2, m3);
        },
    }
}


/// `new` has the shape of `old`: a string where `old` has a string, an array of the
/// same length and an object with the same keys in the same order, item by item of
/// the same shape; every number, boolean and null unchanged.
pub open spec fn same_shape(old: JsonView, new: JsonView) -> bool
    decreases old,
{
    match old {
        JsonView::String(_) => new is String,
        JsonView::Array(items) => new matches JsonView::Array(items2) && items2.len() == items.len()
            && forall|i: int| 0 <= i < items.len() ==> same_shape(items[i], #[trigger] items2[i]),
        JsonView::Object(ms) => new matches JsonView::Object(ms2) && ms2.len() == ms.len()
            && forall|i: int|
            0 <= i < ms.len() ==> (#[trigger] ms2[i]).0 == ms[i].0 && same_shape(ms[i].1, ms2[i].1),
        _ => new == old,
    }
}

/// Every value has its own shape.
pub proof fn lemma_same_shape_refl(v: JsonView)
    ensures
        same_shape(v, v),
    decreases v,
{
    match v {
        JsonView::Array(items) => {
            assert forall|i: int| 0 <= i < items.len() implies same_shape(items[i], #[trigger] items[i]) by {
                lemma_same_shape_refl(items[i]);
            }
        },
        JsonView::Object(ms) => {
            assert forall|i: int| 0 <= i < ms.len() implies (#[trigger] ms[i]).0 == ms[i].0 && same_shape(ms[i].1, ms[i].1) by {
                lemma_same_shape_refl(ms[i].1);
            }
        },
        _ => {},
    }
}

/// Anonymising a JSON value keeps its shape: only strings change, and every key,
/// number, boolean and null stays as it was.
pub proof fn lemma_anon_value_shape(a: AnonymiserView, v: JsonView, m: TokenMapView)
    ensures
        anon_value(a, v, m) matches Some((v2, _)) ==> same_shape(v, v2),
    decreases v, 0int,
{
    match v {
        JsonView::Array(items) => {
            lemma_anon_items_shape(a, items, 0, m);
        },
        JsonView::Object(members) => {
            lemma_same_shape_refl(v);
            let first = match key_index(members, CONTENT_KEY@) {
                Some(j) => if 0 <= j < members.len() {
                    match anon_value(a, members[j].1, m) {
                        None => None,
                        Some((nv, m2)) => Some((members.update(j, (members[j].0, nv)), m2)),
                    }
                } else {
                    Some((members, m))
                },
                None => Some((members, m)),
            };
            match key_index(members, CONTENT_KEY@) {
                Some(j) => if 0 <= j < members.len() {
                    lemma_anon_value_shape(a, members[j].1, m);
                },
                None => {},
            }
            match first {
                Some((ms1, m1)) => {
                    assert(ms1.len() == members.len());
                    assert forall|i: int| 0 <= i < members.len() implies (#[trigger] ms1[i]).0 == members[i].0
                        && same_shape(members[i].1, ms1[i].1) by {
                        lemma_same_shape_refl(members[i].1);
                    }
                    match key_index(members, TEXT_KEY@) {
                        Some(j) => if 0 <= j < members.len() {
                            lemma_anon_value_shape(a, members[j].1, m1);
                            match anon_value(a, members[j].1, m1) {
                                Some((nv, m2)) => {
                                    let ms2 = ms1.update(j, (members[j].0, nv));
                                    assert forall|i: int| 0 <= i < members.len() implies (#[trigger] ms2[i]).0
                                        == members[i].0 && same_shape(members[i].1, ms2[i].1) by {
                                        if i != j {
                                            assert(ms2[i] == ms1[i]);
                                        }
                                    }
                                },
                                None => {},
                            }
                        },
                        None => {},
                    }
                },
                None => {},
            }
        },
        _ => {
            lemma_same_shape_refl(v);
        },
    }
}

/// Anonymising the items of an array from the `i`-th on keeps each item's shape.
pub proof fn lemma_anon_items_shape(a: AnonymiserView, items: Seq<JsonView>, i: int, m: TokenMapView)
    ensures
        0 <= i <= items.len() ==> (anon_items(a, items, i, m) matches Some((out, _)) ==> out.len() == items.len() - i
            && forall|k: int| 0 <= k < out.len() ==> same_shape(items[i + k], #[trigger] out[k])),
    decreases items, items.len() - i,
{
    if 0 <= i < items.len() {
        lemma_anon_value_shape(a, items[i], m);
        match anon_value(a, items[i], m) {
            Some((it, m2)) => {
                lemma_anon_items_shape(a, items, i + 1, m2);
                match anon_items(a, items, i + 1, m2) {
                    Some((rest, m3)) => {
                        let out = seq![it] + rest;
                        assert forall|k: int| 0 <= k < out.len() implies same_shape(items[i + k], #[trigger] out[k]) by {
                            if k > 0 {
                                assert(out[k] == rest[k - 1]);
                                assert(items[i + k] == items[(i + 1) + (k - 1)]);
                            }
                        }
                    },
                    None => {},
                }
            },
            None => {},
        }
    }
}

/// Anonymising messages keeps their number and each message's shape: roles, keys,
/// numbers, booleans and nulls stay as they were.
pub proof fn lemma_anon_values_shape(a: AnonymiserView, vs: Seq<JsonView>, i: int, m: TokenMapView)
    ensures
        0 <= i <= vs.len() ==> (anon_values(a, vs, i, m) matches Some((out, _)) ==> out.len() == vs.len() - i
            && forall|k: int| 0 <= k < out.len() ==> same_shape(vs[i + k], #[trigger] out[k])),
    decreases vs.len() - i,
{
    if 0 <= i < vs.len() {
        lemma_anon_value_shape(a, vs[i], m);
        match anon_value(a, vs[i], m) {
            Some((v2, m2)) => {
                lemma_anon_values_shape(a, vs, i + 1, m2);
                match anon_values(a, vs, i + 1, m2) {
                    Some((rest, m3)) => {
                        let out = seq![v2] + rest;
                        assert forall|k: int| 0 <= k < out.len() implies same_shape(vs[i + k], #[trigger] out[k]) by {
                            if k > 0 {
                                assert(out[k] == rest[k - 1]);
                                assert(vs[i + k] == vs[(i + 1) + (k - 1)]);
                            }
                        }
                    },
                    None => {},
                }
            },
            None => {},
        }
    }
}


/// The standard rules run in the documented order: secrets, e-mail, IP, phone, URL,
/// amount, UUID, postcode, date, organisation, then person, each with its own
/// pattern. Only the IP rule passes over private addresses, and only the person rule
/// marks persons; the organisation rule runs before the person rule, so a company
/// name is recorded as an organisation before the person rule can see it.
pub proof fn lemma_standard_rules()
    ensures
        standard_rules().len() == 11,
        standard_rules().map_values(|r: RuleView| r.entity_type) == seq![
            SECRET@,
            EMAIL@,
            IP@,
            PHONE@,
            URL@,
            AMOUNT@,
            UUID@,
            POSTCODE@,
            DATE@,
            ORG@,
            PERSON@,
        ],
        standard_rules().map_values(|r: RuleView| r.source) == seq![
            SECRET_PATTERN@,
            EMAIL_PATTERN@,
            IP_PATTERN@,
            PHONE_PATTERN@,
            URL_PATTERN@,
            AMOUNT_PATTERN@,
            UUID_PATTERN@,
            POSTCODE_PATTERN@,
            DATE_PATTERN@,
            ORG_PATTERN@,
            PERSON_PATTERN@,
        ],
        forall|k: int| 0 <= k < 11 ==> ((#[trigger] standard_rules()[k]).marks_person <==> standard_rules()[k].entity_type == PERSON@),
        forall|k: int| 0 <= k < 11 ==> ((#[trigger] standard_rules()[k]).skip_private_ipv4 <==> standard_rules()[k].entity_type == IP@),
        forall|i: int, j: int|
            0 <= i < 11 && 0 <= j < 11 && (#[trigger] standard_rules()[i]).entity_type == ORG@
                && (#[trigger] standard_rules()[j]).entity_type == PERSON@ ==> i < j,
{
    reveal_strlit("SECRET");
    reveal_strlit("EMAIL");
    reveal_strlit("IP");
    reveal_strlit("PHONE");
    reveal_strlit("URL");
    reveal_strlit("AMOUNT");
    reveal_strlit("UUID");
    reveal_strlit("POSTCODE");
    reveal_strlit("DATE");
    reveal_strlit("ORG");
    reveal_strlit("PERSON");
    let r = standard_rules();
    assert(r.map_values(|x: RuleView| x.entity_type) =~= seq![
        SECRET@,
        EMAIL@,
        IP@,
        PHONE@,
        URL@,
        AMOUNT@,
        UUID@,
        POSTCODE@,
        DATE@,
        ORG@,
        PERSON@,
    ]);
    assert(r.map_values(|x: RuleView| x.source) =~= seq![
        SECRET_PATTERN@,
        EMAIL_PATTERN@,
        IP_PATTERN@,
        PHONE_PATTERN@,
        URL_PATTERN@,
        AMOUNT_PATTERN@,
        UUID_PATTERN@,
        POSTCODE_PATTERN@,
        DATE_PATTERN@,
        ORG_PATTERN@,
        PERSON_PATTERN@,
    ]);
    assert forall|k: int| 0 <= k < 11 implies ((#[trigger] r[k]).marks_person <==> r[k].entity_type == PERSON@)
        && (r[k].skip_private_ipv4 <==> r[k].entity_type == IP@) by {
        if k != 10 {
            assert(r[k].entity_type != PERSON@) by {
                if r[k].entity_type.len() == PERSON@.len() {
                    assert(r[k].entity_type[0] != PERSON@[0] || r[k].entity_type[1] != PERSON@[1]);
                }
            }
        }
        if k != 2 {
            assert(r[k].entity_type != IP@) by {
                if r[k].entity_type.len() == IP@.len() {
                    assert(r[k].entity_type[0] != IP@[0] || r[k].entity_type[1] != IP@[1]);
                }
            }
        }
    }
    assert forall|i: int, j: int|
        0 <= i < 11 && 0 <= j < 11 && (#[trigger] r[i]).entity_type == ORG@ && (#[trigger] r[j]).entity_type
            == PERSON@ implies i < j by {
        if i != 9 {
            assert(r[i].entity_type != ORG@) by {
                if r[i].entity_type.len() == ORG@.len() {
                    assert(r[i].entity_type[0] != ORG@[0] || r[i].entity_type[1] != ORG@[1]);
                }
            }
        }
        if j != 10 {
            assert(r[j].entity_type != PERSON@) by {
                if r[j].entity_type.len() == PERSON@.len() {
                    assert(r[j].entity_type[0] != PERSON@[0] || r[j].entity_type[1] != PERSON@[1]);
                }
            }
        }
    }
}

/// The person that role references and pronouns stand for comes only from rules that
/// mark persons: after the rules from the `i`-th on, the person is the one given, or
/// some later rule marks persons.
pub proof fn lemma_person_from_person_rules(
    rules: Seq<RuleView>,
    i: int,
    text: Seq<char>,
    m: TokenMapView,
    person: Option<Seq<char>>,
)
    ensures
        rule_passes(rules, i, text, m, person) matches Some((_, _, p2)) ==> p2 == person || exists|k: int|
            i <= k < rules.len() && (#[trigger] rules[k]).marks_person,
    decreases rules.len() - i,
{
    if 0 <= i < rules.len() {
        match pass(text, rules[i].source, rules[i].skip_private_ipv4, rules[i].entity_type, None, m) {
            Some((out, m2, last)) => {
                let next = if rules[i].marks_person && last is Some {
                    last
                } else {
                    person
                };
                lemma_person_from_person_rules(rules, i + 1, out, m2, next);
                if rules[i].marks_person {
                    assert(rules[i].marks_person);
                }
            },
            None => {},
        }
    }
}

/// The token a splice reports is that of its last span: where a splice from the
/// `i`-th span on succeeds, the reported token is, with a span left, the map's token
/// afterwards for the value at the last span, and with none left, no token.
pub proof fn lemma_splice_last(
    text: Seq<char>,
    spans: Seq<(usize, usize)>,
    i: int,
    pos: int,
    ty: Seq<char>,
    fixed: Option<Seq<char>>,
    m: TokenMapView,
)
    requires
        m.wf(),
    ensures
        splice_from(text, spans, i, pos, ty, fixed, m) matches Some((_, m2, l)) ==> if 0 <= i < spans.len() {
            let v = piece(bytes_of(text), spans.last().0 as int, spans.last().1 as int);
            m2.forward.contains_key(v) && l == Some(m2.forward[v])
        } else {
            l is None
        },
    decreases spans.len() - i,
{
    if 0 <= i < spans.len() {
        let b = bytes_of(text);
        let e = spans[i].1 as int;
        let v = piece(b, spans[i].0 as int, e);
        if m.can_tokenize(v, ty) {
            let mm = m.after_tokenize(v, ty);
            lemma_tokenize_keeps_wf(m, v, ty);
            assert(mm.forward.contains_key(v) && mm.forward[v] == m.token_for(v, ty));
            lemma_splice_last(text, spans, i + 1, e, ty, fixed, mm);
        }
    }
}

} // verus!
