//! What the proxy decides around each upstream call: which headers go out, what of
//! the body is anonymised, and how the reply is rehydrated.
use vstd::prelude::*;
use crate::json::{copy_items, copy_json, copy_members, find_key, items_view, key_index, lemma_key_index, lemma_view_parts, members_view, Json, JsonView};
use crate::anonymise::{anon_value, anonymised_json, set_member, Anonymiser, AnonymiserView, TokensExhausted};
use crate::token_map::TokenMapView;
use crate::token_map::{is_rehydration, TokenMap};
use crate::text::trim;

verus! {

/// Key of message content.
pub const CONTENT: &'static str = "content";
/// Key of text parts.
pub const TEXT: &'static str = "text";
/// Key of streamed deltas.
pub const DELTA: &'static str = "delta";
/// Key of values.
pub const VALUE: &'static str = "value";
/// Key of the choices of an OpenAI-compatible reply.
pub const CHOICES: &'static str = "choices";
/// Key of the message of a choice.
pub const MESSAGE: &'static str = "message";

/// Keys of an object whose values are rehydrated.
pub open spec fn rehydrated_keys() -> Seq<Seq<char>> {
    seq![CONTENT@, TEXT@, DELTA@, VALUE@, CHOICES@, MESSAGE@]
}

/// Whether the `i`-th member is the first of its key among the keys that are rehydrated.
pub open spec fn is_rehydrated_member(members: Seq<(Seq<char>, JsonView)>, i: int) -> bool {
    exists|k: int| 0 <= k < 6 && key_index(members, #[trigger] rehydrated_keys()[k]) == Some(i)
}

/// `new` is `old` rehydrated with the tokens of `reverse`: each string rehydrated,
/// each array item in turn, and of an object the members `content`, `text`, `delta`,
/// `value`, `choices` and `message` (so Anthropic replies and OpenAI-compatible
/// `choices[].message.content` alike); everything else unchanged.
pub open spec fn rehydrated_value(reverse: Map<Seq<char>, Seq<char>>, old: JsonView, new: JsonView) -> bool
    decreases old,
{
    match old {
        JsonView::String(s) => new matches JsonView::String(s2) && is_rehydration(reverse, s, s2),
        JsonView::Array(items) => new matches JsonView::Array(items2) && items2.len() == items.len()
            && forall|i: int|
            0 <= i < items.len() ==> rehydrated_value(reverse, items[i], #[trigger] items2[i]),
        JsonView::Object(members) => new matches JsonView::Object(ms2) && ms2.len() == members.len()
            && forall|i: int|
            0 <= i < members.len() ==> (#[trigger] ms2[i]).0 == members[i].0 && if is_rehydrated_member(
                members,
                i,
            ) {
                rehydrated_value(reverse, members[i].1, ms2[i].1)
            } else {
                ms2[i].1 == members[i].1
            },
        _ => new == old,
    }
}

proof fn lemma_keys_distinct()
    ensures
        forall|a: int, b: int|
            0 <= a < 6 && 0 <= b < 6 && a != b ==> #[trigger] rehydrated_keys()[a] != #[trigger] rehydrated_keys()[b],
{
    reveal_strlit("content");
    reveal_strlit("text");
    reveal_strlit("delta");
    reveal_strlit("value");
    reveal_strlit("choices");
    reveal_strlit("message");
    let k = rehydrated_keys();
    assert forall|a: int, b: int| 0 <= a < 6 && 0 <= b < 6 && a != b implies #[trigger] k[a] != #[trigger] k[b] by {
        if k[a] == k[b] {
            assert(k[a][0] == k[b][0]);
            assert(k[a][1] == k[b][1]);
        }
    }
}

/// `value` rehydrated with the tokens of `map`, as a new value.
pub fn rehydrated_json(v: &Json, map: &TokenMap) -> (res: Json)
    requires
        map@.wf(),
    ensures
        rehydrated_value(map@.reverse, v@, res@),
    decreases v, 2int,
{
    proof {
        lemma_view_parts(*v);
    }
    match v {
        Json::String(s) => Json::String(map.rehydrate_text(s.as_str())),
        Json::Array(items) => {
            let out = rehydrated_items(items, map);
            let res = Json::Array(out);
            proof {
                lemma_view_parts(res);
            }
            res
        },
        Json::Object(members) => {
            let out = rehydrated_members(members, map);
            let res = Json::Object(out);
            proof {
                lemma_view_parts(res);
            }
            res
        },
        _ => copy_json(v),
    }
}

/// Each item rehydrated.
#[verifier::loop_isolation(false)]
fn rehydrated_items(items: &Vec<Json>, map: &TokenMap) -> (res: Vec<Json>)
    requires
        map@.wf(),
    ensures
        res@.len() == items@.len(),
        forall|i: int| 0 <= i < items@.len() ==> rehydrated_value(map@.reverse, items@[i]@, #[trigger] res@[i]@),
    decreases items, 1int,
{
    let mut out: Vec<Json> = Vec::new();
    let mut i: usize = 0;
    while i < items.len()
        invariant
            i <= items@.len(),
            out@.len() == i,
            forall|k: int| 0 <= k < i ==> rehydrated_value(map@.reverse, items@[k]@, #[trigger] out@[k]@),
        decreases items@.len() - i,
    {
        out.push(rehydrated_json(&items[i], map));
        i = i + 1;
    }
    out
}

/// The member with key `key`, if any, rehydrated in `ms`.
fn rehydrate_member(members: &Vec<(String, Json)>, ms: &mut Vec<(String, Json)>, key: &str, map: &TokenMap)
    requires
        map@.wf(),
        old(ms)@.len() == members@.len(),
    ensures
        final(ms)@.len() == members@.len(),
        forall|i: int| 0 <= i < members@.len() ==> (#[trigger] members_view(final(ms)@)[i]).0 == members_view(old(ms)@)[i].0,
        forall|i: int|
            0 <= i < members@.len() ==> if key_index(members_view(members@), key@) == Some(i) {
                rehydrated_value(map@.reverse, members_view(members@)[i].1, (#[trigger] members_view(final(ms)@)[i]).1)
            } else {
                members_view(final(ms)@)[i] == members_view(old(ms)@)[i]
            },
    decreases members, 0int,
{
    match find_key(members, key) {
        Some(j) => {
            let nv = rehydrated_json(&members[j].1, map);
            let k = crate::text::owned(ms[j].0.as_str());
            let ghost before = members_view(ms@);
            ms.set(j, (k, nv));
            assert(members_view(ms@) =~= before.update(j as int, (before[j as int].0, nv@)));
        },
        None => {},
    }
}

/// The members rehydrated: `content`, `text`, `delta`, `value`, `choices` and `message`.
fn rehydrated_members(members: &Vec<(String, Json)>, map: &TokenMap) -> (res: Vec<(String, Json)>)
    requires
        map@.wf(),
    ensures
        rehydrated_value(map@.reverse, JsonView::Object(members_view(members@)), JsonView::Object(members_view(res@))),
    decreases members, 1int,
{
    let ghost mv = members_view(members@);
    let mut ms = copy_members(members);
    let ghost s0 = members_view(ms@);
    rehydrate_member(members, &mut ms, CONTENT, map);
    let ghost s1 = members_view(ms@);
    rehydrate_member(members, &mut ms, TEXT, map);
    let ghost s2 = members_view(ms@);
    rehydrate_member(members, &mut ms, DELTA, map);
    let ghost s3 = members_view(ms@);
    rehydrate_member(members, &mut ms, VALUE, map);
    let ghost s4a = members_view(ms@);
    rehydrate_member(members, &mut ms, CHOICES, map);
    let ghost s5 = members_view(ms@);
    rehydrate_member(members, &mut ms, MESSAGE, map);
    let ghost s4 = members_view(ms@);
    proof {
        lemma_keys_distinct();
        let keys = rehydrated_keys();
        assert forall|i: int| 0 <= i < mv.len() implies (#[trigger] s4[i]).0 == mv[i].0 && if is_rehydrated_member(mv, i) {
            rehydrated_value(map@.reverse, mv[i].1, s4[i].1)
        } else {
            s4[i].1 == mv[i].1
        } by {
            lemma_key_index(mv, keys[0], 0);
            lemma_key_index(mv, keys[1], 0);
            lemma_key_index(mv, keys[2], 0);
            lemma_key_index(mv, keys[3], 0);
            lemma_key_index(mv, keys[4], 0);
            lemma_key_index(mv, keys[5], 0);
            assert(s1[i].0 == s0[i].0);
            assert(s2[i].0 == s1[i].0);
            assert(s3[i].0 == s2[i].0);
            assert(s4a[i].0 == s3[i].0);
            assert(s5[i].0 == s4a[i].0);
            if key_index(mv, keys[0]) == Some(i) {
                assert(is_rehydrated_member(mv, i));
            } else if key_index(mv, keys[1]) == Some(i) {
                assert(is_rehydrated_member(mv, i));
            } else if key_index(mv, keys[2]) == Some(i) {
                assert(is_rehydrated_member(mv, i));
            } else if key_index(mv, keys[3]) == Some(i) {
                assert(is_rehydrated_member(mv, i));
            } else if key_index(mv, keys[4]) == Some(i) {
                assert(is_rehydrated_member(mv, i));
            } else if key_index(mv, keys[5]) == Some(i) {
                assert(is_rehydrated_member(mv, i));
            } else {
                assert(!is_rehydrated_member(mv, i));
            }
        }
    }
    ms
}

/// Rehydrates a JSON value in place (see `rehydrated_value`).
pub fn rehydrate_value(val: &mut Json, map: &TokenMap)
    requires
        map@.wf(),
    ensures
        rehydrated_value(map@.reverse, old(val)@, final(val)@),
{
    let nv = rehydrated_json(val, map);
    *val = nv;
}

/// Telemetry headers: they fingerprint the SDK, client version and runtime, and are
/// never forwarded.
pub const STRIP_HEADERS: [&'static str; 15] = [
    "x-stainless-lang",
    "x-stainless-package-version",
    "x-stainless-os",
    "x-stainless-arch",
    "x-stainless-runtime",
    "x-stainless-runtime-version",
    "x-stainless-async",
    "anthropic-client-name",
    "anthropic-client-sha1",
    "anthropic-client-version",
    "x-forwarded-for",
    "x-real-ip",
    "x-request-id",
    "cf-connecting-ip",
    "cf-ray",
];

/// The user agent every request goes out with, indistinguishable from a browser.
pub const GENERIC_UA: &'static str = "Mozilla/5.0 (Linux; Android 15) AppleWebKit/537.36 Chrome/124.0";

/// Name of the user-agent header.
pub const USER_AGENT: &'static str = "user-agent";

/// The telemetry header names.
pub open spec fn strip_headers() -> Seq<Seq<char>> {
    STRIP_HEADERS@.map_values(|h: &'static str| h@)
}

/// Prefixes of whole families of telemetry headers: the SDK's `x-stainless-*` and the
/// client's `anthropic-client-*`.
pub const TELEMETRY_PREFIXES: [&'static str; 2] = ["x-stainless-", "anthropic-client-"];

/// The telemetry header prefixes.
pub open spec fn telemetry_prefixes() -> Seq<Seq<char>> {
    TELEMETRY_PREFIXES@.map_values(|h: &'static str| h@)
}

/// Whether `s` starts with `prefix`.
pub open spec fn starts_with(s: Seq<char>, prefix: Seq<char>) -> bool {
    prefix.len() <= s.len() && s.take(prefix.len() as int) == prefix
}

/// Whether a lower-case header name is telemetry: one of the listed names, or one of
/// the prefixed families.
pub open spec fn is_telemetry(name: Seq<char>) -> bool {
    strip_headers().contains(name) || exists|k: int| 0 <= k < 2 && starts_with(name, #[trigger] telemetry_prefixes()[k])
}

/// What `str::to_lowercase` returns: the Unicode lower-case mapping of `s`.
pub uninterp spec fn unicode_lowercase(s: Seq<char>) -> Seq<char>;

/// `c` lower-cased, where it is an ASCII upper-case letter.
pub open spec fn ascii_lower_char(c: char) -> char {
    if 'A' <= c && c <= 'Z' {
        ((c as u32) + 32) as char
    } else {
        c
    }
}

/// `str::to_lowercase`: the Unicode lower-case form of `s`; on ASCII text this maps
/// `A`-`Z` to `a`-`z` and keeps every other character.
#[verifier::external_body]
fn to_lowercase(s: &str) -> (res: String)
    ensures
        res@ == unicode_lowercase(s@),
        vstd::utf8::is_ascii_chars(s@) ==> res@ == s@.map_values(|c: char| ascii_lower_char(c)),
{
    s.to_lowercase()
}

/// What happens to one request header: a telemetry header (see `is_telemetry`) is
/// dropped, the user agent is replaced by the generic one, any other header passes as
/// it is.
pub open spec fn forwarded_header(h: (Seq<char>, Seq<char>)) -> Option<(Seq<char>, Seq<char>)> {
    let lower = unicode_lowercase(h.0);
    if is_telemetry(lower) {
        None
    } else if lower == USER_AGENT@ {
        Some((USER_AGENT@, GENERIC_UA@))
    } else {
        Some(h)
    }
}

/// The headers that go out for the request headers `hs`, in order.
pub open spec fn forwarded_headers(hs: Seq<(Seq<char>, Seq<char>)>) -> Seq<(Seq<char>, Seq<char>)>
    decreases hs.len(),
{
    if hs.len() == 0 {
        Seq::empty()
    } else {
        let rest = forwarded_headers(hs.drop_last());
        match forwarded_header(hs.last()) {
            None => rest,
            Some(h) => rest.push(h),
        }
    }
}

/// The view of a list of header pairs.
pub open spec fn pairs_view(hs: Seq<(String, String)>) -> Seq<(Seq<char>, Seq<char>)> {
    hs.map_values(|h: (String, String)| (h.0@, h.1@))
}

/// Whether `s` starts with `prefix`.
fn starts_with_exec(s: &str, prefix: &str) -> (res: bool)
    ensures
        res == starts_with(s@, prefix@),
{
    let sv = crate::text::chars_of(s);
    let pv = crate::text::chars_of(prefix);
    if pv.len() > sv.len() {
        return false;
    }
    let res = crate::text::range_eq(&sv, 0, pv.len(), &pv);
    assert(sv@.subrange(0, pv@.len() as int) =~= sv@.take(pv@.len() as int));
    res
}

/// Whether `name` is a telemetry header (see `is_telemetry`).
fn is_stripped(name: &str) -> (res: bool)
    ensures
        res == is_telemetry(name@),
{
    let mut k: usize = 0;
    while k < TELEMETRY_PREFIXES.len()
        invariant
            k <= 2,
            forall|j: int| 0 <= j < k ==> !starts_with(name@, #[trigger] telemetry_prefixes()[j]),
        decreases 2 - k,
    {
        if starts_with_exec(name, TELEMETRY_PREFIXES[k]) {
            assert(starts_with(name@, telemetry_prefixes()[k as int]));
            return true;
        }
        k = k + 1;
    }
    let mut i: usize = 0;
    while i < STRIP_HEADERS.len()
        invariant
            i <= 15,
            forall|j: int| 0 <= j < 2 ==> !starts_with(name@, #[trigger] telemetry_prefixes()[j]),
            forall|j: int| 0 <= j < i ==> strip_headers()[j] != name@,
        decreases 15 - i,
    {
        if crate::json::text_eq(STRIP_HEADERS[i], name) {
            assert(strip_headers()[i as int] == name@);
            return true;
        }
        i = i + 1;
    }
    false
}

/// The headers to set on the upstream request (see `forwarded_headers`).
pub fn apply_headers(headers: &Vec<(String, String)>) -> (res: Vec<(String, String)>)
    ensures
        pairs_view(res@) == forwarded_headers(pairs_view(headers@)),
{
    let mut out: Vec<(String, String)> = Vec::new();
    let mut i: usize = 0;
    while i < headers.len()
        invariant
            i <= headers@.len(),
            pairs_view(out@) == forwarded_headers(pairs_view(headers@).take(i as int)),
        decreases headers@.len() - i,
    {
        let (k, v) = &headers[i];
        let lower = to_lowercase(k.as_str());
        let ghost before = pairs_view(out@);
        assert(pairs_view(headers@).take(i + 1).drop_last() =~= pairs_view(headers@).take(i as int));
        assert(pairs_view(headers@).take(i + 1).last() == (k@, v@));
        if is_stripped(lower.as_str()) {
        } else if crate::json::text_eq(lower.as_str(), USER_AGENT) {
            out.push((crate::text::owned(USER_AGENT), crate::text::owned(GENERIC_UA)));
            assert(pairs_view(out@) =~= before.push((USER_AGENT@, GENERIC_UA@)));
        } else {
            out.push((crate::text::owned(k.as_str()), crate::text::owned(v.as_str())));
            assert(pairs_view(out@) =~= before.push((k@, v@)));
        }
        i = i + 1;
    }
    assert(pairs_view(headers@).take(i as int) =~= pairs_view(headers@));
    out
}

/// Telemetry is stripped and the user agent spoofed: every header that goes out is
/// either the generic user agent, or a client header whose lower-case name is neither
/// a telemetry header nor `user-agent`.
pub proof fn lemma_forwarded_headers_clean(hs: Seq<(Seq<char>, Seq<char>)>)
    ensures
        forall|i: int| 0 <= i < forwarded_headers(hs).len() ==> {
            let h = #[trigger] forwarded_headers(hs)[i];
            ||| h == (USER_AGENT@, GENERIC_UA@)
            ||| hs.contains(h) && !is_telemetry(unicode_lowercase(h.0)) && unicode_lowercase(h.0) != USER_AGENT@
        },
    decreases hs.len(),
{
    if hs.len() > 0 {
        let init = hs.drop_last();
        lemma_forwarded_headers_clean(init);
        let out = forwarded_headers(hs);
        let rest = forwarded_headers(init);
        assert forall|i: int| 0 <= i < out.len() implies {
            let h = #[trigger] out[i];
            ||| h == (USER_AGENT@, GENERIC_UA@)
            ||| hs.contains(h) && !is_telemetry(unicode_lowercase(h.0)) && unicode_lowercase(h.0) != USER_AGENT@
        } by {
            if i < rest.len() {
                assert(out[i] == rest[i]);
                let h = rest[i];
                if h != (USER_AGENT@, GENERIC_UA@) {
                    let j = choose|j: int| 0 <= j < init.len() && init[j] == h;
                    assert(hs[j] == h);
                }
            } else {
                assert(hs[hs.len() - 1] == hs.last());
            }
        }
    }
}

/// Every listed telemetry header name counts as telemetry.
pub proof fn lemma_listed_names_are_telemetry()
    ensures
        forall|i: int| 0 <= i < 15 ==> is_telemetry(#[trigger] strip_headers()[i]),
{
    assert forall|i: int| 0 <= i < 15 implies is_telemetry(#[trigger] strip_headers()[i]) by {
        assert(strip_headers().contains(strip_headers()[i]));
    }
}

/// No listed telemetry header is ever forwarded: every header that goes out is the
/// generic user agent, or one whose lower-case name is none of the fifteen listed
/// names (`x-forwarded-for`, `x-real-ip`, `cf-ray` and the rest).
pub proof fn lemma_listed_headers_never_forwarded(hs: Seq<(Seq<char>, Seq<char>)>)
    ensures
        forall|i: int, j: int|
            0 <= i < forwarded_headers(hs).len() && 0 <= j < 15 ==> #[trigger] forwarded_headers(hs)[i] == (
            USER_AGENT@,
            GENERIC_UA@,
        ) || unicode_lowercase(forwarded_headers(hs)[i].0) != #[trigger] STRIP_HEADERS@[j]@,
{
    lemma_forwarded_headers_clean(hs);
    lemma_listed_names_are_telemetry();
    assert forall|i: int, j: int|
        0 <= i < forwarded_headers(hs).len() && 0 <= j < 15 implies #[trigger] forwarded_headers(hs)[i] == (
        USER_AGENT@,
        GENERIC_UA@,
    ) || unicode_lowercase(forwarded_headers(hs)[i].0) != #[trigger] STRIP_HEADERS@[j]@ by {
        assert(strip_headers()[j] == STRIP_HEADERS@[j]@);
        assert(is_telemetry(strip_headers()[j]));
    }
}

/// The request headers that are passed to the upstream API.
pub const PASSTHROUGH_HEADERS: [&'static str; 5] = [
    "authorization",
    "x-api-key",
    "anthropic-version",
    "anthropic-beta",
    "content-type",
];

/// The passthrough header names.
pub open spec fn passthrough_names() -> Seq<Seq<char>> {
    PASSTHROUGH_HEADERS@.map_values(|h: &'static str| h@)
}

/// Name of the content-type header.
pub const CONTENT_TYPE: &'static str = "content-type";

/// The content type every request goes out with.
pub const APPLICATION_JSON: &'static str = "application/json";

/// Whether a header byte is visible ASCII or a tab: what `HeaderValue::to_str` accepts.
pub open spec fn is_visible_ascii(b: u8) -> bool {
    (32 <= b && b < 127) || b == 9
}

/// The view of incoming headers: lower-case name and raw value bytes, in order.
pub open spec fn raw_headers_view(hs: Seq<(String, Vec<u8>)>) -> Seq<(Seq<char>, Seq<u8>)> {
    hs.map_values(|h: (String, Vec<u8>)| (h.0@, h.1@))
}

/// The value of the first header named `name`, from the `i`-th on.
pub open spec fn first_value_from(hs: Seq<(Seq<char>, Seq<u8>)>, name: Seq<char>, i: int) -> Option<
    Seq<u8>,
>
    decreases hs.len() - i,
{
    if i < 0 || i >= hs.len() {
        None
    } else if hs[i].0 == name {
        Some(hs[i].1)
    } else {
        first_value_from(hs, name, i + 1)
    }
}

/// The value of header `name` as text, where its first value is visible ASCII.
pub open spec fn header_text(hs: Seq<(Seq<char>, Seq<u8>)>, name: Seq<char>) -> Option<Seq<char>> {
    match first_value_from(hs, name, 0) {
        Some(b) => if forall|i: int| 0 <= i < b.len() ==> is_visible_ascii(#[trigger] b[i]) {
            Some(b.map_values(|x: u8| x as char))
        } else {
            None
        },
        None => None,
    }
}

/// The first `k` passthrough headers that are present with a readable value, in order.
pub open spec fn passed_headers(hs: Seq<(Seq<char>, Seq<u8>)>, k: int) -> Seq<(Seq<char>, Seq<char>)>
    decreases k,
{
    if k <= 0 {
        Seq::empty()
    } else {
        let rest = passed_headers(hs, k - 1);
        let name = passthrough_names()[k - 1];
        match header_text(hs, name) {
            Some(v) => rest.push((name, v)),
            None => rest,
        }
    }
}

/// The headers taken from the client's request: `authorization`, `x-api-key`,
/// `anthropic-version` and `anthropic-beta` where present and readable, then
/// `content-type: application/json` whatever the client sent.
pub open spec fn extracted_headers(hs: Seq<(Seq<char>, Seq<u8>)>) -> Seq<(Seq<char>, Seq<char>)> {
    passed_headers(hs, 4).push((CONTENT_TYPE@, APPLICATION_JSON@))
}

/// The headers taken from a request name each header once, every name is one of the
/// passthrough headers, and the content type is always JSON.
pub proof fn lemma_extracted_headers(hs: Seq<(Seq<char>, Seq<u8>)>)
    ensures
        extracted_headers(hs).last() == (CONTENT_TYPE@, APPLICATION_JSON@),
        forall|i: int| 0 <= i < extracted_headers(hs).len() ==> passthrough_names().contains((#[trigger] extracted_headers(hs)[i]).0),
        forall|i: int, j: int|
            0 <= i < j < extracted_headers(hs).len() ==> (#[trigger] extracted_headers(hs)[i]).0 != (#[trigger] extracted_headers(hs)[j]).0,
{
    reveal_strlit("authorization");
    reveal_strlit("x-api-key");
    reveal_strlit("anthropic-version");
    reveal_strlit("anthropic-beta");
    reveal_strlit("content-type");
    let names = passthrough_names();
    assert(names[4] == CONTENT_TYPE@);
    assert forall|a: int, b: int| 0 <= a < b < 5 implies #[trigger] names[a] != #[trigger] names[b] by {
        assert(names[a] == PASSTHROUGH_HEADERS@[a]@);
        assert(names[b] == PASSTHROUGH_HEADERS@[b]@);
        if names[a].len() == names[b].len() {
            assert(names[a][0] != names[b][0] || names[a][2] != names[b][2] || names[a][11] != names[b][11]);
        }
    }
    lemma_passed_headers(hs, 4);
    let p = passed_headers(hs, 4);
    let x = extracted_headers(hs);
    assert forall|i: int| 0 <= i < x.len() implies names.contains((#[trigger] x[i]).0) by {
        if i < p.len() {
            let k = choose|k: int| 0 <= k < 4 && names[k] == p[i].0;
            assert(names[k] == x[i].0);
        } else {
            assert(names[4] == x[i].0);
        }
    }
    assert forall|i: int, j: int| 0 <= i < j < x.len() implies (#[trigger] x[i]).0 != (#[trigger] x[j]).0 by {
        if j < p.len() {
            assert(x[i] == p[i] && x[j] == p[j]);
        } else {
            assert(x[i] == p[i]);
            let k = choose|k: int| 0 <= k < 4 && names[k] == p[i].0;
            assert(x[j].0 == names[4]);
        }
    }
}

/// The passed headers name the first `k` passthrough headers, each once, in order.
proof fn lemma_passed_headers(hs: Seq<(Seq<char>, Seq<u8>)>, k: int)
    requires
        0 <= k <= 5,
        forall|a: int, b: int| 0 <= a < b < 5 ==> #[trigger] passthrough_names()[a] != #[trigger] passthrough_names()[b],
    ensures
        forall|i: int| 0 <= i < passed_headers(hs, k).len() ==> exists|n: int| 0 <= n < k && passthrough_names()[n] == (#[trigger] passed_headers(hs, k)[i]).0,
        forall|i: int, j: int| 0 <= i < j < passed_headers(hs, k).len() ==> (#[trigger] passed_headers(hs, k)[i]).0 != (#[trigger] passed_headers(hs, k)[j]).0,
    decreases k,
{
    let names = passthrough_names();
    if k > 0 {
        lemma_passed_headers(hs, k - 1);
        let rest = passed_headers(hs, k - 1);
        let p = passed_headers(hs, k);
        assert(names[k - 1] == PASSTHROUGH_HEADERS@[k - 1]@);
        assert forall|i: int| 0 <= i < p.len() implies exists|n: int| 0 <= n < k && names[n] == (#[trigger] p[i]).0 by {
            if i < rest.len() {
                assert(p[i] == rest[i]);
                let n = choose|n: int| 0 <= n < k - 1 && names[n] == rest[i].0;
            } else {
                assert(names[k - 1] == p[i].0);
            }
        }
        assert forall|i: int, j: int| 0 <= i < j < p.len() implies (#[trigger] p[i]).0 != (#[trigger] p[j]).0 by {
            if j < rest.len() {
                assert(p[i] == rest[i] && p[j] == rest[j]);
            } else {
                assert(p[i] == rest[i]);
                let n = choose|n: int| 0 <= n < k - 1 && names[n] == rest[i].0;
                assert(p[j].0 == names[k - 1]);
            }
        }
    }
}

/// The first value of header `name`.
fn first_value<'a>(headers: &'a Vec<(String, Vec<u8>)>, name: &str) -> (res: Option<&'a Vec<u8>>)
    ensures
        match res {
            Some(b) => first_value_from(raw_headers_view(headers@), name@, 0) == Some(b@),
            None => first_value_from(raw_headers_view(headers@), name@, 0) is None,
        },
{
    let ghost hv = raw_headers_view(headers@);
    let mut i: usize = 0;
    while i < headers.len()
        invariant
            hv == raw_headers_view(headers@),
            i <= headers@.len(),
            first_value_from(hv, name@, 0) == first_value_from(hv, name@, i as int),
        decreases headers@.len() - i,
    {
        if crate::json::text_eq(headers[i].0.as_str(), name) {
            return Some(&headers[i].1);
        }
        i = i + 1;
    }
    None
}

/// `b` as text, where every byte is visible ASCII.
fn visible_text(b: &Vec<u8>) -> (res: Option<String>)
    ensures
        match res {
            Some(t) => (forall|i: int| 0 <= i < b@.len() ==> is_visible_ascii(#[trigger] b@[i])) && t@ == b@.map_values(|x: u8| x as char),
            None => !(forall|i: int| 0 <= i < b@.len() ==> is_visible_ascii(#[trigger] b@[i])),
        },
{
    let mut t = String::new();
    let mut i: usize = 0;
    while i < b.len()
        invariant
            i <= b@.len(),
            forall|k: int| 0 <= k < i ==> is_visible_ascii(#[trigger] b@[k]),
            t@ == b@.take(i as int).map_values(|x: u8| x as char),
        decreases b@.len() - i,
    {
        let c = b[i];
        if !((32 <= c && c < 127) || c == 9) {
            assert(!is_visible_ascii(b@[i as int]));
            return None;
        }
        crate::text::push_char(&mut t, c as char);
        assert(b@.take(i + 1).map_values(|x: u8| x as char) =~= b@.take(i as int).map_values(|x: u8| x as char).push(c as char));
        i = i + 1;
    }
    assert(b@.take(i as int) =~= b@);
    Some(t)
}

/// The headers to pass upstream (see `extracted_headers`): `headers` are the client's
/// headers, lower-case names with raw values, in the order the request holds them.
pub fn extract_headers(headers: &Vec<(String, Vec<u8>)>) -> (res: Vec<(String, String)>)
    ensures
        pairs_view(res@) == extracted_headers(raw_headers_view(headers@)),
{
    let ghost hv = raw_headers_view(headers@);
    let mut out: Vec<(String, String)> = Vec::new();
    let mut k: usize = 0;
    while k < 4
        invariant
            k <= 4,
            hv == raw_headers_view(headers@),
            pairs_view(out@) == passed_headers(hv, k as int),
        decreases 4 - k,
    {
        let name = PASSTHROUGH_HEADERS[k];
        let ghost before = pairs_view(out@);
        match first_value(headers, name) {
            Some(b) => match visible_text(b) {
                Some(t) => {
                    out.push((crate::text::owned(name), t));
                    assert(pairs_view(out@) =~= before.push((name@, t@)));
                },
                None => {},
            },
            None => {},
        }
        k = k + 1;
    }
    let ghost before = pairs_view(out@);
    out.push((crate::text::owned(CONTENT_TYPE), crate::text::owned(APPLICATION_JSON)));
    assert(pairs_view(out@) =~= before.push((CONTENT_TYPE@, APPLICATION_JSON@)));
    out
}

/// The prefix of a server-sent data line.
pub const DATA_PREFIX: &'static str = "data: ";

/// The payload that ends a stream.
pub const DONE_MARKER: &'static str = "[DONE]";

/// The index of the first line feed at or after `i`, or the length of `s`.
pub open spec fn line_end(s: Seq<char>, i: int) -> int
    decreases s.len() - i,
{
    if i < 0 || i >= s.len() {
        s.len() as int
    } else if s[i] == '\n' {
        i
    } else {
        line_end(s, i + 1)
    }
}

/// The payloads of the data lines of a server-sent event stream, from the line
/// starting at `i` on: each line is trimmed, a line starting with `data: ` gives the
/// rest of it, and the payload `[DONE]` ends the stream; other lines are skipped.
pub open spec fn sse_payloads_from(s: Seq<char>, i: int) -> Seq<Seq<char>>
    decreases s.len() + 1 - i,
{
    let e = line_end(s, i);
    if i < 0 || i > s.len() || e < i || e > s.len() {
        Seq::empty()
    } else {
        let line = trim(s.subrange(i, e));
        let rest = sse_payloads_from(s, e + 1);
        if line.len() >= DATA_PREFIX@.len() && line.take(DATA_PREFIX@.len() as int) == DATA_PREFIX@ {
            let data = line.skip(DATA_PREFIX@.len() as int);
            if data == DONE_MARKER@ {
                Seq::empty()
            } else {
                seq![data] + rest
            }
        } else {
            rest
        }
    }
}

/// The payloads of the data lines of `text` (see `sse_payloads_from`).
pub open spec fn sse_payloads(text: Seq<char>) -> Seq<Seq<char>> {
    sse_payloads_from(text, 0)
}

proof fn lemma_line_end(s: Seq<char>, i: int)
    requires
        0 <= i <= s.len(),
    ensures
        i <= line_end(s, i) <= s.len(),
        forall|k: int| i <= k < line_end(s, i) ==> s[k] != '\n',
        line_end(s, i) < s.len() ==> s[line_end(s, i)] == '\n',
    decreases s.len() - i,
{
    if i < s.len() && s[i] != '\n' {
        lemma_line_end(s, i + 1);
    }
}

/// The view of a list of strings.
pub open spec fn strings_view(v: Seq<String>) -> Seq<Seq<char>> {
    v.map_values(|x: String| x@)
}

/// The data payloads of a server-sent event stream, up to `[DONE]` (see
/// `sse_payloads`); each is a JSON text for the caller to parse.
pub fn sse_data_payloads(text: &str) -> (res: Vec<String>)
    ensures
        strings_view(res@) == sse_payloads(text@),
{
    let v = crate::text::chars_of(text);
    let prefix = crate::text::chars_of(DATA_PREFIX);
    let done_marker = crate::text::chars_of(DONE_MARKER);
    proof {
        reveal_strlit("data: ");
    }
    let mut out: Vec<String> = Vec::new();
    let mut i: usize = 0;
    let mut done = false;
    assert(strings_view(out@) + sse_payloads_from(v@, 0) =~= sse_payloads_from(v@, 0));
    while !done
        invariant
            v@ == text@,
            prefix@ == DATA_PREFIX@,
            prefix@.len() == 6,
            done_marker@ == DONE_MARKER@,
            i <= v@.len(),
            done ==> sse_payloads(text@) == strings_view(out@),
            !done ==> sse_payloads(text@) == strings_view(out@) + sse_payloads_from(v@, i as int),
        decreases v@.len() + 1 - i + (if done {
            0int
        } else {
            1int
        }),
    {
        let mut e = i;
        while e < v.len() && v[e] != '\n'
            invariant
                i <= e <= v@.len(),
                line_end(v@, i as int) == line_end(v@, e as int),
            decreases v@.len() - e,
        {
            e = e + 1;
        }
        proof {
            lemma_line_end(v@, i as int);
        }
        let (a, b) = crate::text::trim_bounds(&v, i, e);
        let ghost line = trim(v@.subrange(i as int, e as int));
        let ghost before = strings_view(out@);
        let is_data = b - a >= 6 && crate::text::range_eq(&v, a, a + 6, &prefix);
        if is_data {
            assert(line.take(6) =~= v@.subrange(a as int, a + 6));
        } else if b - a >= 6 {
            assert(line.take(6) =~= v@.subrange(a as int, a + 6));
        }
        if is_data {
            assert(line.skip(6) =~= v@.subrange(a + 6, b as int));
            if crate::text::range_eq(&v, a + 6, b, &done_marker) {
                done = true;
                assert(sse_payloads_from(v@, i as int) == Seq::<Seq<char>>::empty());
                assert(strings_view(out@) + Seq::<Seq<char>>::empty() =~= strings_view(out@));
            } else {
                out.push(crate::text::string_of_range(&v, a + 6, b));
                assert(strings_view(out@) =~= before.push(line.skip(6)));
                assert(before + (seq![line.skip(6)] + sse_payloads_from(v@, e + 1)) =~= strings_view(out@)
                    + sse_payloads_from(v@, e + 1));
            }
        }
        if !done {
            if e == v.len() {
                done = true;
                assert(sse_payloads_from(v@, e + 1) == Seq::<Seq<char>>::empty());
                assert(strings_view(out@) + Seq::<Seq<char>>::empty() =~= strings_view(out@));
            } else {
                i = e + 1;
            }
        }
    }
    out
}

/// Key of the conversation in a request body.
pub const MESSAGES: &'static str = "messages";

/// Key of the system prompt in a request body.
pub const SYSTEM: &'static str = "system";

/// Key of the prompt of a completion request.
pub const PROMPT: &'static str = "prompt";

/// The members `orig` of a request, as far as anonymised in `cur`, with the member
/// `key` (the first of that key in `orig`) anonymised as a JSON value next.
pub open spec fn anon_member(
    a: AnonymiserView,
    orig: Seq<(Seq<char>, JsonView)>,
    cur: Option<(Seq<(Seq<char>, JsonView)>, TokenMapView)>,
    key: Seq<char>,
) -> Option<(Seq<(Seq<char>, JsonView)>, TokenMapView)> {
    match cur {
        None => None,
        Some((ms, m)) => match key_index(orig, key) {
            Some(j) => if 0 <= j < orig.len() {
                match anon_value(a, orig[j].1, m) {
                    None => None,
                    Some((nv, m2)) => Some((ms.update(j, (orig[j].0, nv)), m2)),
                }
            } else {
                Some((ms, m))
            },
            None => Some((ms, m)),
        },
    }
}

/// What is anonymised of a request body: of an object, its `messages`, then its
/// `system` prompt, then its `prompt`, each as a JSON value (see `anon_value`), so
/// strings, arrays of parts and message objects alike. Anything else is sent as it is.
pub open spec fn anon_request(a: AnonymiserView, body: JsonView, m: TokenMapView) -> Option<
    (JsonView, TokenMapView),
> {
    match body {
        JsonView::Object(members) => match anon_member(
            a,
            members,
            anon_member(a, members, anon_member(a, members, Some((members, m)), MESSAGES@), SYSTEM@),
            PROMPT@,
        ) {
            None => None,
            Some((ms, m2)) => Some((JsonView::Object(ms), m2)),
        },
        _ => Some((body, m)),
    }
}

/// Anonymises the member `key` of `members` into `ms` (see `anon_member`).
fn anonymise_member(
    members: &Vec<(String, Json)>,
    ms: &mut Vec<(String, Json)>,
    key: &str,
    map: &mut TokenMap,
    anonymiser: &Anonymiser,
) -> (res: Result<(), TokensExhausted>)
    requires
        old(map)@.wf(),
        old(ms)@.len() == members@.len(),
        forall|i: int| 0 <= i < members@.len() ==> (#[trigger] members_view(old(ms)@)[i]).0 == members_view(members@)[i].0,
    ensures
        final(map)@.wf(),
        final(ms)@.len() == members@.len(),
        forall|i: int| 0 <= i < members@.len() ==> (#[trigger] members_view(final(ms)@)[i]).0 == members_view(members@)[i].0,
        match res {
            Ok(_) => anon_member(
                anonymiser@,
                members_view(members@),
                Some((members_view(old(ms)@), old(map)@)),
                key@,
            ) == Some((members_view(final(ms)@), final(map)@)),
            Err(_) => anon_member(
                anonymiser@,
                members_view(members@),
                Some((members_view(old(ms)@), old(map)@)),
                key@,
            ) is None,
        },
{
    let ghost mv = members_view(members@);
    match find_key(members, key) {
        Some(j) => {
            assert(mv[j as int].1 == members@[j as int].1@);
            match anonymised_json(&members[j].1, map, anonymiser) {
                Ok(nv) => {
                    let ghost before = members_view(ms@);
                    assert(before[j as int].0 == mv[j as int].0);
                    assert(before[j as int].0 == ms@[j as int].0@);
                    set_member(ms, j, nv);
                    assert(members_view(ms@) =~= before.update(j as int, (mv[j as int].0, nv@)));
                    Ok(())
                },
                Err(e) => Err(e),
            }
        },
        None => Ok(()),
    }
}

/// Anonymises a request body in place before it is sent (see `anon_request`); where
/// a type's count runs out the body is left as it was.
pub fn anonymise_request(body: &mut Json, map: &mut TokenMap, anonymiser: &Anonymiser) -> (res: Result<
    (),
    TokensExhausted,
>)
    requires
        old(map)@.wf(),
    ensures
        final(map)@.wf(),
        match res {
            Ok(_) => anon_request(anonymiser@, old(body)@, old(map)@) == Some((final(body)@, final(map)@)),
            Err(_) => anon_request(anonymiser@, old(body)@, old(map)@) is None && final(body)@ == old(body)@,
        },
{
    proof {
        lemma_view_parts(*body);
    }
    let new_body = match &*body {
        Json::Object(members) => {
            let ghost mv = members_view(members@);
            let mut ms = copy_members(members);
            let ghost m0 = map@;
            match anonymise_member(members, &mut ms, MESSAGES, map, anonymiser) {
                Ok(_) => {},
                Err(e) => {
                    return Err(e);
                },
            }
            let ghost s1 = Some((members_view(ms@), map@));
            assert(s1 == anon_member(anonymiser@, mv, Some((mv, m0)), MESSAGES@));
            match anonymise_member(members, &mut ms, SYSTEM, map, anonymiser) {
                Ok(_) => {},
                Err(e) => {
                    return Err(e);
                },
            }
            let ghost s2 = Some((members_view(ms@), map@));
            assert(s2 == anon_member(anonymiser@, mv, s1, SYSTEM@));
            match anonymise_member(members, &mut ms, PROMPT, map, anonymiser) {
                Ok(_) => {},
                Err(e) => {
                    return Err(e);
                },
            }
            assert(Some((members_view(ms@), map@)) == anon_member(anonymiser@, mv, s2, PROMPT@));
            let nb = Json::Object(ms);
            proof {
                lemma_view_parts(nb);
            }
            nb
        },
        _ => copy_json(body),
    };
    *body = new_body;
    Ok(())
}

/// The upstream API used where none is configured.
pub const DEFAULT_UPSTREAM: &'static str = "https://api.anthropic.com";

/// The configured upstream, or the default one.
pub fn upstream_or_default(upstream: Option<String>) -> (res: String)
    ensures
        res@ == match upstream {
            Some(u) => u@,
            None => DEFAULT_UPSTREAM@,
        },
{
    match upstream {
        Some(u) => u,
        None => crate::text::owned(DEFAULT_UPSTREAM),
    }
}

/// The upstream URL for a request path: the upstream followed by the path.
pub fn request_url(upstream: &str, path: &str) -> (res: String)
    ensures
        res@ == upstream@ + path@,
{
    let mut res = crate::text::owned(upstream);
    crate::text::push_str(&mut res, path);
    res
}

/// The error for an upstream reply that is not a success: `upstream <status>: <body>`.
pub fn upstream_error(status: &str, body: &str) -> (res: String)
    ensures
        res@ == "upstream "@ + status@ + ": "@ + body@,
{
    let mut res = crate::text::owned("upstream ");
    crate::text::push_str(&mut res, status);
    crate::text::push_str(&mut res, ": ");
    crate::text::push_str(&mut res, body);
    res
}

/// The error for a streamed upstream reply that is not a success: `upstream <status>`.
pub fn upstream_stream_error(status: &str) -> (res: String)
    ensures
        res@ == "upstream "@ + status@,
{
    let mut res = crate::text::owned("upstream ");
    crate::text::push_str(&mut res, status);
    res
}

} // verus!
