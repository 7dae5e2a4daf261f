//! What the HTTP front decides: stream or not, the bodies of its replies, and its
//! configuration values.
use vstd::prelude::*;
use crate::json::{find_key, key_index, lemma_view_parts, members_view, Json, JsonView};
use crate::text::{owned, push_char, push_str};

verus! {

/// Key of the streaming flag in a request body.
pub const STREAM: &'static str = "stream";

/// Whether a request asks for a streamed reply: its `stream` member is `true`.
pub open spec fn wants_stream(body: JsonView) -> bool {
    match body {
        JsonView::Object(members) => match key_index(members, STREAM@) {
            Some(j) => 0 <= j < members.len() && members[j].1 == JsonView::Bool(true),
            None => false,
        },
        _ => false,
    }
}

/// Whether a request asks for a streamed reply (see `wants_stream`).
pub fn is_stream(body: &Json) -> (res: bool)
    ensures
        res == wants_stream(body@),
{
    proof {
        lemma_view_parts(*body);
    }
    match body {
        Json::Object(members) => match find_key(members, STREAM) {
            Some(j) => {
                proof {
                    lemma_view_parts(members@[j as int].1);
                }
                match &members[j].1 {
                    Json::Bool(b) => *b,
                    _ => false,
                }
            },
            None => false,
        },
        _ => false,
    }
}

/// The decimal digits of `n`, most significant first.
pub open spec fn decimal_digits(n: nat) -> Seq<char>
    decreases n,
{
    if n < 10 {
        seq![(48 + n) as char]
    } else {
        decimal_digits(n / 10).push((48 + n % 10) as char)
    }
}

/// `n` written in decimal.
pub fn decimal(n: usize) -> (res: String)
    ensures
        res@ == decimal_digits(n as nat),
{
    let mut rev: Vec<char> = Vec::new();
    let mut m: usize = n;
    while m >= 10
        invariant
            decimal_digits(n as nat) == decimal_digits(m as nat) + rev@.reverse(),
        decreases m,
    {
        let ghost old_rev = rev@;
        rev.push(((48 + m % 10) as u8) as char);
        assert(rev@.reverse() =~= seq![(48 + m % 10) as char] + old_rev.reverse());
        assert(decimal_digits(m as nat) + old_rev.reverse() =~= decimal_digits((m / 10) as nat)
            + rev@.reverse());
        m = m / 10;
    }
    let ghost old_rev = rev@;
    rev.push(((48 + m) as u8) as char);
    assert(rev@.reverse() =~= seq![(48 + m) as char] + old_rev.reverse());
    assert(decimal_digits(n as nat) =~= rev@.reverse());
    let mut res = String::new();
    let mut i: usize = rev.len();
    while i > 0
        invariant
            i <= rev@.len(),
            res@ == rev@.reverse().take(rev@.len() - i),
        decreases i,
    {
        i = i - 1;
        push_char(&mut res, rev[i]);
        assert(rev@.reverse().take(rev@.len() - i) =~= rev@.reverse().take(rev@.len() - (i + 1)).push(
            rev@[i as int],
        ));
    }
    assert(rev@.reverse().take(rev@.len() as int) =~= rev@.reverse());
    res
}

/// The pieces of `list` joined with `sep` between each two.
pub open spec fn joined(list: Seq<Seq<char>>, sep: Seq<char>) -> Seq<char>
    decreases list.len(),
{
    if list.len() == 0 {
        Seq::empty()
    } else if list.len() == 1 {
        list[0]
    } else {
        joined(list.drop_last(), sep) + sep + list.last()
    }
}

/// The pieces of `list` joined with `sep` between each two.
pub fn join(list: &Vec<String>, sep: &str) -> (res: String)
    ensures
        res@ == joined(list@.map_values(|s: String| s@), sep@),
{
    let ghost lv = list@.map_values(|s: String| s@);
    let mut res = String::new();
    let mut i: usize = 0;
    while i < list.len()
        invariant
            lv == list@.map_values(|s: String| s@),
            i <= list@.len(),
            res@ == joined(lv.take(i as int), sep@),
        decreases list@.len() - i,
    {
        assert(lv.take(i + 1).drop_last() =~= lv.take(i as int));
        if i > 0 {
            push_str(&mut res, sep);
        } else {
            assert(joined(lv.take(0), sep@) =~= Seq::<char>::empty());
        }
        let ghost before = res@;
        push_str(&mut res, list[i].as_str());
        if i == 0 {
            assert(res@ =~= lv.take(1)[0]);
        }
        i = i + 1;
    }
    assert(lv.take(i as int) =~= lv);
    res
}

/// A JSON string.
pub open spec fn jstr(s: Seq<char>) -> JsonView {
    JsonView::String(s)
}

/// The reply to a streamed request: how many chunks came and their texts joined by
/// line feeds, as `{"data": .., "streamed_chunks": ..}`.
pub open spec fn stream_reply_view(chunks: Seq<Seq<char>>) -> JsonView {
    JsonView::Object(
        seq![
            ("data"@, jstr(joined(chunks, "\n"@))),
            ("streamed_chunks"@, JsonView::Number(decimal_digits(chunks.len()))),
        ],
    )
}

/// The reply to a streamed request (see `stream_reply_view`).
pub fn stream_reply(chunks: &Vec<String>) -> (res: Json)
    ensures
        res@ == stream_reply_view(chunks@.map_values(|s: String| s@)),
{
    let members: Vec<(String, Json)> = vec![
        (owned("data"), Json::String(join(chunks, "\n"))),
        (owned("streamed_chunks"), Json::Number(decimal(chunks.len()))),
    ];
    let res = Json::Object(members);
    proof {
        lemma_view_parts(res);
        assert(members_view(members@) =~= seq![
            ("data"@, jstr(joined(chunks@.map_values(|s: String| s@), "\n"@))),
            ("streamed_chunks"@, JsonView::Number(decimal_digits(chunks@.len()))),
        ]);
    }
    res
}

/// The reply to a failed upstream call: `{"error": message}`.
pub fn error_reply(message: &str) -> (res: Json)
    ensures
        res@ == JsonView::Object(seq![("error"@, jstr(message@))]),
{
    let members: Vec<(String, Json)> = vec![(owned("error"), Json::String(owned(message)))];
    let res = Json::Object(members);
    proof {
        lemma_view_parts(res);
        assert(members_view(members@) =~= seq![("error"@, jstr(message@))]);
    }
    res
}

/// The health reply: `{"map": "RAM only — never transmitted", "session": id,
/// "sovereignty": "complete", "status": "ok", "telemetry_stripped": true, "tls": "active"}`.
pub open spec fn health_reply_view(session_id: Seq<char>) -> JsonView {
    JsonView::Object(
        seq![
            ("map"@, jstr("RAM only — never transmitted"@)),
            ("session"@, jstr(session_id)),
            ("sovereignty"@, jstr("complete"@)),
            ("status"@, jstr("ok"@)),
            ("telemetry_stripped"@, JsonView::Bool(true)),
            ("tls"@, jstr("active"@)),
        ],
    )
}

/// The health reply (see `health_reply_view`).
pub fn health_reply(session_id: &str) -> (res: Json)
    ensures
        res@ == health_reply_view(session_id@),
{
    let members: Vec<(String, Json)> = vec![
        (owned("map"), Json::String(owned("RAM only — never transmitted"))),
        (owned("session"), Json::String(owned(session_id))),
        (owned("sovereignty"), Json::String(owned("complete"))),
        (owned("status"), Json::String(owned("ok"))),
        (owned("telemetry_stripped"), Json::Bool(true)),
        (owned("tls"), Json::String(owned("active"))),
    ];
    let res = Json::Object(members);
    proof {
        lemma_view_parts(res);
        assert(members_view(members@) =~= seq![
            ("map"@, jstr("RAM only — never transmitted"@)),
            ("session"@, jstr(session_id@)),
            ("sovereignty"@, jstr("complete"@)),
            ("status"@, jstr("ok"@)),
            ("telemetry_stripped"@, JsonView::Bool(true)),
            ("tls"@, jstr("active"@)),
        ]);
    }
    res
}

/// One entry of the model list: `{"id": id, "object": "model", "owned_by": owner}`.
pub open spec fn model_view(id: Seq<char>, owner: Seq<char>) -> JsonView {
    JsonView::Object(seq![("id"@, jstr(id)), ("object"@, jstr("model"@)), ("owned_by"@, jstr(owner))])
}

/// The model list: the proxy's own entry first, then one entry per upstream model
/// `(id, owner)`, in the order given.
pub open spec fn models_reply_view(upstream: Seq<(Seq<char>, Seq<char>)>) -> JsonView {
    JsonView::Object(
        seq![
            (
                "data"@,
                JsonView::Array(
                    seq![model_view("voidveil-proxy"@, "voidveil"@)] + Seq::new(
                        upstream.len(),
                        |i: int| model_view(upstream[i].0, upstream[i].1),
                    ),
                ),
            ),
            ("object"@, jstr("list"@)),
        ],
    )
}

/// The view of a list of `(id, owner)` pairs.
pub open spec fn model_pairs_view(models: Seq<(String, String)>) -> Seq<(Seq<char>, Seq<char>)> {
    Seq::new(models.len(), |i: int| (models[i].0@, models[i].1@))
}

/// One entry of the model list.
fn model_entry(id: &str, owner: &str) -> (res: Json)
    ensures
        res@ == model_view(id@, owner@),
{
    let members: Vec<(String, Json)> = vec![
        (owned("id"), Json::String(owned(id))),
        (owned("object"), Json::String(owned("model"))),
        (owned("owned_by"), Json::String(owned(owner))),
    ];
    let res = Json::Object(members);
    proof {
        lemma_view_parts(res);
        assert(members_view(members@) =~= seq![("id"@, jstr(id@)), ("object"@, jstr("model"@)), ("owned_by"@, jstr(owner@))]);
    }
    res
}

/// The model list (see `models_reply_view`) for the upstream models `upstream`.
pub fn models_reply(upstream: &Vec<(String, String)>) -> (res: Json)
    ensures
        res@ == models_reply_view(model_pairs_view(upstream@)),
{
    let mut data: Vec<Json> = Vec::new();
    data.push(model_entry("voidveil-proxy", "voidveil"));
    let ghost first = model_view("voidveil-proxy"@, "voidveil"@);
    let mut i: usize = 0;
    while i < upstream.len()
        invariant
            i <= upstream.len(),
            data.len() == i + 1,
            data[0]@ == first,
            forall|k: int|
                0 <= k < i ==> #[trigger] data[k + 1]@ == model_view(upstream@[k].0@, upstream@[k].1@),
        decreases upstream.len() - i,
    {
        let entry = model_entry(upstream[i].0.as_str(), upstream[i].1.as_str());
        data.push(entry);
        i = i + 1;
    }
    let ghost pairs = model_pairs_view(upstream@);
    let ghost expected: Seq<JsonView> = seq![first] + Seq::new(
        pairs.len(),
        |k: int| model_view(pairs[k].0, pairs[k].1),
    );
    proof {
        assert forall|k: int| 0 <= k < data.len() implies #[trigger] crate::json::items_view(data@)[k] == expected[k] by {
            if k > 0 {
                assert(data[(k - 1) + 1]@ == model_view(upstream@[k - 1].0@, upstream@[k - 1].1@));
            }
        }
        assert(crate::json::items_view(data@) =~= expected);
    }
    let list = Json::Array(data);
    let members: Vec<(String, Json)> = vec![(owned("data"), list), (owned("object"), Json::String(owned("list")))];
    let res = Json::Object(members);
    proof {
        lemma_view_parts(list);
        lemma_view_parts(res);
        assert(members_view(members@) =~= seq![("data"@, list@), ("object"@, jstr("list"@))]);
    }
    res
}

/// Whether `c` is an ASCII digit.
pub open spec fn is_digit(c: char) -> bool {
    '0' <= c && c <= '9'
}

/// The number written by the decimal digits `d`.
pub open spec fn decimal_value(d: Seq<char>) -> int
    decreases d.len(),
{
    if d.len() == 0 {
        0
    } else {
        decimal_value(d.drop_last()) * 10 + (d.last() as int - 48)
    }
}

/// `s` without a leading `+`.
pub open spec fn unsigned_digits(s: Seq<char>) -> Seq<char> {
    if s.len() > 0 && s[0] == '+' {
        s.drop_first()
    } else {
        s
    }
}

/// Whether every character of `d` is an ASCII digit.
pub open spec fn all_digits(d: Seq<char>) -> bool {
    forall|i: int| 0 <= i < d.len() ==> is_digit(#[trigger] d[i])
}

/// What `u16::from_str` accepts: an optional `+` and then one or more ASCII digits
/// whose value fits in 16 bits.
pub open spec fn parsed_u16(s: Seq<char>) -> Option<u16> {
    let d = unsigned_digits(s);
    if d.len() == 0 || !all_digits(d) || decimal_value(d) > 65535 {
        None
    } else {
        Some(decimal_value(d) as u16)
    }
}

proof fn lemma_decimal_grows(d: Seq<char>, i: int)
    requires
        0 <= i <= d.len(),
        forall|k: int| 0 <= k < d.len() ==> is_digit(#[trigger] d[k]),
    ensures
        decimal_value(d.take(i)) <= decimal_value(d),
        decimal_value(d.take(i)) >= 0,
    decreases d.len() - i,
{
    if i < d.len() {
        lemma_decimal_grows(d, i + 1);
        assert(d.take(i + 1).drop_last() =~= d.take(i));
        lemma_decimal_nonneg(d.take(i));
    } else {
        assert(d.take(i) =~= d);
        lemma_decimal_nonneg(d);
    }
}

proof fn lemma_decimal_nonneg(d: Seq<char>)
    requires
        forall|k: int| 0 <= k < d.len() ==> is_digit(#[trigger] d[k]),
    ensures
        decimal_value(d) >= 0,
    decreases d.len(),
{
    if d.len() > 0 {
        lemma_decimal_nonneg(d.drop_last());
        assert(is_digit(d[d.len() - 1]));
    }
}

/// Parses a port number as `u16::from_str` does (see `parsed_u16`).
pub fn parse_port(s: &str) -> (res: Option<u16>)
    ensures
        res == parsed_u16(s@),
{
    let v = crate::text::chars_of(s);
    let mut start: usize = 0;
    if v.len() > 0 && v[0] == '+' {
        start = 1;
    }
    let ghost d = v@.skip(start as int);
    assert(d =~= unsigned_digits(s@));
    if v.len() == start {
        return None;
    }
    let mut i: usize = start;
    let mut value: u32 = 0;
    let mut overflow = false;
    while i < v.len()
        invariant
            start <= i <= v@.len(),
            v@ == s@,
            d == v@.skip(start as int),
            d == unsigned_digits(s@),
            d.len() > 0,
            forall|k: int| 0 <= k < i - start ==> is_digit(#[trigger] d[k]),
            !overflow ==> value == decimal_value(d.take(i - start)) && value <= 65535,
            overflow ==> decimal_value(d.take(i - start)) > 65535,
        decreases v@.len() - i,
    {
        let c = v[i];
        if !('0' <= c && c <= '9') {
            assert(!is_digit(d[i - start]));
            assert(!(forall|k: int| 0 <= k < d.len() ==> is_digit(#[trigger] d[k])));
            return None;
        }
        assert(d.take(i + 1 - start).drop_last() =~= d.take(i - start));
        assert(d.take(i + 1 - start).last() == c);
        proof {
            if overflow {
                assert(forall|k: int| 0 <= k < i + 1 - start ==> is_digit(#[trigger] d.take(i + 1 - start)[k]));
                lemma_decimal_nonneg(d.take(i - start));
            }
        }
        if !overflow {
            let digit = (c as u32) - 48;
            if value * 10 + digit > 65535 {
                overflow = true;
            } else {
                value = value * 10 + digit;
            }
        }
        i = i + 1;
    }
    assert(d.take(i - start) =~= d);
    if overflow {
        None
    } else {
        Some(value as u16)
    }
}

/// The port given by an environment value, or `default` where it is absent or not a
/// port number.
pub fn port_or_default(value: Option<&str>, default: u16) -> (res: u16)
    ensures
        res == match value {
            Some(v) => match parsed_u16(v@) {
                Some(p) => p,
                None => default,
            },
            None => default,
        },
{
    match value {
        Some(v) => match parse_port(v) {
            Some(p) => p,
            None => default,
        },
        None => default,
    }
}

} // verus!
