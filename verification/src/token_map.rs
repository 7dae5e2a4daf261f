//! Session-scoped token store: real value to token, token back to real value,
//! and a running count per entity type that numbers the tokens.
use vstd::prelude::*;
use dashmap::DashMap;
use crate::text::{contains, occurs_at, owned, replace_all, replaced};
use crate::token::{format_token, lemma_token_text_injective, token_text};

verus! {

#[verifier::external_type_specification]
#[verifier::external_body]
#[verifier::reject_recursive_types(K)]
#[verifier::reject_recursive_types(V)]
#[verifier::reject_recursive_types(S)]
pub struct ExDashMap<K, V, S>(DashMap<K, V, S>);

/// A map from strings to strings.
pub type TextMap = DashMap<String, String>;

/// A map from strings to counts.
pub type CountMap = DashMap<String, u32>;

/// What a map from strings to strings holds.
pub uninterp spec fn text_map_contents(m: DashMap<String, String>) -> Map<Seq<char>, Seq<char>>;

/// What a map from strings to counts holds.
pub uninterp spec fn count_map_contents(m: DashMap<String, u32>) -> Map<Seq<char>, u32>;

/// `DashMap::new`: a new map holds nothing.
#[verifier::external_body]
fn new_text_map() -> (res: TextMap)
    ensures
        text_map_contents(res).dom() == Set::<Seq<char>>::empty(),
{
    DashMap::new()
}

/// `DashMap::get`: the value stored under `key`, if any (cloned out of the guard).
#[verifier::external_body]
fn text_map_get(m: &DashMap<String, String>, key: &str) -> (res: Option<String>)
    ensures
        res is Some <==> text_map_contents(*m).contains_key(key@),
        res matches Some(v) ==> v@ == text_map_contents(*m)[key@],
{
    match m.get(key) {
        Some(entry) => Some(entry.value().clone()),
        None => None,
    }
}

/// `DashMap::insert`: stores `value` under `key`, replacing what was there.
#[verifier::external_body]
fn text_map_insert(m: &mut DashMap<String, String>, key: String, value: String)
    ensures
        text_map_contents(*final(m)) == text_map_contents(*old(m)).insert(key@, value@),
{
    m.insert(key, value);
}

/// `DashMap::new`: a new map holds nothing.
#[verifier::external_body]
fn new_count_map() -> (res: CountMap)
    ensures
        count_map_contents(res).dom() == Set::<Seq<char>>::empty(),
{
    DashMap::new()
}

/// `DashMap::get`: the count stored under `key`, if any.
#[verifier::external_body]
fn count_map_get(m: &DashMap<String, u32>, key: &str) -> (res: Option<u32>)
    ensures
        res is Some <==> count_map_contents(*m).contains_key(key@),
        res matches Some(v) ==> v == count_map_contents(*m)[key@],
{
    match m.get(key) {
        Some(entry) => Some(*entry.value()),
        None => None,
    }
}

/// `DashMap::insert`: stores `value` under `key`, replacing what was there.
#[verifier::external_body]
fn count_map_insert(m: &mut DashMap<String, u32>, key: String, value: u32)
    ensures
        count_map_contents(*final(m)) == count_map_contents(*old(m)).insert(key@, value),
{
    m.insert(key, value);
}

/// `e` lists the entries of `m`, each exactly once, in some order.
pub open spec fn enumerates(e: Seq<(Seq<char>, Seq<char>)>, m: Map<Seq<char>, Seq<char>>) -> bool {
    &&& forall|i: int| 0 <= i < e.len() ==> #[trigger] m.contains_key(e[i].0) && m[e[i].0] == e[i].1
    &&& forall|k: Seq<char>| #[trigger] m.contains_key(k) ==> exists|i: int| 0 <= i < e.len() && e[i].0 == k
    &&& forall|i: int, j: int| 0 <= i < e.len() && 0 <= j < e.len() && i != j ==> e[i].0 != e[j].0
}

/// The abstract state of a token map.
pub struct TokenMapView {
    /// real value to token
    pub forward: Map<Seq<char>, Seq<char>>,
    /// token to real value
    pub reverse: Map<Seq<char>, Seq<char>>,
    /// entity type to the count of tokens issued for it
    pub counters: Map<Seq<char>, u32>,
    /// the tokens, in the order they were issued
    pub order: Seq<Seq<char>>,
}

impl TokenMapView {
    /// How many tokens of type `ty` have been issued.
    pub open spec fn counter(self, ty: Seq<char>) -> u32 {
        if self.counters.contains_key(ty) {
            self.counters[ty]
        } else {
            0
        }
    }

    /// Whether `token` was issued: it is the `n`-th token of some type, `n` within that type's count.
    pub open spec fn issued(self, ty: Seq<char>, n: nat) -> bool {
        1 <= n <= self.counter(ty)
    }

    /// The invariant: the two directions are inverse to each other, every token was
    /// numbered by the counters, and the issue order lists every token exactly once.
    pub open spec fn wf(self) -> bool {
        &&& self.forward.dom().finite()
        &&& self.reverse.dom().finite()
        &&& forall|r: Seq<char>| #[trigger]
            self.forward.contains_key(r) ==> self.reverse.contains_key(self.forward[r])
                && self.reverse[self.forward[r]] == r
        &&& forall|t: Seq<char>| #[trigger]
            self.reverse.contains_key(t) ==> self.forward.contains_key(self.reverse[t])
                && self.forward[self.reverse[t]] == t
        &&& forall|t: Seq<char>| #[trigger]
            self.reverse.contains_key(t) ==> exists|ty: Seq<char>, n: nat|
                self.issued(ty, n) && t == #[trigger] token_text(ty, n)
        &&& forall|k: int| 0 <= k < self.order.len() ==> #[trigger] self.reverse.contains_key(self.order[k])
        &&& forall|t: Seq<char>| #[trigger]
            self.reverse.contains_key(t) ==> exists|k: int| 0 <= k < self.order.len() && self.order[k] == t
        &&& forall|i: int, j: int| 0 <= i < j < self.order.len() ==> self.order[i] != self.order[j]
    }

    /// Whether `value` can be tokenized as `ty` without the type's count running out.
    pub open spec fn can_tokenize(self, value: Seq<char>, ty: Seq<char>) -> bool {
        self.forward.contains_key(value) || self.counter(ty) < u32::MAX
    }

    /// The token that `tokenize(value, ty)` returns: the one already given to `value`,
    /// or the next one of type `ty`.
    pub open spec fn token_for(self, value: Seq<char>, ty: Seq<char>) -> Seq<char> {
        if self.forward.contains_key(value) {
            self.forward[value]
        } else {
            token_text(ty, self.counter(ty) as nat + 1)
        }
    }

    /// The state after `tokenize(value, ty)`.
    pub open spec fn after_tokenize(self, value: Seq<char>, ty: Seq<char>) -> TokenMapView {
        if self.forward.contains_key(value) {
            self
        } else {
            let tok = token_text(ty, self.counter(ty) as nat + 1);
            TokenMapView {
                forward: self.forward.insert(value, tok),
                reverse: self.reverse.insert(tok, value),
                counters: self.counters.insert(ty, (self.counter(ty) + 1) as u32),
                order: self.order.push(tok),
            }
        }
    }
}

/// Applies the replacements of `e` to `s`, first to last.
pub open spec fn replaced_in_turn(s: Seq<char>, e: Seq<(Seq<char>, Seq<char>)>) -> Seq<char>
    decreases e.len(),
{
    if e.len() == 0 {
        s
    } else {
        replaced_in_turn(replaced(s, e[0].0, e[0].1), e.drop_first())
    }
}

/// `out` is `text` with every token of `reverse` replaced by its real value, the
/// tokens taken one after the other in some order.
pub open spec fn is_rehydration(
    reverse: Map<Seq<char>, Seq<char>>,
    text: Seq<char>,
    out: Seq<char>,
) -> bool {
    exists|e: Seq<(Seq<char>, Seq<char>)>|
        enumerates(e, reverse) && out == #[trigger] replaced_in_turn(text, e)
}

/// The tokens of `m` with their real values, the latest issued first. A real value
/// can hold a token issued before it (a URL around an e-mail token), never one issued
/// after it, so replacing in this order resolves tokens inside real values too.
pub open spec fn latest_first(m: TokenMapView) -> Seq<(Seq<char>, Seq<char>)> {
    Seq::new(
        m.order.len(),
        |i: int| (m.order[m.order.len() - 1 - i], m.reverse[m.order[m.order.len() - 1 - i]]),
    )
}

/// The latest-first order lists every token of the map exactly once.
pub proof fn lemma_latest_first_enumerates(m: TokenMapView)
    requires
        m.wf(),
    ensures
        enumerates(latest_first(m), m.reverse),
{
    let e = latest_first(m);
    let n = m.order.len();
    assert forall|i: int| 0 <= i < e.len() implies #[trigger] m.reverse.contains_key(e[i].0) && m.reverse[e[i].0] == e[i].1 by {
        assert(m.reverse.contains_key(m.order[n - 1 - i]));
    }
    assert forall|k: Seq<char>| #[trigger] m.reverse.contains_key(k) implies exists|i: int| 0 <= i < e.len() && e[i].0 == k by {
        let j = choose|j: int| 0 <= j < n && m.order[j] == k;
        assert(e[n - 1 - j].0 == k);
    }
    assert forall|i: int, j: int| 0 <= i < e.len() && 0 <= j < e.len() && i != j implies e[i].0 != e[j].0 by {
        if n - 1 - i < n - 1 - j {
            assert(m.order[n - 1 - i] != m.order[n - 1 - j]);
        } else {
            assert(m.order[n - 1 - j] != m.order[n - 1 - i]);
        }
    }
}

/// A token issued for a fresh value is not in the map yet.
proof fn lemma_fresh_token(m: TokenMapView, ty: Seq<char>)
    requires
        m.wf(),
        m.counter(ty) < u32::MAX,
    ensures
        !m.reverse.contains_key(token_text(ty, m.counter(ty) as nat + 1)),
{
    let tok = token_text(ty, m.counter(ty) as nat + 1);
    if m.reverse.contains_key(tok) {
        let (ty2, n2) = choose|ty2: Seq<char>, n2: nat| m.issued(ty2, n2) && tok == token_text(ty2, n2);
        lemma_token_text_injective(ty, m.counter(ty) as nat + 1, ty2, n2);
    }
}

/// Tokenizing keeps the invariant.
pub proof fn lemma_tokenize_keeps_wf(m: TokenMapView, value: Seq<char>, ty: Seq<char>)
    requires
        m.wf(),
        m.can_tokenize(value, ty),
    ensures
        m.after_tokenize(value, ty).wf(),
{
    if !m.forward.contains_key(value) {
        let n = m.counter(ty) as nat + 1;
        let tok = token_text(ty, n);
        let m2 = m.after_tokenize(value, ty);
        lemma_fresh_token(m, ty);
        assert forall|r: Seq<char>| #[trigger] m2.forward.contains_key(r) implies m2.reverse.contains_key(
            m2.forward[r],
        ) && m2.reverse[m2.forward[r]] == r by {
            if r != value {
                assert(m.forward.contains_key(r));
                assert(m.reverse.contains_key(m.forward[r]));
            }
        }
        assert forall|t: Seq<char>| #[trigger] m2.reverse.contains_key(t) implies m2.forward.contains_key(
            m2.reverse[t],
        ) && m2.forward[m2.reverse[t]] == t by {
            if t != tok {
                assert(m.reverse.contains_key(t));
                assert(m.forward.contains_key(m.reverse[t]));
            }
        }
        assert forall|t: Seq<char>| #[trigger] m2.reverse.contains_key(t) implies exists|
            ty2: Seq<char>,
            n2: nat,
        | m2.issued(ty2, n2) && t == #[trigger] token_text(ty2, n2) by {
            if t == tok {
                assert(m2.issued(ty, n));
            } else {
                assert(m.reverse.contains_key(t));
                let (ty2, n2) = choose|ty2: Seq<char>, n2: nat| m.issued(ty2, n2) && t == token_text(ty2, n2);
                assert(m2.issued(ty2, n2));
            }
        }
        assert forall|k: int| 0 <= k < m2.order.len() implies #[trigger] m2.reverse.contains_key(m2.order[k]) by {
            if k < m.order.len() {
                assert(m2.order[k] == m.order[k]);
                assert(m.reverse.contains_key(m.order[k]));
            }
        }
        assert forall|t: Seq<char>| #[trigger] m2.reverse.contains_key(t) implies exists|k: int| 0 <= k < m2.order.len() && m2.order[k] == t by {
            if t == tok {
                assert(m2.order[m.order.len() as int] == tok);
            } else {
                assert(m.reverse.contains_key(t));
                let k = choose|k: int| 0 <= k < m.order.len() && m.order[k] == t;
                assert(m2.order[k] == t);
            }
        }
        assert forall|a: int, b: int| 0 <= a < b < m2.order.len() implies m2.order[a] != m2.order[b] by {
            if b == m.order.len() {
                assert(m.reverse.contains_key(m.order[a]));
                assert(m2.order[a] == m.order[a]);
            } else {
                assert(m2.order[a] == m.order[a]);
                assert(m2.order[b] == m.order[b]);
            }
        }
    }
}

/// A real value keeps its token: tokenizing it again, as any type, gives the same
/// token and changes nothing.
pub proof fn lemma_tokenize_is_stable(
    m: TokenMapView,
    value: Seq<char>,
    ty: Seq<char>,
    other_ty: Seq<char>,
)
    requires
        m.wf(),
        m.can_tokenize(value, ty),
    ensures
        m.after_tokenize(value, ty).can_tokenize(value, other_ty),
        m.after_tokenize(value, ty).token_for(value, other_ty) == m.token_for(value, ty),
        m.after_tokenize(value, ty).after_tokenize(value, other_ty) == m.after_tokenize(value, ty),
{
}

/// What a tokenize writes, a rehydrate reads back: the token maps to the real value.
pub proof fn lemma_tokenize_then_rehydrate(m: TokenMapView, value: Seq<char>, ty: Seq<char>)
    requires
        m.wf(),
        m.can_tokenize(value, ty),
    ensures
        m.after_tokenize(value, ty).reverse.contains_key(m.token_for(value, ty)),
        m.after_tokenize(value, ty).reverse[m.token_for(value, ty)] == value,
{
}

/// Different real values never share a token.
pub proof fn lemma_tokens_are_distinct(m: TokenMapView, r1: Seq<char>, r2: Seq<char>)
    requires
        m.wf(),
        m.forward.contains_key(r1),
        m.forward.contains_key(r2),
        r1 != r2,
    ensures
        m.forward[r1] != m.forward[r2],
{
    assert(m.reverse[m.forward[r1]] == r1);
    assert(m.reverse[m.forward[r2]] == r2);
}

/// Tokenizing forgets nothing: every earlier pair stays, and counts never go down.
pub proof fn lemma_tokenize_only_adds(m: TokenMapView, value: Seq<char>, ty: Seq<char>)
    requires
        m.wf(),
        m.can_tokenize(value, ty),
    ensures
        m.forward.submap_of(m.after_tokenize(value, ty).forward),
        m.reverse.submap_of(m.after_tokenize(value, ty).reverse),
        forall|t: Seq<char>| m.counter(t) <= #[trigger] m.after_tokenize(value, ty).counter(t),
        keeps(m, m.after_tokenize(value, ty)),
{
    if !m.forward.contains_key(value) {
        lemma_fresh_token(m, ty);
    }
}

/// A text in which no token occurs is left as it is by rehydration.
pub proof fn lemma_rehydrate_plain_text(reverse: Map<Seq<char>, Seq<char>>, text: Seq<char>, out: Seq<char>)
    requires
        forall|t: Seq<char>| #[trigger] reverse.contains_key(t) ==> t.len() > 0 && !contains(text, t),
        is_rehydration(reverse, text, out),
    ensures
        out == text,
{
    let e = choose|e: Seq<(Seq<char>, Seq<char>)>| enumerates(e, reverse) && out == #[trigger] replaced_in_turn(text, e);
    assert forall|i: int| 0 <= i < e.len() implies (#[trigger] e[i]).0.len() > 0 && !contains(text, e[i].0) by {
        assert(reverse.contains_key(e[i].0));
    }
    lemma_replaced_in_turn_absent(e, text);
}

proof fn lemma_replaced_in_turn_absent(e: Seq<(Seq<char>, Seq<char>)>, text: Seq<char>)
    requires
        forall|i: int| 0 <= i < e.len() ==> (#[trigger] e[i]).0.len() > 0 && !contains(text, e[i].0),
    ensures
        replaced_in_turn(text, e) == text,
    decreases e.len(),
{
    if e.len() > 0 {
        lemma_replaced_absent(text, e[0].0, e[0].1);
        assert forall|i: int| 0 <= i < e.drop_first().len() implies (#[trigger] e.drop_first()[i]).0.len() > 0
            && !contains(text, e.drop_first()[i].0) by {
            assert(e.drop_first()[i] == e[i + 1]);
        }
        lemma_replaced_in_turn_absent(e.drop_first(), text);
    }
}

/// `m2` keeps everything `m` holds: every pair in both directions, and counts that
/// never went down.
pub open spec fn keeps(m: TokenMapView, m2: TokenMapView) -> bool {
    &&& m.forward.submap_of(m2.forward)
    &&& m.reverse.submap_of(m2.reverse)
    &&& forall|t: Seq<char>| m.counter(t) <= #[trigger] m2.counter(t)
}

/// Keeping is transitive.
pub proof fn lemma_keeps_trans(m1: TokenMapView, m2: TokenMapView, m3: TokenMapView)
    requires
        keeps(m1, m2),
        keeps(m2, m3),
    ensures
        keeps(m1, m3),
{
    vstd::map_lib::lemma_submap_of_trans(m1.forward, m2.forward, m3.forward);
    vstd::map_lib::lemma_submap_of_trans(m1.reverse, m2.reverse, m3.reverse);
    assert forall|t: Seq<char>| m1.counter(t) <= #[trigger] m3.counter(t) by {
        assert(m1.counter(t) <= m2.counter(t));
        assert(m2.counter(t) <= m3.counter(t));
    }
}

/// A text in which `from` does not occur is left as it is.
pub proof fn lemma_replaced_absent(s: Seq<char>, from: Seq<char>, to: Seq<char>)
    requires
        from.len() > 0,
        !contains(s, from),
    ensures
        replaced(s, from, to) == s,
    decreases s.len(),
{
    if s.len() >= from.len() {
        assert(!occurs_at(s, from, 0));
        assert(s.subrange(0, from.len() as int) =~= s.take(from.len() as int));
        assert forall|i: int| !occurs_at(s.skip(1), from, i) by {
            if occurs_at(s.skip(1), from, i) {
                assert(s.skip(1).subrange(i, i + from.len()) =~= s.subrange(i + 1, i + 1 + from.len()));
                assert(occurs_at(s, from, i + 1));
            }
        }
        lemma_replaced_absent(s.skip(1), from, to);
        assert(seq![s[0]] + s.skip(1) =~= s);
    }
}

/// A token replaced in itself gives the real value.
proof fn lemma_replaced_whole(t: Seq<char>, r: Seq<char>)
    requires
        t.len() > 0,
    ensures
        replaced(t, t, r) == r,
{
    assert(t.take(t.len() as int) =~= t);
    assert(t.skip(t.len() as int) =~= Seq::<char>::empty());
    assert(replaced(Seq::<char>::empty(), t, r) == Seq::<char>::empty());
    assert(r + Seq::<char>::empty() =~= r);
}

proof fn lemma_round_trip_steps(
    e: Seq<(Seq<char>, Seq<char>)>,
    s: Seq<char>,
    token: Seq<char>,
    value: Seq<char>,
)
    requires
        token.len() > 0,
        forall|i: int, j: int| 0 <= i < e.len() && 0 <= j < e.len() && i != j ==> e[i].0 != e[j].0,
        forall|i: int| 0 <= i < e.len() ==> (#[trigger] e[i]).0.len() > 0,
        forall|i: int|
            0 <= i < e.len() && (#[trigger] e[i]).0 != token ==> !contains(token, e[i].0) && !contains(
                value,
                e[i].0,
            ),
        forall|i: int| 0 <= i < e.len() && (#[trigger] e[i]).0 == token ==> e[i].1 == value,
        (s == token && exists|i: int| 0 <= i < e.len() && (#[trigger] e[i]).0 == token) || (s == value
            && forall|i: int| 0 <= i < e.len() ==> (#[trigger] e[i]).0 != token),
    ensures
        replaced_in_turn(s, e) == value,
    decreases e.len(),
{
    if e.len() > 0 {
        let rest = e.drop_first();
        if e[0].0 == token {
            lemma_replaced_whole(token, value);
            assert forall|i: int| 0 <= i < rest.len() implies (#[trigger] rest[i]).0 != token by {
                assert(rest[i] == e[i + 1]);
            }
            lemma_round_trip_steps(rest, value, token, value);
        } else {
            lemma_replaced_absent(s, e[0].0, e[0].1);
            if s == token && exists|i: int| 0 <= i < e.len() && (#[trigger] e[i]).0 == token {
                let i = choose|i: int| 0 <= i < e.len() && (#[trigger] e[i]).0 == token;
                assert(rest[i - 1] == e[i]);
            }
            assert forall|i: int| 0 <= i < rest.len() implies #[trigger] rest[i] == e[i + 1] by {}
            lemma_round_trip_steps(rest, s, token, value);
        }
    }
}

/// What `tokenize` wrote, `rehydrate_text` reads back: rehydrating a token gives its
/// real value, provided no other token occurs in the token or in the value.
pub proof fn lemma_rehydrate_token(m: TokenMapView, value: Seq<char>, out: Seq<char>)
    requires
        m.wf(),
        m.forward.contains_key(value),
        forall|t: Seq<char>|
            #[trigger] m.reverse.contains_key(t) && t != m.forward[value] ==> !contains(
                m.forward[value],
                t,
            ) && !contains(value, t),
        is_rehydration(m.reverse, m.forward[value], out),
    ensures
        out == value,
{
    let token = m.forward[value];
    let e = choose|e: Seq<(Seq<char>, Seq<char>)>|
        enumerates(e, m.reverse) && out == #[trigger] replaced_in_turn(token, e);
    assert(m.reverse.contains_key(token));
    let (ty, n) = choose|ty: Seq<char>, n: nat| m.issued(ty, n) && token == token_text(ty, n);
    assert(token[0] == '[');
    assert forall|i: int| 0 <= i < e.len() implies (#[trigger] e[i]).0.len() > 0 by {
        assert(m.reverse.contains_key(e[i].0));
        let (ty2, n2) = choose|ty2: Seq<char>, n2: nat| m.issued(ty2, n2) && e[i].0 == token_text(ty2, n2);
        assert(e[i].0[0] == '[');
    }
    assert forall|i: int| 0 <= i < e.len() && (#[trigger] e[i]).0 != token implies !contains(
        token,
        e[i].0,
    ) && !contains(value, e[i].0) by {
        assert(m.reverse.contains_key(e[i].0));
    }
    lemma_round_trip_steps(e, token, token, value);
}

/// Session-scoped store of real values and their tokens.
pub struct TokenMap {
    /// value to token
    forward: DashMap<String, String>,
    /// token to value
    reverse: DashMap<String, String>,
    /// entity type to the count of tokens issued for it
    counters: DashMap<String, u32>,
    /// the tokens, in the order they were issued
    order: Vec<String>,
}

impl View for TokenMap {
    type V = TokenMapView;

    closed spec fn view(&self) -> TokenMapView {
        TokenMapView {
            forward: text_map_contents(self.forward),
            reverse: text_map_contents(self.reverse),
            counters: count_map_contents(self.counters),
            order: self.order@.map_values(|t: String| t@),
        }
    }
}

impl TokenMap {
    /// An empty map.
    pub fn new() -> (res: Self)
        ensures
            res@.wf(),
            res@.forward == Map::<Seq<char>, Seq<char>>::empty(),
            res@.reverse == Map::<Seq<char>, Seq<char>>::empty(),
            res@.counters == Map::<Seq<char>, u32>::empty(),
            res@.order == Seq::<Seq<char>>::empty(),
    {
        let res = TokenMap {
            forward: new_text_map(),
            reverse: new_text_map(),
            counters: new_count_map(),
            order: Vec::new(),
        };
        assert(res@.order =~= Seq::<Seq<char>>::empty());
        assert(res@.forward.dom() =~= Set::<Seq<char>>::empty());
        assert(res@.reverse.dom() =~= Set::<Seq<char>>::empty());
        res
    }

    /// How many tokens of type `entity_type` have been issued.
    pub fn counter(&self, entity_type: &str) -> (res: u32)
        ensures
            res == self@.counter(entity_type@),
    {
        match count_map_get(&self.counters, entity_type) {
            Some(n) => n,
            None => 0,
        }
    }

    /// Whether `tokenize(value, entity_type)` can be called: the value has a token
    /// already, or the type's count has room for one more.
    pub fn can_tokenize(&self, value: &str, entity_type: &str) -> (res: bool)
        ensures
            res == self@.can_tokenize(value@, entity_type@),
    {
        match text_map_get(&self.forward, value) {
            Some(_) => true,
            None => self.counter(entity_type) < u32::MAX,
        }
    }

    /// Get or create a token for a real value.
    /// Same real value always returns same token within session.
    pub fn tokenize(&mut self, value: &str, entity_type: &str) -> (token: String)
        requires
            old(self)@.wf(),
            old(self)@.can_tokenize(value@, entity_type@),
        ensures
            final(self)@.wf(),
            token@ == old(self)@.token_for(value@, entity_type@),
            final(self)@ == old(self)@.after_tokenize(value@, entity_type@),
    {
        proof {
            lemma_tokenize_keeps_wf(self@, value@, entity_type@);
        }
        if let Some(tok) = text_map_get(&self.forward, value) {
            return tok;
        }
        let c = self.counter(entity_type);
        let n = c + 1;
        let token = format_token(entity_type, n);
        text_map_insert(&mut self.forward, owned(value), token.clone());
        text_map_insert(&mut self.reverse, token.clone(), owned(value));
        count_map_insert(&mut self.counters, owned(entity_type), n);
        self.order.push(token.clone());
        assert(self@.order =~= old(self)@.order.push(token@));
        token
    }

    /// Reverse: token → real value.
    pub fn rehydrate(&self, token: &str) -> (res: Option<String>)
        ensures
            res is Some <==> self@.reverse.contains_key(token@),
            res matches Some(v) ==> v@ == self@.reverse[token@],
    {
        text_map_get(&self.reverse, token)
    }

    /// Apply full rehydration pass to a string — replaces all tokens with real
    /// values, the latest issued first (see `latest_first`).
    pub fn rehydrate_text(&self, text: &str) -> (res: String)
        requires
            self@.wf(),
        ensures
            res@ == replaced_in_turn(text@, latest_first(self@)),
            is_rehydration(self@.reverse, text@, res@),
    {
        let ghost e = latest_first(self@);
        let n = self.order.len();
        let mut result = owned(text);
        let mut i: usize = 0;
        assert(e.skip(0) =~= e);
        while i < n
            invariant
                self@.wf(),
                n == self.order@.len(),
                e == latest_first(self@),
                i <= n,
                replaced_in_turn(text@, e) == replaced_in_turn(result@, e.skip(i as int)),
            decreases n - i,
        {
            let token = &self.order[n - 1 - i];
            proof {
                assert(self@.order[n - 1 - i] == token@);
                assert(self@.reverse.contains_key(token@));
                let (ty, k) = choose|ty: Seq<char>, k: nat| self@.issued(ty, k) && token@ == token_text(ty, k);
                assert(token@[0] == '[');
                assert(e.skip(i as int).drop_first() =~= e.skip(i + 1));
            }
            let value = match text_map_get(&self.reverse, token.as_str()) {
                Some(v) => v,
                None => {
                    proof {
                        assert(false);
                    }
                    owned(token.as_str())
                },
            };
            assert(e.skip(i as int)[0] == (token@, value@));
            result = replace_all(result.as_str(), token.as_str(), value.as_str());
            i = i + 1;
        }
        proof {
            assert(e.skip(i as int) =~= Seq::<(Seq<char>, Seq<char>)>::empty());
            lemma_latest_first_enumerates(self@);
        }
        result
    }

    /// A fresh session identifier: a random version-4 UUID in hyphenated lower-case form.
    pub fn session_id() -> (res: String)
        ensures
            is_uuid_v4_text(res@),
    {
        new_uuid_v4_string()
    }
}

impl Default for TokenMap {
    fn default() -> (res: Self)
        ensures
            res@.wf(),
            res@.forward == Map::<Seq<char>, Seq<char>>::empty(),
            res@.reverse == Map::<Seq<char>, Seq<char>>::empty(),
            res@.counters == Map::<Seq<char>, u32>::empty(),
            res@.order == Seq::<Seq<char>>::empty(),
    {
        Self::new()
    }
}

/// Whether `c` is a lower-case hexadecimal digit.
pub open spec fn is_lower_hex(c: char) -> bool {
    ('0' <= c && c <= '9') || ('a' <= c && c <= 'f')
}

/// The text of a version-4 UUID: 36 characters, hyphens at 8, 13, 18 and 23,
/// lower-case hexadecimal elsewhere, `4` as the version digit and one of
/// `8 9 a b` as the variant digit.
pub open spec fn is_uuid_v4_text(s: Seq<char>) -> bool {
    &&& s.len() == 36
    &&& forall|i: int|
        0 <= i < 36 ==> if i == 8 || i == 13 || i == 18 || i == 23 {
            s[i] == '-'
        } else {
            is_lower_hex(#[trigger] s[i])
        }
    &&& s[14] == '4'
    &&& s[19] == '8' || s[19] == '9' || s[19] == 'a' || s[19] == 'b'
}

/// `uuid::Uuid::new_v4` written with `to_string`: a random version-4 UUID in its
/// hyphenated lower-case form. Which random value it holds is not stated.
#[verifier::external_body]
fn new_uuid_v4_string() -> (res: String)
    ensures
        is_uuid_v4_text(res@),
{
    uuid::Uuid::new_v4().to_string()
}


/// Tokens reveal nothing of the real values: the token a fresh value gets depends
/// only on its type and that type's count, so two maps with the same count give two
/// different fresh values the same token.
pub proof fn lemma_fresh_token_blind(m1: TokenMapView, x: Seq<char>, m2: TokenMapView, y: Seq<char>, ty: Seq<char>)
    requires
        !m1.forward.contains_key(x),
        !m2.forward.contains_key(y),
        m1.counter(ty) == m2.counter(ty),
    ensures
        m1.token_for(x, ty) == m2.token_for(y, ty),
        m1.token_for(x, ty) == token_text(ty, m1.counter(ty) as nat + 1),
{
}

/// A string is a token of the map exactly when some real value was given it, and it
/// then reads back as that value.
pub proof fn lemma_rehydrate_iff_tokenized(m: TokenMapView, t: Seq<char>)
    requires
        m.wf(),
    ensures
        m.reverse.contains_key(t) <==> exists|x: Seq<char>| #[trigger] m.forward.contains_key(x) && m.forward[x] == t,
        m.reverse.contains_key(t) ==> m.forward.contains_key(m.reverse[t]) && m.forward[m.reverse[t]] == t,
{
    if m.reverse.contains_key(t) {
        assert(m.forward.contains_key(m.reverse[t]));
    }
}

} // verus!
