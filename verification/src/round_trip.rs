//! Rehydrating what the anonymiser wrote gives back the text it was given.
use vstd::prelude::*;
use crate::text::replaced;
use crate::token_map::{
    is_rehydration, keeps, lemma_keeps_trans, lemma_tokenize_keeps_wf, lemma_tokenize_only_adds, lemma_tokenize_then_rehydrate,
    replaced_in_turn, TokenMapView, enumerates,
};
use crate::anonymise::{
    anonymised, lemma_splice_keeps, pass, piece, rule_passes, splice_from, AnonymiserView, RuleView,
};
use crate::pattern::{bytes_of, find_spans, lemma_find_spans_valid, spans_valid};
use crate::token::{is_hex_digit, lemma_hex4, hex4, token_text};
use vstd::utf8::*;

verus! {

/// Whether `c` does not occur in `s`.
pub open spec fn free_of(s: Seq<char>, c: char) -> bool {
    forall|i: int| 0 <= i < s.len() ==> s[i] != c
}

/// Whether `t` has the shape of a token: `[`, then no bracket, then `]`.
pub open spec fn token_shaped(t: Seq<char>) -> bool {
    &&& t.len() >= 2
    &&& t[0] == '['
    &&& t[t.len() - 1] == ']'
    &&& forall|i: int| 1 <= i < t.len() - 1 ==> t[i] != '[' && t[i] != ']'
}

/// A text cut into pieces: tokens (`true`) and plain text (`false`).
pub open spec fn flatten(p: Seq<(bool, Seq<char>)>) -> Seq<char>
    decreases p.len(),
{
    if p.len() == 0 {
        Seq::empty()
    } else {
        p[0].1 + flatten(p.drop_first())
    }
}

/// Tokens are token-shaped and plain text holds no `[`.
pub open spec fn pieces_ok(p: Seq<(bool, Seq<char>)>) -> bool {
    forall|i: int|
        0 <= i < p.len() ==> if (#[trigger] p[i]).0 {
            token_shaped(p[i].1)
        } else {
            free_of(p[i].1, '[')
        }
}

/// The pieces after replacing the token `tau` by `rho`.
pub open spec fn step(p: Seq<(bool, Seq<char>)>, tau: Seq<char>, rho: Seq<char>) -> Seq<(bool, Seq<char>)> {
    Seq::new(p.len(), |i: int| if p[i].0 && p[i].1 == tau { (false, rho) } else { p[i] })
}

/// The pieces with every token replaced by its real value in `r`.
pub open spec fn resolved(p: Seq<(bool, Seq<char>)>, r: Map<Seq<char>, Seq<char>>) -> Seq<(bool, Seq<char>)> {
    Seq::new(p.len(), |i: int| if p[i].0 { (false, r[p[i].1]) } else { p[i] })
}

pub proof fn lemma_flatten_concat(a: Seq<(bool, Seq<char>)>, b: Seq<(bool, Seq<char>)>)
    ensures
        flatten(a + b) == flatten(a) + flatten(b),
    decreases a.len(),
{
    if a.len() == 0 {
        assert(a + b =~= b);
        assert(Seq::<char>::empty() + flatten(b) =~= flatten(b));
    } else {
        assert((a + b).drop_first() =~= a.drop_first() + b);
        lemma_flatten_concat(a.drop_first(), b);
        assert(a[0].1 + (flatten(a.drop_first()) + flatten(b)) =~= (a[0].1 + flatten(a.drop_first()))
            + flatten(b));
    }
}

/// Plain text in front is passed over by the replacement.
proof fn lemma_replaced_gap(a: Seq<char>, b: Seq<char>, tau: Seq<char>, rho: Seq<char>)
    requires
        free_of(a, '['),
        tau.len() > 0,
        tau[0] == '[',
    ensures
        replaced(a + b, tau, rho) == a + replaced(b, tau, rho),
    decreases a.len(),
{
    let s = a + b;
    if a.len() == 0 {
        assert(s =~= b);
        assert(a + replaced(b, tau, rho) =~= replaced(b, tau, rho));
    } else if s.len() < tau.len() {
        assert(b.len() < tau.len());
    } else {
        assert(s.take(tau.len() as int)[0] == a[0]);
        assert(s.take(tau.len() as int) != tau);
        assert(s.skip(1) =~= a.skip(1) + b);
        lemma_replaced_gap(a.skip(1), b, tau, rho);
        assert(seq![s[0]] + (a.skip(1) + replaced(b, tau, rho)) =~= a + replaced(b, tau, rho));
    }
}

/// A token in front is replaced exactly when it is `tau`.
proof fn lemma_replaced_token(t: Seq<char>, c: Seq<char>, tau: Seq<char>, rho: Seq<char>)
    requires
        token_shaped(t),
        token_shaped(tau),
    ensures
        replaced(t + c, tau, rho) == (if t == tau {
            rho
        } else {
            t
        }) + replaced(c, tau, rho),
{
    let s = t + c;
    if t == tau {
        assert(s.take(tau.len() as int) =~= tau);
        assert(s.skip(tau.len() as int) =~= c);
    } else if s.len() < tau.len() {
        assert(c.len() < tau.len());
    } else {
        if tau.len() < t.len() {
            let k = tau.len() - 1;
            assert(s.take(tau.len() as int)[k] == t[k]);
            assert(t[k] != ']');
        } else if tau.len() > t.len() {
            let k = t.len() - 1;
            assert(s.take(tau.len() as int)[k] == t[k]);
            assert(tau[k] != ']');
        } else {
            assert(s.take(tau.len() as int) =~= t);
        }
        assert(s.take(tau.len() as int) != tau);
        assert(s.skip(1) =~= t.skip(1) + c);
        lemma_replaced_gap(t.skip(1), c, tau, rho);
        assert(seq![s[0]] + (t.skip(1) + replaced(c, tau, rho)) =~= t + replaced(c, tau, rho));
    }
}

/// Replacing `tau` in the whole text replaces it piece by piece.
proof fn lemma_replaced_pieces(p: Seq<(bool, Seq<char>)>, tau: Seq<char>, rho: Seq<char>)
    requires
        pieces_ok(p),
        token_shaped(tau),
    ensures
        replaced(flatten(p), tau, rho) == flatten(step(p, tau, rho)),
    decreases p.len(),
{
    if p.len() == 0 {
        assert(replaced(Seq::<char>::empty(), tau, rho) == Seq::<char>::empty());
        assert(flatten(step(p, tau, rho)) == Seq::<char>::empty());
    } else {
        let rest = p.drop_first();
        assert(pieces_ok(rest)) by {
            assert forall|i: int| 0 <= i < rest.len() implies if (#[trigger] rest[i]).0 {
                token_shaped(rest[i].1)
            } else {
                free_of(rest[i].1, '[')
            } by {
                assert(rest[i] == p[i + 1]);
            }
        }
        lemma_replaced_pieces(rest, tau, rho);
        assert(step(p, tau, rho).drop_first() =~= step(rest, tau, rho));
        assert(p[0] == p[0]);
        if p[0].0 {
            lemma_replaced_token(p[0].1, flatten(rest), tau, rho);
        } else {
            lemma_replaced_gap(p[0].1, flatten(rest), tau, rho);
        }
    }
}

/// Replacing the tokens of `e` one after the other resolves every token piece, when
/// each token piece is among them and each real value put in holds no `[`.
proof fn lemma_replaced_in_turn_pieces(
    p: Seq<(bool, Seq<char>)>,
    e: Seq<(Seq<char>, Seq<char>)>,
    r: Map<Seq<char>, Seq<char>>,
)
    requires
        pieces_ok(p),
        forall|i: int| 0 <= i < p.len() && (#[trigger] p[i]).0 ==> exists|j: int| 0 <= j < e.len() && e[j].0 == p[i].1,
        forall|i: int| 0 <= i < p.len() && (#[trigger] p[i]).0 ==> r.contains_key(p[i].1) && free_of(r[p[i].1], '['),
        forall|j: int| 0 <= j < e.len() ==> token_shaped((#[trigger] e[j]).0),
        forall|j: int| 0 <= j < e.len() ==> r.contains_key((#[trigger] e[j]).0) && r[e[j].0] == e[j].1,
        forall|i: int, j: int| 0 <= i < e.len() && 0 <= j < e.len() && i != j ==> e[i].0 != e[j].0,
    ensures
        replaced_in_turn(flatten(p), e) == flatten(resolved(p, r)),
    decreases e.len(),
{
    if e.len() == 0 {
        assert forall|i: int| 0 <= i < p.len() implies !(#[trigger] p[i]).0 by {
            if p[i].0 {
                let j = choose|j: int| 0 <= j < e.len() && e[j].0 == p[i].1;
            }
        }
        assert(resolved(p, r) =~= p);
    } else {
        let tau = e[0].0;
        let rho = e[0].1;
        let e2 = e.drop_first();
        let p2 = step(p, tau, rho);
        lemma_replaced_pieces(p, tau, rho);
        assert forall|i: int| 0 <= i < p2.len() implies if (#[trigger] p2[i]).0 {
            token_shaped(p2[i].1)
        } else {
            free_of(p2[i].1, '[')
        } by {
            assert(p[i] == p[i]);
        }
        assert forall|i: int| 0 <= i < p2.len() && (#[trigger] p2[i]).0 implies exists|j: int|
            0 <= j < e2.len() && e2[j].0 == p2[i].1 by {
            assert(p[i] == p[i]);
            let j = choose|j: int| 0 <= j < e.len() && e[j].0 == p[i].1;
            assert(j != 0);
            assert(e2[j - 1] == e[j]);
        }
        assert forall|i: int| 0 <= i < p2.len() && (#[trigger] p2[i]).0 implies r.contains_key(p2[i].1)
            && free_of(r[p2[i].1], '[') by {
            assert(p[i] == p[i]);
        }
        assert forall|j: int| 0 <= j < e2.len() implies token_shaped((#[trigger] e2[j]).0) && r.contains_key(
            e2[j].0,
        ) && r[e2[j].0] == e2[j].1 by {
            assert(e2[j] == e[j + 1]);
        }
        assert forall|i: int, j: int| 0 <= i < e2.len() && 0 <= j < e2.len() && i != j implies e2[i].0
            != e2[j].0 by {
            assert(e2[i] == e[i + 1]);
            assert(e2[j] == e[j + 1]);
        }
        lemma_replaced_in_turn_pieces(p2, e2, r);
        assert(resolved(p2, r) =~= resolved(p, r)) by {
            assert forall|i: int| 0 <= i < p.len() implies #[trigger] resolved(p2, r)[i] == resolved(p, r)[i] by {
                assert(p[i] == p[i]);
            }
        }
    }
}

/// Boundaries of `b` inside `b[p..r]` are boundaries of that slice, and the slice is
/// valid UTF-8.
proof fn lemma_sub_boundary(b: Seq<u8>, p: int, r: int, k: int)
    requires
        valid_utf8(b),
        is_char_boundary(b, p),
        is_char_boundary(b, r),
        is_char_boundary(b, k),
        0 <= p <= k <= r <= b.len(),
    ensures
        valid_utf8(b.subrange(p, r)),
        is_char_boundary(b.subrange(p, r), k - p),
{
    let t = b.subrange(p, b.len() as int);
    valid_utf8_split(b, p);
    crate::anonymise::lemma_suffix_boundary(b, p, r);
    valid_utf8_split(t, r - p);
    assert(t.subrange(0, r - p) =~= b.subrange(p, r));
    let c = b.subrange(p, r);
    is_char_boundary_start_end_of_seq(c);
    if k < r {
        is_char_boundary_iff_not_is_continuation_byte(b, k);
        is_char_boundary_iff_not_is_continuation_byte(c, k - p);
    } else {
        assert(c.len() == k - p);
    }
}

/// Decoding adjacent slices and joining them decodes the joined slice.
pub proof fn lemma_piece_concat(b: Seq<u8>, p: int, q: int, r: int)
    requires
        valid_utf8(b),
        is_char_boundary(b, p),
        is_char_boundary(b, q),
        is_char_boundary(b, r),
        0 <= p <= q <= r <= b.len(),
    ensures
        piece(b, p, q) + piece(b, q, r) == piece(b, p, r),
{
    lemma_sub_boundary(b, p, r, q);
    let c = b.subrange(p, r);
    decode_utf8_split(c, q - p);
    assert(c.subrange(0, q - p) =~= b.subrange(p, q));
    assert(c.subrange(q - p, c.len() as int) =~= b.subrange(q, r));
}

proof fn lemma_submap_get(a: Map<Seq<char>, Seq<char>>, b: Map<Seq<char>, Seq<char>>, k: Seq<char>)
    requires
        a.submap_of(b),
        a.contains_key(k),
    ensures
        b.contains_key(k),
        b[k] == a[k],
{
    assert(a.dom().contains(k));
    assert(b.dom().contains(k));
    assert(a.index(k) == b.index(k));
}

/// A token of a type without brackets is token-shaped.
proof fn lemma_token_text_shaped(ty: Seq<char>, n: nat)
    requires
        free_of(ty, '['),
        free_of(ty, ']'),
    ensures
        token_shaped(token_text(ty, n)),
{
    lemma_hex4(n);
    let t = token_text(ty, n);
    let h = hex4(n);
    assert forall|i: int| 1 <= i < t.len() - 1 implies t[i] != '[' && t[i] != ']' by {
        if i < 1 + ty.len() {
            assert(t[i] == ty[i - 1]);
        } else if i == 1 + ty.len() {
            assert(t[i] == '_');
        } else {
            assert(t[i] == h[i - 2 - ty.len()]);
            assert(is_hex_digit(h[i - 2 - ty.len()]));
        }
    }
}

/// All tokens of the map are token-shaped.
pub open spec fn tokens_shaped(m: TokenMapView) -> bool {
    forall|t: Seq<char>| #[trigger] m.reverse.contains_key(t) ==> token_shaped(t)
}

/// The index of the `]` that closes a token, searching from `j`: the first bracket at
/// or after `j` where it is a `]`; `None` where a `[` comes first or none follows.
pub open spec fn close_at(t: Seq<char>, j: int) -> Option<int>
    decreases t.len() - j,
{
    if j < 0 || j >= t.len() {
        None
    } else if t[j] == ']' {
        Some(j)
    } else if t[j] == '[' {
        None
    } else {
        close_at(t, j + 1)
    }
}

/// `t` cut into pieces: each token `[...]` one piece, each other character a plain
/// piece of its own; `None` where a `[` is not closed before the next `[`.
pub open spec fn parse(t: Seq<char>) -> Option<Seq<(bool, Seq<char>)>>
    decreases t.len(),
{
    if t.len() == 0 {
        Some(Seq::empty())
    } else if t[0] == '[' {
        match close_at(t, 1) {
            Some(j) => if 1 <= j < t.len() {
                match parse(t.skip(j + 1)) {
                    Some(p) => Some(seq![(true, t.take(j + 1))] + p),
                    None => None,
                }
            } else {
                None
            },
            None => None,
        }
    } else {
        match parse(t.skip(1)) {
            Some(p) => Some(seq![(false, seq![t[0]])] + p),
            None => None,
        }
    }
}

/// What `t` stands for once each of its tokens is replaced by its value in `r`.
pub open spec fn meaning(t: Seq<char>, r: Map<Seq<char>, Seq<char>>) -> Seq<char> {
    flatten(resolved(parse(t).unwrap(), r))
}

/// Every token piece of `p` has a value in `r`, and that value holds no `[`.
pub open spec fn tokens_known(p: Seq<(bool, Seq<char>)>, r: Map<Seq<char>, Seq<char>>) -> bool {
    forall|k: int|
        0 <= k < p.len() && (#[trigger] p[k]).0 ==> r.contains_key(p[k].1) && free_of(r[p[k].1], '[')
}

proof fn lemma_close_at(t: Seq<char>, k: int)
    requires
        close_at(t, k) is Some,
    ensures
        k <= close_at(t, k).unwrap() < t.len(),
        0 <= k,
        t[close_at(t, k).unwrap()] == ']',
        forall|i: int| k <= i < close_at(t, k).unwrap() ==> t[i] != '[' && t[i] != ']',
    decreases t.len() - k,
{
    if t[k] != ']' {
        lemma_close_at(t, k + 1);
    }
}

proof fn lemma_close_at_found(t: Seq<char>, k: int, j: int)
    requires
        0 <= k <= j < t.len(),
        t[j] == ']',
        forall|i: int| k <= i < j ==> t[i] != '[' && t[i] != ']',
    ensures
        close_at(t, k) == Some(j),
    decreases j - k,
{
    if k < j {
        lemma_close_at_found(t, k + 1, j);
    }
}

/// A token found in `x` is found the same in `x + y`.
proof fn lemma_close_at_concat(x: Seq<char>, y: Seq<char>, k: int)
    requires
        close_at(x, k) is Some,
    ensures
        close_at(x + y, k) == close_at(x, k),
{
    lemma_close_at(x, k);
    let j = close_at(x, k).unwrap();
    assert((x + y)[j] == x[j]);
    assert forall|i: int| k <= i < j implies (x + y)[i] != '[' && (x + y)[i] != ']' by {
        assert((x + y)[i] == x[i]);
    }
    lemma_close_at_found(x + y, k, j);
}

proof fn lemma_flatten_cons(a: (bool, Seq<char>), p: Seq<(bool, Seq<char>)>)
    ensures
        flatten(seq![a] + p) == a.1 + flatten(p),
{
    assert((seq![a] + p).drop_first() =~= p);
}

/// The pieces of a text join back into it, and they are well-formed.
pub proof fn lemma_parse_flatten(t: Seq<char>)
    requires
        parse(t) is Some,
    ensures
        flatten(parse(t).unwrap()) == t,
        pieces_ok(parse(t).unwrap()),
    decreases t.len(),
{
    if t.len() == 0 {
    } else if t[0] == '[' {
        let j = close_at(t, 1).unwrap();
        lemma_close_at(t, 1);
        let rest = t.skip(j + 1);
        lemma_parse_flatten(rest);
        let tok = t.take(j + 1);
        let p = parse(t).unwrap();
        let pr = parse(rest).unwrap();
        assert(p == seq![(true, tok)] + pr);
        lemma_flatten_cons((true, tok), pr);
        assert(tok + rest =~= t);
        assert(token_shaped(tok)) by {
            assert forall|i: int| 1 <= i < tok.len() - 1 implies tok[i] != '[' && tok[i] != ']' by {
                assert(tok[i] == t[i]);
            }
        }
        assert forall|i: int| 0 <= i < p.len() implies if (#[trigger] p[i]).0 {
            token_shaped(p[i].1)
        } else {
            free_of(p[i].1, '[')
        } by {
            if i > 0 {
                assert(p[i] == pr[i - 1]);
            }
        }
    } else {
        let rest = t.skip(1);
        lemma_parse_flatten(rest);
        let p = parse(t).unwrap();
        let pr = parse(rest).unwrap();
        lemma_flatten_cons((false, seq![t[0]]), pr);
        assert(seq![t[0]] + rest =~= t);
        assert forall|i: int| 0 <= i < p.len() implies if (#[trigger] p[i]).0 {
            token_shaped(p[i].1)
        } else {
            free_of(p[i].1, '[')
        } by {
            if i > 0 {
                assert(p[i] == pr[i - 1]);
            }
        }
    }
}

/// Two texts that cut into pieces cut, joined, into their pieces joined.
pub proof fn lemma_parse_concat(x: Seq<char>, y: Seq<char>)
    requires
        parse(x) is Some,
        parse(y) is Some,
    ensures
        parse(x + y) == Some(parse(x).unwrap() + parse(y).unwrap()),
    decreases x.len(),
{
    let px = parse(x).unwrap();
    let py = parse(y).unwrap();
    if x.len() == 0 {
        assert(x + y =~= y);
        assert(px + py =~= py);
    } else if x[0] == '[' {
        let j = close_at(x, 1).unwrap();
        lemma_close_at(x, 1);
        lemma_close_at_concat(x, y, 1);
        let rest = x.skip(j + 1);
        lemma_parse_concat(rest, y);
        assert((x + y)[0] == '[');
        assert((x + y).skip(j + 1) =~= rest + y);
        assert((x + y).take(j + 1) =~= x.take(j + 1));
        let head = seq![(true, x.take(j + 1))];
        assert(px == head + parse(rest).unwrap());
        assert(head + (parse(rest).unwrap() + py) =~= px + py);
    } else {
        let rest = x.skip(1);
        lemma_parse_concat(rest, y);
        assert((x + y)[0] == x[0]);
        assert((x + y).skip(1) =~= rest + y);
        let head = seq![(false, seq![x[0]])];
        assert(px == head + parse(rest).unwrap());
        assert(head + (parse(rest).unwrap() + py) =~= px + py);
    }
}

/// Where `x + y` and `x` cut into pieces, so does `y`.
pub proof fn lemma_parse_split(x: Seq<char>, y: Seq<char>)
    requires
        parse(x + y) is Some,
        parse(x) is Some,
    ensures
        parse(y) is Some,
    decreases x.len(),
{
    if x.len() == 0 {
        assert(x + y =~= y);
    } else if x[0] == '[' {
        let j = close_at(x, 1).unwrap();
        lemma_close_at(x, 1);
        lemma_close_at_concat(x, y, 1);
        assert((x + y)[0] == '[');
        assert((x + y).skip(j + 1) =~= x.skip(j + 1) + y);
        lemma_parse_split(x.skip(j + 1), y);
    } else {
        assert((x + y)[0] == x[0]);
        assert((x + y).skip(1) =~= x.skip(1) + y);
        lemma_parse_split(x.skip(1), y);
    }
}

/// Text without `[` is plain: its pieces are its characters, and it stands for itself.
pub proof fn lemma_parse_plain(t: Seq<char>, r: Map<Seq<char>, Seq<char>>)
    requires
        free_of(t, '['),
    ensures
        parse(t) is Some,
        forall|k: int| 0 <= k < parse(t).unwrap().len() ==> !(#[trigger] parse(t).unwrap()[k]).0,
        meaning(t, r) == t,
    decreases t.len(),
{
    if t.len() > 0 {
        let rest = t.skip(1);
        assert(free_of(rest, '[')) by {
            assert forall|i: int| 0 <= i < rest.len() implies rest[i] != '[' by {
                assert(rest[i] == t[i + 1]);
            }
        }
        assert(t[0] != '[');
        lemma_parse_plain(rest, r);
        let p = parse(t).unwrap();
        let pr = parse(rest).unwrap();
        assert(p == seq![(false, seq![t[0]])] + pr);
        assert forall|k: int| 0 <= k < p.len() implies !(#[trigger] p[k]).0 by {
            if k > 0 {
                assert(p[k] == pr[k - 1]);
            }
        }
        assert(resolved(p, r) =~= p);
        assert(resolved(pr, r) =~= pr);
        lemma_parse_flatten(t);
        lemma_parse_flatten(rest);
    } else {
        assert(resolved(parse(t).unwrap(), r) =~= Seq::<(bool, Seq<char>)>::empty());
    }
}

/// A token is one piece.
pub proof fn lemma_parse_token(t: Seq<char>)
    requires
        token_shaped(t),
    ensures
        parse(t) == Some(seq![(true, t)]),
{
    lemma_close_at_found(t, 1, t.len() - 1);
    assert(t.skip(t.len() as int) =~= Seq::<char>::empty());
    assert(parse(t.skip(t.len() as int)) == Some(Seq::<(bool, Seq<char>)>::empty()));
    assert(t.take(t.len() as int) =~= t);
    assert(seq![(true, t)] + Seq::<(bool, Seq<char>)>::empty() =~= seq![(true, t)]);
}

/// Resolving joined pieces joins the resolved pieces.
pub proof fn lemma_resolved_concat(a: Seq<(bool, Seq<char>)>, b: Seq<(bool, Seq<char>)>, r: Map<Seq<char>, Seq<char>>)
    ensures
        flatten(resolved(a + b, r)) == flatten(resolved(a, r)) + flatten(resolved(b, r)),
{
    assert(resolved(a + b, r) =~= resolved(a, r) + resolved(b, r));
    lemma_flatten_concat(resolved(a, r), resolved(b, r));
}

/// Resolving with a larger map changes nothing where every token is known.
pub proof fn lemma_resolved_grow(p: Seq<(bool, Seq<char>)>, r1: Map<Seq<char>, Seq<char>>, r2: Map<Seq<char>, Seq<char>>)
    requires
        tokens_known(p, r1),
        r1.submap_of(r2),
    ensures
        resolved(p, r1) == resolved(p, r2),
        tokens_known(p, r2),
{
    assert forall|k: int| 0 <= k < p.len() && (#[trigger] p[k]).0 implies r2.contains_key(p[k].1) && r2[p[k].1] == r1[p[k].1] by {
        lemma_submap_get(r1, r2, p[k].1);
    }
    assert(resolved(p, r1) =~= resolved(p, r2));
}


/// Every span lies in plain text: the text before it cuts into pieces, and the span
/// itself holds no `[`.
pub open spec fn respects_tokens(text: Seq<char>, spans: Seq<(usize, usize)>) -> bool {
    forall|i: int|
        0 <= i < spans.len() ==> parse(piece(bytes_of(text), 0, (#[trigger] spans[i]).0 as int)) is Some
            && free_of(piece(bytes_of(text), spans[i].0 as int, spans[i].1 as int), '[')
}

/// A splice whose spans lie in plain text keeps what the text stands for: its output
/// cuts into pieces whose tokens the new map knows, and it stands for the text from
/// `pos` on.
#[verifier::rlimit(80)]
proof fn lemma_splice_meaning(
    text: Seq<char>,
    spans: Seq<(usize, usize)>,
    i: int,
    pos: int,
    ty: Seq<char>,
    m: TokenMapView,
)
    requires
        m.wf(),
        tokens_shaped(m),
        free_of(ty, '['),
        free_of(ty, ']'),
        spans_valid(bytes_of(text), spans),
        respects_tokens(text, spans),
        0 <= i <= spans.len(),
        0 <= pos <= bytes_of(text).len(),
        is_char_boundary(bytes_of(text), pos),
        i < spans.len() ==> pos <= spans[i].0,
        parse(piece(bytes_of(text), 0, pos)) is Some,
        parse(piece(bytes_of(text), pos, bytes_of(text).len() as int)) is Some,
        tokens_known(parse(piece(bytes_of(text), pos, bytes_of(text).len() as int)).unwrap(), m.reverse),
        splice_from(text, spans, i, pos, ty, None, m) is Some,
    ensures
        ({
            let (out, m2, _) = splice_from(text, spans, i, pos, ty, None, m).unwrap();
            &&& parse(out) is Some
            &&& tokens_known(parse(out).unwrap(), m2.reverse)
            &&& meaning(out, m2.reverse) == meaning(
                piece(bytes_of(text), pos, bytes_of(text).len() as int),
                m.reverse,
            )
            &&& tokens_shaped(m2)
            &&& m2.wf()
            &&& keeps(m, m2)
        }),
    decreases spans.len() - i,
{
    let b = bytes_of(text);
    let len = b.len() as int;
    encode_utf8_valid_utf8(text);
    is_char_boundary_start_end_of_seq(b);
    lemma_splice_keeps(text, spans, i, pos, ty, None, m);
    if i < spans.len() {
        let s = spans[i].0 as int;
        let e = spans[i].1 as int;
        let v = piece(b, s, e);
        let gap = piece(b, pos, s);
        let rest = piece(b, e, len);
        let tok = m.token_for(v, ty);
        let m1 = m.after_tokenize(v, ty);
        assert(m.can_tokenize(v, ty));
        lemma_tokenize_keeps_wf(m, v, ty);
        lemma_tokenize_only_adds(m, v, ty);
        lemma_tokenize_then_rehydrate(m, v, ty);
        if !m.forward.contains_key(v) {
            lemma_token_text_shaped(ty, m.counter(ty) as nat + 1);
        } else {
            assert(m.reverse.contains_key(m.forward[v]));
        }
        assert(tokens_shaped(m1));
        assert(token_shaped(tok));
        lemma_piece_concat(b, 0, pos, s);
        lemma_piece_concat(b, 0, s, e);
        lemma_piece_concat(b, pos, s, len);
        lemma_piece_concat(b, s, e, len);
        assert(parse(piece(b, 0, s)) is Some && free_of(v, '['));
        lemma_parse_split(piece(b, 0, pos), gap);
        lemma_parse_plain(v, m.reverse);
        lemma_parse_concat(piece(b, 0, s), v);
        lemma_parse_split(gap, piece(b, s, len));
        lemma_parse_split(v, rest);
        lemma_parse_concat(v, rest);
        lemma_parse_concat(gap, piece(b, s, len));
        let pg = parse(gap).unwrap();
        let pv = parse(v).unwrap();
        let pr = parse(rest).unwrap();
        let pall = parse(piece(b, pos, len)).unwrap();
        assert(pall == pg + (pv + pr));
        assert(tokens_known(pr, m.reverse)) by {
            assert forall|k: int| 0 <= k < pr.len() && (#[trigger] pr[k]).0 implies m.reverse.contains_key(
                pr[k].1,
            ) && free_of(m.reverse[pr[k].1], '[') by {
                assert(pall[pg.len() + pv.len() + k] == pr[k]);
            }
        }
        assert(tokens_known(pg, m.reverse)) by {
            assert forall|k: int| 0 <= k < pg.len() && (#[trigger] pg[k]).0 implies m.reverse.contains_key(
                pg[k].1,
            ) && free_of(m.reverse[pg[k].1], '[') by {
                assert(pall[k] == pg[k]);
            }
        }
        lemma_resolved_grow(pr, m.reverse, m1.reverse);
        if i + 1 < spans.len() {
            assert(spans[i].1 <= spans[i + 1].0);
        }
        lemma_splice_meaning(text, spans, i + 1, e, ty, m1);
        let (out_rest, m2, _) = splice_from(text, spans, i + 1, e, ty, None, m1).unwrap();
        let out = splice_from(text, spans, i, pos, ty, None, m).unwrap().0;
        assert(out =~= gap + (tok + out_rest));
        lemma_keeps_trans(m, m1, m2);
        lemma_parse_token(tok);
        lemma_parse_concat(tok, out_rest);
        lemma_parse_concat(gap, tok + out_rest);
        let qr = parse(out_rest).unwrap();
        let q = parse(out).unwrap();
        let head = seq![(true, tok)];
        assert(q == pg + (head + qr));
        lemma_resolved_grow(pg, m.reverse, m2.reverse);
        lemma_submap_get(m1.reverse, m2.reverse, tok);
        assert(tokens_known(q, m2.reverse)) by {
            assert forall|k: int| 0 <= k < q.len() && (#[trigger] q[k]).0 implies m2.reverse.contains_key(
                q[k].1,
            ) && free_of(m2.reverse[q[k].1], '[') by {
                if k < pg.len() {
                    assert(q[k] == pg[k]);
                } else if k == pg.len() {
                    assert(q[k] == (true, tok));
                } else {
                    assert(q[k] == qr[k - pg.len() - 1]);
                }
            }
        }
        lemma_resolved_concat(pg, head + qr, m2.reverse);
        lemma_resolved_concat(head, qr, m2.reverse);
        assert(resolved(head, m2.reverse) =~= seq![(false, v)]);
        lemma_flatten_cons((false, v), Seq::empty());
        assert(seq![(false, v)] + Seq::<(bool, Seq<char>)>::empty() =~= seq![(false, v)]);
        assert(v + Seq::<char>::empty() =~= v);
        lemma_resolved_concat(pg, pv + pr, m.reverse);
        lemma_resolved_concat(pv, pr, m.reverse);
        assert(meaning(out, m2.reverse) == flatten(resolved(pg, m.reverse)) + (v + flatten(
            resolved(pr, m.reverse),
        )));
    }
}


/// One pass whose spans lie in plain text keeps what the text stands for.
proof fn lemma_pass_meaning(text: Seq<char>, src: Seq<char>, skip: bool, ty: Seq<char>, m: TokenMapView)
    requires
        m.wf(),
        tokens_shaped(m),
        free_of(ty, '['),
        free_of(ty, ']'),
        parse(text) is Some,
        tokens_known(parse(text).unwrap(), m.reverse),
        respects_tokens(text, find_spans(src, text, 0, skip)),
        pass(text, src, skip, ty, None, m) is Some,
    ensures
        ({
            let (out, m2, _) = pass(text, src, skip, ty, None, m).unwrap();
            &&& parse(out) is Some
            &&& tokens_known(parse(out).unwrap(), m2.reverse)
            &&& meaning(out, m2.reverse) == meaning(text, m.reverse)
            &&& tokens_shaped(m2)
            &&& m2.wf()
        }),
{
    let b = bytes_of(text);
    encode_utf8_valid_utf8(text);
    is_char_boundary_start_end_of_seq(b);
    encode_utf8_decode_utf8(text);
    assert(b.subrange(0, b.len() as int) =~= b);
    lemma_piece_concat(b, 0, 0, b.len() as int);
    assert(piece(b, 0, 0) =~= Seq::<char>::empty());
    assert(parse(piece(b, 0, 0)) is Some);
    lemma_find_spans_valid(src, text, 0, skip);
    lemma_splice_meaning(text, find_spans(src, text, 0, skip), 0, 0, ty, m);
}

/// Whether, from the `i`-th rule on, every pass finds its spans in plain text only,
/// never inside or across a token an earlier pass wrote.
pub open spec fn passes_respect_tokens(rules: Seq<RuleView>, i: int, text: Seq<char>, m: TokenMapView) -> bool
    decreases rules.len() - i,
{
    if i < 0 || i >= rules.len() {
        true
    } else {
        &&& respects_tokens(text, find_spans(rules[i].source, text, 0, rules[i].skip_private_ipv4))
        &&& match pass(text, rules[i].source, rules[i].skip_private_ipv4, rules[i].entity_type, None, m) {
            Some((out, m2, _)) => passes_respect_tokens(rules, i + 1, out, m2),
            None => true,
        }
    }
}

/// Whether no entity type of the rules holds a bracket.
pub open spec fn types_bracket_free(rules: Seq<RuleView>) -> bool {
    forall|k: int|
        0 <= k < rules.len() ==> free_of((#[trigger] rules[k]).entity_type, '[') && free_of(
            rules[k].entity_type,
            ']',
        )
}

/// Rule passes that find their spans in plain text keep what the text stands for.
proof fn lemma_rule_passes_meaning(
    rules: Seq<RuleView>,
    i: int,
    text: Seq<char>,
    m: TokenMapView,
    person: Option<Seq<char>>,
)
    requires
        m.wf(),
        tokens_shaped(m),
        types_bracket_free(rules),
        parse(text) is Some,
        tokens_known(parse(text).unwrap(), m.reverse),
        passes_respect_tokens(rules, i, text, m),
        rule_passes(rules, i, text, m, person) is Some,
    ensures
        ({
            let (t1, m1, _) = rule_passes(rules, i, text, m, person).unwrap();
            &&& parse(t1) is Some
            &&& tokens_known(parse(t1).unwrap(), m1.reverse)
            &&& meaning(t1, m1.reverse) == meaning(text, m.reverse)
            &&& tokens_shaped(m1)
            &&& m1.wf()
        }),
    decreases rules.len() - i,
{
    if 0 <= i < rules.len() {
        let r = rules[i];
        assert(free_of(r.entity_type, '[') && free_of(r.entity_type, ']'));
        lemma_pass_meaning(text, r.source, r.skip_private_ipv4, r.entity_type, m);
        let (out, m2, last) = pass(text, r.source, r.skip_private_ipv4, r.entity_type, None, m).unwrap();
        let next = if r.marks_person && last is Some {
            last
        } else {
            person
        };
        lemma_rule_passes_meaning(rules, i + 1, out, m2, next);
    }
}

/// A pass whose search finds nothing leaves the text and the map as they were.
proof fn lemma_empty_pass(text: Seq<char>, src: Seq<char>, ty: Seq<char>, fixed: Option<Seq<char>>, m: TokenMapView)
    requires
        find_spans(src, text, 0, false).len() == 0,
    ensures
        pass(text, src, false, ty, fixed, m) == Some((text, m, None::<Seq<char>>)),
{
    let b = bytes_of(text);
    encode_utf8_decode_utf8(text);
    assert(b.subrange(0, b.len() as int) =~= b);
}

/// No role reference or pronoun is put in a person's place: either no person was
/// seen, or the searches for role references and pronouns find nothing.
pub open spec fn keeps_roles_and_pronouns(a: AnonymiserView, text: Seq<char>, m: TokenMapView) -> bool {
    match rule_passes(a.rules, 0, text, m, None) {
        Some((t1, _, Some(_))) => find_spans(a.role_refs, t1, 0, false).len() == 0 && find_spans(
            a.pronouns,
            t1,
            0,
            false,
        ).len() == 0,
        _ => true,
    }
}

/// Rehydrating a text whose tokens the map knows gives what the text stands for.
proof fn lemma_rehydration_is_meaning(out: Seq<char>, m: TokenMapView, back: Seq<char>)
    requires
        tokens_shaped(m),
        parse(out) is Some,
        tokens_known(parse(out).unwrap(), m.reverse),
        is_rehydration(m.reverse, out, back),
    ensures
        back == meaning(out, m.reverse),
{
    let q = parse(out).unwrap();
    lemma_parse_flatten(out);
    let e = choose|e: Seq<(Seq<char>, Seq<char>)>| enumerates(e, m.reverse) && back == #[trigger] replaced_in_turn(out, e);
    assert forall|j: int| 0 <= j < e.len() implies token_shaped((#[trigger] e[j]).0) && m.reverse.contains_key(e[j].0) && m.reverse[e[j].0] == e[j].1 by {
        assert(m.reverse.contains_key(e[j].0));
    }
    assert forall|k: int| 0 <= k < q.len() && (#[trigger] q[k]).0 implies exists|j: int| 0 <= j < e.len() && e[j].0 == q[k].1 by {
        assert(m.reverse.contains_key(q[k].1));
    }
    lemma_replaced_in_turn_pieces(q, e, m.reverse);
}

/// What one splice writes, rehydrating reads back: the rehydration of its output,
/// with the map it leaves, is the text it started from, provided the text holds no
/// `[`, the entity type no bracket, and the map only tokens of the shape `[...]`.
pub proof fn lemma_splice_round_trip(
    text: Seq<char>,
    spans: Seq<(usize, usize)>,
    ty: Seq<char>,
    m: TokenMapView,
    back: Seq<char>,
)
    requires
        m.wf(),
        tokens_shaped(m),
        free_of(ty, '['),
        free_of(ty, ']'),
        free_of(text, '['),
        spans_valid(bytes_of(text), spans),
        splice_from(text, spans, 0, 0, ty, None, m) is Some,
        is_rehydration(
            splice_from(text, spans, 0, 0, ty, None, m).unwrap().1.reverse,
            splice_from(text, spans, 0, 0, ty, None, m).unwrap().0,
            back,
        ),
    ensures
        back == text,
{
    let b = bytes_of(text);
    let len = b.len() as int;
    encode_utf8_valid_utf8(text);
    is_char_boundary_start_end_of_seq(b);
    encode_utf8_decode_utf8(text);
    assert(b.subrange(0, len) =~= b);
    assert forall|i: int| 0 <= i < spans.len() implies parse(piece(b, 0, (#[trigger] spans[i]).0 as int)) is Some
        && free_of(piece(b, spans[i].0 as int, spans[i].1 as int), '[') by {
        let s = spans[i].0 as int;
        let e = spans[i].1 as int;
        lemma_piece_concat(b, 0, s, len);
        lemma_piece_concat(b, s, e, len);
        let pre = piece(b, 0, s);
        let v = piece(b, s, e);
        assert forall|k: int| 0 <= k < pre.len() implies pre[k] != '[' by {
            assert(text[k] == pre[k]);
        }
        assert forall|k: int| 0 <= k < v.len() implies v[k] != '[' by {
            assert(piece(b, s, len)[k] == v[k]);
            assert(text[pre.len() + k] == piece(b, s, len)[k]);
        }
        lemma_parse_plain(pre, m.reverse);
    }
    lemma_piece_concat(b, 0, 0, len);
    assert(piece(b, 0, 0) =~= Seq::<char>::empty());
    assert(parse(piece(b, 0, 0)) is Some);
    lemma_parse_plain(text, m.reverse);
    lemma_splice_meaning(text, spans, 0, 0, ty, m);
    let (out, m2, _) = splice_from(text, spans, 0, 0, ty, None, m).unwrap();
    lemma_rehydration_is_meaning(out, m2, back);
}

/// What the anonymiser writes, rehydrating reads back: the rehydration of its output,
/// with the map it leaves, is the text it was given. This holds where the text holds
/// no `[`, the map only tokens of the shape `[...]`, the entity types no bracket,
/// every pass finds its matches in plain text rather than inside or across a token
/// written before, and no role reference or pronoun is put in a person's place (a
/// person's token reads back as the person, not as the words it replaced).
pub proof fn lemma_anonymise_round_trip(a: AnonymiserView, text: Seq<char>, m: TokenMapView, back: Seq<char>)
    requires
        m.wf(),
        tokens_shaped(m),
        types_bracket_free(a.rules),
        free_of(text, '['),
        passes_respect_tokens(a.rules, 0, text, m),
        keeps_roles_and_pronouns(a, text, m),
        anonymised(a, text, m) is Some,
        is_rehydration(anonymised(a, text, m).unwrap().1.reverse, anonymised(a, text, m).unwrap().0, back),
    ensures
        back == text,
{
    lemma_parse_plain(text, m.reverse);
    lemma_rule_passes_meaning(a.rules, 0, text, m, None);
    let (t1, m1, person) = rule_passes(a.rules, 0, text, m, None).unwrap();
    match person {
        Some(p) => {
            lemma_empty_pass(t1, a.role_refs, crate::anonymise::ROLE_REF@, Some(p), m1);
            lemma_empty_pass(t1, a.pronouns, crate::anonymise::PRONOUN@, Some(p), m1);
        },
        None => {},
    }
    let (out, m2) = anonymised(a, text, m).unwrap();
    assert(out == t1 && m2 == m1);
    lemma_rehydration_is_meaning(out, m2, back);
}

/// The standard rules name their entity types without brackets.
pub proof fn lemma_standard_types_bracket_free()
    ensures
        types_bracket_free(crate::anonymise::standard_rules()),
{
    reveal_strlit("SECRET");
    reveal_strlit("EMAIL");
    reveal_strlit("IP");
    reveal_strlit("PHONE");
    reveal_strlit("URL");
    reveal_strlit("AMOUNT");
    reveal_strlit("UUID");
    reveal_strlit("POSTCODE");
    reveal_strlit("DATE");
    reveal_strlit("ORG");
    reveal_strlit("PERSON");
    let rules = crate::anonymise::standard_rules();
    assert forall|k: int| 0 <= k < rules.len() implies free_of((#[trigger] rules[k]).entity_type, '[')
        && free_of(rules[k].entity_type, ']') by {
        let t = rules[k].entity_type;
        assert forall|i: int| 0 <= i < t.len() implies t[i] != '[' && t[i] != ']' by {
            assert('A' <= t[i] <= 'Z');
        }
    }
}


/// What `tokenize` wrote, rehydrating reads back in any text: a token between plain
/// text is replaced by its real value and the rest is left as it is, provided the
/// text around it and the value hold no `[` and the map only tokens of the shape
/// `[...]`.
pub proof fn lemma_rehydrate_between(m: TokenMapView, p: Seq<char>, x: Seq<char>, s: Seq<char>, out: Seq<char>)
    requires
        m.wf(),
        tokens_shaped(m),
        m.forward.contains_key(x),
        free_of(p, '['),
        free_of(x, '['),
        free_of(s, '['),
        is_rehydration(m.reverse, p + m.forward[x] + s, out),
    ensures
        out == p + x + s,
{
    let tok = m.forward[x];
    let r = m.reverse;
    assert(r.contains_key(tok) && r[tok] == x);
    assert(token_shaped(tok));
    lemma_parse_plain(p, r);
    lemma_parse_plain(s, r);
    lemma_parse_token(tok);
    lemma_parse_concat(p, tok);
    lemma_parse_concat(p + tok, s);
    let pp = parse(p).unwrap();
    let ps = parse(s).unwrap();
    let head = seq![(true, tok)];
    let q = parse(p + tok + s).unwrap();
    assert(q == pp + head + ps);
    assert(tokens_known(q, r)) by {
        assert forall|k: int| 0 <= k < q.len() && (#[trigger] q[k]).0 implies r.contains_key(q[k].1) && free_of(r[q[k].1], '[') by {
            if k < pp.len() {
                assert(q[k] == pp[k]);
            } else if k == pp.len() {
                assert(q[k] == (true, tok));
            } else {
                assert(q[k] == ps[k - pp.len() - 1]);
            }
        }
    }
    lemma_rehydration_is_meaning(p + tok + s, m, out);
    lemma_resolved_concat(pp + head, ps, r);
    lemma_resolved_concat(pp, head, r);
    assert(resolved(head, r) =~= seq![(false, x)]);
    lemma_flatten_cons((false, x), Seq::empty());
    assert(seq![(false, x)] + Seq::<(bool, Seq<char>)>::empty() =~= seq![(false, x)]);
    assert(x + Seq::<char>::empty() =~= x);
}

} // verus!
