//! Compiled regular expressions and the search the anonymiser runs with them.
use vstd::prelude::*;
use vstd::string::StringSliceAdditionalSpecFns;
use vstd::utf8::{encode_utf8, is_char_boundary};
use regex::Regex;
use crate::text::owned;

verus! {

#[verifier::external_type_specification]
#[verifier::external_body]
pub struct ExRegex(Regex);

/// Whether `regex::Regex::new` accepts `pattern`.
pub uninterp spec fn regex_compiles(pattern: Seq<char>) -> bool;

/// What `Regex::find_at` returns, as byte offsets, for the regex compiled from
/// `pattern`, searching `haystack` from byte `start`.
pub uninterp spec fn regex_find_at(pattern: Seq<char>, haystack: Seq<char>, start: int) -> Option<
    (usize, usize),
>;

/// A regular expression together with the pattern it was compiled from.
/// The fields are private to this module, and `compile` is the only place that
/// builds a value: the regex is always the compiled `source`.
pub struct CompiledPattern {
    regex: Regex,
    source: String,
}

impl View for CompiledPattern {
    type V = Seq<char>;

    closed spec fn view(&self) -> Seq<char> {
        self.source@
    }
}

/// `regex::Regex::new`: compiles `source`; `None` where the crate refuses it.
#[verifier::external_body]
pub(crate) fn compile(source: &str) -> (res: Option<CompiledPattern>)
    ensures
        res is Some <==> regex_compiles(source@),
        res matches Some(p) ==> p@ == source@,
{
    match Regex::new(source) {
        Ok(regex) => Some(CompiledPattern { regex, source: source.to_string() }),
        Err(_) => None,
    }
}

/// `Regex::find_at`: the leftmost-first match at or after byte `start`, as the byte
/// offsets of its start and end. The regex crate documents that both offsets lie on
/// character boundaries and that `start <= end`; the search only looks at or after
/// `start`.
#[verifier::external_body]
pub(crate) fn find_at(pattern: &CompiledPattern, haystack: &str, start: usize) -> (res: Option<
    (usize, usize),
>)
    requires
        start <= haystack.spec_bytes().len(),
    ensures
        res == regex_find_at(pattern@, haystack@, start as int),
        res matches Some((s, e)) ==> start <= s <= e <= haystack.spec_bytes().len()
            && is_char_boundary(haystack.spec_bytes(), s as int) && is_char_boundary(
            haystack.spec_bytes(),
            e as int,
        ),
{
    match pattern.regex.find_at(haystack, start) {
        Some(m) => Some((m.start(), m.end())),
        None => None,
    }
}

/// The UTF-8 encoding of `t`.
pub open spec fn bytes_of(t: Seq<char>) -> Seq<u8> {
    encode_utf8(t)
}

/// Whether the bytes of `b` at `s` spell `c`.
pub open spec fn byte_is(b: Seq<u8>, s: int, c: u8) -> bool {
    0 <= s < b.len() && b[s] == c
}

/// Whether the bytes at `s` start a private IPv4 address: `127.`, `10.`,
/// `192.168.`, or `172.16.` to `172.31.`.
pub open spec fn private_ipv4_at(b: Seq<u8>, s: int) -> bool {
    ||| byte_is(b, s, 0x31) && byte_is(b, s + 1, 0x32) && byte_is(b, s + 2, 0x37) && byte_is(
        b,
        s + 3,
        0x2e,
    )
    ||| byte_is(b, s, 0x31) && byte_is(b, s + 1, 0x30) && byte_is(b, s + 2, 0x2e)
    ||| byte_is(b, s, 0x31) && byte_is(b, s + 1, 0x39) && byte_is(b, s + 2, 0x32) && byte_is(
        b,
        s + 3,
        0x2e,
    ) && byte_is(b, s + 4, 0x31) && byte_is(b, s + 5, 0x36) && byte_is(b, s + 6, 0x38) && byte_is(
        b,
        s + 7,
        0x2e,
    )
    ||| byte_is(b, s, 0x31) && byte_is(b, s + 1, 0x37) && byte_is(b, s + 2, 0x32) && byte_is(
        b,
        s + 3,
        0x2e,
    ) && byte_is(b, s + 6, 0x2e) && ((byte_is(b, s + 4, 0x31) && 0 <= s + 5 < b.len() && 0x36
        <= b[s + 5] <= 0x39) || (byte_is(b, s + 4, 0x32) && 0 <= s + 5 < b.len() && 0x30 <= b[s
        + 5] <= 0x39) || (byte_is(b, s + 4, 0x33) && (byte_is(b, s + 5, 0x30) || byte_is(
        b,
        s + 5,
        0x31,
    ))))
}

/// Whether the byte at `s + k` of `b` is `c`.
fn byte_is_exec(b: &[u8], s: usize, k: usize, c: u8) -> (res: bool)
    ensures
        res == byte_is(b@, s + k, c),
{
    if s >= b.len() || k >= b.len() - s {
        false
    } else {
        b[s + k] == c
    }
}

/// Whether the byte at `s + k` of `b` lies between `lo` and `hi`.
fn byte_in_exec(b: &[u8], s: usize, k: usize, lo: u8, hi: u8) -> (res: bool)
    ensures
        res == (0 <= s + k < b@.len() && lo <= b@[s + k] <= hi),
{
    if s >= b.len() || k >= b.len() - s {
        false
    } else {
        lo <= b[s + k] && b[s + k] <= hi
    }
}

/// Whether the bytes at `s` start a private IPv4 address.
pub fn private_ipv4_at_exec(b: &[u8], s: usize) -> (res: bool)
    ensures
        res == private_ipv4_at(b@, s as int),
{
    let one = byte_is_exec(b, s, 0, 0x31);
    let loopback = one && byte_is_exec(b, s, 1, 0x32) && byte_is_exec(b, s, 2, 0x37)
        && byte_is_exec(b, s, 3, 0x2e);
    let ten = one && byte_is_exec(b, s, 1, 0x30) && byte_is_exec(b, s, 2, 0x2e);
    let c192 = one && byte_is_exec(b, s, 1, 0x39) && byte_is_exec(b, s, 2, 0x32)
        && byte_is_exec(b, s, 3, 0x2e) && byte_is_exec(b, s, 4, 0x31) && byte_is_exec(b, s, 5, 0x36)
        && byte_is_exec(b, s, 6, 0x38) && byte_is_exec(b, s, 7, 0x2e);
    let second = (byte_is_exec(b, s, 4, 0x31) && byte_in_exec(b, s, 5, 0x36, 0x39)) || (
    byte_is_exec(b, s, 4, 0x32) && byte_in_exec(b, s, 5, 0x30, 0x39)) || (byte_is_exec(b, s, 4, 0x33)
        && (byte_is_exec(b, s, 5, 0x30) || byte_is_exec(b, s, 5, 0x31)));
    let c172 = one && byte_is_exec(b, s, 1, 0x37) && byte_is_exec(b, s, 2, 0x32)
        && byte_is_exec(b, s, 3, 0x2e) && byte_is_exec(b, s, 6, 0x2e) && second;
    loopback || ten || c192 || c172
}

/// The spans of `text` (byte offsets) that the search replaces: successive
/// non-overlapping matches, each search starting where the previous match ended.
/// With `skip_private`, a match that starts a private IPv4 address is passed over and
/// the search resumes one byte later, as a negative look-ahead at the start would.
/// An empty match ends the search, and so would a match off the character
/// boundaries of the text, which the regex crate never returns.
pub open spec fn find_spans(src: Seq<char>, text: Seq<char>, start: int, skip_private: bool) -> Seq<
    (usize, usize),
>
    decreases bytes_of(text).len() - start,
{
    if !(0 <= start <= bytes_of(text).len()) {
        seq![]
    } else {
    match regex_find_at(src, text, start) {
        None => seq![],
        Some((s, e)) => {
            if !(start <= s && s < e && e <= bytes_of(text).len() && is_char_boundary(
                bytes_of(text),
                s as int,
            ) && is_char_boundary(bytes_of(text), e as int)) {
                seq![]
            } else if skip_private && private_ipv4_at(bytes_of(text), s as int) {
                find_spans(src, text, s + 1, skip_private)
            } else {
                seq![(s, e)] + find_spans(src, text, e as int, skip_private)
            }
        },
    }
    }
}

/// Spans in increasing order that do not overlap, each non-empty, inside `b`, and
/// starting and ending on character boundaries.
pub open spec fn spans_valid(b: Seq<u8>, spans: Seq<(usize, usize)>) -> bool {
    &&& forall|i: int|
        0 <= i < spans.len() ==> (#[trigger] spans[i]).0 < spans[i].1 <= b.len() && is_char_boundary(
            b,
            spans[i].0 as int,
        ) && is_char_boundary(b, spans[i].1 as int)
    &&& forall|i: int, j: int|
        0 <= i < j < spans.len() ==> (#[trigger] spans[i]).1 <= (#[trigger] spans[j]).0
}

/// The spans the search finds are valid, and none starts before `start`.
pub proof fn lemma_find_spans_valid(src: Seq<char>, text: Seq<char>, start: int, skip_private: bool)
    ensures
        spans_valid(bytes_of(text), find_spans(src, text, start, skip_private)),
        forall|i: int|
            0 <= i < find_spans(src, text, start, skip_private).len() ==> start <= (
            #[trigger] find_spans(src, text, start, skip_private)[i]).0,
    decreases bytes_of(text).len() - start,
{
    let b = bytes_of(text);
    let spans = find_spans(src, text, start, skip_private);
    if 0 <= start <= b.len() {
        match regex_find_at(src, text, start) {
            None => {},
            Some((s, e)) => {
                if start <= s && s < e && e <= b.len() && is_char_boundary(b, s as int)
                    && is_char_boundary(b, e as int) {
                    if skip_private && private_ipv4_at(b, s as int) {
                        lemma_find_spans_valid(src, text, s + 1, skip_private);
                    } else {
                        let rest = find_spans(src, text, e as int, skip_private);
                        lemma_find_spans_valid(src, text, e as int, skip_private);
                        assert(spans == seq![(s, e)] + rest);
                        assert forall|i: int, j: int| 0 <= i < j < spans.len() implies (
                        #[trigger] spans[i]).1 <= (#[trigger] spans[j]).0 by {
                            if i == 0 {
                                assert(spans[j] == rest[j - 1]);
                            } else {
                                assert(spans[i] == rest[i - 1]);
                                assert(spans[j] == rest[j - 1]);
                            }
                        }
                        assert forall|i: int| 0 <= i < spans.len() implies (#[trigger] spans[i]).0
                            < spans[i].1 <= b.len() && is_char_boundary(b, spans[i].0 as int)
                            && is_char_boundary(b, spans[i].1 as int) && start <= spans[i].0 by {
                            if i > 0 {
                                assert(spans[i] == rest[i - 1]);
                            }
                        }
                    }
                }
            },
        }
    }
}

/// The bytes of `172.` followed by the two decimal digits of `x` and a `.`.
pub open spec fn dotted_172(x: int) -> Seq<u8> {
    seq![0x31u8, 0x37u8, 0x32u8, 0x2eu8, (0x30 + x / 10) as u8, (0x30 + x % 10) as u8, 0x2eu8]
}

/// The private range 172.16.0.0/12 is recognised, and only it among `172.x.` with a
/// two-digit `x`: an address starting `172.x.` is private exactly when `x` is 16 to 31.
pub proof fn lemma_private_172(b: Seq<u8>, s: int, x: int)
    requires
        10 <= x <= 99,
        0 <= s,
        s + 7 <= b.len(),
        b.subrange(s, s + 7) == dotted_172(x),
    ensures
        private_ipv4_at(b, s) <==> 16 <= x <= 31,
{
    let d = dotted_172(x);
    assert(b[s] == d[0] && b[s + 1] == d[1] && b[s + 2] == d[2] && b[s + 3] == d[3]);
    assert(b[s + 4] == d[4] && b[s + 5] == d[5] && b[s + 6] == d[6]);
    assert(1 <= x / 10 <= 9 && 0 <= x % 10 <= 9 && x == 10 * (x / 10) + x % 10);
}

/// The other private ranges are recognised: an address starting `127.`, `10.` or
/// `192.168.` is private.
pub proof fn lemma_private_others(b: Seq<u8>, s: int)
    requires
        0 <= s,
    ensures
        s + 4 <= b.len() && b.subrange(s, s + 4) == seq![0x31u8, 0x32u8, 0x37u8, 0x2eu8] ==> private_ipv4_at(b, s),
        s + 3 <= b.len() && b.subrange(s, s + 3) == seq![0x31u8, 0x30u8, 0x2eu8] ==> private_ipv4_at(b, s),
        s + 8 <= b.len() && b.subrange(s, s + 8) == seq![0x31u8, 0x39u8, 0x32u8, 0x2eu8, 0x31u8, 0x36u8, 0x38u8, 0x2eu8]
            ==> private_ipv4_at(b, s),
{
    if s + 4 <= b.len() && b.subrange(s, s + 4) == seq![0x31u8, 0x32u8, 0x37u8, 0x2eu8] {
        assert(b[s] == b.subrange(s, s + 4)[0] && b[s + 1] == b.subrange(s, s + 4)[1]);
        assert(b[s + 2] == b.subrange(s, s + 4)[2] && b[s + 3] == b.subrange(s, s + 4)[3]);
    }
    if s + 3 <= b.len() && b.subrange(s, s + 3) == seq![0x31u8, 0x30u8, 0x2eu8] {
        assert(b[s] == b.subrange(s, s + 3)[0] && b[s + 1] == b.subrange(s, s + 3)[1]);
        assert(b[s + 2] == b.subrange(s, s + 3)[2]);
    }
    if s + 8 <= b.len() && b.subrange(s, s + 8) == seq![0x31u8, 0x39u8, 0x32u8, 0x2eu8, 0x31u8, 0x36u8, 0x38u8, 0x2eu8] {
        let t = b.subrange(s, s + 8);
        assert(b[s] == t[0] && b[s + 1] == t[1] && b[s + 2] == t[2] && b[s + 3] == t[3]);
        assert(b[s + 4] == t[4] && b[s + 5] == t[5] && b[s + 6] == t[6] && b[s + 7] == t[7]);
    }
}

/// A search that passes over private addresses never returns a span that starts one:
/// no private IPv4 address is ever replaced by an IP token.
pub proof fn lemma_find_spans_skip_private(src: Seq<char>, text: Seq<char>, start: int)
    ensures
        forall|i: int|
            0 <= i < find_spans(src, text, start, true).len() ==> !private_ipv4_at(
                bytes_of(text),
                (#[trigger] find_spans(src, text, start, true)[i]).0 as int,
            ),
    decreases bytes_of(text).len() - start,
{
    let b = bytes_of(text);
    let spans = find_spans(src, text, start, true);
    if 0 <= start <= b.len() {
        match regex_find_at(src, text, start) {
            None => {},
            Some((s, e)) => {
                if start <= s && s < e && e <= b.len() && is_char_boundary(b, s as int)
                    && is_char_boundary(b, e as int) {
                    if private_ipv4_at(b, s as int) {
                        lemma_find_spans_skip_private(src, text, s + 1);
                        assert(spans == find_spans(src, text, s + 1, true));
                    } else {
                        let rest = find_spans(src, text, e as int, true);
                        lemma_find_spans_skip_private(src, text, e as int);
                        assert(spans == seq![(s, e)] + rest);
                        assert forall|i: int| 0 <= i < spans.len() implies !private_ipv4_at(b, (#[trigger] spans[i]).0 as int) by {
                            if i > 0 {
                                assert(spans[i] == rest[i - 1]);
                            }
                        }
                    }
                }
            },
        }
    }
}

/// Runs the search over the whole of `text`.
pub fn collect_spans(pattern: &CompiledPattern, text: &str, skip_private: bool) -> (res: Vec<
    (usize, usize),
>)
    ensures
        res@ == find_spans(pattern@, text@, 0, skip_private),
        spans_valid(bytes_of(text@), res@),
{
    let b = text.as_bytes();
    let len = b.len();
    let mut out: Vec<(usize, usize)> = Vec::new();
    let mut pos: usize = 0;
    let mut done = false;
    assert(out@ + find_spans(pattern@, text@, 0, skip_private) =~= find_spans(
        pattern@,
        text@,
        0,
        skip_private,
    ));
    while !done
        invariant
            b@ == bytes_of(text@),
            len == b@.len(),
            pos <= len,
            done ==> find_spans(pattern@, text@, pos as int, skip_private) == Seq::<
                (usize, usize),
            >::empty(),
            find_spans(pattern@, text@, 0, skip_private) == out@ + find_spans(
                pattern@,
                text@,
                pos as int,
                skip_private,
            ),
            spans_valid(b@, out@),
            forall|i: int| 0 <= i < out@.len() ==> (#[trigger] out@[i]).1 <= pos,
        decreases len - pos + (if done {
            0int
        } else {
            1int
        }),
    {
        match find_at(pattern, text, pos) {
            None => {
                done = true;
            },
            Some((s, e)) => {
                if s >= e {
                    done = true;
                } else if skip_private && private_ipv4_at_exec(b, s) {
                    pos = s + 1;
                } else {
                    let ghost old_out = out@;
                    out.push((s, e));
                    assert(old_out + (seq![(s, e)] + find_spans(pattern@, text@, e as int, skip_private))
                        =~= out@ + find_spans(pattern@, text@, e as int, skip_private));
                    assert forall|i: int, j: int| 0 <= i < j < out@.len() implies (#[trigger] out@[i]).1
                        <= (#[trigger] out@[j]).0 by {
                        if j == out@.len() - 1 {
                            assert(out@[i] == old_out[i]);
                        } else {
                            assert(out@[i] == old_out[i]);
                            assert(out@[j] == old_out[j]);
                        }
                    }
                    assert forall|i: int| 0 <= i < out@.len() implies #[trigger] out@[i].0 < out@[i].1
                        <= b@.len() && is_char_boundary(b@, out@[i].0 as int) && is_char_boundary(
                        b@,
                        out@[i].1 as int,
                    ) by {
                        if i < old_out.len() {
                            assert(out@[i] == old_out[i]);
                        }
                    }
                    pos = e;
                }
            },
        }
    }
    assert(out@ + Seq::<(usize, usize)>::empty() =~= out@);
    out
}

} // verus!
