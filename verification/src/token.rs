//! The shape of a token: `[TYPE_XXXX]`, the entity type and the type's running
//! count in upper-case hexadecimal, at least four digits wide.
use vstd::prelude::*;
use crate::text::{push_char, push_str};

verus! {

/// The upper-case hexadecimal digit for `d` (below 16).
pub open spec fn hex_digit(d: int) -> char {
    if d < 10 {
        (48 + d) as char
    } else {
        (55 + d) as char
    }
}

/// Whether `c` is an upper-case hexadecimal digit.
pub open spec fn is_hex_digit(c: char) -> bool {
    ('0' <= c && c <= '9') || ('A' <= c && c <= 'F')
}

/// The value of the upper-case hexadecimal digit `c`.
pub open spec fn digit_value(c: char) -> int {
    if c <= '9' {
        c as int - 48
    } else {
        c as int - 55
    }
}

/// The hexadecimal digits of `n`, most significant first, without leading zeros.
pub open spec fn hex_digits(n: nat) -> Seq<char>
    decreases n,
{
    if n < 16 {
        seq![hex_digit(n as int)]
    } else {
        hex_digits(n / 16).push(hex_digit((n % 16) as int))
    }
}

/// `k` zero digits.
pub open spec fn zeros(k: nat) -> Seq<char> {
    Seq::new(k, |i: int| '0')
}

/// The hexadecimal digits of `n`, left-padded with zeros to at least four digits.
pub open spec fn hex4(n: nat) -> Seq<char> {
    let d = hex_digits(n);
    if d.len() >= 4 {
        d
    } else {
        zeros((4 - d.len()) as nat) + d
    }
}

/// The token of the `n`-th value of type `ty`: `[` ty `_` hex4(n) `]`.
pub open spec fn token_text(ty: Seq<char>, n: nat) -> Seq<char> {
    seq!['['] + ty + seq!['_'] + hex4(n) + seq![']']
}

/// The number written by a sequence of hexadecimal digits.
pub open spec fn hex_value(s: Seq<char>) -> int
    decreases s.len(),
{
    if s.len() == 0 {
        0
    } else {
        hex_value(s.drop_last()) * 16 + digit_value(s.last())
    }
}

proof fn lemma_hex_digit(d: int)
    requires
        0 <= d < 16,
    ensures
        is_hex_digit(hex_digit(d)),
        digit_value(hex_digit(d)) == d,
        hex_digit(d) != '_',
        hex_digit(d) != '[',
        hex_digit(d) != ']',
{
}

proof fn lemma_hex_digits(n: nat)
    ensures
        hex_value(hex_digits(n)) == n,
        hex_digits(n).len() >= 1,
        forall|i: int| 0 <= i < hex_digits(n).len() ==> is_hex_digit(#[trigger] hex_digits(n)[i]),
    decreases n,
{
    if n < 16 {
        lemma_hex_digit(n as int);
        let s = hex_digits(n);
        assert(s.drop_last() =~= Seq::<char>::empty());
        assert(hex_value(s.drop_last()) == 0);
        assert(s.last() == hex_digit(n as int));
    } else {
        lemma_hex_digits(n / 16);
        lemma_hex_digit((n % 16) as int);
        let s = hex_digits(n);
        assert(s.drop_last() =~= hex_digits(n / 16));
        assert(s.last() == hex_digit((n % 16) as int));
        assert(hex_value(s) == hex_value(hex_digits(n / 16)) * 16 + (n % 16));
        assert((n / 16) * 16 + n % 16 == n);
    }
}

proof fn lemma_zeros_value(k: nat)
    ensures
        hex_value(zeros(k)) == 0,
    decreases k,
{
    if k > 0 {
        assert(zeros(k).drop_last() =~= zeros((k - 1) as nat));
        lemma_zeros_value((k - 1) as nat);
    }
}

proof fn lemma_padded_value(k: nat, s: Seq<char>)
    ensures
        hex_value(zeros(k) + s) == hex_value(s),
    decreases s.len(),
{
    if s.len() == 0 {
        assert(zeros(k) + s =~= zeros(k));
        lemma_zeros_value(k);
    } else {
        assert((zeros(k) + s).drop_last() =~= zeros(k) + s.drop_last());
        lemma_padded_value(k, s.drop_last());
    }
}

/// What the rest of the library uses of the digit string: it is made of hex digits,
/// and it determines the count.
pub proof fn lemma_hex4(n: nat)
    ensures
        hex_value(hex4(n)) == n,
        hex4(n).len() >= 4,
        forall|i: int| 0 <= i < hex4(n).len() ==> is_hex_digit(#[trigger] hex4(n)[i]),
{
    lemma_hex_digits(n);
    let d = hex_digits(n);
    if d.len() < 4 {
        let k = (4 - d.len()) as nat;
        lemma_padded_value(k, d);
        assert forall|i: int| 0 <= i < hex4(n).len() implies is_hex_digit(#[trigger] hex4(n)[i]) by {
            if i < k {
                assert(hex4(n)[i] == '0');
            } else {
                assert(hex4(n)[i] == d[i - k]);
            }
        }
    }
}

/// Two tokens are equal only when they name the same type and the same count.
pub proof fn lemma_token_text_injective(t1: Seq<char>, n1: nat, t2: Seq<char>, n2: nat)
    requires
        token_text(t1, n1) == token_text(t2, n2),
    ensures
        t1 == t2,
        n1 == n2,
{
    let h1 = hex4(n1);
    let h2 = hex4(n2);
    let s = token_text(t1, n1);
    lemma_hex4(n1);
    lemma_hex4(n2);
    let len = s.len() as int;
    assert(s.len() == t1.len() + h1.len() + 3);
    assert(token_text(t2, n2).len() == t2.len() + h2.len() + 3);
    if h1.len() < h2.len() {
        let k = len - 2 - h1.len();
        assert(s[k] == '_');
        let j = k - (len - 1 - h2.len());
        assert(token_text(t2, n2)[k] == h2[j]);
        assert(is_hex_digit(h2[j]));
    } else if h2.len() < h1.len() {
        let k = len - 2 - h2.len();
        assert(token_text(t2, n2)[k] == '_');
        let j = k - (len - 1 - h1.len());
        assert(s[k] == h1[j]);
        assert(is_hex_digit(h1[j]));
    } else {
        assert(t1 =~= s.subrange(1, 1 + t1.len() as int));
        assert(t2 =~= token_text(t2, n2).subrange(1, 1 + t2.len() as int));
        assert(h1 =~= s.subrange(len - 1 - h1.len(), len - 1));
        assert(h2 =~= token_text(t2, n2).subrange(len - 1 - h2.len(), len - 1));
    }
}

/// The character for the hexadecimal digit `d`.
fn hex_char(d: u32) -> (c: char)
    requires
        d < 16,
    ensures
        c == hex_digit(d as int),
{
    if d < 10 {
        ((48 + d) as u8) as char
    } else {
        ((55 + d) as u8) as char
    }
}

/// Writes the token of the `n`-th value of type `ty`.
pub fn format_token(ty: &str, n: u32) -> (res: String)
    ensures
        res@ == token_text(ty@, n as nat),
{
    // Digits, least significant first.
    let mut rev: Vec<char> = Vec::new();
    let mut m: u32 = n;
    while m >= 16
        invariant
            hex_digits(n as nat) == hex_digits(m as nat) + rev@.reverse(),
        decreases m,
    {
        let ghost old_rev = rev@;
        rev.push(hex_char(m % 16));
        assert(hex_digits(m as nat) == hex_digits((m / 16) as nat).push(hex_digit((m % 16) as int)));
        assert(rev@.reverse() =~= seq![hex_digit((m % 16) as int)] + old_rev.reverse());
        assert(hex_digits(m as nat) + old_rev.reverse() =~= hex_digits((m / 16) as nat)
            + rev@.reverse());
        m = m / 16;
    }
    let ghost old_rev = rev@;
    rev.push(hex_char(m));
    assert(rev@.reverse() =~= seq![hex_digit(m as int)] + old_rev.reverse());
    assert(hex_digits(n as nat) =~= rev@.reverse());
    let mut res = String::new();
    push_char(&mut res, '[');
    push_str(&mut res, ty);
    push_char(&mut res, '_');
    let ghost prefix = res@;
    let mut pad: usize = rev.len();
    while pad < 4
        invariant
            rev@.len() <= pad <= 4 || (rev@.len() >= 4 && pad == rev@.len()),
            res@ == prefix + zeros((pad - rev@.len()) as nat),
        decreases 4 - pad,
    {
        push_char(&mut res, '0');
        assert(prefix + zeros((pad + 1 - rev@.len()) as nat) =~= (prefix + zeros(
            (pad - rev@.len()) as nat,
        )).push('0'));
        pad = pad + 1;
    }
    let ghost padded = res@;
    let mut i: usize = rev.len();
    while i > 0
        invariant
            i <= rev@.len(),
            res@ == padded + rev@.reverse().take(rev@.len() - i),
        decreases i,
    {
        i = i - 1;
        push_char(&mut res, rev[i]);
        assert(padded + rev@.reverse().take(rev@.len() - i) =~= (padded + rev@.reverse().take(
            rev@.len() - (i + 1),
        )).push(rev@[i as int]));
    }
    assert(rev@.reverse().take(rev@.len() as int) =~= rev@.reverse());
    push_char(&mut res, ']');
    proof {
        let d = hex_digits(n as nat);
        if d.len() < 4 {
            assert(res@ =~= token_text(ty@, n as nat));
        } else {
            assert(zeros(0) =~= Seq::<char>::empty());
            assert(res@ =~= token_text(ty@, n as nat));
        }
    }
    res
}

} // verus!
